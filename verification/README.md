# collage_maker

A command-line tool that arranges images into one collage (A4 portrait at
150 DPI by default), never cropping an image, only scaling it.

The decisions are a verified library (`src/`, checked by Verus):

- `partition`, `rows`: the row split. For each row count from 1 to
  `min(n, 20)` a dynamic programme splits the images into contiguous rows so
  that the largest summed aspect ratio of a row is as small as possible; the
  split with the best score is chosen. Costs and scores are order keys (the
  bit patterns of non-negative doubles, which order them as `<` does).
  Proved: the table follows its recurrence exactly, the split read back from
  it is optimal over all splits, and every image lands in exactly one row, in
  order.
- `path`, `order`, `collect`, `output`: file names and extensions of paths
  (Unix rules, `/`-separated), the component-wise order of paths, which paths
  are images, the gathered input list (sorted in path order, duplicates
  kept), and the output format.
- `effects`: which pixels the rounded corners and the noisy border touch, and
  how their alphas combine.
- `layout`: placements on the canvas.

The program around it (`app/`) reads the inputs, probes image sizes, does the
floating-point geometry (row heights, scaling, rounding, anti-aliasing),
renders with the `image` crate and saves JPEG, PNG or PDF.
