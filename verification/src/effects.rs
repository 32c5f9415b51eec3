//! The integer side of the image edge effects: rounded corners and a noisy,
//! tapered border, combined into one alpha value per pixel.
use vstd::prelude::*;

verus! {

/// Parameters forwarded from the command line to the rendering step.
#[derive(Debug, PartialEq, Eq, Structural, Clone, Copy)]
pub struct EffectOptions {
    /// Corner arc radius in pixels; 0 disables rounding.
    pub corner_radius: u32,
    /// Border roughness; 0 disables the noisy border.
    pub border_noise: u8,
}

impl EffectOptions {
    /// Options with every effect disabled.
    pub fn none() -> (r: Self)
        ensures
            r.corner_radius == 0,
            r.border_noise == 0,
    {
        EffectOptions { corner_radius: 0, border_noise: 0 }
    }

    /// Whether any effect is enabled.
    pub fn active(&self) -> (r: bool)
        ensures
            r == (self.corner_radius > 0 || self.border_noise > 0),
    {
        self.corner_radius > 0 || self.border_noise > 0
    }
}

/// The smaller of two integers.
pub open spec fn min_u(a: int, b: int) -> int {
    if a <= b {
        a
    } else {
        b
    }
}

/// `v` limited to half the width and half the height (both rounded down).
pub fn clamp_to_half(v: u32, w: u32, h: u32) -> (r: u32)
    ensures
        r == min_u(min_u(v as int, w as int / 2), h as int / 2),
{
    let a = if v < w / 2 {
        v
    } else {
        w / 2
    };
    if a < h / 2 {
        a
    } else {
        h / 2
    }
}

/// The corner radius and the noise band width actually used on a `w` by `h`
/// image: each limited to half the width and half the height.
pub fn mask_limits(radius: u32, noise_amp: u8, w: u32, h: u32) -> (r: (u32, u32))
    ensures
        r.0 == min_u(min_u(radius as int, w as int / 2), h as int / 2),
        r.1 == min_u(min_u(noise_amp as int, w as int / 2), h as int / 2),
{
    (clamp_to_half(radius, w, h), clamp_to_half(noise_amp as u32, w, h))
}

/// Distance of the pixel to the nearest image edge, in whole pixels.
pub open spec fn edge_distance_spec(px: int, py: int, w: int, h: int) -> int {
    min_u(min_u(min_u(px, w - 1 - px), py), h - 1 - py)
}

/// Distance in pixels from `(px, py)` to the nearest edge of a `w` by `h` image.
pub fn edge_distance(px: u32, py: u32, w: u32, h: u32) -> (d: u32)
    requires
        px < w,
        py < h,
    ensures
        d == edge_distance_spec(px as int, py as int, w as int, h as int),
{
    let left = px;
    let right = w - 1 - px;
    let top = py;
    let bottom = h - 1 - py;
    let a = if left < right {
        left
    } else {
        right
    };
    let b = if a < top {
        a
    } else {
        top
    };
    if b < bottom {
        b
    } else {
        bottom
    }
}

/// The centre of the corner arc that governs `(px, py)`, if the pixel lies
/// in one of the four `radius` by `radius` corner squares (tried top-left,
/// top-right, bottom-left, bottom-right); none when `radius` is 0.
pub open spec fn corner_center_spec(px: int, py: int, w: int, h: int, r: int) -> Option<(int, int)> {
    if r == 0 {
        None
    } else if px < r && py < r {
        Some((r, r))
    } else if px >= w - r && py < r {
        Some((w - r, r))
    } else if px < r && py >= h - r {
        Some((r, h - r))
    } else if px >= w - r && py >= h - r {
        Some((w - r, h - r))
    } else {
        None
    }
}

/// The centre of the corner arc that governs pixel `(px, py)`, or `None`
/// when the pixel keeps full opacity as far as the corners go.
pub fn corner_center(px: u32, py: u32, w: u32, h: u32, radius: u32) -> (c: Option<(u32, u32)>)
    requires
        radius <= w,
        radius <= h,
    ensures
        match c {
            Some((cx, cy)) => corner_center_spec(px as int, py as int, w as int, h as int, radius as int)
                == Some((cx as int, cy as int)),
            None => corner_center_spec(px as int, py as int, w as int, h as int, radius as int) is None,
        },
{
    if radius == 0 {
        return None;
    }
    if px < radius && py < radius {
        Some((radius, radius))
    } else if px >= w - radius && py < radius {
        Some((w - radius, radius))
    } else if px < radius && py >= h - radius {
        Some((radius, h - radius))
    } else if px >= w - radius && py >= h - radius {
        Some((w - radius, h - radius))
    } else {
        None
    }
}

/// Where the noisy border applies to a pixel: its distance to the nearest
/// edge when noise is on (`noise_amp` and `noise_band` both non-zero) and
/// that distance is within the band.
pub open spec fn noise_distance_spec(px: int, py: int, w: int, h: int, band: int, amp: int) -> Option<int> {
    if amp == 0 || band == 0 {
        None
    } else if edge_distance_spec(px, py, w, h) >= band {
        None
    } else {
        Some(edge_distance_spec(px, py, w, h))
    }
}

/// The distance of pixel `(px, py)` to the nearest edge when the noisy
/// border covers it, or `None` when the pixel keeps full opacity as far as
/// the border goes.
pub fn noise_distance(px: u32, py: u32, w: u32, h: u32, noise_band: u32, noise_amp: u8) -> (d: Option<u32>)
    requires
        noise_amp != 0 && noise_band != 0 ==> px < w && py < h,
    ensures
        match d {
            Some(x) => noise_distance_spec(px as int, py as int, w as int, h as int, noise_band as int, noise_amp as int)
                == Some(x as int),
            None => noise_distance_spec(px as int, py as int, w as int, h as int, noise_band as int, noise_amp as int) is None,
        },
{
    if noise_amp == 0 || noise_band == 0 {
        return None;
    }
    let dist = edge_distance(px, py, w, h);
    if dist >= noise_band {
        None
    } else {
        Some(dist)
    }
}

/// Combines the corner alpha and the noise alpha multiplicatively:
/// `corner * noise / 255`, so 255 in either leaves the other unchanged.
pub fn combine_alpha(corner: u8, noise: u8) -> (a: u8)
    ensures
        a == (corner as int * noise as int) / 255,
{
    assert(corner as int * noise as int <= 255 * 255) by (nonlinear_arith)
        requires
            corner <= 255,
            noise <= 255,
    ;
    let p = corner as u16 * noise as u16;
    assert((corner as int * noise as int) / 255 <= 255) by (nonlinear_arith)
        requires
            0 <= corner as int * noise as int <= 255 * 255,
    ;
    (p / 255) as u8
}

/// The RGBA bytes after the mask is written: for each pixel `p` (bytes
/// `4p..4p+4`), the alpha byte `4p + 3` becomes the combination of the
/// pixel's corner and noise alphas; every colour byte stays.
pub open spec fn masked(rgba: Seq<u8>, corner: Seq<u8>, noise: Seq<u8>, i: int) -> u8 {
    if i % 4 == 3 {
        ((corner[i / 4] as int * noise[i / 4] as int) / 255) as u8
    } else {
        rgba[i]
    }
}

/// Writes the alpha channel of a packed row-major RGBA pixel buffer: each
/// pixel's alpha becomes `corner[p] * noise[p] / 255`, colours are kept.
pub fn write_alpha_mask(rgba: &mut Vec<u8>, corner: &Vec<u8>, noise: &Vec<u8>)
    requires
        old(rgba)@.len() == 4 * corner@.len(),
        noise@.len() == corner@.len(),
    ensures
        final(rgba)@.len() == old(rgba)@.len(),
        forall|i: int|
            0 <= i < old(rgba)@.len() ==> #[trigger] final(rgba)@[i] == masked(
                old(rgba)@,
                corner@,
                noise@,
                i,
            ),
{
    let ghost start = rgba@;
    let n = corner.len();
    let total = rgba.len();
    let mut p: usize = 0;
    while p < n
        invariant
            n == corner@.len(),
            total == 4 * n,
            noise@.len() == n,
            start.len() == 4 * n,
            rgba@.len() == 4 * n,
            p <= n,
            forall|i: int|
                0 <= i < 4 * n ==> #[trigger] rgba@[i] == if i / 4 < p {
                    masked(start, corner@, noise@, i)
                } else {
                    start[i]
                },
        decreases n - p,
    {
        let a = combine_alpha(corner[p], noise[p]);
        let ghost before = rgba@;
        rgba.set(4 * p + 3, a);
        assert forall|i: int|
            0 <= i < 4 * n implies #[trigger] rgba@[i] == if i / 4 < p + 1 {
                masked(start, corner@, noise@, i)
            } else {
                start[i]
            } by {
            if i == 4 * p + 3 {
                assert(i / 4 == p && i % 4 == 3);
            } else {
                assert(rgba@[i] == before[i]);
                if i / 4 == p {
                    assert(i % 4 != 3);
                }
            }
        }
        p = p + 1;
    }
    assert forall|i: int| 0 <= i < 4 * n implies #[trigger] rgba@[i] == masked(start, corner@, noise@, i) by {
        assert(i / 4 < n);
    }
}

/// Law: the edge distance of a pixel is its distance to the nearest of the
/// four edges: no more than the distance to any edge, and equal to one of them.
pub proof fn lemma_edge_distance_is_nearest_edge(px: int, py: int, w: int, h: int)
    requires
        0 <= px < w,
        0 <= py < h,
    ensures
        ({
            let d = edge_distance_spec(px, py, w, h);
            &&& 0 <= d
            &&& d <= px && d <= w - 1 - px && d <= py && d <= h - 1 - py
            &&& d == px || d == w - 1 - px || d == py || d == h - 1 - py
        }),
{
}

/// Law: with noise on, a pixel lies in the noisy border exactly when one of
/// the four edges is closer than the band width, and then its distance is
/// that to the nearest edge.
pub proof fn lemma_noise_band_is_near_any_edge(px: int, py: int, w: int, h: int, band: int, amp: int)
    requires
        amp != 0,
        band != 0,
        0 <= px < w,
        0 <= py < h,
    ensures
        noise_distance_spec(px, py, w, h, band, amp) is Some <==> (px < band || w - 1 - px < band
            || py < band || h - 1 - py < band),
        noise_distance_spec(px, py, w, h, band, amp) matches Some(d) ==> {
            &&& 0 <= d < band
            &&& d <= px && d <= w - 1 - px && d <= py && d <= h - 1 - py
            &&& d == px || d == w - 1 - px || d == py || d == h - 1 - py
        },
{
}

/// Law: the noisy border is symmetric: mirroring a pixel left to right or top
/// to bottom, or swapping the axes together with the image's sides, keeps
/// its border distance.
pub proof fn lemma_noise_band_symmetric(px: int, py: int, w: int, h: int, band: int, amp: int)
    requires
        0 <= px < w,
        0 <= py < h,
    ensures
        noise_distance_spec(px, py, w, h, band, amp) == noise_distance_spec(w - 1 - px, py, w, h, band, amp),
        noise_distance_spec(px, py, w, h, band, amp) == noise_distance_spec(px, h - 1 - py, w, h, band, amp),
        noise_distance_spec(px, py, w, h, band, amp) == noise_distance_spec(py, px, h, w, band, amp),
{
}

/// Law: with a radius `0 < r` of at most half of each side, a pixel lies in a
/// corner exactly when it is within `r` of a left or right edge and within
/// `r` of the top or bottom edge; the arc centre is `r` in from each of those
/// two edges.
pub proof fn lemma_corner_center_by_square(px: int, py: int, w: int, h: int, r: int)
    requires
        0 < r,
        2 * r <= w,
        2 * r <= h,
        0 <= px < w,
        0 <= py < h,
    ensures
        corner_center_spec(px, py, w, h, r) is Some <==> ((px < r || w - r <= px) && (py < r || h
            - r <= py)),
        corner_center_spec(px, py, w, h, r) matches Some(c) ==> {
            &&& (px < r ==> c.0 == r) && (w - r <= px ==> c.0 == w - r)
            &&& (py < r ==> c.1 == r) && (h - r <= py ==> c.1 == h - r)
        },
{
}

/// Law: the corners are mirror images: mirroring a pixel left to right
/// mirrors its arc centre, and the same top to bottom.
pub proof fn lemma_corner_center_symmetric(px: int, py: int, w: int, h: int, r: int)
    requires
        0 < r,
        2 * r <= w,
        2 * r <= h,
        0 <= px < w,
        0 <= py < h,
    ensures
        corner_center_spec(px, py, w, h, r) is Some <==> corner_center_spec(w - 1 - px, py, w, h, r) is Some,
        corner_center_spec(px, py, w, h, r) is Some <==> corner_center_spec(px, h - 1 - py, w, h, r) is Some,
        corner_center_spec(px, py, w, h, r) matches Some(c) ==> corner_center_spec(w - 1 - px, py, w, h, r)
            == Some((w - c.0, c.1)) && corner_center_spec(px, h - 1 - py, w, h, r) == Some((c.0, h - c.1)),
{
}

/// Law: the limited value is the largest value no larger than `v` that fits
/// twice into both the width and the height.
pub proof fn lemma_clamp_to_half_is_largest_fit(v: int, w: int, h: int)
    requires
        0 <= v,
        0 <= w,
        0 <= h,
    ensures
        ({
            let r = min_u(min_u(v, w / 2), h / 2);
            &&& 0 <= r <= v
            &&& 2 * r <= w && 2 * r <= h
            &&& r == v || 2 * (r + 1) > w || 2 * (r + 1) > h
        }),
{
}

/// Law: full opacity is neutral in the combination, so a disabled effect
/// (which contributes 255) leaves the other effect's alpha unchanged.
pub proof fn lemma_full_opacity_is_neutral(a: u8)
    ensures
        (a as int * 255) / 255 == a,
        (255 * a as int) / 255 == a,
{
}

/// Law: with radius 0 no pixel lies in a corner, and with no noise amplitude
/// or no band no pixel lies in the noisy border; so with both disabled every
/// pixel keeps full opacity.
pub proof fn lemma_disabled_effects_touch_nothing(px: int, py: int, w: int, h: int, band: int, amp: int)
    ensures
        corner_center_spec(px, py, w, h, 0) is None,
        noise_distance_spec(px, py, w, h, band, 0) is None,
        noise_distance_spec(px, py, w, h, 0, amp) is None,
{
}

} // verus!
