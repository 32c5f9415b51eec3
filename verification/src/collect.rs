//! Choosing the image files among the inputs given on the command line.
use vstd::prelude::*;
use crate::order::{key_less, key_lt, lemma_key_lt_total, lemma_key_lt_transitive, path_key, path_key_of};
use crate::path::{
    case_variant, is_dir_prefix, is_plain_name, lemma_extension_after_last_dot,
    lemma_extension_ignores_case_of_path, path_extension, path_extension_of,
};
use std::path::PathBuf;

verus! {

/// A file system path, carried through unchanged.
#[verifier::external_type_specification]
#[verifier::external_body]
pub struct ExPathBuf(std::path::PathBuf);

/// The byte in lower case, for ASCII letters; any other byte unchanged.
pub open spec fn ascii_lower(b: u8) -> u8 {
    if 65 <= b <= 90 {
        (b + 32) as u8
    } else {
        b
    }
}

/// The bytes with ASCII letters in lower case.
pub open spec fn lowered(s: Seq<u8>) -> Seq<u8> {
    s.map_values(|b: u8| ascii_lower(b))
}

/// The extensions of image files, in lower case:
/// jpg, jpeg, png, bmp, gif, tiff, tif, webp.
pub open spec fn image_extensions() -> Seq<Seq<u8>> {
    seq![
        seq![106u8, 112u8, 103u8],
        seq![106u8, 112u8, 101u8, 103u8],
        seq![112u8, 110u8, 103u8],
        seq![98u8, 109u8, 112u8],
        seq![103u8, 105u8, 102u8],
        seq![116u8, 105u8, 102u8, 102u8],
        seq![116u8, 105u8, 102u8],
        seq![119u8, 101u8, 98u8, 112u8],
    ]
}

/// A path names an image when its extension, with ASCII letters in lower
/// case, is one of the image extensions. (For these all-ASCII names without
/// `k`, this is the same as comparing the Unicode lower-case form of an
/// extension that is valid UTF-8; other extensions never match.)
pub open spec fn names_image(path: Seq<u8>) -> bool {
    match path_extension(path) {
        Some(e) => image_extensions().contains(lowered(e)),
        None => false,
    }
}

/// Law: whether a path names an image does not depend on the case of its
/// ASCII letters: `x.PNG`, `x.Png` and `x.png` are all images, `X.TXT` and
/// `x.txt` both are not.
pub proof fn lemma_image_ignores_case(p: Seq<u8>, q: Seq<u8>)
    requires
        case_variant(p, q),
    ensures
        names_image(p) == names_image(q),
{
    lemma_extension_ignores_case_of_path(p, q);
    if path_extension(p) is Some {
        let a = path_extension(p).unwrap();
        let b = path_extension(q).unwrap();
        assert(lowered(a) =~= lowered(b)) by {
            assert forall|i: int| 0 <= i < a.len() implies lowered(a)[i] == lowered(b)[i] by {
                assert(b[i] == a[i] || (65 <= a[i] <= 90 && b[i] == a[i] + 32) || (97 <= a[i] <= 122 && b[i] == a[i] - 32));
            }
        }
    }
}

/// Law: a plain file name in any directory names an image exactly when the
/// part after its last `.` (not its first byte) is, in lower case, one of
/// the image extensions; upper-case letters count as their lower-case ones.
pub proof fn lemma_image_by_extension(dir: Seq<u8>, name: Seq<u8>, k: int)
    requires
        is_dir_prefix(dir),
        is_plain_name(name),
        0 < k < name.len(),
        name[k] == 46u8,
        forall|j: int| k < j < name.len() ==> #[trigger] name[j] != 46u8,
    ensures
        names_image(dir + name) == image_extensions().contains(lowered(name.subrange(k + 1, name.len() as int))),
        forall|i: int| k < i < name.len() ==> (65 <= #[trigger] name[i] <= 90 ==> lowered(name.subrange(k + 1, name.len() as int))[i - k - 1] == name[i] + 32),
{
    lemma_extension_after_last_dot(dir, name);
}

/// Whether `e`, with ASCII letters in lower case, equals `name`.
fn lower_equals(e: &Vec<u8>, name: &Vec<u8>) -> (r: bool)
    ensures
        r == (lowered(e@) == name@),
{
    if e.len() != name.len() {
        assert(lowered(e@).len() != name@.len());
        return false;
    }
    let mut i: usize = 0;
    while i < e.len()
        invariant
            e@.len() == name@.len(),
            i <= e@.len(),
            forall|x: int| 0 <= x < i ==> ascii_lower(#[trigger] e@[x]) == name@[x],
        decreases e@.len() - i,
    {
        let b = e[i];
        let lb = if 65 <= b && b <= 90 {
            b + 32
        } else {
            b
        };
        if lb != name[i] {
            assert(lowered(e@)[i as int] != name@[i as int]);
            return false;
        }
        i = i + 1;
    }
    assert(lowered(e@) =~= name@);
    true
}

/// Whether the path (given by its bytes) names an image file, by its
/// extension: jpg, jpeg, png, bmp, gif, tiff, tif or webp, in any ASCII case.
pub fn is_image(path: &[u8]) -> (r: bool)
    ensures
        r == names_image(path@),
{
    match path_extension_of(path) {
        None => false,
        Some(e) => {
            let names: Vec<Vec<u8>> = vec![
                vec![106u8, 112u8, 103u8],
                vec![106u8, 112u8, 101u8, 103u8],
                vec![112u8, 110u8, 103u8],
                vec![98u8, 109u8, 112u8],
                vec![103u8, 105u8, 102u8],
                vec![116u8, 105u8, 102u8, 102u8],
                vec![116u8, 105u8, 102u8],
                vec![119u8, 101u8, 98u8, 112u8],
            ];
            let ghost exts = image_extensions();
            assert(names@.len() == 8);
            let mut t: usize = 0;
            while t < names.len()
                invariant
                    names@.len() == 8,
                    t <= 8,
                    exts == image_extensions(),
                    path_extension(path@) == Some(e@),
                    forall|x: int| 0 <= x < 8 ==> (#[trigger] names@[x])@ == exts[x],
                    forall|x: int| 0 <= x < t ==> lowered(e@) != #[trigger] exts[x],
                decreases 8 - t,
            {
                if lower_equals(&e, &names[t]) {
                    assert(exts[t as int] == lowered(e@));
                    assert(exts.contains(lowered(e@)));
                    return true;
                }
                t = t + 1;
            }
            assert(!exts.contains(lowered(e@)));
            false
        },
    }
}

/// A path together with its bytes.
#[derive(Debug)]
pub struct PathItem {
    /// The path itself, carried through unchanged.
    pub path: PathBuf,
    /// The bytes of the path.
    pub bytes: Vec<u8>,
}

/// A file found while walking a directory, in walk order.
#[derive(Debug)]
pub struct DirEntry {
    /// The path, as the walk gave it.
    pub path: PathBuf,
    /// The bytes of the path.
    pub bytes: Vec<u8>,
    /// Whether the entry is a regular file.
    pub is_file: bool,
}

/// One command-line input, as the file system showed it.
pub enum InputEntry {
    /// A directory, with every entry found below it in walk order.
    Dir(Vec<DirEntry>),
    /// A file, taken as it is whatever its extension.
    File(PathItem),
    /// Neither a file nor a directory; it is skipped.
    Missing,
}

/// Why no image list could be gathered.
#[derive(Debug, PartialEq, Eq, Structural, Clone, Copy)]
pub enum GatherError {
    /// No input gave any image.
    NoImages,
}

/// The images a directory walk contributes: its regular files that name images.
pub open spec fn dir_images(es: Seq<DirEntry>) -> Seq<PathItem>
    decreases es.len(),
{
    if es.len() == 0 {
        Seq::empty()
    } else {
        let e = es.last();
        let pre = dir_images(es.drop_last());
        if e.is_file && names_image(e.bytes@) {
            pre.push(PathItem { path: e.path, bytes: e.bytes })
        } else {
            pre
        }
    }
}

/// The images one input contributes.
pub open spec fn input_images(input: InputEntry) -> Seq<PathItem> {
    match input {
        InputEntry::Dir(es) => dir_images(es@),
        InputEntry::File(p) => seq![p],
        InputEntry::Missing => Seq::empty(),
    }
}

/// The images all inputs contribute, in input order.
pub open spec fn gathered(inputs: Seq<InputEntry>) -> Seq<PathItem>
    decreases inputs.len(),
{
    if inputs.len() == 0 {
        Seq::empty()
    } else {
        gathered(inputs.drop_last()) + input_images(inputs.last())
    }
}

/// The path item a directory entry stands for.
pub open spec fn item_of(e: DirEntry) -> PathItem {
    PathItem { path: e.path, bytes: e.bytes }
}

/// Law: a directory walk contributes exactly its regular files that name
/// images, in walk order: every contributed path is such an entry, and
/// every such entry is contributed.
pub proof fn lemma_dir_images_are_image_files(es: Seq<DirEntry>)
    ensures
        forall|i: int|
            0 <= i < es.len() && (#[trigger] es[i]).is_file && names_image(es[i].bytes@) ==> dir_images(es).contains(
                item_of(es[i]),
            ),
        forall|t: int|
            0 <= t < dir_images(es).len() ==> exists|i: int|
                0 <= i < es.len() && (#[trigger] es[i]).is_file && names_image(es[i].bytes@)
                    && #[trigger] dir_images(es)[t] == item_of(es[i]),
    decreases es.len(),
{
    if es.len() > 0 {
        let pre = es.drop_last();
        lemma_dir_images_are_image_files(pre);
        let d = dir_images(es);
        let dp = dir_images(pre);
        assert forall|i: int|
            0 <= i < es.len() && (#[trigger] es[i]).is_file && names_image(es[i].bytes@) implies d.contains(
                item_of(es[i]),
            ) by {
            if i < es.len() - 1 {
                assert(pre[i] == es[i]);
                let it = item_of(es[i]);
                assert(dp.contains(it));
                let k = choose|k: int| 0 <= k < dp.len() && dp[k] == it;
                assert(d[k] == it);
            } else {
                assert(d[d.len() - 1] == item_of(es[i]));
            }
        }
        assert forall|t: int| 0 <= t < d.len() implies exists|i: int|
            0 <= i < es.len() && (#[trigger] es[i]).is_file && names_image(es[i].bytes@)
                && #[trigger] d[t] == item_of(es[i]) by {
            if t < dp.len() {
                assert(d[t] == dp[t]);
                let i = choose|i: int|
                    0 <= i < pre.len() && (#[trigger] pre[i]).is_file && names_image(pre[i].bytes@)
                        && dp[t] == item_of(pre[i]);
                assert(es[i] == pre[i]);
            } else {
                assert(es[es.len() - 1] == es.last());
            }
        }
    }
}

/// Law: a file given directly is always gathered, whatever its extension.
pub proof fn lemma_given_files_are_kept(inputs: Seq<InputEntry>, i: int)
    requires
        0 <= i < inputs.len(),
        inputs[i] is File,
    ensures
        gathered(inputs).contains(inputs[i]->File_0),
    decreases inputs.len(),
{
    let pre = inputs.drop_last();
    let g = gathered(inputs);
    let it = inputs[i]->File_0;
    if i < inputs.len() - 1 {
        assert(pre[i] == inputs[i]);
        lemma_given_files_are_kept(pre, i);
        let k = choose|k: int| 0 <= k < gathered(pre).len() && gathered(pre)[k] == it;
        assert(g[k] == gathered(pre)[k]);
    } else {
        assert(input_images(inputs.last()) == seq![it]);
        assert(g[gathered(pre).len() as int] == it);
    }
}

/// The paths are in path order (component by component): no path comes
/// before one earlier in the list.
pub open spec fn sorted_by_path(v: Seq<PathItem>) -> bool {
    forall|i: int, j: int|
        0 <= i < j < v.len() ==> !key_lt(path_key(#[trigger] v[j].bytes@), path_key(#[trigger] v[i].bytes@))
}

/// Appends the image files of a directory walk to `out`.
fn collect_from_dir(entries: Vec<DirEntry>, out: &mut Vec<PathItem>)
    ensures
        final(out)@ == old(out)@ + dir_images(entries@),
{
    let ghost all = entries@;
    let ghost start = out@;
    let mut entries = entries;
    let total = entries.len();
    let mut done: usize = 0;
    assert(all.subrange(0, 0) =~= Seq::<DirEntry>::empty());
    while entries.len() > 0
        invariant
            done + entries@.len() == all.len(),
            all.len() == total,
            entries@ == all.subrange(done as int, all.len() as int),
            out@ == start + dir_images(all.subrange(0, done as int)),
        decreases entries@.len(),
    {
        let e = entries.remove(0);
        proof {
            assert(e == all[done as int]);
            assert(all.subrange(0, done + 1).drop_last() =~= all.subrange(0, done as int));
            assert(entries@ =~= all.subrange(done + 1, all.len() as int));
        }
        let keep = e.is_file && is_image(e.bytes.as_slice());
        if keep {
            out.push(PathItem { path: e.path, bytes: e.bytes });
            assert(out@ =~= start + dir_images(all.subrange(0, done + 1)));
        } else {
            assert(out@ =~= start + dir_images(all.subrange(0, done + 1)));
        }
        done = done + 1;
    }
    assert(all.subrange(0, done as int) =~= all);
}

/// Sorts the paths into path order, keeping every path (duplicates
/// included); paths of equal order keep their relative order.
pub fn sort_by_path(items: Vec<PathItem>) -> (out: Vec<PathItem>)
    ensures
        out@.to_multiset() == items@.to_multiset(),
        out@.len() == items@.len(),
        sorted_by_path(out@),
{
    broadcast use vstd::seq_lib::group_to_multiset_ensures;

    let ghost orig = items@;
    let mut rest = items;
    let mut out: Vec<PathItem> = Vec::new();
    let mut keys: Vec<Vec<u32>> = Vec::new();
    assert(out@.to_multiset() =~= vstd::multiset::Multiset::empty());
    assert(out@.to_multiset().add(rest@.to_multiset()) =~= orig.to_multiset());
    while rest.len() > 0
        invariant
            out@.to_multiset().add(rest@.to_multiset()) == orig.to_multiset(),
            keys@.len() == out@.len(),
            forall|q: int| 0 <= q < keys@.len() ==> (#[trigger] keys@[q])@ == path_key(out@[q].bytes@),
            sorted_by_path(out@),
        decreases rest@.len(),
    {
        let ghost old_rest = rest@;
        let x = rest.remove(0);
        let k = path_key_of(x.bytes.as_slice());
        let mut p = out.len();
        while p > 0 && key_less(&k, &keys[p - 1])
            invariant
                p <= out@.len(),
                keys@.len() == out@.len(),
                forall|q: int| p <= q < out@.len() ==> key_lt(k@, #[trigger] keys@[q]@),
            decreases p,
        {
            p = p - 1;
        }
        let ghost old_out = out@;
        let ghost old_keys = keys@;
        let ghost kx = k@;
        out.insert(p, x);
        keys.insert(p, k);
        proof {
            let t = out@;
            assert(t.remove(p as int) =~= old_out);
            assert(t[p as int] == x);
            assert(t == old_out.insert(p as int, x));
            vstd::seq_lib::to_multiset_insert(old_out, p as int, x);
            assert(rest@ == old_rest.remove(0));
            vstd::seq_lib::to_multiset_remove(old_rest, 0);
            assert(old_rest[0] == x);
            assert(old_rest.to_multiset().count(x) > 0) by {
                assert(old_rest[0] == x);
                assert(old_rest.contains(x));
                vstd::seq_lib::to_multiset_contains(old_rest, x);
            }
            assert(out@.to_multiset().add(rest@.to_multiset()) =~= orig.to_multiset());
            assert forall|q: int| 0 <= q < keys@.len() implies (#[trigger] keys@[q])@ == path_key(out@[q].bytes@) by {
                if q < p {
                    assert(keys@[q] == old_keys[q] && out@[q] == old_out[q]);
                } else if q > p {
                    assert(keys@[q] == old_keys[q - 1] && out@[q] == old_out[q - 1]);
                }
            }
            assert forall|i: int, j: int| 0 <= i < j < t.len() implies !key_lt(
                path_key(#[trigger] t[j].bytes@),
                path_key(#[trigger] t[i].bytes@),
            ) by {
                let ki = path_key(t[i].bytes@);
                let kj = path_key(t[j].bytes@);
                if j < p {
                    assert(t[i] == old_out[i] && t[j] == old_out[j]);
                } else if i > p {
                    assert(t[i] == old_out[i - 1] && t[j] == old_out[j - 1]);
                } else if i == p {
                    assert(t[j] == old_out[j - 1]);
                    assert(key_lt(kx, old_keys[j - 1]@));
                    lemma_key_lt_total(kx, kj);
                } else if j == p {
                    assert(t[i] == old_out[i]);
                    let kp = path_key(old_out[p - 1].bytes@);
                    assert(old_keys[p - 1]@ == kp);
                    assert(!key_lt(kx, kp));
                    if i < p - 1 {
                        assert(!key_lt(kp, ki)) by {
                            assert(old_out[p - 1] == old_out[p - 1]);
                        }
                        lemma_key_lt_total(kp, ki);
                        if key_lt(kx, ki) {
                            if kp != ki {
                                lemma_key_lt_transitive(kx, ki, kp);
                            }
                        }
                    }
                } else {
                    assert(t[i] == old_out[i] && t[j] == old_out[j - 1]);
                }
            }
        }
    }
    assert(rest@.to_multiset() =~= vstd::multiset::Multiset::empty());
    assert(out@.to_multiset() =~= orig.to_multiset());
    proof {
        vstd::seq_lib::to_multiset_len(out@);
        vstd::seq_lib::to_multiset_len(orig);
    }
    out
}

/// The image paths the inputs name, sorted in path order: every file given
/// directly and the image files (by extension) found in each directory,
/// duplicates kept. Nothing found is an error.
pub fn gather(inputs: Vec<InputEntry>) -> (r: Result<Vec<PathItem>, GatherError>)
    ensures
        gathered(inputs@).len() == 0 <==> r is Err,
        r matches Ok(v) ==> v@.to_multiset() == gathered(inputs@).to_multiset() && sorted_by_path(v@),
        r matches Err(e) ==> e == GatherError::NoImages,
{
    let ghost all = inputs@;
    let mut inputs = inputs;
    let total = inputs.len();
    let mut paths: Vec<PathItem> = Vec::new();
    let mut done: usize = 0;
    assert(all.subrange(0, 0) =~= Seq::<InputEntry>::empty());
    while inputs.len() > 0
        invariant
            done + inputs@.len() == all.len(),
            all.len() == total,
            inputs@ == all.subrange(done as int, all.len() as int),
            paths@ == gathered(all.subrange(0, done as int)),
        decreases inputs@.len(),
    {
        let input = inputs.remove(0);
        proof {
            assert(input == all[done as int]);
            assert(all.subrange(0, done + 1).drop_last() =~= all.subrange(0, done as int));
            assert(inputs@ =~= all.subrange(done + 1, all.len() as int));
        }
        match input {
            InputEntry::Dir(es) => {
                collect_from_dir(es, &mut paths);
            },
            InputEntry::File(p) => {
                paths.push(p);
                assert(paths@ =~= gathered(all.subrange(0, done + 1)));
            },
            InputEntry::Missing => {
                assert(paths@ =~= gathered(all.subrange(0, done + 1)));
            },
        }
        done = done + 1;
    }
    assert(all.subrange(0, done as int) =~= all);
    if paths.len() == 0 {
        Err(GatherError::NoImages)
    } else {
        Ok(sort_by_path(paths))
    }
}

} // verus!
