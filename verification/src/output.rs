//! Choosing the file format a collage is saved in from the output path.
use vstd::prelude::*;
use crate::path::{
    dot, dot_dot, is_dir_prefix, is_plain_name, lemma_extension_after_last_dot, path_extension,
    path_extension_of,
};
use vstd::utf8::valid_utf8;

verus! {

/// The formats a collage can be saved in.
#[derive(Debug, PartialEq, Eq, Structural, Clone, Copy)]
pub enum OutputFormat {
    /// JPEG at quality 90.
    Jpeg,
    /// PNG.
    Png,
    /// A one-page PDF holding the image.
    Pdf,
}

/// The bytes `jpg`, the extension assumed when a path has none.
pub open spec fn default_extension() -> Seq<u8> {
    seq![106u8, 112u8, 103u8]
}

/// The extension of the output path when it has one that is valid UTF-8,
/// or `jpg` otherwise.
pub open spec fn output_extension(path: Seq<u8>) -> Seq<u8> {
    match path_extension(path) {
        Some(e) => if valid_utf8(e) {
            e
        } else {
            default_extension()
        },
        None => default_extension(),
    }
}

/// `std::str::from_utf8`: whether the bytes are valid UTF-8. Its documentation
/// says it fails exactly on byte slices that are not UTF-8; `valid_utf8` is
/// vstd's statement of well-formed UTF-8.
#[verifier::external_body]
fn is_utf8(bytes: &[u8]) -> (r: bool)
    ensures
        r == valid_utf8(bytes@),
{
    std::str::from_utf8(bytes).is_ok()
}

/// The format an extension selects: `pdf` and `png` (exactly, in lower
/// case) select themselves, anything else selects JPEG.
pub open spec fn format_of(ext: Seq<u8>) -> OutputFormat {
    if ext == seq![112u8, 100u8, 102u8] {
        OutputFormat::Pdf
    } else if ext == seq![112u8, 110u8, 103u8] {
        OutputFormat::Png
    } else {
        OutputFormat::Jpeg
    }
}

/// The extension of the output path (given by its bytes), or `jpg` when the
/// path has none or it is not valid UTF-8.
pub fn extension(path: &[u8]) -> (e: Vec<u8>)
    ensures
        e@ == output_extension(path@),
{
    if let Some(e) = path_extension_of(path) {
        if is_utf8(e.as_slice()) {
            return e;
        }
    }
    let e: Vec<u8> = vec![106u8, 112u8, 103u8];
    assert(e@ =~= default_extension());
    e
}

/// Whether the bytes are exactly the three given ones.
fn is_three(e: &Vec<u8>, a: u8, b: u8, c: u8) -> (r: bool)
    ensures
        r == (e@ == seq![a, b, c]),
{
    if e.len() == 3 && e[0] == a && e[1] == b && e[2] == c {
        assert(e@ =~= seq![a, b, c]);
        true
    } else {
        proof {
            if e@ == seq![a, b, c] {
                assert(e@[0] == a && e@[1] == b && e@[2] == c);
            }
        }
        false
    }
}

/// The format the output path selects by its extension: PDF for `pdf`, PNG
/// for `png`, JPEG for anything else, a missing extension included.
pub fn output_format(path: &[u8]) -> (f: OutputFormat)
    ensures
        f == format_of(output_extension(path@)),
{
    let e = extension(path);
    if is_three(&e, 112u8, 100u8, 102u8) {
        OutputFormat::Pdf
    } else if is_three(&e, 112u8, 110u8, 103u8) {
        OutputFormat::Png
    } else {
        OutputFormat::Jpeg
    }
}

/// Bytes below 128 always form valid UTF-8.
pub proof fn lemma_ascii_is_utf8(s: Seq<u8>)
    requires
        forall|i: int| 0 <= i < s.len() ==> #[trigger] s[i] < 128,
    ensures
        valid_utf8(s),
    decreases s.len(),
{
    if s.len() > 0 {
        let b = s[0];
        assert(b < 128);
        assert((b & 0x7Fu8) <= 0x7Fu8) by (bit_vector);
        let rest = s.subrange(1, s.len() as int);
        assert forall|i: int| 0 <= i < rest.len() implies #[trigger] rest[i] < 128 by {
            assert(rest[i] == s[i + 1]);
        }
        lemma_ascii_is_utf8(rest);
    }
}

/// Law: the output extension depends only on the file name, not on the
/// directories before it; it is what follows the name's last `.` (when that
/// dot is not the first byte and what follows is valid UTF-8), and `jpg`
/// when the name has no such dot.
pub proof fn lemma_output_extension_follows_file_name(dir: Seq<u8>, name: Seq<u8>)
    requires
        is_dir_prefix(dir),
        is_plain_name(name),
    ensures
        output_extension(dir + name) == output_extension(name),
        forall|k: int|
            0 < k < name.len() && name[k] == 46u8 && (forall|j: int| k < j < name.len() ==> #[trigger] name[j]
                != 46u8) && valid_utf8(#[trigger] name.subrange(k + 1, name.len() as int)) ==> output_extension(
                dir + name,
            ) == name.subrange(k + 1, name.len() as int),
        (forall|j: int| 0 < j < name.len() ==> #[trigger] name[j] != 46u8) ==> output_extension(dir + name)
            == default_extension(),
{
    lemma_extension_after_last_dot(dir, name);
}

/// Law: a path whose file name ends in `.pdf` is saved as PDF and one ending
/// in `.png` as PNG, in any directory; a file name without an extension is
/// saved as JPEG.
pub proof fn lemma_pdf_and_png_names(dir: Seq<u8>, stem: Seq<u8>)
    requires
        is_dir_prefix(dir),
        stem.len() > 0,
        forall|i: int| 0 <= i < stem.len() ==> #[trigger] stem[i] != 47u8,
    ensures
        format_of(output_extension(dir + (stem + seq![46u8, 112u8, 100u8, 102u8]))) == OutputFormat::Pdf,
        format_of(output_extension(dir + (stem + seq![46u8, 112u8, 110u8, 103u8]))) == OutputFormat::Png,
{
    let pdf = seq![112u8, 100u8, 102u8];
    let png = seq![112u8, 110u8, 103u8];
    let n1 = stem + seq![46u8] + pdf;
    let n2 = stem + seq![46u8] + png;
    assert(stem + seq![46u8, 112u8, 100u8, 102u8] =~= n1);
    assert(stem + seq![46u8, 112u8, 110u8, 103u8] =~= n2);
    let k = stem.len() as int;
    assert forall|i: int| 0 <= i < n1.len() implies #[trigger] n1[i] != 47u8 by {
        if i < k {
            assert(n1[i] == stem[i]);
        }
    }
    assert forall|i: int| 0 <= i < n2.len() implies #[trigger] n2[i] != 47u8 by {
        if i < k {
            assert(n2[i] == stem[i]);
        }
    }
    assert(n1 != dot()) by {
        assert(n1.len() != 1);
    }
    assert(n1 != dot_dot()) by {
        assert(n1.len() != 2);
    }
    assert(n2 != dot()) by {
        assert(n2.len() != 1);
    }
    assert(n2 != dot_dot()) by {
        assert(n2.len() != 2);
    }
    lemma_output_extension_follows_file_name(dir, n1);
    lemma_output_extension_follows_file_name(dir, n2);
    assert(n1[k] == 46u8 && n2[k] == 46u8);
    assert(n1.subrange(k + 1, n1.len() as int) =~= pdf);
    assert(n2.subrange(k + 1, n2.len() as int) =~= png);
    lemma_ascii_is_utf8(pdf);
    lemma_ascii_is_utf8(png);
    assert forall|j: int| k < j < n1.len() implies #[trigger] n1[j] != 46u8 by {}
    assert forall|j: int| k < j < n2.len() implies #[trigger] n2[j] != 46u8 by {}
}

} // verus!
