use collage_maker::collect::is_image;
use collage_maker::output::{extension, output_format, OutputFormat};
use collage_maker::path::path_extension_of;

fn ext(p: &str) -> Option<Vec<u8>> {
    path_extension_of(p.as_bytes())
}

#[test]
fn extension_follows_last_dot_of_file_name() {
    assert_eq!(ext("photos/a.jpg"), Some(b"jpg".to_vec()));
    assert_eq!(ext("a.tar.gz"), Some(b"gz".to_vec()));
    assert_eq!(ext("dir.d/file"), None);
    assert_eq!(ext(".hidden"), None);
    assert_eq!(ext("..a"), Some(b"a".to_vec()));
    assert_eq!(ext("a."), Some(b"".to_vec()));
    assert_eq!(ext("a.jpg/"), Some(b"jpg".to_vec()));
    assert_eq!(ext("a.jpg/."), Some(b"jpg".to_vec()));
    assert_eq!(ext("a.jpg//./"), Some(b"jpg".to_vec()));
    assert_eq!(ext("x.png/.."), None);
    assert_eq!(ext("/"), None);
    assert_eq!(ext(""), None);
    assert_eq!(ext("."), None);
}

#[test]
fn is_image_accepts_known_extensions_in_any_case() {
    for p in [
        "a.jpg", "b.JPEG", "c.Png", "d.bmp", "e.GIF", "f.tiff", "g.tif", "h.WebP",
        "dir/sub/photo.JpG",
    ] {
        assert!(is_image(p.as_bytes()), "{p}");
    }
}

#[test]
fn is_image_rejects_others() {
    for p in ["a.txt", "a.jpgx", "jpg", ".jpg", "a.", "a.pdf", "a.jp g", "x.png/..", ""] {
        assert!(!is_image(p.as_bytes()), "{p}");
    }
}

#[test]
fn output_format_by_extension() {
    assert_eq!(output_format(b"out.pdf"), OutputFormat::Pdf);
    assert_eq!(output_format(b"out.png"), OutputFormat::Png);
    assert_eq!(output_format(b"out.jpg"), OutputFormat::Jpeg);
    assert_eq!(output_format(b"out.jpeg"), OutputFormat::Jpeg);
    assert_eq!(output_format(b"out.PDF"), OutputFormat::Jpeg);
    assert_eq!(output_format(b"out"), OutputFormat::Jpeg);
}

#[test]
fn unknown_extension_falls_back_to_jpeg() {
    assert_eq!(output_format(b"/tmp/collage_test_out.bmp"), OutputFormat::Jpeg, "fallback should produce JPEG");
}

#[test]
fn extension_defaults_to_jpg() {
    assert_eq!(extension(b"collage"), b"jpg".to_vec());
    assert_eq!(extension(b"collage.pdf"), b"pdf".to_vec());
    assert_eq!(extension(b"collage.\xff\xfe"), b"jpg".to_vec());
    assert_eq!(extension(b"collage.\xc3\xa9"), b"\xc3\xa9".to_vec());
}
