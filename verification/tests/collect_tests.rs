use collage_maker::collect::{gather, sort_by_path, DirEntry, GatherError, InputEntry, PathItem};
use std::path::PathBuf;

fn file(p: &str) -> DirEntry {
    DirEntry { path: PathBuf::from(p), bytes: p.as_bytes().to_vec(), is_file: true }
}

fn given(p: &str) -> InputEntry {
    InputEntry::File(PathItem { path: PathBuf::from(p), bytes: p.as_bytes().to_vec() })
}

fn paths_of(items: Vec<PathItem>) -> Vec<PathBuf> {
    items.into_iter().map(|it| it.path).collect()
}

fn subdir(p: &str) -> DirEntry {
    DirEntry { path: PathBuf::from(p), bytes: p.as_bytes().to_vec(), is_file: false }
}

/// A directory walk of `images/` holding eight images and two other entries.
fn images_dir() -> InputEntry {
    InputEntry::Dir(vec![
        subdir("images"),
        file("images/landscape_a.jpg"),
        file("images/landscape_b.jpg"),
        file("images/notes.txt"),
        file("images/portrait_a.jpg"),
        file("images/portrait_b.png"),
        file("images/square_a.jpg"),
        file("images/square_b.png"),
        file("images/tall.jpg"),
        file("images/wide.jpg"),
    ])
}

#[test]
fn gather_directory_finds_all_images() {
    let paths = paths_of(gather(vec![images_dir()]).unwrap());
    assert_eq!(paths.len(), 8, "expected 8 test images, got {}", paths.len());
    assert_eq!(paths[0], PathBuf::from("images/landscape_a.jpg"));
    assert_eq!(paths[7], PathBuf::from("images/wide.jpg"));
}

#[test]
fn gather_explicit_files() {
    let selected = ["landscape_a.jpg", "portrait_a.jpg", "square_a.jpg"]
        .iter()
        .map(|n| given(n))
        .collect();
    let paths = gather(selected).unwrap();
    assert_eq!(paths.len(), 3);
}

#[test]
fn gather_mixed_files_and_dirs() {
    // dir + explicit file from same dir → should not de-dup (gather is faithful)
    let paths = paths_of(gather(vec![images_dir(), given("images/wide.jpg")]).unwrap());
    assert!(paths.len() >= 8);
    assert_eq!(paths.len(), 9);
    assert_eq!(paths[7], PathBuf::from("images/wide.jpg"));
    assert_eq!(paths[8], PathBuf::from("images/wide.jpg"));
}

#[test]
fn gather_empty_inputs_errors() {
    let result = gather(vec![InputEntry::Missing]);
    assert!(result.is_err(), "should error when no images found");
    assert_eq!(result.unwrap_err(), GatherError::NoImages);
}

#[test]
fn gather_takes_explicit_files_whatever_their_extension() {
    let paths = paths_of(gather(vec![InputEntry::Missing, given("notes.txt")]).unwrap());
    assert_eq!(paths, vec![PathBuf::from("notes.txt")]);
}

#[test]
fn gather_skips_directories_without_images() {
    let dir = InputEntry::Dir(vec![subdir("d"), file("d/readme.md"), subdir("d/x.jpg")]);
    assert_eq!(gather(vec![dir]).err(), Some(GatherError::NoImages));
}

#[test]
fn gather_sorts_explicit_files() {
    let paths = paths_of(gather(vec![given("b.jpg"), given("a.jpg")]).unwrap());
    assert_eq!(paths, vec![PathBuf::from("a.jpg"), PathBuf::from("b.jpg")]);
}

#[test]
fn gather_sorts_across_inputs() {
    let dir = InputEntry::Dir(vec![subdir("p"), file("p/x.png"), file("p/y.png")]);
    let paths = paths_of(gather(vec![given("q.jpg"), dir, given("a.jpg")]).unwrap());
    assert_eq!(
        paths,
        vec![
            PathBuf::from("a.jpg"),
            PathBuf::from("p/x.png"),
            PathBuf::from("p/y.png"),
            PathBuf::from("q.jpg"),
        ]
    );
}

fn sorted(names: &[&str]) -> Vec<String> {
    let items = names
        .iter()
        .map(|n| PathItem { path: PathBuf::from(n), bytes: n.as_bytes().to_vec() })
        .collect();
    sort_by_path(items)
        .into_iter()
        .map(|it| String::from_utf8(it.bytes).unwrap())
        .collect()
}

#[test]
fn path_order_is_component_order() {
    // a directory's contents come before a longer sibling name
    assert_eq!(sorted(&["d/a-b.jpg", "d/a/x.jpg"]), vec!["d/a/x.jpg", "d/a-b.jpg"]);
    // root, then current directory, then parent, then names
    assert_eq!(
        sorted(&["b.jpg", "../c.jpg", "./d.jpg", "/e.jpg"]),
        vec!["/e.jpg", "./d.jpg", "../c.jpg", "b.jpg"]
    );
    // redundant separators and `.` parts do not matter; equal paths keep their order
    assert_eq!(sorted(&["x//y.jpg", "x/./y.jpg", "x/y.jpg"]), vec!["x//y.jpg", "x/./y.jpg", "x/y.jpg"]);
    assert_eq!(sorted(&["x/y.jpg", "x//y.jpg"]), vec!["x/y.jpg", "x//y.jpg"]);
}

#[test]
fn path_order_agrees_with_std() {
    let names = [
        "b.jpg", "a.jpg", "d/a-b.jpg", "d/a/x.jpg", "/z/y.png", "./c.png", "../q.gif", "a", "a/b",
        "A.jpg", "photos/2.jpg", "photos/10.jpg", "x//y", "x/./y", "/",
    ];
    let got = sorted(&names);
    let mut expected: Vec<PathBuf> = names.iter().map(PathBuf::from).collect();
    expected.sort();
    let got_paths: Vec<PathBuf> = got.iter().map(PathBuf::from).collect();
    for w in got_paths.windows(2) {
        assert!(w[0] <= w[1], "{:?} > {:?}", w[0], w[1]);
    }
    let mut a = got_paths.clone();
    a.sort();
    assert_eq!(a, expected);
}
