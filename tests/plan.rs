use iresizer::error::ResizeError;
use iresizer::plan::{classify_input, has_image_extension, plan_directory, InputKind, WalkEntry};

fn path(parts: &[&str]) -> Vec<String> {
    parts.iter().map(|p| p.to_string()).collect()
}

fn entry(parts: &[&str], is_file: bool) -> WalkEntry {
    WalkEntry { rel: path(parts), is_file }
}

fn sample_tree() -> Vec<WalkEntry> {
    vec![
        entry(&["a.jpg"], true),
        entry(&["sub"], false),
        entry(&["sub", "b.png"], true),
        entry(&["notes.txt"], true),
    ]
}

#[test]
fn non_recursive_plan_keeps_direct_images() {
    let jobs = plan_directory(&path(&["in"]), &path(&["out"]), &sample_tree(), false);
    assert_eq!(jobs.len(), 1);
    assert_eq!(jobs[0].source, path(&["in", "a.jpg"]));
    assert_eq!(jobs[0].destination, path(&["out", "a.jpg"]));
    assert_eq!(jobs[0].destination_dir, path(&["out"]));
}

#[test]
fn recursive_plan_mirrors_subdirectories() {
    let jobs = plan_directory(&path(&["in"]), &path(&["out"]), &sample_tree(), true);
    assert_eq!(jobs.len(), 2);
    assert_eq!((jobs[0].entry, jobs[1].entry), (0, 2));
    assert_eq!(jobs[0].source, path(&["in", "a.jpg"]));
    assert_eq!(jobs[0].destination, path(&["out", "a.jpg"]));
    assert_eq!(jobs[1].source, path(&["in", "sub", "b.png"]));
    assert_eq!(jobs[1].destination, path(&["out", "sub", "b.png"]));
    assert_eq!(jobs[1].destination_dir, path(&["out", "sub"]));
}

#[test]
fn plan_of_empty_walk_is_empty() {
    let jobs = plan_directory(&path(&["in"]), &path(&["out"]), &Vec::new(), true);
    assert!(jobs.is_empty());
}

#[test]
fn directories_named_like_images_are_skipped() {
    let entries = vec![entry(&["album.png"], false), entry(&["album.png", "c.BMP"], true)];
    let jobs = plan_directory(&path(&["/", "data"]), &path(&["o"]), &entries, true);
    assert_eq!(jobs.len(), 1);
    assert_eq!(jobs[0].source, path(&["/", "data", "album.png", "c.BMP"]));
    assert_eq!(jobs[0].destination, path(&["o", "album.png", "c.BMP"]));
}

#[test]
fn image_extensions_ignore_case() {
    assert!(has_image_extension("a.jpg"));
    assert!(has_image_extension("a.JPEG"));
    assert!(has_image_extension("a.b.PnG"));
    assert!(has_image_extension("x.bmp"));
    assert!(!has_image_extension("notes.txt"));
    assert!(!has_image_extension("png"));
    assert!(!has_image_extension(".png"));
    assert!(!has_image_extension("a.png.txt"));
    assert!(!has_image_extension("a.jpgx"));
    assert!(!has_image_extension("a."));
    assert!(!has_image_extension(".."));
    assert!(!has_image_extension(""));
    assert!(has_image_extension("..png"));
}

#[test]
fn missing_input_is_invalid_path() {
    assert_eq!(classify_input(false, false), Err(ResizeError::InvalidInputPath));
    assert_eq!(classify_input(true, false), Ok(InputKind::File));
    assert_eq!(classify_input(false, true), Ok(InputKind::Directory));
}
