use oidw::index::{
    data_dir_or_default, dataset_root, index_class_folder, jpg_image_id, list_local_classes,
    parse_yolo_labels, parse_yolo_line, sort_index, FoundFile, FoundLabel,
};
use oidw::models::{ImageEntry, YoloBox};

#[test]
fn test_parse_yolo_labels_valid() {
    let text = "0 0.5 0.5 0.4 0.3\n1 0.2 0.8 0.1 0.2\n";
    let boxes = parse_yolo_labels(text);
    assert_eq!(boxes.len(), 2);
    assert_eq!(boxes[0].class_idx, 0);
    let cx: f32 = boxes[0].cx.parse().unwrap();
    assert!((cx - 0.5).abs() < 1e-6);
    assert_eq!(boxes[1].class_idx, 1);
}

#[test]
fn test_parse_yolo_labels_missing_file() {
    // A label file that cannot be read contributes no text.
    let boxes = parse_yolo_labels("");
    assert!(boxes.is_empty());
}

#[test]
fn test_parse_yolo_labels_malformed() {
    let text = "0 0.5 0.5\nnot_a_number 0.5 0.5 0.4 0.3\n";
    let boxes = parse_yolo_labels(text);
    assert!(boxes.is_empty());
}

#[test]
fn yolo_line_keeps_coordinate_texts_and_ignores_extra_words() {
    let b = parse_yolo_line("  3\t1e-1 +0.25 .5 7. extra").unwrap();
    assert_eq!(b.class_idx, 3);
    assert_eq!(b.cx, "1e-1");
    assert_eq!(b.cy, "+0.25");
    assert_eq!(b.w, ".5");
    assert_eq!(b.h, "7.");
    assert!(parse_yolo_line("-1 0 0 0 0").is_none());
    assert!(parse_yolo_line("1 0 0 0 x").is_none());
    assert!(parse_yolo_line("4294967296 0 0 0 0").is_none());
    assert!(parse_yolo_line("4294967295 inf NaN -0 1E3").is_some());
}

#[test]
fn jpg_ids() {
    assert_eq!(jpg_image_id("000a1249af2bc5f0.jpg"), Some("000a1249af2bc5f0".to_string()));
    assert_eq!(jpg_image_id("a.b.jpg"), Some("a.b".to_string()));
    assert_eq!(jpg_image_id("..jpg"), Some(".".to_string()));
    assert_eq!(jpg_image_id(".jpg"), None);
    assert_eq!(jpg_image_id("photo.JPG"), None);
    assert_eq!(jpg_image_id("photo.jpeg"), None);
    assert_eq!(jpg_image_id("jpg"), None);
    assert_eq!(jpg_image_id("photo.jpg.txt"), None);
}

fn found(name: &str, path: &str) -> FoundFile {
    FoundFile { name: name.to_string(), path: path.to_string(), label: None }
}

#[test]
fn class_folder_entries_with_and_without_labels() {
    let mut a = found("a.jpg", "/d/train/Cat/a.jpg");
    a.label = Some(FoundLabel {
        path: "/d/train/Cat/Label/A.txt".to_string(),
        text: "0 0.5 0.5 0.2 0.2\nbad\n".to_string(),
    });
    let files = vec![
        found("b.jpg", "/d/train/Cat/b.jpg"),
        found("notes.txt", "/d/train/Cat/notes.txt"),
        a,
    ];
    let entries = index_class_folder("train", "Cat", &files);
    assert_eq!(entries.len(), 2);
    assert_eq!(entries[0].image_id, "b");
    assert_eq!(entries[0].path, "/d/train/Cat/b.jpg");
    assert_eq!(entries[0].label_path, None);
    assert!(entries[0].boxes.is_empty());
    assert_eq!(entries[1].image_id, "a");
    assert_eq!(entries[1].class_name, "Cat");
    assert_eq!(entries[1].split, "train");
    assert_eq!(entries[1].label_path, Some("/d/train/Cat/Label/A.txt".to_string()));
    assert_eq!(entries[1].boxes.len(), 1);
    assert!(index_class_folder("train", "Label", &files).is_empty());
}

fn entry(split: &str, class_name: &str, id: &str, path: &str) -> ImageEntry {
    ImageEntry {
        path: path.to_string(),
        image_id: id.to_string(),
        class_name: class_name.to_string(),
        split: split.to_string(),
        label_path: None,
        boxes: Vec::<YoloBox>::new(),
    }
}

#[test]
fn index_is_sorted_by_split_class_and_id_stably() {
    let entries = vec![
        entry("validation", "Cat", "a", "p1"),
        entry("train", "Dog", "b", "p2"),
        entry("train", "Cat", "z", "p3"),
        entry("train", "Cat", "c", "p4"),
        entry("train", "Cat", "c", "p5"),
    ];
    let sorted = sort_index(&entries);
    let paths: Vec<&str> = sorted.iter().map(|e| e.path.as_str()).collect();
    assert_eq!(paths, vec!["p4", "p5", "p3", "p2", "p1"]);
}

#[test]
fn local_classes_are_distinct_and_sorted() {
    let entries = vec![
        entry("train", "Dog", "a", "p"),
        entry("test", "Cat", "b", "p"),
        entry("train", "Dog", "c", "p"),
    ];
    assert_eq!(list_local_classes(&entries), vec!["Cat".to_string(), "Dog".to_string()]);
    assert!(list_local_classes(&Vec::new()).is_empty());
}

#[test]
fn dataset_roots() {
    assert_eq!(dataset_root(Some("/x/y".to_string()), "/data"), "/x/y");
    assert_eq!(dataset_root(None, "/data"), "/data/Dataset");
    assert_eq!(data_dir_or_default(None), "OID");
    assert_eq!(data_dir_or_default(Some("/a".to_string())), "/a");
}

#[test]
fn sorting_a_sorted_index_changes_nothing() {
    let entries = vec![
        entry("train", "Dog", "b", "p1"),
        entry("test", "Cat", "a", "p2"),
        entry("train", "Dog", "b", "p3"),
    ];
    let once = sort_index(&entries);
    let twice = sort_index(&once);
    let a: Vec<&str> = once.iter().map(|e| e.path.as_str()).collect();
    let b: Vec<&str> = twice.iter().map(|e| e.path.as_str()).collect();
    assert_eq!(a, vec!["p2", "p1", "p3"]);
    assert_eq!(a, b);
}
