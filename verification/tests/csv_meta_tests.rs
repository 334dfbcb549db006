use oidw::csv_meta::{
    annotation_url, class_code, class_from_line, csv_dir, csv_source_url, parse_class_descriptions,
    sorted_classes, split_for_name,
};
use oidw::models::Split;

#[test]
fn test_load_classes_parses_csv() {
    let text = "/m/01g317,Person\n/m/0199g,Bicycle\n/m/04_sv,Bus\n";
    let classes = sorted_classes(text);
    assert_eq!(classes.len(), 3);
    assert_eq!(classes[0].name, "Bicycle");
    assert_eq!(classes[1].name, "Bus");
    assert_eq!(classes[2].name, "Person");
    assert_eq!(classes[2].code, "/m/01g317");
}

#[test]
fn sorted_classes_of_empty_text_is_empty() {
    assert!(sorted_classes("").is_empty());
}

#[test]
fn class_line_is_split_at_first_comma_and_trimmed() {
    let e = class_from_line("  /m/0k4j , \"Car, toy\" ").unwrap();
    assert_eq!(e.code, "/m/0k4j");
    assert_eq!(e.name, "Car, toy");
    assert!(class_from_line("no comma here").is_none());
    let e = class_from_line("/m/1,").unwrap();
    assert_eq!(e.code, "/m/1");
    assert_eq!(e.name, "");
}

#[test]
fn class_lines_with_crlf_and_blank_lines() {
    let classes = parse_class_descriptions("/m/a,Alpha\r\n\r\nbad\n/m/b,Beta");
    assert_eq!(classes.len(), 2);
    assert_eq!(classes[0].code, "/m/a");
    assert_eq!(classes[0].name, "Alpha");
    assert_eq!(classes[1].name, "Beta");
}

#[test]
fn sorting_keeps_equal_names_in_file_order() {
    let classes = sorted_classes("/m/2,Zebra\n/m/1,Apple\n/m/3,Apple\n");
    assert_eq!(classes[0].code, "/m/1");
    assert_eq!(classes[1].code, "/m/3");
    assert_eq!(classes[2].code, "/m/2");
}

#[test]
fn class_code_takes_the_last_entry_of_a_name() {
    let classes = parse_class_descriptions("/m/1,Apple\n/m/2,Pear\n/m/3,Apple\n");
    assert_eq!(class_code(&classes, "Apple"), Some("/m/3".to_string()));
    assert_eq!(class_code(&classes, "Pear"), Some("/m/2".to_string()));
    assert_eq!(class_code(&classes, "Plum"), None);
}

#[test]
fn annotation_urls() {
    assert_eq!(
        annotation_url("train-annotations-bbox.csv"),
        Ok("https://storage.googleapis.com/openimages/v5/train-annotations-bbox.csv")
    );
    assert_eq!(
        annotation_url("validation-annotations-bbox.csv"),
        Ok("https://storage.googleapis.com/openimages/v5/validation-annotations-bbox.csv")
    );
    assert_eq!(
        annotation_url("test-annotations-bbox.csv"),
        Ok("https://storage.googleapis.com/openimages/v5/test-annotations-bbox.csv")
    );
    assert_eq!(
        annotation_url("other.csv"),
        Err("Unknown annotation file: other.csv".to_string())
    );
}

#[test]
fn csv_dir_is_inside_app_data() {
    let d = csv_dir("/home/u/.local/share/oidw");
    assert_eq!(d, "/home/u/.local/share/oidw/csv_folder");
}

#[test]
fn release_csv_urls() {
    assert_eq!(
        csv_source_url("class-descriptions-boxable.csv"),
        "https://storage.googleapis.com/openimages/2018_04/class-descriptions-boxable.csv"
    );
    assert_eq!(
        csv_source_url("train-annotations-bbox.csv"),
        "https://storage.googleapis.com/openimages/2018_04/train/train-annotations-bbox.csv"
    );
    assert_eq!(
        csv_source_url("nodash.csv"),
        "https://storage.googleapis.com/openimages/2018_04/nodash.csv/nodash.csv"
    );
}

#[test]
fn split_names() {
    assert_eq!(split_for_name("train"), Split::Train);
    assert_eq!(split_for_name("validation"), Split::Validation);
    assert_eq!(split_for_name("test"), Split::Test);
    assert_eq!(split_for_name("all"), Split::All);
    assert_eq!(split_for_name("anything"), Split::All);
}
