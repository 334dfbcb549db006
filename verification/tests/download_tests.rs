use oidw::csv_meta::parse_class_descriptions;
use oidw::plan::{run_schedule, RunStep, TaskProgress};
use oidw::download::{find_columns, load_bbox_rows};
use oidw::models::{BBoxRow, DownloadConfig, ImageFilters, Split};
use oidw::plan::{
    boxes_of_image, generate_job_id, image_file_name, image_url, job_id_for, join_texts,
    label_file_name, label_groups, plan_download, resolve_codes, select_image_ids, start_event,
    finish_event, task_event,
};

const CSV: &str = "ImageID,Source,LabelName,Confidence,XMin,XMax,YMin,YMax,IsOccluded,IsTruncated,IsGroupOf,IsDepiction,IsInside\n\
img1,xclick,/m/cat,1,0.1,0.5,0.2,0.6,0,1,0,0,0\n\
img2,xclick,/m/dog,1,0.0,1.0,0.0,1.0,0,0,0,0,0\n\
img1,xclick,/m/cat,1, 0.3 ,0.4,0.3,0.4,1,0,0,0,0\n\
img3,xclick,/m/cat,1,bad,0.4,0.3,0.4,0,0,0,0,0\n\
img0,xclick, /m/cat ,1,0.0,0.2,0.0,0.2,0,0,0,0,0\n";

#[test]
fn rows_of_a_class_in_record_order() {
    let rows = load_bbox_rows(CSV.as_bytes(), "/m/cat", &ImageFilters::default()).unwrap();
    assert_eq!(rows.len(), 3);
    assert_eq!(rows[0].image_id, "img1");
    assert_eq!(rows[0].label_name, "/m/cat");
    assert_eq!(rows[0].x_min, "0.1");
    assert_eq!(rows[0].y_max, "0.6");
    assert_eq!(rows[0].is_truncated, Some(1));
    assert_eq!(rows[1].x_min, "0.3");
    assert_eq!(rows[1].is_occluded, Some(1));
    assert_eq!(rows[2].image_id, "img0");
}

#[test]
fn rows_filtered_by_flags() {
    let mut f = ImageFilters::default();
    f.is_occluded = Some(false);
    let rows = load_bbox_rows(CSV.as_bytes(), "/m/cat", &f).unwrap();
    assert_eq!(rows.len(), 2);
    assert_eq!(rows[0].image_id, "img1");
    assert_eq!(rows[1].image_id, "img0");
    let mut f = ImageFilters::default();
    f.is_truncated = Some(true);
    let rows = load_bbox_rows(CSV.as_bytes(), "/m/cat", &f).unwrap();
    assert_eq!(rows.len(), 1);
    assert_eq!(rows[0].x_max, "0.5");
}

#[test]
fn missing_columns_are_errors() {
    let data = "ImageID,LabelName,XMin,XMax,YMin\nimg,/m/cat,0,1,0\n";
    let r = load_bbox_rows(data.as_bytes(), "/m/cat", &ImageFilters::default());
    assert_eq!(r.unwrap_err(), "Missing YMax column");
    let data = "LabelName\n";
    let r = load_bbox_rows(data.as_bytes(), "/m/cat", &ImageFilters::default());
    assert_eq!(r.unwrap_err(), "Missing ImageID column");
    let headers: Vec<String> =
        vec!["ImageID", "LabelName", "XMin", "XMax", "YMin", "YMax"].into_iter().map(String::from).collect();
    let cols = find_columns(&headers).unwrap();
    assert_eq!(cols.y_max, 5);
    assert_eq!(cols.is_occluded, None);
}

#[test]
fn missing_flag_columns_fail_set_filters() {
    let data = "ImageID,LabelName,XMin,XMax,YMin,YMax\nimg,/m/cat,0,1,0,1\n";
    let rows = load_bbox_rows(data.as_bytes(), "/m/cat", &ImageFilters::default()).unwrap();
    assert_eq!(rows.len(), 1);
    assert_eq!(rows[0].is_inside, None);
    let mut f = ImageFilters::default();
    f.is_inside = Some(false);
    let rows = load_bbox_rows(data.as_bytes(), "/m/cat", &f).unwrap();
    assert!(rows.is_empty());
}

#[test]
fn unreadable_record_is_an_error() {
    let data: &[u8] = b"ImageID,LabelName,XMin,XMax,YMin,YMax\nimg,/m/cat,0,1,0,1\nimg,\xff,0,1,0,1\n";
    let r = load_bbox_rows(data, "/m/cat", &ImageFilters::default());
    assert!(r.is_err());
    let bad_header: &[u8] = b"Image\xffID\n";
    assert!(load_bbox_rows(bad_header, "/m/cat", &ImageFilters::default()).is_err());
}

fn row(id: &str, x_min: &str) -> BBoxRow {
    BBoxRow {
        image_id: id.to_string(),
        label_name: "/m/cat".to_string(),
        x_min: x_min.to_string(),
        x_max: "1".to_string(),
        y_min: "0".to_string(),
        y_max: "1".to_string(),
        is_occluded: None,
        is_truncated: None,
        is_group_of: None,
        is_depiction: None,
        is_inside: None,
    }
}

#[test]
fn image_ids_are_distinct_sorted_and_limited() {
    let rows = vec![row("c", "0"), row("a", "0"), row("c", "0.5"), row("b", "0")];
    assert_eq!(select_image_ids(&rows, None), vec!["a", "b", "c"]);
    assert_eq!(select_image_ids(&rows, Some(2)), vec!["a", "b"]);
    assert_eq!(select_image_ids(&rows, Some(10)), vec!["a", "b", "c"]);
    assert!(select_image_ids(&rows, Some(0)).is_empty());
    assert!(select_image_ids(&Vec::new(), None).is_empty());
}

#[test]
fn label_groups_follow_images_on_disk() {
    let rows = vec![row("c", "0"), row("a", "0.1"), row("c", "0.5")];
    let c = boxes_of_image(&rows, "c");
    assert_eq!(c.len(), 2);
    assert_eq!(c[1].x_min, "0.5");
    let on_disk = vec!["x".to_string(), "c".to_string(), "a".to_string()];
    let groups = label_groups(&rows, &on_disk);
    assert_eq!(groups.len(), 2);
    assert_eq!(groups[0].image_id, "c");
    assert_eq!(groups[0].boxes.len(), 2);
    assert_eq!(groups[1].image_id, "a");
    assert_eq!(groups[1].boxes[0].x_min, "0.1");
}

fn config(classes: &[&str], split: Split, multiclass: bool) -> DownloadConfig {
    let mut c = DownloadConfig::default();
    c.classes = classes.iter().map(|s| s.to_string()).collect();
    c.split = split;
    c.multiclass = multiclass;
    c
}

#[test]
fn plan_covers_each_folder_and_class() {
    let known = parse_class_descriptions("/m/cat,Cat\n/m/dog,Dog\n");
    let tasks = plan_download(&config(&["Dog", "Cat"], Split::All, false), &known).unwrap();
    assert_eq!(tasks.len(), 6);
    assert_eq!(tasks[0].split_folder, "train");
    assert_eq!(tasks[0].annotation_file, "train-annotations-bbox.csv");
    assert_eq!(tasks[0].class_name, "Dog");
    assert_eq!(tasks[0].class_code, "/m/dog");
    assert_eq!(tasks[0].class_idx, 0);
    assert_eq!(tasks[0].folder_name, "Dog");
    assert_eq!(tasks[1].class_name, "Cat");
    assert_eq!(tasks[1].class_idx, 1);
    assert_eq!(tasks[5].split_folder, "test");
    assert_eq!(tasks[5].annotation_file, "test-annotations-bbox.csv");
    assert_eq!(tasks[5].class_code, "/m/cat");
    let tasks = plan_download(&config(&["Dog", "Cat"], Split::Validation, true), &known).unwrap();
    assert_eq!(tasks.len(), 2);
    assert_eq!(tasks[0].folder_name, "Dog_Cat");
    assert_eq!(tasks[1].folder_name, "Dog_Cat");
    assert_eq!(tasks[1].split_folder, "validation");
}

#[test]
fn plan_refuses_unknown_class() {
    let known = parse_class_descriptions("/m/cat,Cat\n");
    let r = plan_download(&config(&["Cat", "Unicorn", "Yeti"], Split::Train, false), &known);
    assert_eq!(r.unwrap_err(), "Unknown class: 'Unicorn'");
    let codes = resolve_codes(&vec!["Cat".to_string()], &known).unwrap();
    assert_eq!(codes, vec!["/m/cat"]);
}

#[test]
fn joined_names() {
    let parts: Vec<String> = vec!["a".to_string(), "b".to_string(), "c".to_string()];
    assert_eq!(join_texts(&parts, "_"), "a_b_c");
    assert_eq!(join_texts(&Vec::new(), "_"), "");
}

#[test]
fn urls_and_file_names() {
    assert_eq!(
        image_url("train", "000a1249af2bc5f0"),
        "https://open-images-dataset.s3.amazonaws.com/train/000a1249af2bc5f0.jpg"
    );
    assert_eq!(image_file_name("abc"), "abc.jpg");
    assert_eq!(label_file_name("abc"), "abc.txt");
}

#[test]
fn job_ids() {
    assert_eq!(job_id_for(0), "job-0");
    assert_eq!(job_id_for(1700000000123456789), "job-1700000000123456789");
    let id = generate_job_id();
    assert!(id.starts_with("job-"));
    assert!(id[4..].chars().all(|c| c.is_ascii_digit()));
    assert!(id.len() > 4);
}

#[test]
fn task_events() {
    let known = parse_class_descriptions("/m/cat,Cat\n");
    let tasks = plan_download(&config(&["Cat"], Split::Test, false), &known).unwrap();
    let s = start_event("job-1", &tasks[0], 4);
    assert_eq!((s.downloaded, s.total, s.finished), (0, 4, false));
    assert_eq!(s.split, "test");
    assert_eq!(s.class_name, "Cat");
    let e = task_event("job-1", &tasks[0], 4, 2, false, Some("HTTP 404".to_string()));
    assert_eq!(e.downloaded, 2);
    assert_eq!(e.error, Some("HTTP 404".to_string()));
    let f = finish_event("job-1", &tasks[0], 4);
    assert_eq!((f.downloaded, f.total, f.finished, f.error), (4, 4, true, None));
    assert_eq!(f.job_id, "job-1");
}

#[test]
fn run_order_and_task_progress() {
    assert_eq!(
        run_schedule(2, 2),
        vec![
            RunStep::CheckFolder(0),
            RunStep::RunTask(0),
            RunStep::RunTask(1),
            RunStep::CheckFolder(1),
            RunStep::RunTask(2),
            RunStep::RunTask(3),
        ]
    );
    assert_eq!(run_schedule(3, 0), vec![RunStep::CheckFolder(0), RunStep::CheckFolder(1), RunStep::CheckFolder(2)]);
    let known = parse_class_descriptions("/m/cat,Cat\n");
    let tasks = plan_download(&config(&["Cat"], Split::Validation, false), &known).unwrap();
    let (mut p, start) = TaskProgress::begin("job-9", &tasks[0], 2);
    assert_eq!((start.downloaded, start.total, start.finished), (0, 2, false));
    let e1 = p.image_done(None);
    let e2 = p.image_done(Some("HTTP 403".to_string()));
    assert_eq!((e1.downloaded, e2.downloaded), (1, 2));
    assert_eq!(e2.error, Some("HTTP 403".to_string()));
    assert_eq!(e2.split, "validation");
    let f = p.finish();
    assert_eq!((f.downloaded, f.total, f.finished), (2, 2, true));
}
