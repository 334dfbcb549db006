use oidw::display::{
    class_suggestions, colour_for_class, contains_text, errors_text, format_elapsed, images_text,
    job_status_label, pick_suggestions,
};
use oidw::plan::job_id_from_clock;
use oidw::csv_meta::parse_class_descriptions;
use oidw::models::{DownloadConfig, DownloadJob, ImageEntry, ImageFilters, ProgressEvent, Split, YoloBox};
use oidw::numbers::{decimal_text, is_float_text, parse_i8, parse_u32, parse_usize};
use oidw::state::{AppState, DownloadFormState, Screen, ViewerState};

#[test]
fn split_folders_and_files() {
    assert_eq!(Split::Train.folders(), vec!["train"]);
    assert_eq!(Split::All.folders(), vec!["train", "validation", "test"]);
    assert_eq!(Split::Validation.annotation_files(), vec!["validation-annotations-bbox.csv"]);
    assert_eq!(Split::All.annotation_files().len(), 3);
    assert_eq!(Split::Test.as_str(), "test");
    assert_eq!(Split::All.as_str(), "all");
}

#[test]
fn defaults() {
    let c = DownloadConfig::default();
    assert!(c.classes.is_empty());
    assert_eq!(c.split, Split::Train);
    assert_eq!(c.threads, 20);
    assert_eq!(c.limit, None);
    assert!(!c.multiclass && !c.no_labels);
    assert_eq!(c.dataset_dir, None);
    let f = ImageFilters::default();
    assert_eq!(f.is_inside, None);
    let form = DownloadFormState::default();
    assert_eq!(form.threads_str, "20");
    assert_eq!(form.limit_str, "");
    let v = ViewerState::default();
    assert_eq!(v.current_index, 0);
    assert_eq!(Screen::Viewer.as_str(), "Viewer");
    assert_eq!(Screen::Home.as_str(), "Home");
}

fn event(job: &str, class_name: &str, split: &str, downloaded: usize, total: usize, error: Option<&str>) -> ProgressEvent {
    ProgressEvent {
        job_id: job.to_string(),
        class_name: class_name.to_string(),
        split: split.to_string(),
        downloaded,
        total,
        finished: false,
        error: error.map(|e| e.to_string()),
    }
}

#[test]
fn job_takes_in_events() {
    let mut job = DownloadJob::new("job-1".to_string(), "Cat".to_string(), "train".to_string());
    assert_eq!(job.downloaded, 0);
    assert_eq!(job.total, 0);
    job.apply(&event("job-1", "Cat", "train", 0, 10, None));
    assert_eq!(job.total, 10);
    job.apply(&event("job-1", "Cat", "train", 3, 0, Some("HTTP 404")));
    assert_eq!(job.downloaded, 3);
    assert_eq!(job.total, 10);
    assert_eq!(job.errors, vec!["HTTP 404".to_string()]);
    assert!(job.elapsed_secs() < 60);
}

#[test]
fn progress_goes_to_the_matching_job_or_a_new_one() {
    let mut s = AppState::new("/data".to_string());
    s.add_job("job-1", "Cat", "train");
    s.add_job("job-1", "Dog", "train");
    s.apply_progress(event("job-1", "Dog", "train", 2, 5, None));
    assert_eq!(s.jobs.len(), 2);
    assert_eq!(s.jobs[1].downloaded, 2);
    assert_eq!(s.jobs[0].downloaded, 0);
    s.apply_progress(event("job-1", "Dog", "validation", 1, 4, Some("boom")));
    assert_eq!(s.jobs.len(), 3);
    assert_eq!(s.jobs[2].split, "validation");
    assert_eq!(s.jobs[2].total, 4);
    assert_eq!(s.jobs[2].errors.len(), 1);
}

#[test]
fn app_dirs() {
    let s = AppState::new("/data".to_string());
    assert_eq!(s.csv_dir(), "/data/csv_folder");
    assert_eq!(s.dataset_dir(), "/data/Dataset");
    assert_eq!(s.screen, Screen::Home);
}

#[test]
fn toggling_and_removing_classes() {
    let mut f = DownloadFormState::default();
    f.class_search = "ca".to_string();
    f.toggle_class("Cat".to_string());
    f.toggle_class("Dog".to_string());
    assert_eq!(f.selected_classes, vec!["Cat", "Dog"]);
    assert_eq!(f.class_search, "");
    f.toggle_class("Cat".to_string());
    assert_eq!(f.selected_classes, vec!["Dog"]);
    f.toggle_class("Cat".to_string());
    f.toggle_class("Dog".to_string());
    assert_eq!(f.selected_classes, vec!["Cat"]);
    f.selected_classes = vec!["A".to_string(), "B".to_string(), "A".to_string()];
    f.remove_class("A");
    assert_eq!(f.selected_classes, vec!["B"]);
}

#[test]
fn config_from_form() {
    let mut f = DownloadFormState::default();
    assert_eq!(
        f.download_config("/data/Dataset").unwrap_err(),
        "❌ Please select at least one class."
    );
    f.selected_classes = vec!["Cat".to_string()];
    f.limit_str = "100".to_string();
    f.threads_str = "eight".to_string();
    f.is_group_of = Some(false);
    let c = f.download_config("/data/Dataset").unwrap();
    assert_eq!(c.classes, vec!["Cat"]);
    assert_eq!(c.limit, Some(100));
    assert_eq!(c.threads, 20);
    assert_eq!(c.filters.is_group_of, Some(false));
    assert_eq!(c.dataset_dir, Some("/data/Dataset".to_string()));
    f.limit_str = String::new();
    f.threads_str = "4".to_string();
    let c = f.download_config("d").unwrap();
    assert_eq!(c.limit, None);
    assert_eq!(c.threads, 4);
}

fn image(split: &str, class_name: &str, id: &str) -> ImageEntry {
    ImageEntry {
        path: format!("/d/{}/{}/{}.jpg", split, class_name, id),
        image_id: id.to_string(),
        class_name: class_name.to_string(),
        split: split.to_string(),
        label_path: None,
        boxes: Vec::<YoloBox>::new(),
    }
}

#[test]
fn viewer_filters_and_navigation() {
    let mut s = AppState::new("/data".to_string());
    s.set_images(vec![
        image("train", "Cat", "a"),
        image("train", "Dog", "b"),
        image("test", "Cat", "c"),
    ]);
    assert_eq!(s.filtered_images().len(), 3);
    assert_eq!(s.viewer_classes(), vec!["Cat", "Dog"]);
    assert_eq!(s.viewer_splits(), vec!["test", "train"]);
    s.set_class_filter("Cat".to_string());
    let f = s.filtered_images();
    assert_eq!(f.len(), 2);
    assert_eq!(f[1].image_id, "c");
    s.set_split_filter("test".to_string());
    assert_eq!(s.filtered_images().len(), 1);
    s.set_split_filter(String::new());
    s.next_image();
    assert_eq!(s.viewer.current_index, 1);
    s.next_image();
    assert_eq!(s.viewer.current_index, 1);
    assert_eq!(s.current_image().unwrap().image_id, "c");
    s.prev_image();
    s.prev_image();
    assert_eq!(s.viewer.current_index, 0);
    s.viewer.current_index = 7;
    assert!(s.current_image().is_none());
    assert_eq!(s.shown_index(), 1);
    s.set_class_filter("Bird".to_string());
    assert_eq!(s.shown_index(), 0);
}

#[test]
fn elapsed_texts() {
    assert_eq!(format_elapsed(0), "0s");
    assert_eq!(format_elapsed(59), "59s");
    assert_eq!(format_elapsed(60), "1m 0s");
    assert_eq!(format_elapsed(3725), "62m 5s");
}

#[test]
fn box_colours_repeat_every_ten() {
    assert_eq!(colour_for_class(0), 0x48bb78);
    assert_eq!(colour_for_class(9), 0xfeb2b2);
    assert_eq!(colour_for_class(13), 0xfc8181);
}

#[test]
fn suggestions() {
    let classes = parse_class_descriptions("/m/1,Cat\n/m/2,Catfish\n/m/3,Dog\n/m/4,Bobcat\n");
    assert_eq!(class_suggestions(&classes, "CA"), vec!["Cat", "Catfish", "Bobcat"]);
    assert!(class_suggestions(&classes, "c").is_empty());
    assert!(class_suggestions(&classes, "").is_empty());
    assert_eq!(class_suggestions(&classes, "é").len(), 0);
    let accented = parse_class_descriptions("/m/5,Café\n/m/6,Crème brûlée\n");
    assert!(class_suggestions(&accented, "É").is_empty());
    assert_eq!(class_suggestions(&accented, "ÉE"), vec!["Crème brûlée"]);
    assert_eq!(class_suggestions(&accented, "FÉ"), vec!["Café"]);
    let dotted = parse_class_descriptions("/m/7,i\u{307}x\n");
    assert!(class_suggestions(&dotted, "\u{130}").is_empty());
    assert_eq!(class_suggestions(&dotted, "\u{130}X"), vec!["i\u{307}x"]);
    let many: Vec<String> = (0..60).map(|i| format!("item{}", i)).collect();
    let picked = pick_suggestions(&many, &many, "item", "item");
    assert_eq!(picked.len(), 50);
    assert_eq!(picked[49], "item49");
    assert!(contains_text("bobcat", "cat"));
    assert!(contains_text("cat", ""));
    assert!(!contains_text("ca", "cat"));
}

#[test]
fn number_texts() {
    assert_eq!(parse_u32("+42"), Some(42));
    assert_eq!(parse_u32("4294967296"), None);
    assert_eq!(parse_u32(" 1"), None);
    assert_eq!(parse_usize("20"), Some(20));
    assert_eq!(parse_usize(""), None);
    assert_eq!(parse_i8("-128"), Some(-128));
    assert_eq!(parse_i8("128"), None);
    assert!(is_float_text("1.5e-3"));
    assert!(is_float_text("-Infinity"));
    assert!(!is_float_text("1.5.2"));
    assert!(!is_float_text(""));
    assert_eq!(decimal_text(0), "0");
    assert_eq!(decimal_text(1234567890), "1234567890");
    assert_eq!(decimal_text(u128::MAX), u128::MAX.to_string());
}

#[test]
fn job_rows_per_folder_and_class() {
    let mut s = AppState::new("/data".to_string());
    s.all_classes = parse_class_descriptions("/m/1,Cat\n");
    s.download_form.selected_classes = vec!["Cat".to_string()];
    s.add_job("old", "X", "train");
    let mut c = DownloadConfig::default();
    c.classes = vec!["Cat".to_string(), "Dog".to_string()];
    c.split = Split::All;
    s.add_job_rows("job-7", &c);
    assert_eq!(s.jobs.len(), 7);
    assert_eq!(s.jobs[0].job_id, "old");
    let keys: Vec<(String, String)> =
        s.jobs[1..].iter().map(|j| (j.class_name.clone(), j.split.clone())).collect();
    assert_eq!(keys[0], ("Cat".to_string(), "train".to_string()));
    assert_eq!(keys[1], ("Dog".to_string(), "train".to_string()));
    assert_eq!(keys[5], ("Dog".to_string(), "test".to_string()));
    assert!(s.jobs[1..].iter().all(|j| j.job_id == "job-7" && j.total == 0 && !j.finished));
    assert_eq!(s.all_classes.len(), 1);
    assert_eq!(s.download_form.selected_classes, vec!["Cat"]);
    s.clear_jobs();
    assert!(s.jobs.is_empty());
    assert_eq!(s.all_classes.len(), 1);
}

#[test]
fn job_started_at_a_given_instant() {
    let t = std::time::Instant::now();
    let job = DownloadJob::starting_at("j".to_string(), "Cat".to_string(), "test".to_string(), t);
    assert_eq!(job.started_at, t);
    assert_eq!(job.split, "test");
    assert!(job.errors.is_empty());
}

#[test]
fn job_lines() {
    assert_eq!(job_status_label(true), "✅ Done");
    assert_eq!(job_status_label(false), "⏳ Running");
    assert_eq!(images_text(3, 0), "3 / ? images");
    assert_eq!(images_text(3, 12), "3 / 12 images");
    let errors: Vec<String> = vec!["a", "b", "c", "d"].into_iter().map(String::from).collect();
    assert_eq!(errors_text(&errors), "4 error(s): a; b; c");
    assert_eq!(errors_text(&vec!["only".to_string()]), "1 error(s): only");
}

#[test]
fn job_ids_from_clock_readings() {
    assert_eq!(job_id_from_clock(None), "job-0");
    assert_eq!(job_id_from_clock(Some(42)), "job-42");
}

#[test]
fn selecting_classes_keeps_each_once() {
    let mut f = DownloadFormState::default();
    f.select_class("Cat".to_string());
    f.select_class("Dog".to_string());
    f.select_class("Cat".to_string());
    assert_eq!(f.selected_classes, vec!["Cat", "Dog"]);
}

#[test]
fn fetch_status_messages() {
    let mut f = DownloadFormState::default();
    f.start_fetch();
    assert!(f.is_loading);
    assert_eq!(f.status_msg, "Fetching annotation CSVs…");
    f.finish_fetch(Ok(()));
    assert!(!f.is_loading);
    assert_eq!(f.status_msg, "✅ Annotation CSVs ready.");
    f.finish_fetch(Err("HTTP 500".to_string()));
    assert_eq!(f.status_msg, "❌ HTTP 500");
}

#[test]
fn refresh_and_class_load() {
    let mut s = AppState::new("/data".to_string());
    s.set_images(vec![image("train", "Cat", "a"), image("train", "Cat", "b")]);
    s.next_image();
    s.start_refresh();
    assert!(s.viewer.is_loading);
    s.finish_refresh(Err("unreadable".to_string()));
    assert!(!s.viewer.is_loading);
    assert_eq!(s.images.len(), 2);
    assert_eq!(s.viewer.current_index, 1);
    s.finish_refresh(Ok(vec![image("test", "Dog", "c")]));
    assert_eq!(s.images.len(), 1);
    assert_eq!(s.viewer.current_index, 0);
    s.start_class_load();
    assert!(s.classes_loading);
    s.finish_class_load(Err("offline".to_string()));
    assert!(!s.classes_loading);
    assert_eq!(s.classes_error, "offline");
    s.finish_class_load(Ok(parse_class_descriptions("/m/1,Cat\n")));
    assert_eq!(s.all_classes.len(), 1);
}

#[test]
fn join_separators() {
    assert_eq!(oidw::csv_meta::csv_dir("/data/"), "/data/csv_folder");
    assert_eq!(oidw::csv_meta::csv_dir(""), "csv_folder");
    assert_eq!(oidw::index::dataset_root(None, "rel"), "rel/Dataset");
}
