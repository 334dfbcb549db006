//! The data model: dataset splits, download configuration, annotation rows,
//! the local index and download progress.

use vstd::prelude::*;
use crate::clock::{duration_secs, elapsed_since, instant_now};

verus! {

/// A split of the Open Images dataset.
#[derive(Debug, Clone, Copy, PartialEq, Eq, Structural)]
pub enum Split {
    Train,
    Validation,
    Test,
    All,
}

/// The texts of a list of string slices.
pub open spec fn strs_view(v: Seq<&str>) -> Seq<Seq<char>> {
    v.map_values(|s: &str| s@)
}

/// The dataset folders a split covers.
pub open spec fn split_folders(split: Split) -> Seq<Seq<char>> {
    match split {
        Split::Train => seq!["train"@],
        Split::Validation => seq!["validation"@],
        Split::Test => seq!["test"@],
        Split::All => seq!["train"@, "validation"@, "test"@],
    }
}

/// The annotation CSV files a split needs, one per folder, in the same order.
pub open spec fn split_annotation_files(split: Split) -> Seq<Seq<char>> {
    match split {
        Split::Train => seq!["train-annotations-bbox.csv"@],
        Split::Validation => seq!["validation-annotations-bbox.csv"@],
        Split::Test => seq!["test-annotations-bbox.csv"@],
        Split::All => seq![
            "train-annotations-bbox.csv"@,
            "validation-annotations-bbox.csv"@,
            "test-annotations-bbox.csv"@,
        ],
    }
}

/// The lowercase name of a split.
pub open spec fn split_name(split: Split) -> Seq<char> {
    match split {
        Split::Train => "train"@,
        Split::Validation => "validation"@,
        Split::Test => "test"@,
        Split::All => "all"@,
    }
}

impl Split {
    /// The dataset folders this split covers.
    pub fn folders(&self) -> (r: Vec<&'static str>)
        ensures
            strs_view(r@) == split_folders(*self),
    {
        let r = match self {
            Split::Train => vec!["train"],
            Split::Validation => vec!["validation"],
            Split::Test => vec!["test"],
            Split::All => vec!["train", "validation", "test"],
        };
        assert(strs_view(r@) =~= split_folders(*self));
        r
    }

    /// The annotation CSV files this split needs, one per folder.
    pub fn annotation_files(&self) -> (r: Vec<&'static str>)
        ensures
            strs_view(r@) == split_annotation_files(*self),
    {
        let r = match self {
            Split::Train => vec!["train-annotations-bbox.csv"],
            Split::Validation => vec!["validation-annotations-bbox.csv"],
            Split::Test => vec!["test-annotations-bbox.csv"],
            Split::All => vec![
                "train-annotations-bbox.csv",
                "validation-annotations-bbox.csv",
                "test-annotations-bbox.csv",
            ],
        };
        assert(strs_view(r@) =~= split_annotation_files(*self));
        r
    }

    /// The lowercase name of this split.
    pub fn as_str(&self) -> (r: &'static str)
        ensures
            r@ == split_name(*self),
    {
        match self {
            Split::Train => "train",
            Split::Validation => "validation",
            Split::Test => "test",
            Split::All => "all",
        }
    }
}

/// The folders and the annotation files of a split go pairwise together:
/// each annotation file is its folder's name followed by
/// `-annotations-bbox.csv`.
pub proof fn lemma_split_files_match_folders(split: Split)
    ensures
        split_annotation_files(split).len() == split_folders(split).len(),
        forall|i: int|
            0 <= i < split_folders(split).len() ==> #[trigger] split_annotation_files(split)[i]
                == split_folders(split)[i] + "-annotations-bbox.csv"@,
{
    reveal_strlit("train");
    reveal_strlit("validation");
    reveal_strlit("test");
    reveal_strlit("-annotations-bbox.csv");
    reveal_strlit("train-annotations-bbox.csv");
    reveal_strlit("validation-annotations-bbox.csv");
    reveal_strlit("test-annotations-bbox.csv");
    assert("train-annotations-bbox.csv"@ =~= "train"@ + "-annotations-bbox.csv"@);
    assert("validation-annotations-bbox.csv"@ =~= "validation"@ + "-annotations-bbox.csv"@);
    assert("test-annotations-bbox.csv"@ =~= "test"@ + "-annotations-bbox.csv"@);
}

/// A single split covers exactly the folder of its own name; `All` covers
/// the three others in the order train, validation, test.
pub proof fn lemma_split_folders_by_name(split: Split)
    ensures
        split != Split::All ==> split_folders(split) == seq![split_name(split)],
        split == Split::All ==> split_folders(split) == split_folders(Split::Train)
            + split_folders(Split::Validation) + split_folders(Split::Test),
{
    assert(split_folders(Split::All) =~= split_folders(Split::Train) + split_folders(
        Split::Validation,
    ) + split_folders(Split::Test));
}

/// Optional requirements on the annotation flags of a box: `Some(b)` keeps
/// only the boxes whose flag is `1` for `true` or `0` for `false`.
#[derive(Debug, Clone)]
pub struct ImageFilters {
    pub is_occluded: Option<bool>,
    pub is_truncated: Option<bool>,
    pub is_group_of: Option<bool>,
    pub is_depiction: Option<bool>,
    pub is_inside: Option<bool>,
}

impl Default for ImageFilters {
    fn default() -> (r: Self)
        ensures
            r.is_occluded is None,
            r.is_truncated is None,
            r.is_group_of is None,
            r.is_depiction is None,
            r.is_inside is None,
    {
        ImageFilters {
            is_occluded: None,
            is_truncated: None,
            is_group_of: None,
            is_depiction: None,
            is_inside: None,
        }
    }
}

/// What a download job fetches and how.
#[derive(Debug, Clone)]
pub struct DownloadConfig {
    /// The class names to download.
    pub classes: Vec<String>,
    pub split: Split,
    /// All classes into one folder named after all of them (true), or one
    /// folder per class (false).
    pub multiclass: bool,
    /// At most this many images per class and folder.
    pub limit: Option<usize>,
    /// How many images are fetched at the same time.
    pub threads: usize,
    /// No YOLO label files are written.
    pub no_labels: bool,
    pub filters: ImageFilters,
    /// The root of the dataset folders.
    pub dataset_dir: Option<String>,
}

impl Default for DownloadConfig {
    fn default() -> (r: Self)
        ensures
            r.classes@.len() == 0,
            r.split == Split::Train,
            !r.multiclass,
            r.limit is None,
            r.threads == 20,
            !r.no_labels,
            r.filters.is_occluded is None,
            r.filters.is_truncated is None,
            r.filters.is_group_of is None,
            r.filters.is_depiction is None,
            r.filters.is_inside is None,
            r.dataset_dir is None,
    {
        DownloadConfig {
            classes: Vec::new(),
            split: Split::Train,
            multiclass: false,
            limit: None,
            threads: 20,
            no_labels: false,
            filters: ImageFilters::default(),
            dataset_dir: None,
        }
    }
}

/// An Open Images class: its label code (such as `/m/01g317`) and its name.
#[derive(Debug, Clone)]
pub struct ClassEntry {
    pub code: String,
    pub name: String,
}

impl ClassEntry {
    /// A copy of this entry.
    pub fn copy(&self) -> (r: Self)
        ensures
            r == *self,
    {
        ClassEntry { code: self.code.clone(), name: self.name.clone() }
    }
}

/// One bounding box of an annotation CSV. The coordinates are the decimal
/// texts of the CSV (trimmed), each a valid `f32` text.
#[derive(Debug, Clone)]
pub struct BBoxRow {
    pub image_id: String,
    pub label_name: String,
    pub x_min: String,
    pub x_max: String,
    pub y_min: String,
    pub y_max: String,
    pub is_occluded: Option<i8>,
    pub is_truncated: Option<i8>,
    pub is_group_of: Option<i8>,
    pub is_depiction: Option<i8>,
    pub is_inside: Option<i8>,
}

/// A `BBoxRow` as plain values.
pub struct BBoxRowView {
    pub image_id: Seq<char>,
    pub label_name: Seq<char>,
    pub x_min: Seq<char>,
    pub x_max: Seq<char>,
    pub y_min: Seq<char>,
    pub y_max: Seq<char>,
    pub is_occluded: Option<i8>,
    pub is_truncated: Option<i8>,
    pub is_group_of: Option<i8>,
    pub is_depiction: Option<i8>,
    pub is_inside: Option<i8>,
}

impl View for BBoxRow {
    type V = BBoxRowView;

    open spec fn view(&self) -> BBoxRowView {
        BBoxRowView {
            image_id: self.image_id@,
            label_name: self.label_name@,
            x_min: self.x_min@,
            x_max: self.x_max@,
            y_min: self.y_min@,
            y_max: self.y_max@,
            is_occluded: self.is_occluded,
            is_truncated: self.is_truncated,
            is_group_of: self.is_group_of,
            is_depiction: self.is_depiction,
            is_inside: self.is_inside,
        }
    }
}

/// The views of a list of rows.
pub open spec fn rows_view(v: Seq<BBoxRow>) -> Seq<BBoxRowView> {
    v.map_values(|r: BBoxRow| r@)
}

impl BBoxRow {
    /// A copy of this row.
    pub fn copy(&self) -> (r: Self)
        ensures
            r == *self,
    {
        BBoxRow {
            image_id: self.image_id.clone(),
            label_name: self.label_name.clone(),
            x_min: self.x_min.clone(),
            x_max: self.x_max.clone(),
            y_min: self.y_min.clone(),
            y_max: self.y_max.clone(),
            is_occluded: self.is_occluded,
            is_truncated: self.is_truncated,
            is_group_of: self.is_group_of,
            is_depiction: self.is_depiction,
            is_inside: self.is_inside,
        }
    }
}

/// One line of a YOLO label file: `class_idx cx cy w h`. The coordinates are
/// the decimal texts of the file, each a valid `f32` text.
#[derive(Debug, Clone)]
pub struct YoloBox {
    pub class_idx: u32,
    pub cx: String,
    pub cy: String,
    pub w: String,
    pub h: String,
}

/// A `YoloBox` as plain values.
pub struct YoloBoxView {
    pub class_idx: u32,
    pub cx: Seq<char>,
    pub cy: Seq<char>,
    pub w: Seq<char>,
    pub h: Seq<char>,
}

impl View for YoloBox {
    type V = YoloBoxView;

    open spec fn view(&self) -> YoloBoxView {
        YoloBoxView { class_idx: self.class_idx, cx: self.cx@, cy: self.cy@, w: self.w@, h: self.h@ }
    }
}

/// The views of a list of boxes.
pub open spec fn boxes_view(v: Seq<YoloBox>) -> Seq<YoloBoxView> {
    v.map_values(|b: YoloBox| b@)
}

impl YoloBox {
    /// A copy of this box.
    pub fn copy(&self) -> (r: Self)
        ensures
            r == *self,
    {
        YoloBox {
            class_idx: self.class_idx,
            cx: self.cx.clone(),
            cy: self.cy.clone(),
            w: self.w.clone(),
            h: self.h.clone(),
        }
    }
}

/// An image of the local dataset, with its label file and boxes.
#[derive(Debug, Clone)]
pub struct ImageEntry {
    /// The path of the `.jpg` file.
    pub path: String,
    /// The file name without its extension.
    pub image_id: String,
    /// The class folder the image is in.
    pub class_name: String,
    /// The split folder the class folder is in.
    pub split: String,
    /// The YOLO label file, if there is one.
    pub label_path: Option<String>,
    /// The boxes of the label file.
    pub boxes: Vec<YoloBox>,
}

/// An `ImageEntry` as plain values.
pub struct ImageEntryView {
    pub path: Seq<char>,
    pub image_id: Seq<char>,
    pub class_name: Seq<char>,
    pub split: Seq<char>,
    pub label_path: Option<Seq<char>>,
    pub boxes: Seq<YoloBoxView>,
}

impl View for ImageEntry {
    type V = ImageEntryView;

    open spec fn view(&self) -> ImageEntryView {
        ImageEntryView {
            path: self.path@,
            image_id: self.image_id@,
            class_name: self.class_name@,
            split: self.split@,
            label_path: match self.label_path {
                Some(p) => Some(p@),
                None => None,
            },
            boxes: boxes_view(self.boxes@),
        }
    }
}

/// The views of a list of images.
pub open spec fn entries_view(v: Seq<ImageEntry>) -> Seq<ImageEntryView> {
    v.map_values(|e: ImageEntry| e@)
}

impl ImageEntry {
    /// A copy of this entry.
    pub fn copy(&self) -> (r: Self)
        ensures
            r@ == self@,
    {
        let mut boxes: Vec<YoloBox> = Vec::new();
        let mut i: usize = 0;
        while i < self.boxes.len()
            invariant
                i <= self.boxes@.len(),
                boxes@ == self.boxes@.take(i as int),
            decreases self.boxes@.len() - i,
        {
            boxes.push(self.boxes[i].copy());
            assert(boxes@ =~= self.boxes@.take(i + 1));
            i += 1;
        }
        assert(boxes@ =~= self.boxes@);
        ImageEntry {
            path: self.path.clone(),
            image_id: self.image_id.clone(),
            class_name: self.class_name.clone(),
            split: self.split.clone(),
            label_path: match &self.label_path {
                Some(p) => Some(p.clone()),
                None => None,
            },
            boxes,
        }
    }
}

/// A progress report of a download job for one class in one split folder.
#[derive(Debug, Clone)]
pub struct ProgressEvent {
    pub job_id: String,
    pub class_name: String,
    pub split: String,
    pub downloaded: usize,
    pub total: usize,
    pub finished: bool,
    pub error: Option<String>,
}

/// The progress of one class of a download job in one split folder.
#[derive(Debug, Clone)]
pub struct DownloadJob {
    pub job_id: String,
    pub class_name: String,
    pub split: String,
    pub downloaded: usize,
    pub total: usize,
    pub finished: bool,
    pub errors: Vec<String>,
    pub started_at: std::time::Instant,
}

/// The errors an event adds to a job: its error, if it has one.
pub open spec fn event_errors(event: ProgressEvent) -> Seq<String> {
    match event.error {
        Some(e) => seq![e],
        None => seq![],
    }
}

impl DownloadJob {
    /// A job with nothing downloaded yet, started at `started_at`.
    pub fn starting_at(
        job_id: String,
        class_name: String,
        split: String,
        started_at: std::time::Instant,
    ) -> (r: Self)
        ensures
            r.job_id == job_id,
            r.class_name == class_name,
            r.split == split,
            r.downloaded == 0,
            r.total == 0,
            !r.finished,
            r.errors@.len() == 0,
            r.started_at == started_at,
    {
        DownloadJob {
            job_id,
            class_name,
            split,
            downloaded: 0,
            total: 0,
            finished: false,
            errors: Vec::new(),
            started_at,
        }
    }

    /// A job with nothing downloaded yet, started now (at the monotonic
    /// clock's current reading, of which nothing is stated).
    pub fn new(job_id: String, class_name: String, split: String) -> (r: Self)
        ensures
            r.job_id == job_id,
            r.class_name == class_name,
            r.split == split,
            r.downloaded == 0,
            r.total == 0,
            !r.finished,
            r.errors@.len() == 0,
    {
        Self::starting_at(job_id, class_name, split, instant_now())
    }

    /// Takes in a progress event: the downloaded count and the finished flag
    /// become the event's, the total too unless the event's is 0, and the
    /// event's error, if any, is added to the errors.
    pub fn apply(&mut self, event: &ProgressEvent)
        ensures
            final(self).job_id == old(self).job_id,
            final(self).class_name == old(self).class_name,
            final(self).split == old(self).split,
            final(self).started_at == old(self).started_at,
            final(self).downloaded == event.downloaded,
            final(self).total == if event.total > 0 {
                event.total
            } else {
                old(self).total
            },
            final(self).finished == event.finished,
            final(self).errors@ == old(self).errors@ + event_errors(*event),
    {
        self.downloaded = event.downloaded;
        if event.total > 0 {
            self.total = event.total;
        }
        self.finished = event.finished;
        let ghost before = self.errors@;
        if let Some(err) = &event.error {
            self.errors.push(err.clone());
        }
        assert(self.errors@ =~= before + event_errors(*event));
    }

    /// Whole seconds since the job started (by the monotonic clock).
    pub fn elapsed_secs(&self) -> u64 {
        duration_secs(&elapsed_since(&self.started_at))
    }
}

} // verus!
