//! The state of the application: the screen shown, the download form, the
//! download jobs and the dataset viewer.

use vstd::prelude::*;
use crate::models::{
    ClassEntry, DownloadConfig, DownloadJob, ImageEntry, ImageEntryView, ImageFilters,
    ProgressEvent, Split, entries_view, event_errors, split_folders, strs_view,
};
use crate::numbers::{parse_usize, unsigned_value};
use crate::order::{Lex, text_order, is_sorted_set_of, sorted_distinct};
use crate::csv_meta::csv_dir;
use crate::index::{entry_classes, list_local_classes};
use crate::paths::{is_join_of, is_verbatim, joined_path, path_join};
use crate::text::strings_view;

verus! {

/// The screens of the application.
#[derive(Debug, Clone, Copy, PartialEq, Eq, Structural)]
pub enum Screen {
    Home,
    Download,
    Jobs,
    Viewer,
}

impl Screen {
    /// The name of the screen, as shown in the interface.
    pub fn as_str(&self) -> (r: &'static str)
        ensures
            *self == Screen::Home ==> r@ == "Home"@,
            *self == Screen::Download ==> r@ == "Download"@,
            *self == Screen::Jobs ==> r@ == "Jobs"@,
            *self == Screen::Viewer ==> r@ == "Viewer"@,
    {
        match self {
            Screen::Home => "Home",
            Screen::Download => "Download",
            Screen::Jobs => "Jobs",
            Screen::Viewer => "Viewer",
        }
    }
}

/// The fields of the download form.
#[derive(Debug, Clone)]
pub struct DownloadFormState {
    pub class_search: String,
    pub selected_classes: Vec<String>,
    pub split: Split,
    pub multiclass: bool,
    /// The limit as typed.
    pub limit_str: String,
    /// The number of parallel downloads as typed.
    pub threads_str: String,
    pub no_labels: bool,
    pub is_occluded: Option<bool>,
    pub is_truncated: Option<bool>,
    pub is_group_of: Option<bool>,
    pub is_depiction: Option<bool>,
    pub is_inside: Option<bool>,
    pub status_msg: String,
    pub is_loading: bool,
}

impl Default for DownloadFormState {
    fn default() -> (r: Self)
        ensures
            r.class_search@.len() == 0,
            r.selected_classes@.len() == 0,
            r.split == Split::Train,
            !r.multiclass,
            r.limit_str@.len() == 0,
            r.threads_str@ == "20"@,
            !r.no_labels,
            r.is_occluded is None,
            r.is_truncated is None,
            r.is_group_of is None,
            r.is_depiction is None,
            r.is_inside is None,
            r.status_msg@.len() == 0,
            !r.is_loading,
    {
        DownloadFormState {
            class_search: String::new(),
            selected_classes: Vec::new(),
            split: Split::Train,
            multiclass: false,
            limit_str: String::new(),
            threads_str: String::from_str("20"),
            no_labels: false,
            is_occluded: None,
            is_truncated: None,
            is_group_of: None,
            is_depiction: None,
            is_inside: None,
            status_msg: String::new(),
            is_loading: false,
        }
    }
}

/// `k` is the first position of `name` in `names`.
pub open spec fn is_first_of(names: Seq<Seq<char>>, name: Seq<char>, k: int) -> bool {
    &&& 0 <= k < names.len()
    &&& names[k] == name
    &&& forall|i: int| 0 <= i < k ==> names[i] != name
}

/// The selection after a click on `name`: its first occurrence is taken out
/// where it is selected, else it is added at the end.
pub open spec fn toggled(names: Seq<Seq<char>>, name: Seq<char>) -> Seq<Seq<char>> {
    if exists|k: int| is_first_of(names, name, k) {
        names.remove(choose|k: int| is_first_of(names, name, k))
    } else {
        names.push(name)
    }
}

/// The error shown when a download is started with no class selected.
pub open spec fn no_class_message() -> Seq<char> {
    "❌ Please select at least one class."@
}

/// The number of parallel downloads typed in the form: the number, or 20
/// where it does not parse.
pub open spec fn threads_of(text: Seq<char>) -> usize {
    match unsigned_value(text, usize::MAX as int) {
        Some(n) => n as usize,
        None => 20,
    }
}

/// The limit typed in the form: the number, or none where it does not parse.
pub open spec fn limit_of(text: Seq<char>) -> Option<usize> {
    match unsigned_value(text, usize::MAX as int) {
        Some(n) => Some(n as usize),
        None => None,
    }
}

/// Two forms agree on everything but the class search and the selection.
pub open spec fn same_options(a: DownloadFormState, b: DownloadFormState) -> bool {
    &&& a.split == b.split
    &&& a.multiclass == b.multiclass
    &&& a.limit_str == b.limit_str
    &&& a.threads_str == b.threads_str
    &&& a.no_labels == b.no_labels
    &&& a.is_occluded == b.is_occluded
    &&& a.is_truncated == b.is_truncated
    &&& a.is_group_of == b.is_group_of
    &&& a.is_depiction == b.is_depiction
    &&& a.is_inside == b.is_inside
    &&& a.status_msg == b.status_msg
    &&& a.is_loading == b.is_loading
}

/// Two forms agree on everything but the status message and the busy flag.
pub open spec fn same_but_status(a: DownloadFormState, b: DownloadFormState) -> bool {
    &&& a.class_search == b.class_search
    &&& a.selected_classes == b.selected_classes
    &&& a.split == b.split
    &&& a.multiclass == b.multiclass
    &&& a.limit_str == b.limit_str
    &&& a.threads_str == b.threads_str
    &&& a.no_labels == b.no_labels
    &&& a.is_occluded == b.is_occluded
    &&& a.is_truncated == b.is_truncated
    &&& a.is_group_of == b.is_group_of
    &&& a.is_depiction == b.is_depiction
    &&& a.is_inside == b.is_inside
}

/// The message shown once the annotation CSVs are fetched, or the fetch
/// failed with an error.
pub open spec fn fetch_message(result: Result<(), Seq<char>>) -> Seq<char> {
    match result {
        Ok(_) => "✅ Annotation CSVs ready."@,
        Err(e) => "❌ "@ + e,
    }
}

impl DownloadFormState {
    /// A click on a class: it is taken out of the selection where it is
    /// selected (its first occurrence), else added at the end; the search
    /// field is cleared.
    pub fn toggle_class(&mut self, name: String)
        ensures
            strings_view(final(self).selected_classes@) == toggled(
                strings_view(old(self).selected_classes@),
                name@,
            ),
            final(self).class_search@.len() == 0,
            same_options(*old(self), *final(self)),
    {
        let ghost sv = strings_view(self.selected_classes@);
        let mut i: usize = 0;
        let n = self.selected_classes.len();
        while i < n
            invariant
                n == self.selected_classes@.len(),
                sv == strings_view(self.selected_classes@),
                i <= n,
                forall|j: int| 0 <= j < i ==> sv[j] != name@,
            ensures
                i <= n,
                forall|j: int| 0 <= j < i ==> sv[j] != name@,
                i < n ==> sv[i as int] == name@,
            decreases n - i,
        {
            assert(sv[i as int] == self.selected_classes@[i as int]@);
            if text_order(self.selected_classes[i].as_str(), name.as_str()) == Lex::Same {
                break;
            }
            i += 1;
        }
        if i < n {
            assert(is_first_of(sv, name@, i as int));
            proof {
                let k = choose|k: int| is_first_of(sv, name@, k);
                if k < i {
                    assert(sv[k] == name@);
                } else if i < k {
                    assert(sv[i as int] != name@);
                }
            }
            self.selected_classes.remove(i);
            assert(strings_view(self.selected_classes@) =~= sv.remove(i as int));
        } else {
            assert(!exists|k: int| is_first_of(sv, name@, k)) by {
                if exists|k: int| is_first_of(sv, name@, k) {
                    let k = choose|k: int| is_first_of(sv, name@, k);
                    assert(sv[k] != name@);
                }
            }
            self.selected_classes.push(name);
            assert(strings_view(self.selected_classes@) =~= sv.push(name@));
        }
        self.class_search = String::new();
    }

    /// A class added to the selection where it is not selected yet; the
    /// selection stays as it is where it is.
    pub fn select_class(&mut self, name: String)
        ensures
            strings_view(old(self).selected_classes@).contains(name@)
                ==> final(self).selected_classes@ == old(self).selected_classes@,
            !strings_view(old(self).selected_classes@).contains(name@) ==> strings_view(
                final(self).selected_classes@,
            ) == strings_view(old(self).selected_classes@).push(name@),
            final(self).class_search == old(self).class_search,
            same_options(*old(self), *final(self)),
    {
        let ghost sv = strings_view(self.selected_classes@);
        let mut i: usize = 0;
        while i < self.selected_classes.len()
            invariant
                sv == strings_view(self.selected_classes@),
                i <= self.selected_classes@.len(),
                forall|j: int| 0 <= j < i ==> sv[j] != name@,
            decreases self.selected_classes@.len() - i,
        {
            assert(sv[i as int] == self.selected_classes@[i as int]@);
            if text_order(self.selected_classes[i].as_str(), name.as_str()) == Lex::Same {
                assert(sv.contains(name@));
                return;
            }
            i += 1;
        }
        assert(!sv.contains(name@)) by {
            if sv.contains(name@) {
                let k = choose|k: int| 0 <= k < sv.len() && sv[k] == name@;
                assert(sv[k] != name@);
            }
        }
        self.selected_classes.push(name);
        assert(strings_view(self.selected_classes@) =~= sv.push(name@));
    }

    /// The form while the annotation CSVs are fetched: busy, with the
    /// fetching message.
    pub fn start_fetch(&mut self)
        ensures
            final(self).is_loading,
            final(self).status_msg@ == "Fetching annotation CSVs…"@,
            same_but_status(*old(self), *final(self)),
    {
        self.status_msg = String::from_str("Fetching annotation CSVs…");
        self.is_loading = true;
    }

    /// The form once the fetch of the annotation CSVs is over: not busy, with
    /// the ready message, or `❌ ` and the error.
    pub fn finish_fetch(&mut self, result: Result<(), String>)
        ensures
            !final(self).is_loading,
            final(self).status_msg@ == fetch_message(
                match result {
                    Ok(_) => Ok(()),
                    Err(e) => Err(e@),
                },
            ),
            same_but_status(*old(self), *final(self)),
    {
        self.is_loading = false;
        self.status_msg = match result {
            Ok(()) => String::from_str("✅ Annotation CSVs ready."),
            Err(e) => {
                let mut m = String::from_str("❌ ");
                m.append(e.as_str());
                m
            },
        };
    }

    /// A class taken out of the selection: every occurrence of `name` goes,
    /// the others keep their order.
    pub fn remove_class(&mut self, name: &str)
        ensures
            strings_view(final(self).selected_classes@) == strings_view(
                old(self).selected_classes@,
            ).filter(|c: Seq<char>| c != name@),
            final(self).class_search == old(self).class_search,
            same_options(*old(self), *final(self)),
    {
        let ghost sv = strings_view(self.selected_classes@);
        let mut kept: Vec<String> = Vec::new();
        let mut i: usize = 0;
        proof {
            reveal(Seq::filter);
        }
        assert(sv.take(0) =~= Seq::<Seq<char>>::empty());
        assert(sv.take(0).filter(|c: Seq<char>| c != name@) =~= Seq::<Seq<char>>::empty());
        while i < self.selected_classes.len()
            invariant
                sv == strings_view(self.selected_classes@),
                i <= self.selected_classes@.len(),
                strings_view(kept@) == sv.take(i as int).filter(|c: Seq<char>| c != name@),
            decreases self.selected_classes@.len() - i,
        {
            assert(sv.take(i + 1) =~= sv.take(i as int).push(sv[i as int]));
            assert(sv[i as int] == self.selected_classes@[i as int]@);
            proof {
                sv.take(i as int).lemma_filter_push(sv[i as int], |c: Seq<char>| c != name@);
            }
            if text_order(self.selected_classes[i].as_str(), name) != Lex::Same {
                let ghost before = kept@;
                kept.push(self.selected_classes[i].clone());
                assert(strings_view(kept@) =~= strings_view(before).push(sv[i as int]));
            }
            i += 1;
        }
        assert(sv.take(sv.len() as int) =~= sv);
        self.selected_classes = kept;
    }

    /// The configuration of a download from the form, the dataset going into
    /// `dataset_dir`: the selected classes, the split, the options and the
    /// filters; the thread count typed (20 where it does not parse) and the
    /// limit typed (none where it does not parse). An error where no class
    /// is selected.
    pub fn download_config(&self, dataset_dir: &str) -> (r: Result<DownloadConfig, String>)
        ensures
            self.selected_classes@.len() == 0 <==> r is Err,
            r matches Err(e) ==> e@ == no_class_message(),
            r matches Ok(c) ==> {
                &&& strings_view(c.classes@) == strings_view(self.selected_classes@)
                &&& c.split == self.split
                &&& c.multiclass == self.multiclass
                &&& c.limit == limit_of(self.limit_str@)
                &&& c.threads == threads_of(self.threads_str@)
                &&& c.no_labels == self.no_labels
                &&& c.filters.is_occluded == self.is_occluded
                &&& c.filters.is_truncated == self.is_truncated
                &&& c.filters.is_group_of == self.is_group_of
                &&& c.filters.is_depiction == self.is_depiction
                &&& c.filters.is_inside == self.is_inside
                &&& c.dataset_dir matches Some(d) && d@ == dataset_dir@
            },
    {
        if self.selected_classes.len() == 0 {
            return Err(String::from_str("❌ Please select at least one class."));
        }
        let threads = match parse_usize(self.threads_str.as_str()) {
            Some(t) => t,
            None => 20,
        };
        let limit = parse_usize(self.limit_str.as_str());
        let mut classes: Vec<String> = Vec::new();
        let mut i: usize = 0;
        while i < self.selected_classes.len()
            invariant
                i <= self.selected_classes@.len(),
                strings_view(classes@) == strings_view(self.selected_classes@).take(i as int),
            decreases self.selected_classes@.len() - i,
        {
            let ghost before = classes@;
            classes.push(self.selected_classes[i].clone());
            assert(strings_view(classes@) =~= strings_view(before).push(
                self.selected_classes@[i as int]@,
            ));
            assert(strings_view(classes@) =~= strings_view(self.selected_classes@).take(i + 1));
            i += 1;
        }
        assert(strings_view(self.selected_classes@).take(i as int) =~= strings_view(
            self.selected_classes@,
        ));
        Ok(
            DownloadConfig {
                classes,
                split: self.split,
                multiclass: self.multiclass,
                limit,
                threads,
                no_labels: self.no_labels,
                filters: ImageFilters {
                    is_occluded: self.is_occluded,
                    is_truncated: self.is_truncated,
                    is_group_of: self.is_group_of,
                    is_depiction: self.is_depiction,
                    is_inside: self.is_inside,
                },
                dataset_dir: Some(String::from_str(dataset_dir)),
            },
        )
    }
}

/// Clicking a class that is not selected, then clicking it again, gives back
/// the selection.
pub proof fn lemma_toggle_twice(names: Seq<Seq<char>>, name: Seq<char>)
    requires
        !names.contains(name),
    ensures
        toggled(toggled(names, name), name) == names,
{
    assert(!exists|k: int| is_first_of(names, name, k)) by {
        if exists|k: int| is_first_of(names, name, k) {
            let k = choose|k: int| is_first_of(names, name, k);
            assert(names[k] == name);
        }
    }
    let once = names.push(name);
    let k0 = names.len() as int;
    assert(is_first_of(once, name, k0)) by {
        assert forall|i: int| 0 <= i < k0 implies once[i] != name by {
            assert(once[i] == names[i]);
        }
    }
    let k = choose|k: int| is_first_of(once, name, k);
    assert(k == k0) by {
        if k < k0 {
            assert(once[k] == names[k]);
        }
    }
    assert(once.remove(k0) =~= names);
}

/// The filters and position of the dataset viewer.
#[derive(Debug, Clone)]
pub struct ViewerState {
    /// Only images of this class (all where empty).
    pub filter_class: String,
    /// Only images of this split (all where empty).
    pub filter_split: String,
    /// The position of the image shown among the filtered images.
    pub current_index: usize,
    pub is_loading: bool,
}

impl Default for ViewerState {
    fn default() -> (r: Self)
        ensures
            r.filter_class@.len() == 0,
            r.filter_split@.len() == 0,
            r.current_index == 0,
            !r.is_loading,
    {
        ViewerState {
            filter_class: String::new(),
            filter_split: String::new(),
            current_index: 0,
            is_loading: false,
        }
    }
}

/// The state of the whole application.
pub struct AppState {
    pub screen: Screen,
    /// The application data directory.
    pub app_data_dir: String,
    /// The classes of the dataset, once loaded.
    pub all_classes: Vec<ClassEntry>,
    pub classes_loading: bool,
    pub classes_error: String,
    pub download_form: DownloadFormState,
    /// The download jobs, one per job, class and split folder.
    pub jobs: Vec<DownloadJob>,
    /// The index of the local dataset.
    pub images: Vec<ImageEntry>,
    pub viewer: ViewerState,
}

/// What identifies the progress of a job: job id, class name, split folder.
pub open spec fn job_key(j: DownloadJob) -> (Seq<char>, Seq<char>, Seq<char>) {
    (j.job_id@, j.class_name@, j.split@)
}

/// What an event reports on.
pub open spec fn event_key(e: ProgressEvent) -> (Seq<char>, Seq<char>, Seq<char>) {
    (e.job_id@, e.class_name@, e.split@)
}

/// `k` is the first job with key `key`.
pub open spec fn is_first_job(jobs: Seq<DownloadJob>, key: (Seq<char>, Seq<char>, Seq<char>), k: int) -> bool {
    &&& 0 <= k < jobs.len()
    &&& job_key(jobs[k]) == key
    &&& forall|i: int| 0 <= i < k ==> job_key(jobs[i]) != key
}

/// No two jobs have the same key.
pub open spec fn unique_keys(jobs: Seq<DownloadJob>) -> bool {
    forall|i: int, j: int| 0 <= i < j < jobs.len() ==> job_key(#[trigger] jobs[i]) != job_key(#[trigger] jobs[j])
}

/// `after` is `before` with the event taken in (what `DownloadJob::apply`
/// does): same key and start, the event's counts and flag, the total kept
/// where the event's is 0, and the event's error added.
pub open spec fn applied(before: DownloadJob, after: DownloadJob, e: ProgressEvent) -> bool {
    &&& job_key(after) == job_key(before)
    &&& after.started_at == before.started_at
    &&& after.downloaded == e.downloaded
    &&& after.total == if e.total > 0 { e.total } else { before.total }
    &&& after.finished == e.finished
    &&& after.errors@ == before.errors@ + event_errors(e)
}

/// An image passes the viewer's filters: its class is the class filter and
/// its split the split filter, each where that filter is set.
pub open spec fn passes_viewer(v: ViewerState, e: ImageEntryView) -> bool {
    &&& (v.filter_class@.len() == 0 || e.class_name == v.filter_class@)
    &&& (v.filter_split@.len() == 0 || e.split == v.filter_split@)
}

/// The images the viewer shows, in index order.
pub open spec fn viewer_images(v: ViewerState, images: Seq<ImageEntryView>) -> Seq<ImageEntryView> {
    images.filter(|e: ImageEntryView| passes_viewer(v, e))
}

/// The viewer shows exactly the images of the index that match its filters:
/// every image it shows is in the index, has the filter's class where a
/// class filter is set and the filter's split where a split filter is set;
/// and every image of the index with that class and split is shown.
pub proof fn lemma_viewer_shows_matching(v: ViewerState, images: Seq<ImageEntryView>)
    ensures
        forall|e: ImageEntryView|
            #[trigger] viewer_images(v, images).contains(e) ==> {
                &&& images.contains(e)
                &&& v.filter_class@.len() > 0 ==> e.class_name == v.filter_class@
                &&& v.filter_split@.len() > 0 ==> e.split == v.filter_split@
            },
        forall|e: ImageEntryView|
            #[trigger] images.contains(e) && (v.filter_class@.len() == 0 || e.class_name
                == v.filter_class@) && (v.filter_split@.len() == 0 || e.split == v.filter_split@)
                ==> viewer_images(v, images).contains(e),
{
    let pred = |e: ImageEntryView| passes_viewer(v, e);
    #[allow(deprecated)]
    images.filter_lemma(pred);
    assert forall|e: ImageEntryView| #[trigger] viewer_images(v, images).contains(e) implies {
        &&& images.contains(e)
        &&& v.filter_class@.len() > 0 ==> e.class_name == v.filter_class@
        &&& v.filter_split@.len() > 0 ==> e.split == v.filter_split@
    } by {
        images.lemma_filter_contains_rev(pred, e);
        let k = choose|k: int| 0 <= k < images.filter(pred).len() && images.filter(pred)[k] == e;
        assert(pred(images.filter(pred)[k]));
    }
    assert forall|e: ImageEntryView|
        #[trigger] images.contains(e) && (v.filter_class@.len() == 0 || e.class_name
            == v.filter_class@) && (v.filter_split@.len() == 0 || e.split == v.filter_split@)
            implies viewer_images(v, images).contains(e) by {
        let k = choose|k: int| 0 <= k < images.len() && images[k] == e;
        assert(pred(images[k]));
    }
}

/// The views of a list of image references.
pub open spec fn entry_refs_view(v: Seq<&ImageEntry>) -> Seq<ImageEntryView> {
    v.map_values(|e: &ImageEntry| e@)
}

/// The class names of the images.
pub open spec fn image_classes(images: Seq<ImageEntry>) -> Seq<Seq<char>> {
    entry_classes(images)
}

/// The split names of the images.
pub open spec fn image_splits(images: Seq<ImageEntry>) -> Seq<Seq<char>> {
    images.map_values(|e: ImageEntry| e.split@)
}

/// The position shown of `n` images with the viewer at `i`: `i`, at most
/// the last position, 0 where there are none.
pub open spec fn min_index(i: usize, n: nat) -> usize {
    let last: int = if n > 0 { n - 1 } else { 0 };
    if i < last {
        i
    } else {
        last as usize
    }
}

/// Two states agree on everything but the jobs.
pub open spec fn same_but_jobs(a: AppState, b: AppState) -> bool {
    &&& a.screen == b.screen
    &&& a.app_data_dir == b.app_data_dir
    &&& a.all_classes == b.all_classes
    &&& a.classes_loading == b.classes_loading
    &&& a.classes_error == b.classes_error
    &&& a.download_form == b.download_form
    &&& a.images == b.images
    &&& a.viewer == b.viewer
}

/// Two states agree on everything but the class list and its loading state.
pub open spec fn same_but_classes(a: AppState, b: AppState) -> bool {
    &&& a.screen == b.screen
    &&& a.app_data_dir == b.app_data_dir
    &&& a.download_form == b.download_form
    &&& a.jobs == b.jobs
    &&& a.images == b.images
    &&& a.viewer == b.viewer
}

/// Two states agree on everything but the index and the viewer.
pub open spec fn same_but_view(a: AppState, b: AppState) -> bool {
    &&& a.screen == b.screen
    &&& a.app_data_dir == b.app_data_dir
    &&& a.all_classes == b.all_classes
    &&& a.classes_loading == b.classes_loading
    &&& a.classes_error == b.classes_error
    &&& a.download_form == b.download_form
    &&& a.jobs == b.jobs
}

/// The keys of a list of jobs.
pub open spec fn jobs_keys(jobs: Seq<DownloadJob>) -> Seq<(Seq<char>, Seq<char>, Seq<char>)> {
    jobs.map_values(|j: DownloadJob| job_key(j))
}

/// A job row with nothing downloaded yet.
pub open spec fn fresh_job(j: DownloadJob) -> bool {
    &&& j.downloaded == 0
    &&& j.total == 0
    &&& !j.finished
    &&& j.errors@.len() == 0
}

/// The row keys of folder `i` of a job's split, one per class in order.
pub open spec fn folder_row_keys(
    job_id: Seq<char>,
    split: Split,
    classes: Seq<Seq<char>>,
    i: int,
) -> Seq<(Seq<char>, Seq<char>, Seq<char>)> {
    Seq::new(classes.len(), |j: int| (job_id, classes[j], split_folders(split)[i]))
}

/// The row keys of a job: for each folder of its split in order, each class
/// in order.
pub open spec fn row_keys(job_id: Seq<char>, split: Split, classes: Seq<Seq<char>>) -> Seq<
    (Seq<char>, Seq<char>, Seq<char>),
> {
    Seq::new(split_folders(split).len(), |i: int| folder_row_keys(job_id, split, classes, i)).flatten()
}

/// The position one image back: one less, not below the first.
pub open spec fn prev_index(i: usize) -> usize {
    if i > 0 {
        (i - 1) as usize
    } else {
        0
    }
}

/// The position one image on among `n`: one more, not past the last.
pub open spec fn next_index(i: usize, n: nat) -> usize {
    if i + 1 < n {
        (i + 1) as usize
    } else {
        i
    }
}

/// Stepping on then back returns to the same image wherever there is a next
/// one, and stepping on never leaves the images.
pub proof fn lemma_next_then_prev(i: usize, n: nat)
    requires
        n <= usize::MAX,
    ensures
        i + 1 < n ==> prev_index(next_index(i, n)) == i,
        i < n ==> next_index(i, n) < n,
        next_index(i, n) >= i,
{
}

impl AppState {
    /// The state at start: the home screen, nothing loaded, no jobs.
    pub fn new(app_data_dir: String) -> (r: Self)
        ensures
            r.screen == Screen::Home,
            r.app_data_dir == app_data_dir,
            r.all_classes@.len() == 0,
            !r.classes_loading,
            r.classes_error@.len() == 0,
            r.download_form.class_search@.len() == 0,
            r.download_form.selected_classes@.len() == 0,
            r.download_form.split == Split::Train,
            !r.download_form.multiclass,
            r.download_form.limit_str@.len() == 0,
            r.download_form.threads_str@ == "20"@,
            !r.download_form.no_labels,
            r.download_form.is_occluded is None,
            r.download_form.is_truncated is None,
            r.download_form.is_group_of is None,
            r.download_form.is_depiction is None,
            r.download_form.is_inside is None,
            r.download_form.status_msg@.len() == 0,
            !r.download_form.is_loading,
            r.jobs@.len() == 0,
            r.images@.len() == 0,
            r.viewer.current_index == 0,
            r.viewer.filter_class@.len() == 0,
            r.viewer.filter_split@.len() == 0,
            !r.viewer.is_loading,
    {
        AppState {
            screen: Screen::Home,
            app_data_dir,
            all_classes: Vec::new(),
            classes_loading: false,
            classes_error: String::new(),
            download_form: DownloadFormState::default(),
            jobs: Vec::new(),
            images: Vec::new(),
            viewer: ViewerState::default(),
        }
    }

    /// The folder of the CSV files: `csv_folder` in the data directory.
    pub fn csv_dir(&self) -> (r: String)
        ensures
            r@ == joined_path(self.app_data_dir@, "csv_folder"@),
            !is_verbatim(self.app_data_dir@) ==> is_join_of(r@, self.app_data_dir@, "csv_folder"@),
    {
        csv_dir(self.app_data_dir.as_str())
    }

    /// The folder of the dataset: `Dataset` in the data directory.
    pub fn dataset_dir(&self) -> (r: String)
        ensures
            r@ == joined_path(self.app_data_dir@, "Dataset"@),
            !is_verbatim(self.app_data_dir@) ==> is_join_of(r@, self.app_data_dir@, "Dataset"@),
    {
        proof {
            reveal_strlit("Dataset");
            let d = "Dataset"@;
            assert(d =~= seq!['D', 'a', 't', 'a', 's', 'e', 't']);
            assert(d != seq!['.']);
            assert(d != seq!['.', '.']);
            assert forall|i: int| 0 <= i < d.len() implies #[trigger] d[i] != '/' && d[i] != '\\'
                && d[i] != ':' by {
                assert(0 <= i < 7);
            }
        }
        path_join(self.app_data_dir.as_str(), "Dataset")
    }

    /// A new job row, with nothing downloaded yet, added at the end.
    pub fn add_job(&mut self, job_id: &str, class_name: &str, split: &str)
        ensures
            final(self).jobs@.len() == old(self).jobs@.len() + 1,
            final(self).jobs@.take(old(self).jobs@.len() as int) == old(self).jobs@,
            job_key(final(self).jobs@.last()) == (job_id@, class_name@, split@),
            final(self).jobs@.last().downloaded == 0,
            final(self).jobs@.last().total == 0,
            !final(self).jobs@.last().finished,
            final(self).jobs@.last().errors@.len() == 0,
            same_but_jobs(*old(self), *final(self)),
    {
        let job = DownloadJob::new(
            String::from_str(job_id),
            String::from_str(class_name),
            String::from_str(split),
        );
        let ghost before = self.jobs@;
        self.jobs.push(job);
        assert(self.jobs@.take(before.len() as int) =~= before);
    }

    /// The jobs are all cleared.
    pub fn clear_jobs(&mut self)
        ensures
            final(self).jobs@.len() == 0,
            same_but_jobs(*old(self), *final(self)),
    {
        self.jobs = Vec::new();
    }

    /// One new job row, with nothing downloaded yet, for each folder of the
    /// job's split and each of its classes, in the order the job runs them
    /// (folder by folder, class by class), added at the end.
    pub fn add_job_rows(&mut self, job_id: &str, config: &DownloadConfig)
        ensures
            final(self).jobs@.take(old(self).jobs@.len() as int) == old(self).jobs@,
            jobs_keys(final(self).jobs@.skip(old(self).jobs@.len() as int)) == row_keys(
                job_id@,
                config.split,
                strings_view(config.classes@),
            ),
            forall|k: int|
                old(self).jobs@.len() <= k < final(self).jobs@.len() ==> fresh_job(
                    #[trigger] final(self).jobs@[k],
                ),
            same_but_jobs(*old(self), *final(self)),
    {
        let ghost start = *self;
        let ghost n0 = self.jobs@.len();
        let ghost cv = strings_view(config.classes@);
        let ghost chunks = Seq::new(
            split_folders(config.split).len(),
            |i: int| folder_row_keys(job_id@, config.split, cv, i),
        );
        let folders = config.split.folders();
        let mut i: usize = 0;
        assert(chunks.take(0) =~= Seq::<Seq<(Seq<char>, Seq<char>, Seq<char>)>>::empty());
        assert(self.jobs@.skip(n0 as int) =~= Seq::<DownloadJob>::empty());
        while i < folders.len()
            invariant
                cv == strings_view(config.classes@),
                strs_view(folders@) == split_folders(config.split),
                chunks == Seq::new(
                    split_folders(config.split).len(),
                    |i: int| folder_row_keys(job_id@, config.split, cv, i),
                ),
                n0 == start.jobs@.len(),
                n0 <= self.jobs@.len(),
                self.jobs@.take(n0 as int) == start.jobs@,
                i <= folders@.len(),
                jobs_keys(self.jobs@.skip(n0 as int)) == chunks.take(i as int).flatten(),
                forall|k: int| n0 <= k < self.jobs@.len() ==> fresh_job(#[trigger] self.jobs@[k]),
                same_but_jobs(start, *self),
            decreases folders@.len() - i,
        {
            let ghost before = jobs_keys(self.jobs@.skip(n0 as int));
            let ghost chunk = folder_row_keys(job_id@, config.split, cv, i as int);
            assert(strs_view(folders@)[i as int] == folders@[i as int]@);
            let mut j: usize = 0;
            while j < config.classes.len()
                invariant
                    cv == strings_view(config.classes@),
                    i < folders@.len(),
                    i < split_folders(config.split).len(),
                    folders@[i as int]@ == split_folders(config.split)[i as int],
                    chunk == folder_row_keys(job_id@, config.split, cv, i as int),
                    n0 == start.jobs@.len(),
                    n0 <= self.jobs@.len(),
                    self.jobs@.take(n0 as int) == start.jobs@,
                    j <= config.classes@.len(),
                    jobs_keys(self.jobs@.skip(n0 as int)) == before + chunk.take(j as int),
                    forall|k: int| n0 <= k < self.jobs@.len() ==> fresh_job(#[trigger] self.jobs@[k]),
                    same_but_jobs(start, *self),
                decreases config.classes@.len() - j,
            {
                let ghost prev = self.jobs@;
                self.add_job(job_id, config.classes[j].as_str(), folders[i]);
                assert(cv[j as int] == config.classes@[j as int]@);
                assert(self.jobs@ =~= prev.push(self.jobs@.last()));
                assert(self.jobs@.skip(n0 as int) =~= prev.skip(n0 as int).push(self.jobs@.last()));
                assert(jobs_keys(self.jobs@.skip(n0 as int)) =~= jobs_keys(prev.skip(n0 as int)).push(
                    job_key(self.jobs@.last()),
                ));
                assert(chunk.take(j + 1) =~= chunk.take(j as int).push(chunk[j as int]));
                assert(self.jobs@.take(n0 as int) =~= prev.take(n0 as int));
                j += 1;
            }
            assert(chunk.take(chunk.len() as int) =~= chunk);
            assert(chunks.take(i + 1) =~= chunks.take(i as int).push(chunks[i as int]));
            proof {
                chunks.take(i as int).lemma_flatten_push(chunks[i as int]);
            }
            i += 1;
        }
        assert(chunks.take(folders@.len() as int) =~= chunks);
    }

    /// Takes in a progress event: the first job with the event's key takes
    /// it in; where there is none, a new job is made for it, takes it in and
    /// is added at the end. The other jobs stay as they are, and jobs with
    /// distinct keys keep distinct keys.
    pub fn apply_progress(&mut self, event: ProgressEvent)
        ensures
            forall|k: int| is_first_job(old(self).jobs@, event_key(event), k) ==> {
                &&& final(self).jobs@.len() == old(self).jobs@.len()
                &&& applied(old(self).jobs@[k], final(self).jobs@[k], event)
                &&& forall|i: int| 0 <= i < final(self).jobs@.len() && i != k ==> final(self).jobs@[i] == old(self).jobs@[i]
            },
            !(exists|k: int| is_first_job(old(self).jobs@, event_key(event), k)) ==> {
                &&& final(self).jobs@.len() == old(self).jobs@.len() + 1
                &&& final(self).jobs@.take(old(self).jobs@.len() as int) == old(self).jobs@
                &&& job_key(final(self).jobs@.last()) == event_key(event)
                &&& final(self).jobs@.last().downloaded == event.downloaded
                &&& final(self).jobs@.last().total == event.total
                &&& final(self).jobs@.last().finished == event.finished
                &&& final(self).jobs@.last().errors@ == event_errors(event)
            },
            unique_keys(old(self).jobs@) ==> unique_keys(final(self).jobs@),
            same_but_jobs(*old(self), *final(self)),
    {
        let ghost jv = self.jobs@;
        let ghost key = event_key(event);
        let n = self.jobs.len();
        let mut i: usize = 0;
        while i < n
            invariant
                n == self.jobs@.len(),
                jv == self.jobs@,
                key == event_key(event),
                i <= n,
                forall|j: int| 0 <= j < i ==> job_key(jv[j]) != key,
            ensures
                i <= n,
                forall|j: int| 0 <= j < i ==> job_key(jv[j]) != key,
                i < n ==> job_key(jv[i as int]) == key,
            decreases n - i,
        {
            let same = text_order(self.jobs[i].job_id.as_str(), event.job_id.as_str()) == Lex::Same
                && text_order(self.jobs[i].class_name.as_str(), event.class_name.as_str()) == Lex::Same
                && text_order(self.jobs[i].split.as_str(), event.split.as_str()) == Lex::Same;
            if same {
                break;
            }
            i += 1;
        }
        if i < n {
            assert(is_first_job(jv, key, i as int));
            let mut job = self.jobs.remove(i);
            job.apply(&event);
            self.jobs.insert(i, job);
            proof {
                assert forall|k: int| is_first_job(jv, key, k) implies k == i by {
                    if k < i {
                        assert(job_key(jv[k]) != key);
                    } else if i < k {
                        assert(job_key(jv[i as int]) != key);
                    }
                }
                assert forall|a: int, b: int| unique_keys(jv) && 0 <= a < b < self.jobs@.len() implies job_key(
                    #[trigger] self.jobs@[a],
                ) != job_key(#[trigger] self.jobs@[b]) by {
                    assert(job_key(self.jobs@[a]) == job_key(jv[a]));
                    assert(job_key(self.jobs@[b]) == job_key(jv[b]));
                }
            }
        } else {
            assert(!exists|k: int| is_first_job(jv, key, k)) by {
                if exists|k: int| is_first_job(jv, key, k) {
                    let k = choose|k: int| is_first_job(jv, key, k);
                    assert(job_key(jv[k]) != key);
                }
            }
            let mut job = DownloadJob::new(
                event.job_id.clone(),
                event.class_name.clone(),
                event.split.clone(),
            );
            job.apply(&event);
            self.jobs.push(job);
            assert(self.jobs@.take(n as int) =~= jv);
            proof {
                assert forall|a: int, b: int| unique_keys(jv) && 0 <= a < b < self.jobs@.len() implies job_key(
                    #[trigger] self.jobs@[a],
                ) != job_key(#[trigger] self.jobs@[b]) by {
                    if b == n {
                        assert(job_key(self.jobs@[a]) == job_key(jv[a]));
                    } else {
                        assert(self.jobs@[a] == jv[a]);
                        assert(self.jobs@[b] == jv[b]);
                    }
                }
            }
        }
    }

    /// The images the viewer shows: those of the index that pass its class
    /// and split filters, in index order.
    pub fn filtered_images(&self) -> (r: Vec<&ImageEntry>)
        ensures
            entry_refs_view(r@) == viewer_images(self.viewer, entries_view(self.images@)),
            forall|e: ImageEntryView|
                #[trigger] entry_refs_view(r@).contains(e) ==> {
                    &&& entries_view(self.images@).contains(e)
                    &&& self.viewer.filter_class@.len() > 0 ==> e.class_name
                        == self.viewer.filter_class@
                    &&& self.viewer.filter_split@.len() > 0 ==> e.split == self.viewer.filter_split@
                },
            forall|e: ImageEntryView|
                #[trigger] entries_view(self.images@).contains(e) && (self.viewer.filter_class@.len()
                    == 0 || e.class_name == self.viewer.filter_class@) && (
                self.viewer.filter_split@.len() == 0 || e.split == self.viewer.filter_split@)
                    ==> entry_refs_view(r@).contains(e),
    {
        proof {
            lemma_viewer_shows_matching(self.viewer, entries_view(self.images@));
        }
        let ghost ev = entries_view(self.images@);
        let ghost pred = |e: ImageEntryView| passes_viewer(self.viewer, e);
        let no_class = self.viewer.filter_class.as_str().is_empty();
        let no_split = self.viewer.filter_split.as_str().is_empty();
        let mut out: Vec<&ImageEntry> = Vec::new();
        let mut i: usize = 0;
        proof {
            reveal(Seq::filter);
        }
        assert(ev.take(0) =~= Seq::<ImageEntryView>::empty());
        assert(entry_refs_view(out@) =~= ev.take(0).filter(pred));
        while i < self.images.len()
            invariant
                ev == entries_view(self.images@),
                pred == (|e: ImageEntryView| passes_viewer(self.viewer, e)),
                no_class == (self.viewer.filter_class@.len() == 0),
                no_split == (self.viewer.filter_split@.len() == 0),
                i <= self.images@.len(),
                entry_refs_view(out@) == ev.take(i as int).filter(pred),
            decreases self.images@.len() - i,
        {
            assert(ev.take(i + 1) =~= ev.take(i as int).push(ev[i as int]));
            proof {
                ev.take(i as int).lemma_filter_push(ev[i as int], pred);
            }
            let e = &self.images[i];
            let keep = (no_class || text_order(e.class_name.as_str(), self.viewer.filter_class.as_str())
                == Lex::Same) && (no_split || text_order(e.split.as_str(), self.viewer.filter_split.as_str())
                == Lex::Same);
            if keep {
                let ghost before = out@;
                out.push(e);
                assert(entry_refs_view(out@) =~= entry_refs_view(before).push(ev[i as int]));
            }
            i += 1;
        }
        assert(ev.take(ev.len() as int) =~= ev);
        assert forall|e: ImageEntryView| #[trigger] entry_refs_view(out@).contains(e) implies {
            &&& ev.contains(e)
            &&& self.viewer.filter_class@.len() > 0 ==> e.class_name == self.viewer.filter_class@
            &&& self.viewer.filter_split@.len() > 0 ==> e.split == self.viewer.filter_split@
        } by {
            assert(viewer_images(self.viewer, ev).contains(e));
        }
        out
    }

    /// The image the viewer is at: the filtered image at the viewer's
    /// position, if there is one.
    pub fn current_image(&self) -> (r: Option<&ImageEntry>)
        ensures
            match r {
                Some(e) => self.viewer.current_index < viewer_images(self.viewer, entries_view(self.images@)).len()
                    && e@ == viewer_images(self.viewer, entries_view(self.images@))[self.viewer.current_index as int],
                None => self.viewer.current_index >= viewer_images(self.viewer, entries_view(self.images@)).len(),
            },
    {
        let filtered = self.filtered_images();
        if self.viewer.current_index < filtered.len() {
            let e = filtered[self.viewer.current_index];
            assert(entry_refs_view(filtered@)[self.viewer.current_index as int] == e@);
            Some(e)
        } else {
            None
        }
    }

    /// The position shown: the viewer's position, kept within the filtered
    /// images (0 where there are none).
    pub fn shown_index(&self) -> (r: usize)
        ensures
            r == min_index(
                self.viewer.current_index,
                viewer_images(self.viewer, entries_view(self.images@)).len(),
            ),
    {
        let total = self.filtered_images().len();
        let last = if total > 0 { total - 1 } else { 0 };
        if self.viewer.current_index < last {
            self.viewer.current_index
        } else {
            last
        }
    }

    /// The viewer while the index is being read: busy.
    pub fn start_refresh(&mut self)
        ensures
            final(self).viewer.is_loading,
            final(self).viewer.filter_class == old(self).viewer.filter_class,
            final(self).viewer.filter_split == old(self).viewer.filter_split,
            final(self).viewer.current_index == old(self).viewer.current_index,
            final(self).images == old(self).images,
            same_but_view(*old(self), *final(self)),
    {
        self.viewer.is_loading = true;
    }

    /// The viewer once the index has been read: not busy; a new index
    /// replaces the images and goes back to the first one, an error keeps
    /// the images and the position.
    pub fn finish_refresh(&mut self, result: Result<Vec<ImageEntry>, String>)
        ensures
            !final(self).viewer.is_loading,
            match result {
                Ok(v) => final(self).images == v && final(self).viewer.current_index == 0,
                Err(_) => final(self).images == old(self).images && final(self).viewer.current_index
                    == old(self).viewer.current_index,
            },
            final(self).viewer.filter_class == old(self).viewer.filter_class,
            final(self).viewer.filter_split == old(self).viewer.filter_split,
            same_but_view(*old(self), *final(self)),
    {
        self.viewer.is_loading = false;
        match result {
            Ok(v) => {
                self.images = v;
                self.viewer.current_index = 0;
            },
            Err(_) => {},
        }
    }

    /// The state while the class list is loaded: loading.
    pub fn start_class_load(&mut self)
        ensures
            final(self).classes_loading,
            final(self).all_classes == old(self).all_classes,
            final(self).classes_error == old(self).classes_error,
            same_but_classes(*old(self), *final(self)),
    {
        self.classes_loading = true;
    }

    /// The state once the class list is loaded: not loading; the classes
    /// where they were read, else the error kept for display.
    pub fn finish_class_load(&mut self, result: Result<Vec<ClassEntry>, String>)
        ensures
            !final(self).classes_loading,
            match result {
                Ok(v) => final(self).all_classes == v && final(self).classes_error
                    == old(self).classes_error,
                Err(e) => final(self).classes_error == e && final(self).all_classes
                    == old(self).all_classes,
            },
            same_but_classes(*old(self), *final(self)),
    {
        self.classes_loading = false;
        match result {
            Ok(v) => self.all_classes = v,
            Err(e) => self.classes_error = e,
        }
    }

    /// A new index of the dataset: the viewer goes back to the first image.
    pub fn set_images(&mut self, images: Vec<ImageEntry>)
        ensures
            final(self).images == images,
            final(self).viewer.current_index == 0,
            final(self).viewer.filter_class == old(self).viewer.filter_class,
            final(self).viewer.filter_split == old(self).viewer.filter_split,
            final(self).viewer.is_loading == old(self).viewer.is_loading,
            same_but_view(*old(self), *final(self)),
    {
        self.images = images;
        self.viewer.current_index = 0;
    }

    /// Only images of class `class_name` are shown (all where it is empty),
    /// from the first one.
    pub fn set_class_filter(&mut self, class_name: String)
        ensures
            final(self).viewer.filter_class == class_name,
            final(self).viewer.filter_split == old(self).viewer.filter_split,
            final(self).viewer.current_index == 0,
            final(self).viewer.is_loading == old(self).viewer.is_loading,
            final(self).images == old(self).images,
            same_but_view(*old(self), *final(self)),
    {
        self.viewer.filter_class = class_name;
        self.viewer.current_index = 0;
    }

    /// Only images of split `split` are shown (all where it is empty), from
    /// the first one.
    pub fn set_split_filter(&mut self, split: String)
        ensures
            final(self).viewer.filter_split == split,
            final(self).viewer.filter_class == old(self).viewer.filter_class,
            final(self).viewer.current_index == 0,
            final(self).viewer.is_loading == old(self).viewer.is_loading,
            final(self).images == old(self).images,
            same_but_view(*old(self), *final(self)),
    {
        self.viewer.filter_split = split;
        self.viewer.current_index = 0;
    }

    /// One image back, where the viewer is not at the first.
    pub fn prev_image(&mut self)
        ensures
            final(self).viewer.current_index == prev_index(old(self).viewer.current_index),
            final(self).viewer.filter_class == old(self).viewer.filter_class,
            final(self).viewer.filter_split == old(self).viewer.filter_split,
            final(self).viewer.is_loading == old(self).viewer.is_loading,
            final(self).images == old(self).images,
            same_but_view(*old(self), *final(self)),
    {
        if self.viewer.current_index > 0 {
            self.viewer.current_index -= 1;
        }
    }

    /// One image on, where the viewer is before the last filtered image.
    pub fn next_image(&mut self)
        ensures
            final(self).viewer.current_index == next_index(
                old(self).viewer.current_index,
                viewer_images(old(self).viewer, entries_view(old(self).images@)).len(),
            ),
            final(self).viewer.filter_class == old(self).viewer.filter_class,
            final(self).viewer.filter_split == old(self).viewer.filter_split,
            final(self).viewer.is_loading == old(self).viewer.is_loading,
            final(self).images == old(self).images,
            same_but_view(*old(self), *final(self)),
    {
        let total = self.filtered_images().len();
        let last = if total > 0 { total - 1 } else { 0 };
        if self.viewer.current_index < last {
            self.viewer.current_index += 1;
        }
    }

    /// The classes of the index, each once, in increasing order.
    pub fn viewer_classes(&self) -> (r: Vec<String>)
        ensures
            is_sorted_set_of(strings_view(r@), image_classes(self.images@)),
    {
        list_local_classes(&self.images)
    }

    /// The splits of the index, each once, in increasing order.
    pub fn viewer_splits(&self) -> (r: Vec<String>)
        ensures
            is_sorted_set_of(strings_view(r@), image_splits(self.images@)),
    {
        let mut names: Vec<String> = Vec::new();
        let mut i: usize = 0;
        while i < self.images.len()
            invariant
                i <= self.images@.len(),
                strings_view(names@) == image_splits(self.images@).take(i as int),
            decreases self.images@.len() - i,
        {
            let ghost before = names@;
            names.push(self.images[i].split.clone());
            assert(strings_view(names@) =~= strings_view(before).push(self.images@[i as int].split@));
            assert(strings_view(names@) =~= image_splits(self.images@).take(i + 1));
            i += 1;
        }
        assert(image_splits(self.images@).take(i as int) =~= image_splits(self.images@));
        sorted_distinct(&names)
    }
}

} // verus!
