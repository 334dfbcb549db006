//! Planning a download job: which classes go into which folders, which
//! images are fetched, where from, and which boxes go into which label file.

use vstd::prelude::*;
use crate::clock::{duration_nanos, since_unix_epoch, system_now};
use crate::csv_meta::{code_for, class_code, entry_pairs};
use crate::models::{
    BBoxRow, BBoxRowView, ClassEntry, DownloadConfig, ProgressEvent, Split, rows_view, split_folders,
    split_annotation_files, strs_view, lemma_split_files_match_folders,
};
use crate::order::{Lex, text_order, is_sorted_set_of, sorted_distinct};
use crate::numbers::{decimal, lemma_decimal_injective, push_decimal};
use crate::text::strings_view;

verus! {

/// The root URL the images of the dataset are fetched from.
pub const S3_BASE: &'static str = "https://open-images-dataset.s3.amazonaws.com";

/// The parts joined into one text with `sep` between each two.
pub open spec fn joined(parts: Seq<Seq<char>>, sep: Seq<char>) -> Seq<char>
    decreases parts.len(),
{
    if parts.len() == 0 {
        Seq::empty()
    } else if parts.len() == 1 {
        parts[0]
    } else {
        joined(parts.drop_last(), sep) + sep + parts.last()
    }
}

/// The parts joined into one text with `sep` between each two (std's
/// `join`).
pub fn join_texts(parts: &Vec<String>, sep: &str) -> (r: String)
    ensures
        r@ == joined(strings_view(parts@), sep@),
{
    let ghost pv = strings_view(parts@);
    let mut r = String::new();
    let mut i: usize = 0;
    while i < parts.len()
        invariant
            pv == strings_view(parts@),
            i <= parts@.len(),
            r@ == joined(pv.take(i as int), sep@),
        decreases parts@.len() - i,
    {
        assert(pv.take(i + 1).drop_last() =~= pv.take(i as int));
        assert(pv.take(i + 1).last() == parts@[i as int]@);
        if i > 0 {
            r.append(sep);
        }
        r.append(parts[i].as_str());
        i += 1;
    }
    assert(pv.take(parts@.len() as int) =~= pv);
    r
}

/// The error for a class name the class list does not know.
pub open spec fn unknown_class_message(name: Seq<char>) -> Seq<char> {
    "Unknown class: '"@ + name + "'"@
}

/// The codes of the class names, in order, each by the class list (the last
/// class of that name); the error for the first name it does not know.
pub open spec fn resolved_codes(names: Seq<Seq<char>>, ps: Seq<(Seq<char>, Seq<char>)>) -> Result<
    Seq<Seq<char>>,
    Seq<char>,
>
    decreases names.len(),
{
    if names.len() == 0 {
        Ok(Seq::empty())
    } else {
        match resolved_codes(names.drop_last(), ps) {
            Err(e) => Err(e),
            Ok(codes) => match code_for(ps, names.last()) {
                Some(c) => Ok(codes.push(c)),
                None => Err(unknown_class_message(names.last())),
            },
        }
    }
}

/// The codes of the class names, in order; the error for the first unknown
/// name.
pub fn resolve_codes(names: &Vec<String>, known: &Vec<ClassEntry>) -> (r: Result<
    Vec<String>,
    String,
>)
    ensures
        match r {
            Ok(codes) => resolved_codes(strings_view(names@), entry_pairs(known@)) == Ok::<
                Seq<Seq<char>>,
                Seq<char>,
            >(strings_view(codes@)),
            Err(e) => resolved_codes(strings_view(names@), entry_pairs(known@)) == Err::<
                Seq<Seq<char>>,
                Seq<char>,
            >(e@),
        },
{
    let ghost nv = strings_view(names@);
    let ghost ps = entry_pairs(known@);
    let mut codes: Vec<String> = Vec::new();
    let mut i: usize = 0;
    assert(nv.take(0) =~= Seq::<Seq<char>>::empty());
    assert(strings_view(codes@) =~= Seq::<Seq<char>>::empty());
    while i < names.len()
        invariant
            nv == strings_view(names@),
            ps == entry_pairs(known@),
            i <= names@.len(),
            resolved_codes(nv.take(i as int), ps) == Ok::<Seq<Seq<char>>, Seq<char>>(
                strings_view(codes@),
            ),
        decreases names@.len() - i,
    {
        assert(nv.take(i + 1).drop_last() =~= nv.take(i as int));
        assert(nv.take(i + 1).last() == names@[i as int]@);
        match class_code(known, names[i].as_str()) {
            Some(c) => {
                let ghost before = codes@;
                codes.push(c);
                assert(strings_view(codes@) =~= strings_view(before).push(c@));
            },
            None => {
                let mut msg = String::from_str("Unknown class: '");
                msg.append(names[i].as_str());
                msg.append("'");
                proof {
                    lemma_resolved_codes_prefix_err(nv, ps, i as int + 1);
                }
                return Err(msg);
            },
        }
        i += 1;
    }
    assert(nv.take(names@.len() as int) =~= nv);
    Ok(codes)
}

/// Once a prefix of the names fails to resolve, the whole list fails with the
/// same error.
proof fn lemma_resolved_codes_prefix_err(
    names: Seq<Seq<char>>,
    ps: Seq<(Seq<char>, Seq<char>)>,
    k: int,
)
    requires
        0 <= k <= names.len(),
        resolved_codes(names.take(k), ps) is Err,
    ensures
        resolved_codes(names, ps) == resolved_codes(names.take(k), ps),
    decreases names.len() - k,
{
    if k < names.len() {
        assert(names.take(k + 1).drop_last() =~= names.take(k));
        lemma_resolved_codes_prefix_err(names, ps, k + 1);
    } else {
        assert(names.take(k) =~= names);
    }
}

/// One class of a download job in one split folder.
#[derive(Debug, Clone)]
pub struct DownloadTask {
    /// The dataset folder of the split (`train`, `validation`, `test`).
    pub split_folder: String,
    /// The annotation CSV of that folder.
    pub annotation_file: String,
    pub class_name: String,
    pub class_code: String,
    /// The position of the class in the job, its YOLO class index.
    pub class_idx: usize,
    /// The folder the images go into, under the split folder.
    pub folder_name: String,
}

/// A `DownloadTask` as plain values.
pub struct DownloadTaskView {
    pub split_folder: Seq<char>,
    pub annotation_file: Seq<char>,
    pub class_name: Seq<char>,
    pub class_code: Seq<char>,
    pub class_idx: usize,
    pub folder_name: Seq<char>,
}

impl View for DownloadTask {
    type V = DownloadTaskView;

    open spec fn view(&self) -> DownloadTaskView {
        DownloadTaskView {
            split_folder: self.split_folder@,
            annotation_file: self.annotation_file@,
            class_name: self.class_name@,
            class_code: self.class_code@,
            class_idx: self.class_idx,
            folder_name: self.folder_name@,
        }
    }
}

/// The views of a list of tasks.
pub open spec fn tasks_view(v: Seq<DownloadTask>) -> Seq<DownloadTaskView> {
    v.map_values(|t: DownloadTask| t@)
}

/// The folder the images of class `j` go into: one folder named after all
/// classes joined by `_` for a multiclass job, else the class's own name.
pub open spec fn image_folder_name(classes: Seq<Seq<char>>, multiclass: bool, j: int) -> Seq<char> {
    if multiclass {
        joined(classes, "_"@)
    } else {
        classes[j]
    }
}

/// The task of split folder `i` and class `j`.
pub open spec fn task_of(
    split: Split,
    classes: Seq<Seq<char>>,
    codes: Seq<Seq<char>>,
    multiclass: bool,
    i: int,
    j: int,
) -> DownloadTaskView {
    DownloadTaskView {
        split_folder: split_folders(split)[i],
        annotation_file: split_annotation_files(split)[i],
        class_name: classes[j],
        class_code: codes[j],
        class_idx: j as usize,
        folder_name: image_folder_name(classes, multiclass, j),
    }
}

/// The tasks of split folder `i`, one per class in order.
pub open spec fn folder_tasks(
    split: Split,
    classes: Seq<Seq<char>>,
    codes: Seq<Seq<char>>,
    multiclass: bool,
    i: int,
) -> Seq<DownloadTaskView> {
    Seq::new(classes.len(), |j: int| task_of(split, classes, codes, multiclass, i, j))
}

/// The tasks of a job: for each folder of the split in order, each class in
/// order.
pub open spec fn planned_tasks(
    split: Split,
    classes: Seq<Seq<char>>,
    codes: Seq<Seq<char>>,
    multiclass: bool,
) -> Seq<DownloadTaskView> {
    Seq::new(
        split_folders(split).len(),
        |i: int| folder_tasks(split, classes, codes, multiclass, i),
    ).flatten()
}

/// The tasks of a download job: each of its classes, resolved to its code by
/// the class list, in each folder of its split; the error for the first class
/// the list does not know.
pub fn plan_download(config: &DownloadConfig, known: &Vec<ClassEntry>) -> (r: Result<
    Vec<DownloadTask>,
    String,
>)
    ensures
        match r {
            Ok(tasks) => exists|codes: Seq<Seq<char>>|
                {
                    &&& resolved_codes(strings_view(config.classes@), entry_pairs(known@)) == Ok::<
                        Seq<Seq<char>>,
                        Seq<char>,
                    >(codes)
                    &&& tasks_view(tasks@) == planned_tasks(
                        config.split,
                        strings_view(config.classes@),
                        codes,
                        config.multiclass,
                    )
                },
            Err(e) => resolved_codes(strings_view(config.classes@), entry_pairs(known@)) == Err::<
                Seq<Seq<char>>,
                Seq<char>,
            >(e@),
        },
{
    let codes = match resolve_codes(&config.classes, known) {
        Ok(c) => c,
        Err(e) => return Err(e),
    };
    let ghost cv = strings_view(config.classes@);
    let ghost kv = strings_view(codes@);
    proof {
        lemma_resolved_codes_len(cv, entry_pairs(known@));
    }
    let folders = config.split.folders();
    let files = config.split.annotation_files();
    proof {
        lemma_split_files_match_folders(config.split);
    }
    let joined_name = join_texts(&config.classes, "_");
    let ghost chunks = Seq::new(
        split_folders(config.split).len(),
        |i: int| folder_tasks(config.split, cv, kv, config.multiclass, i),
    );
    let mut tasks: Vec<DownloadTask> = Vec::new();
    let mut i: usize = 0;
    assert(chunks.take(0) =~= Seq::<Seq<DownloadTaskView>>::empty());
    while i < folders.len()
        invariant
            cv == strings_view(config.classes@),
            kv == strings_view(codes@),
            kv.len() == cv.len(),
            strs_view(folders@) == split_folders(config.split),
            strs_view(files@) == split_annotation_files(config.split),
            files@.len() == folders@.len(),
            joined_name@ == joined(cv, "_"@),
            chunks == Seq::new(
                split_folders(config.split).len(),
                |i: int| folder_tasks(config.split, cv, kv, config.multiclass, i),
            ),
            i <= folders@.len(),
            tasks_view(tasks@) == chunks.take(i as int).flatten(),
        decreases folders@.len() - i,
    {
        let ghost before = tasks_view(tasks@);
        let ghost chunk = folder_tasks(config.split, cv, kv, config.multiclass, i as int);
        assert(strs_view(folders@)[i as int] == folders@[i as int]@);
        assert(strs_view(files@)[i as int] == files@[i as int]@);
        let mut j: usize = 0;
        while j < config.classes.len()
            invariant
                cv == strings_view(config.classes@),
                kv == strings_view(codes@),
                kv.len() == cv.len(),
                joined_name@ == joined(cv, "_"@),
                i < folders@.len(),
                i < files@.len(),
                i < split_folders(config.split).len(),
                split_annotation_files(config.split).len() == split_folders(config.split).len(),
                folders@[i as int]@ == split_folders(config.split)[i as int],
                files@[i as int]@ == split_annotation_files(config.split)[i as int],
                chunk == folder_tasks(config.split, cv, kv, config.multiclass, i as int),
                j <= config.classes@.len(),
                tasks_view(tasks@) == before + chunk.take(j as int),
            decreases config.classes@.len() - j,
        {
            let folder_name = if config.multiclass {
                joined_name.clone()
            } else {
                config.classes[j].clone()
            };
            let t = DownloadTask {
                split_folder: String::from_str(folders[i]),
                annotation_file: String::from_str(files[i]),
                class_name: config.classes[j].clone(),
                class_code: codes[j].clone(),
                class_idx: j,
                folder_name,
            };
            assert(cv[j as int] == config.classes@[j as int]@);
            assert(kv[j as int] == codes@[j as int]@);
            assert(t@ == chunk[j as int]);
            let ghost prev = tasks@;
            tasks.push(t);
            assert(tasks_view(tasks@) =~= tasks_view(prev).push(t@));
            assert(chunk.take(j + 1) =~= chunk.take(j as int).push(chunk[j as int]));
            j += 1;
        }
        assert(chunk.take(chunk.len() as int) =~= chunk);
        assert(chunks.take(i + 1) =~= chunks.take(i as int).push(chunks[i as int]));
        proof {
            chunks.take(i as int).lemma_flatten_push(chunks[i as int]);
        }
        i += 1;
    }
    assert(chunks.take(folders@.len() as int) =~= chunks);
    assert(tasks_view(tasks@) == planned_tasks(config.split, cv, kv, config.multiclass));
    Ok(tasks)
}

/// What every task of a plan satisfies: its class is one of the job's, at
/// its position, with that position's code; it goes into the shared folder
/// of a multiclass job or its class's own folder; and it reads the
/// annotation file of its split folder.
pub open spec fn task_fits(
    t: DownloadTaskView,
    split: Split,
    classes: Seq<Seq<char>>,
    codes: Seq<Seq<char>>,
    multiclass: bool,
) -> bool {
    &&& t.class_idx < classes.len()
    &&& t.class_name == classes[t.class_idx as int]
    &&& t.class_code == codes[t.class_idx as int]
    &&& t.folder_name == if multiclass {
        joined(classes, "_"@)
    } else {
        t.class_name
    }
    &&& split_folders(split).contains(t.split_folder)
    &&& t.annotation_file == t.split_folder + "-annotations-bbox.csv"@
}

proof fn lemma_flatten_all(s: Seq<Seq<DownloadTaskView>>, p: spec_fn(DownloadTaskView) -> bool)
    requires
        forall|i: int, j: int| 0 <= i < s.len() && 0 <= j < s[i].len() ==> p(#[trigger] s[i][j]),
    ensures
        forall|k: int| 0 <= k < s.flatten().len() ==> p(#[trigger] s.flatten()[k]),
    decreases s.len(),
{
    if s.len() > 0 {
        let rest = s.drop_first();
        assert forall|i: int, j: int| 0 <= i < rest.len() && 0 <= j < rest[i].len() implies p(
            #[trigger] rest[i][j],
        ) by {
            assert(rest[i] == s[i + 1]);
        }
        lemma_flatten_all(rest, p);
        assert(s.flatten() == s[0] + rest.flatten());
        assert forall|k: int| 0 <= k < s.flatten().len() implies p(#[trigger] s.flatten()[k]) by {
            if k < s[0].len() {
                assert(s.flatten()[k] == s[0][k]);
            } else {
                assert(s.flatten()[k] == rest.flatten()[k - s[0].len()]);
            }
        }
    }
}

proof fn lemma_flatten_len(s: Seq<Seq<DownloadTaskView>>, m: nat)
    requires
        forall|i: int| 0 <= i < s.len() ==> #[trigger] s[i].len() == m,
    ensures
        s.flatten().len() == s.len() * m,
    decreases s.len(),
{
    if s.len() > 0 {
        let rest = s.drop_first();
        assert forall|i: int| 0 <= i < rest.len() implies #[trigger] rest[i].len() == m by {
            assert(rest[i] == s[i + 1]);
        }
        lemma_flatten_len(rest, m);
        assert(s.flatten() == s[0] + rest.flatten());
        assert(s.len() * m == m + rest.len() * m) by (nonlinear_arith)
            requires
                rest.len() == s.len() - 1,
        ;
    }
}

/// A plan holds one task per split folder and class, and each task fits the
/// job: the right class, code and index, the shared or own folder, and the
/// annotation file of its split folder.
pub proof fn lemma_plan_tasks(
    split: Split,
    classes: Seq<Seq<char>>,
    codes: Seq<Seq<char>>,
    multiclass: bool,
)
    requires
        codes.len() == classes.len(),
        classes.len() <= usize::MAX,
    ensures
        planned_tasks(split, classes, codes, multiclass).len() == split_folders(split).len()
            * classes.len(),
        forall|k: int|
            0 <= k < planned_tasks(split, classes, codes, multiclass).len() ==> task_fits(
                #[trigger] planned_tasks(split, classes, codes, multiclass)[k],
                split,
                classes,
                codes,
                multiclass,
            ),
{
    let chunks = Seq::new(
        split_folders(split).len(),
        |i: int| folder_tasks(split, classes, codes, multiclass, i),
    );
    lemma_split_files_match_folders(split);
    lemma_flatten_len(chunks, classes.len());
    let p = |t: DownloadTaskView| task_fits(t, split, classes, codes, multiclass);
    assert forall|i: int, j: int| 0 <= i < chunks.len() && 0 <= j < chunks[i].len() implies p(
        #[trigger] chunks[i][j],
    ) by {
        assert(chunks[i][j] == task_of(split, classes, codes, multiclass, i, j));
        assert(split_folders(split)[i] == split_folders(split)[i]);
    }
    lemma_flatten_all(chunks, p);
}

/// Resolved codes come one per name.
proof fn lemma_resolved_codes_len(names: Seq<Seq<char>>, ps: Seq<(Seq<char>, Seq<char>)>)
    ensures
        resolved_codes(names, ps) matches Ok(codes) ==> codes.len() == names.len(),
    decreases names.len(),
{
    if names.len() > 0 {
        lemma_resolved_codes_len(names.drop_last(), ps);
    }
}

/// The image ids of the rows, in row order.
pub open spec fn row_ids(rows: Seq<BBoxRowView>) -> Seq<Seq<char>> {
    rows.map_values(|r: BBoxRowView| r.image_id)
}

/// The first `limit` of `ids`, all of them without a limit.
pub open spec fn limited(ids: Seq<Seq<char>>, limit: Option<usize>) -> Seq<Seq<char>> {
    match limit {
        Some(l) => if l < ids.len() {
            ids.take(l as int)
        } else {
            ids
        },
        None => ids,
    }
}

/// The images a task fetches: the distinct image ids of its rows, in
/// increasing order, cut to the first `limit` where there is a limit.
pub fn select_image_ids(rows: &Vec<BBoxRow>, limit: Option<usize>) -> (r: Vec<String>)
    ensures
        exists|all: Seq<Seq<char>>|
            {
                &&& is_sorted_set_of(all, row_ids(rows_view(rows@)))
                &&& strings_view(r@) == limited(all, limit)
            },
{
    let ghost ids = row_ids(rows_view(rows@));
    let mut names: Vec<String> = Vec::new();
    let mut i: usize = 0;
    while i < rows.len()
        invariant
            ids == row_ids(rows_view(rows@)),
            i <= rows@.len(),
            strings_view(names@) == ids.take(i as int),
        decreases rows@.len() - i,
    {
        let ghost before = names@;
        names.push(rows[i].image_id.clone());
        assert(strings_view(names@) =~= strings_view(before).push(rows@[i as int].image_id@));
        assert(ids[i as int] == rows@[i as int].image_id@);
        assert(strings_view(names@) =~= ids.take(i + 1));
        i += 1;
    }
    assert(ids.take(rows@.len() as int) =~= ids);
    let mut all = sorted_distinct(&names);
    let ghost av = strings_view(all@);
    match limit {
        Some(l) => {
            if l < all.len() {
                all.truncate(l);
                assert(strings_view(all@) =~= av.take(l as int));
            }
        },
        None => {},
    }
    assert(is_sorted_set_of(av, ids) && strings_view(all@) == limited(av, limit));
    all
}

/// The rows of image `id`, in row order.
pub open spec fn rows_of_image(rows: Seq<BBoxRowView>, id: Seq<char>) -> Seq<BBoxRowView> {
    rows.filter(|r: BBoxRowView| r.image_id == id)
}

/// The boxes of image `id`, in row order.
pub fn boxes_of_image(rows: &Vec<BBoxRow>, id: &str) -> (r: Vec<BBoxRow>)
    ensures
        rows_view(r@) == rows_of_image(rows_view(rows@), id@),
{
    let ghost rv = rows_view(rows@);
    let mut out: Vec<BBoxRow> = Vec::new();
    let mut i: usize = 0;
    assert(rv.take(0) =~= Seq::<BBoxRowView>::empty());
    proof {
        reveal(Seq::filter);
    }
    assert(rows_of_image(rv.take(0), id@) =~= Seq::<BBoxRowView>::empty());
    while i < rows.len()
        invariant
            rv == rows_view(rows@),
            i <= rows@.len(),
            rows_view(out@) == rows_of_image(rv.take(i as int), id@),
        decreases rows@.len() - i,
    {
        assert(rv.take(i + 1) =~= rv.take(i as int).push(rows@[i as int]@));
        proof {
            rv.take(i as int).lemma_filter_push(rows@[i as int]@, |r: BBoxRowView| r.image_id == id@);
        }
        if text_order(rows[i].image_id.as_str(), id) == Lex::Same {
            let ghost before = out@;
            out.push(rows[i].copy());
            assert(rows_view(out@) =~= rows_view(before).push(rows@[i as int]@));
        }
        i += 1;
    }
    assert(rv.take(rows@.len() as int) =~= rv);
    out
}

/// The boxes that go into the label file of one image.
#[derive(Debug, Clone)]
pub struct LabelGroup {
    pub image_id: String,
    pub boxes: Vec<BBoxRow>,
}

impl View for LabelGroup {
    type V = (Seq<char>, Seq<BBoxRowView>);

    open spec fn view(&self) -> (Seq<char>, Seq<BBoxRowView>) {
        (self.image_id@, rows_view(self.boxes@))
    }
}

/// The views of a list of label groups.
pub open spec fn groups_view(v: Seq<LabelGroup>) -> Seq<(Seq<char>, Seq<BBoxRowView>)> {
    v.map_values(|g: LabelGroup| g@)
}

/// The label group of image `id`: its rows, where it has any.
pub open spec fn label_group_of(rows: Seq<BBoxRowView>, id: Seq<char>) -> Option<
    (Seq<char>, Seq<BBoxRowView>),
> {
    if rows_of_image(rows, id).len() > 0 {
        Some((id, rows_of_image(rows, id)))
    } else {
        None
    }
}

/// The label files of a task: for each image on disk, in order, that has
/// rows, the image and its rows.
pub open spec fn label_groups_of(rows: Seq<BBoxRowView>, ids: Seq<Seq<char>>) -> Seq<
    (Seq<char>, Seq<BBoxRowView>),
> {
    ids.filter_map(|id: Seq<char>| label_group_of(rows, id))
}

/// The label files to write for the images on disk: each image that has
/// rows, with its boxes in row order.
pub fn label_groups(rows: &Vec<BBoxRow>, image_ids: &Vec<String>) -> (r: Vec<LabelGroup>)
    ensures
        groups_view(r@) == label_groups_of(rows_view(rows@), strings_view(image_ids@)),
{
    let ghost rv = rows_view(rows@);
    let ghost iv = strings_view(image_ids@);
    let mut out: Vec<LabelGroup> = Vec::new();
    let mut i: usize = 0;
    assert(iv.take(0) =~= Seq::<Seq<char>>::empty());
    while i < image_ids.len()
        invariant
            rv == rows_view(rows@),
            iv == strings_view(image_ids@),
            i <= image_ids@.len(),
            groups_view(out@) == iv.take(i as int).filter_map(
                |id: Seq<char>| label_group_of(rv, id),
            ),
        decreases image_ids@.len() - i,
    {
        proof {
            iv.lemma_filter_map_take_succ(|id: Seq<char>| label_group_of(rv, id), i as int);
            assert(iv[i as int] == image_ids@[i as int]@);
        }
        let boxes = boxes_of_image(rows, image_ids[i].as_str());
        if boxes.len() > 0 {
            let g = LabelGroup { image_id: image_ids[i].clone(), boxes };
            let ghost before = out@;
            out.push(g);
            assert(groups_view(out@) =~= groups_view(before).push(g@));
        }
        i += 1;
    }
    assert(iv.take(image_ids@.len() as int) =~= iv);
    out
}

/// The URL of image `id` of split folder `folder`.
pub open spec fn image_url_text(folder: Seq<char>, id: Seq<char>) -> Seq<char> {
    S3_BASE@ + "/"@ + folder + "/"@ + id + ".jpg"@
}

/// The URL image `image_id` of split folder `split_folder` is fetched from.
pub fn image_url(split_folder: &str, image_id: &str) -> (r: String)
    ensures
        r@ == image_url_text(split_folder@, image_id@),
{
    let mut url = String::from_str(S3_BASE);
    url.append("/");
    url.append(split_folder);
    url.append("/");
    url.append(image_id);
    url.append(".jpg");
    url
}

/// The file an image is saved as: its id with the `.jpg` extension.
pub fn image_file_name(image_id: &str) -> (r: String)
    ensures
        r@ == image_id@ + ".jpg"@,
{
    let mut name = String::from_str(image_id);
    name.append(".jpg");
    name
}

/// The YOLO label file of an image: its id with the `.txt` extension.
pub fn label_file_name(image_id: &str) -> (r: String)
    ensures
        r@ == image_id@ + ".txt"@,
{
    let mut name = String::from_str(image_id);
    name.append(".txt");
    name
}

/// The id of a job started `nanos` nanoseconds after the Unix epoch.
pub open spec fn job_id_text(nanos: nat) -> Seq<char> {
    "job-"@ + decimal(nanos)
}

/// The id of a job started `nanos` nanoseconds after the Unix epoch:
/// `job-` and the decimal number.
pub fn job_id_for(nanos: u128) -> (r: String)
    ensures
        r@ == job_id_text(nanos as nat),
{
    let mut id = String::from_str("job-");
    push_decimal(&mut id, nanos);
    id
}

/// The nanoseconds a clock reading counts: those since the Unix epoch, 0
/// for a reading before it (`None`).
pub open spec fn clock_nanos(reading: Option<u128>) -> u128 {
    match reading {
        Some(n) => n,
        None => 0,
    }
}

/// The id of a job started at a clock reading: `nanos` nanoseconds after the
/// Unix epoch (`Some`), or before it (`None`, counted as 0).
pub fn job_id_from_clock(reading: Option<u128>) -> (r: String)
    ensures
        r@ == job_id_text(clock_nanos(reading) as nat),
{
    let nanos = match reading {
        Some(n) => n,
        None => 0,
    };
    job_id_for(nanos)
}

/// Jobs started at different clock readings get different ids: the id
/// determines the nanoseconds it was made from.
pub proof fn lemma_job_ids_distinct(a: nat, b: nat)
    ensures
        job_id_text(a) == job_id_text(b) ==> a == b,
{
    if job_id_text(a) == job_id_text(b) {
        assert(job_id_text(a).skip("job-"@.len() as int) =~= decimal(a));
        assert(job_id_text(b).skip("job-"@.len() as int) =~= decimal(b));
        lemma_decimal_injective(a, b);
    }
}

/// A new job id from the current time in nanoseconds since the Unix epoch
/// (0 where the clock reads before it).
pub fn generate_job_id() -> (r: String)
    ensures
        exists|nanos: u128| r@ == job_id_text(nanos as nat),
{
    let reading = match since_unix_epoch(&system_now()) {
        Some(d) => Some(duration_nanos(&d)),
        None => None,
    };
    job_id_from_clock(reading)
}

/// The progress event of task `task` of job `job_id` with `total` images:
/// `downloaded` of them done, `finished` at the end, and the error of the
/// image just fetched, if any.
pub fn task_event(
    job_id: &str,
    task: &DownloadTask,
    total: usize,
    downloaded: usize,
    finished: bool,
    error: Option<String>,
) -> (r: ProgressEvent)
    ensures
        r.job_id@ == job_id@,
        r.class_name@ == task.class_name@,
        r.split@ == task.split_folder@,
        r.downloaded == downloaded,
        r.total == total,
        r.finished == finished,
        r.error == error,
{
    ProgressEvent {
        job_id: String::from_str(job_id),
        class_name: task.class_name.clone(),
        split: task.split_folder.clone(),
        downloaded,
        total,
        finished,
        error,
    }
}

/// The event a task starts with: nothing done of `total`.
pub fn start_event(job_id: &str, task: &DownloadTask, total: usize) -> (r: ProgressEvent)
    ensures
        r.job_id@ == job_id@,
        r.class_name@ == task.class_name@,
        r.split@ == task.split_folder@,
        r.downloaded == 0,
        r.total == total,
        !r.finished,
        r.error is None,
{
    task_event(job_id, task, total, 0, false, None)
}

/// The event a task ends with: all `total` done, finished, no error.
pub fn finish_event(job_id: &str, task: &DownloadTask, total: usize) -> (r: ProgressEvent)
    ensures
        r.job_id@ == job_id@,
        r.class_name@ == task.class_name@,
        r.split@ == task.split_folder@,
        r.downloaded == total,
        r.total == total,
        r.finished,
        r.error is None,
{
    task_event(job_id, task, total, total, true, None)
}

/// The progress of one running task: how many of its images are done.
#[derive(Debug, Clone)]
pub struct TaskProgress {
    pub job_id: String,
    pub class_name: String,
    pub split_folder: String,
    pub total: usize,
    pub done: usize,
}

impl TaskProgress {
    /// A task of job `job_id` starts with `total` images: nothing done yet,
    /// and the start event.
    pub fn begin(job_id: &str, task: &DownloadTask, total: usize) -> (r: (TaskProgress, ProgressEvent))
        ensures
            r.0.job_id@ == job_id@,
            r.0.class_name@ == task.class_name@,
            r.0.split_folder@ == task.split_folder@,
            r.0.total == total,
            r.0.done == 0,
            r.1.job_id@ == job_id@,
            r.1.class_name@ == task.class_name@,
            r.1.split@ == task.split_folder@,
            r.1.downloaded == 0,
            r.1.total == total,
            !r.1.finished,
            r.1.error is None,
    {
        let p = TaskProgress {
            job_id: String::from_str(job_id),
            class_name: task.class_name.clone(),
            split_folder: task.split_folder.clone(),
            total,
            done: 0,
        };
        (p, start_event(job_id, task, total))
    }

    /// One more image of the task is done (fetched, or failed with
    /// `error`): the count goes up by one, and its event reports the new
    /// count and the error.
    pub fn image_done(&mut self, error: Option<String>) -> (e: ProgressEvent)
        requires
            old(self).done < old(self).total,
        ensures
            final(self).done == old(self).done + 1,
            final(self).total == old(self).total,
            final(self).job_id == old(self).job_id,
            final(self).class_name == old(self).class_name,
            final(self).split_folder == old(self).split_folder,
            e.job_id@ == old(self).job_id@,
            e.class_name@ == old(self).class_name@,
            e.split@ == old(self).split_folder@,
            e.downloaded == final(self).done,
            e.total == old(self).total,
            !e.finished,
            e.error == error,
    {
        self.done = self.done + 1;
        ProgressEvent {
            job_id: self.job_id.clone(),
            class_name: self.class_name.clone(),
            split: self.split_folder.clone(),
            downloaded: self.done,
            total: self.total,
            finished: false,
            error,
        }
    }

    /// The event the task ends with: all its images counted, finished.
    pub fn finish(&self) -> (e: ProgressEvent)
        ensures
            e.job_id@ == self.job_id@,
            e.class_name@ == self.class_name@,
            e.split@ == self.split_folder@,
            e.downloaded == self.total,
            e.total == self.total,
            e.finished,
            e.error is None,
    {
        ProgressEvent {
            job_id: self.job_id.clone(),
            class_name: self.class_name.clone(),
            split: self.split_folder.clone(),
            downloaded: self.total,
            total: self.total,
            finished: true,
            error: None,
        }
    }
}

/// A step of running a job's plan.
#[derive(Debug, Clone, Copy, PartialEq, Eq, Structural)]
pub enum RunStep {
    /// Check that the annotation file of split folder `i` is there, and read it.
    CheckFolder(usize),
    /// Run task `k` of the plan.
    RunTask(usize),
}

/// The steps of split folder `i` of a plan with `m` classes: its check, then
/// its tasks `i * m .. i * m + m` in order.
pub open spec fn folder_steps(i: int, m: nat) -> Seq<RunStep> {
    seq![RunStep::CheckFolder(i as usize)] + Seq::new(m, |j: int| RunStep::RunTask((i * m + j) as usize))
}

/// The steps of a plan of `nf` split folders and `m` classes: folder by
/// folder, each checked before its tasks run.
pub open spec fn run_steps(nf: nat, m: nat) -> Seq<RunStep> {
    Seq::new(nf, |i: int| folder_steps(i, m)).flatten()
}

/// The order a plan of `folder_count` split folders and `class_count`
/// classes is run in: each folder's annotation file is checked, then that
/// folder's tasks run.
pub fn run_schedule(folder_count: usize, class_count: usize) -> (r: Vec<RunStep>)
    requires
        folder_count * class_count <= usize::MAX,
    ensures
        r@ == run_steps(folder_count as nat, class_count as nat),
{
    let ghost m = class_count as nat;
    let ghost chunks = Seq::new(folder_count as nat, |i: int| folder_steps(i, m));
    let mut r: Vec<RunStep> = Vec::new();
    let mut i: usize = 0;
    let mut k: usize = 0;
    assert(chunks.take(0) =~= Seq::<Seq<RunStep>>::empty());
    while i < folder_count
        invariant
            folder_count * class_count <= usize::MAX,
            m == class_count,
            chunks == Seq::new(folder_count as nat, |i: int| folder_steps(i, m)),
            i <= folder_count,
            k == i * class_count,
            r@ == chunks.take(i as int).flatten(),
        decreases folder_count - i,
    {
        let ghost before = r@;
        let ghost chunk = folder_steps(i as int, m);
        r.push(RunStep::CheckFolder(i));
        let mut j: usize = 0;
        assert(i * class_count + class_count <= usize::MAX) by (nonlinear_arith)
            requires
                i < folder_count,
                folder_count * class_count <= usize::MAX,
        ;
        while j < class_count
            invariant
                m == class_count,
                i < folder_count,
                i * class_count + class_count <= usize::MAX,
                chunk == folder_steps(i as int, m),
                j <= class_count,
                k == i * class_count + j,
                r@ == before + chunk.take(j + 1),
            decreases class_count - j,
        {
            r.push(RunStep::RunTask(k));
            assert(chunk[j + 1] == RunStep::RunTask(k));
            assert(chunk.take(j + 2) =~= chunk.take(j + 1).push(chunk[j + 1]));
            k = k + 1;
            j += 1;
        }
        assert(chunk.len() == class_count + 1);
        assert(chunk.take(class_count + 1) =~= chunk);
        assert(k == (i + 1) * class_count) by (nonlinear_arith)
            requires
                k == i * class_count + class_count,
        ;
        assert(chunks.take(i + 1) =~= chunks.take(i as int).push(chunks[i as int]));
        proof {
            chunks.take(i as int).lemma_flatten_push(chunks[i as int]);
        }
        i += 1;
    }
    assert(chunks.take(folder_count as int) =~= chunks);
    r
}

/// The element at `i * m + j` of the flattening of `n` sequences of length
/// `m` each is element `j` of sequence `i`.
proof fn lemma_flatten_at<A>(s: Seq<Seq<A>>, m: nat, i: int, j: int)
    requires
        forall|k: int| 0 <= k < s.len() ==> #[trigger] s[k].len() == m,
        0 <= i < s.len(),
        0 <= j < m,
    ensures
        s.flatten().len() == s.len() * m,
        i * m + j < s.flatten().len(),
        s.flatten()[i * m + j] == s[i][j],
    decreases s.len(),
{
    let rest = s.drop_first();
    assert forall|k: int| 0 <= k < rest.len() implies #[trigger] rest[k].len() == m by {
        assert(rest[k] == s[k + 1]);
    }
    assert(s.flatten() == s[0] + rest.flatten());
    if rest.len() > 0 {
        lemma_flatten_at(rest, m, 0, 0);
    } else {
        assert(rest.flatten() =~= Seq::<A>::empty());
    }
    assert(s.len() * m == m + rest.len() * m) by (nonlinear_arith)
        requires
            rest.len() == s.len() - 1,
    ;
    if i == 0 {
        assert(s.flatten()[j] == s[0][j]);
    } else {
        lemma_flatten_at(rest, m, i - 1, j);
        assert(rest[i - 1] == s[i]);
        assert(i * m + j == m + ((i - 1) * m + j)) by (nonlinear_arith);
        assert((i - 1) * m + j >= 0) by (nonlinear_arith)
            requires
                i >= 1,
                j >= 0,
        ;
    }
}

/// Task `i * m + j` of a plan of `m` classes is class `j` in split folder
/// `i`, so running a plan by `run_steps` checks each folder's annotation
/// file before the folder's own tasks.
pub proof fn lemma_planned_task_at(
    split: Split,
    classes: Seq<Seq<char>>,
    codes: Seq<Seq<char>>,
    multiclass: bool,
    i: int,
    j: int,
)
    requires
        0 <= i < split_folders(split).len(),
        0 <= j < classes.len(),
    ensures
        i * classes.len() + j < planned_tasks(split, classes, codes, multiclass).len(),
        planned_tasks(split, classes, codes, multiclass)[i * classes.len() + j] == task_of(
            split,
            classes,
            codes,
            multiclass,
            i,
            j,
        ),
{
    let chunks = Seq::new(
        split_folders(split).len(),
        |i: int| folder_tasks(split, classes, codes, multiclass, i),
    );
    lemma_flatten_at(chunks, classes.len(), i, j);
}

} // verus!
