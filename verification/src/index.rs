//! The index of the local dataset: which files are images, what their YOLO
//! label files hold, and the order the index is kept in.
//!
//! The dataset is laid out as `<dataset>/<split>/<class>/*.jpg`, with the
//! labels in `<dataset>/<split>/<class>/Label/<image id>.txt`.

use vstd::prelude::*;
use crate::models::{ImageEntry, ImageEntryView, YoloBox, YoloBoxView, boxes_view, entries_view};
use crate::numbers::{float_text_ok, is_float_text, parse_u32, unsigned_value};
use crate::order::{
    Lex, text_order, keys_lt, keys_view, stable_order, stable_sort_indices,
    is_permutation, lemma_stable_order_permutation, lemma_stable_order_sorted, is_sorted_set_of,
    sorted_distinct, index_leq, lemma_index_leq_total, lemma_keys_lt_total,
};
use vstd::relations::sorted_by;
use vstd::seq_lib::lemma_sorted_unique;
use crate::paths::{is_join_of, is_verbatim, joined_path, path_join};
use crate::text::{chars_of, lines, lines_of, string_of_range, strings_view, words, words_of};

verus! {

/// `k` is the position of the last `c` in `s`.
pub open spec fn is_last_at(s: Seq<char>, c: char, k: int) -> bool {
    &&& 0 <= k < s.len()
    &&& s[k] == c
    &&& forall|i: int| k < i < s.len() ==> s[i] != c
}

/// Where std's `Path::extension` of a file name begins: after the last `.`,
/// where that `.` is not the first character of the name.
pub open spec fn extension_dot(name: Seq<char>) -> Option<int> {
    if exists|k: int| is_last_at(name, '.', k) && k > 0 {
        Some(choose|k: int| is_last_at(name, '.', k) && k > 0)
    } else {
        None
    }
}

/// The image id of a file name that std's `Path` gives the extension `jpg`:
/// its `file_stem`, the name before the last `.`.
pub open spec fn jpg_stem(name: Seq<char>) -> Option<Seq<char>> {
    match extension_dot(name) {
        Some(k) => if name.skip(k + 1) == "jpg"@ {
            Some(name.take(k))
        } else {
            None
        },
        None => None,
    }
}

/// The image id of a `.jpg` file name; `None` for any other file.
pub fn jpg_image_id(file_name: &str) -> (r: Option<String>)
    ensures
        match r {
            Some(id) => jpg_stem(file_name@) == Some(id@),
            None => jpg_stem(file_name@) is None,
        },
{
    let v = chars_of(file_name);
    let n = v.len();
    let mut k: usize = n;
    while k > 0 && v[k - 1] != '.'
        invariant
            v@ == file_name@,
            n == v@.len(),
            k <= n,
            forall|i: int| k <= i < n ==> v@[i] != '.',
        decreases k,
    {
        k -= 1;
    }
    if k <= 1 {
        assert(extension_dot(file_name@) is None) by {
            if exists|j: int| is_last_at(file_name@, '.', j) && j > 0 {
                let j = choose|j: int| is_last_at(file_name@, '.', j) && j > 0;
                if k == 1 {
                    assert(v@[0] == '.');
                    assert(file_name@[0] == '.');
                }
                assert(v@[j] == '.');
            }
        }
        return None;
    }
    let dot = k - 1;
    assert(is_last_at(file_name@, '.', dot as int) && dot > 0);
    proof {
        let j = choose|j: int| is_last_at(file_name@, '.', j) && j > 0;
        if j < dot {
            assert(file_name@[dot as int] != '.');
        } else if dot < j {
            assert(v@[j] != '.');
        }
        assert(extension_dot(file_name@) == Some(dot as int));
    }
    let ext = string_of_range(&v, k, n);
    assert(v@.subrange(k as int, n as int) =~= file_name@.skip(dot + 1));
    if text_order(ext.as_str(), "jpg") != Lex::Same {
        return None;
    }
    let id = string_of_range(&v, 0, dot);
    assert(v@.subrange(0, dot as int) =~= file_name@.take(dot as int));
    Some(id)
}

/// The box a line of a YOLO label file holds: its first five words, a class
/// index (std's `u32` parse) and four `f32` texts; any further words are
/// ignored. A line with fewer words, or a word that does not parse, holds
/// none.
pub open spec fn yolo_box_of_line(line: Seq<char>) -> Option<YoloBoxView> {
    let ws = words(line);
    if ws.len() < 5 {
        None
    } else {
        match unsigned_value(ws[0], u32::MAX as int) {
            None => None,
            Some(c) => if float_text_ok(ws[1]) && float_text_ok(ws[2]) && float_text_ok(ws[3])
                && float_text_ok(ws[4]) {
                Some(YoloBoxView { class_idx: c as u32, cx: ws[1], cy: ws[2], w: ws[3], h: ws[4] })
            } else {
                None
            },
        }
    }
}

/// The boxes of a YOLO label file, line by line, skipping the lines that
/// hold none.
pub open spec fn yolo_boxes(text: Seq<char>) -> Seq<YoloBoxView> {
    lines(text).filter_map(|l: Seq<char>| yolo_box_of_line(l))
}

/// The box a line of a YOLO label file holds, if any.
pub fn parse_yolo_line(line: &str) -> (r: Option<YoloBox>)
    ensures
        match r {
            Some(b) => yolo_box_of_line(line@) == Some(b@),
            None => yolo_box_of_line(line@) is None,
        },
{
    let ws = words_of(line);
    let ghost wv = strings_view(ws@);
    if ws.len() < 5 {
        return None;
    }
    assert(wv[0] == ws@[0]@ && wv[1] == ws@[1]@ && wv[2] == ws@[2]@);
    assert(wv[3] == ws@[3]@ && wv[4] == ws@[4]@);
    let class_idx = match parse_u32(ws[0].as_str()) {
        Some(c) => c,
        None => return None,
    };
    if !(is_float_text(ws[1].as_str()) && is_float_text(ws[2].as_str()) && is_float_text(
        ws[3].as_str(),
    ) && is_float_text(ws[4].as_str())) {
        return None;
    }
    Some(
        YoloBox {
            class_idx,
            cx: ws[1].clone(),
            cy: ws[2].clone(),
            w: ws[3].clone(),
            h: ws[4].clone(),
        },
    )
}

/// The boxes of the text of a YOLO label file.
pub fn parse_yolo_labels(text: &str) -> (r: Vec<YoloBox>)
    ensures
        boxes_view(r@) == yolo_boxes(text@),
{
    let ls = lines_of(text);
    let ghost lv = strings_view(ls@);
    let mut out: Vec<YoloBox> = Vec::new();
    let mut i: usize = 0;
    assert(lv.take(0) =~= Seq::<Seq<char>>::empty());
    while i < ls.len()
        invariant
            lv == strings_view(ls@),
            lv == lines(text@),
            i <= ls@.len(),
            boxes_view(out@) == lv.take(i as int).filter_map(
                |l: Seq<char>| yolo_box_of_line(l),
            ),
        decreases ls@.len() - i,
    {
        proof {
            lv.lemma_filter_map_take_succ(|l: Seq<char>| yolo_box_of_line(l), i as int);
            assert(lv[i as int] == ls@[i as int]@);
        }
        match parse_yolo_line(ls[i].as_str()) {
            Some(b) => {
                let ghost before = out@;
                out.push(b);
                assert(boxes_view(out@) =~= boxes_view(before).push(b@));
            },
            None => {},
        }
        i += 1;
    }
    assert(lv.take(ls@.len() as int) =~= lv);
    out
}

/// The label file found for an image: its path and its text (empty where
/// it could not be read).
#[derive(Debug, Clone)]
pub struct FoundLabel {
    pub path: String,
    pub text: String,
}

/// A file found in a class folder: its name, its path, and, for a `.jpg`,
/// the label file `Label/<image id>.txt` of the class folder where the file
/// system has one.
#[derive(Debug, Clone)]
pub struct FoundFile {
    pub name: String,
    pub path: String,
    pub label: Option<FoundLabel>,
}

/// A `FoundFile` as plain values: name, path, and the label's path and text.
pub type FoundFileView = (Seq<char>, Seq<char>, Option<(Seq<char>, Seq<char>)>);

impl View for FoundFile {
    type V = FoundFileView;

    open spec fn view(&self) -> FoundFileView {
        (
            self.name@,
            self.path@,
            match self.label {
                Some(l) => Some((l.path@, l.text@)),
                None => None,
            },
        )
    }
}

/// The views of found files.
pub open spec fn found_view(v: Seq<FoundFile>) -> Seq<FoundFileView> {
    v.map_values(|f: FoundFile| f@)
}

/// The index entry of a file of class folder `class_name` in split folder
/// `split`: none unless it is a `.jpg`; its label file, where one was found,
/// with the boxes it holds.
pub open spec fn image_entry_of(split: Seq<char>, class_name: Seq<char>, file: FoundFileView) -> Option<
    ImageEntryView,
> {
    match jpg_stem(file.0) {
        None => None,
        Some(id) => Some(
            ImageEntryView {
                path: file.1,
                image_id: id,
                class_name,
                split,
                label_path: match file.2 {
                    Some(l) => Some(l.0),
                    None => None,
                },
                boxes: match file.2 {
                    Some(l) => yolo_boxes(l.1),
                    None => Seq::empty(),
                },
            },
        ),
    }
}

/// The index entries of one class folder, in file order; none for a folder
/// named `Label`.
pub open spec fn class_folder_entries(
    split: Seq<char>,
    class_name: Seq<char>,
    files: Seq<FoundFileView>,
) -> Seq<ImageEntryView> {
    if class_name == "Label"@ {
        Seq::empty()
    } else {
        files.filter_map(|f: FoundFileView| image_entry_of(split, class_name, f))
    }
}

/// The index entries of the class folder `class_name` of split folder
/// `split`: its `.jpg` files in order, each with the label file found for it
/// and its boxes; none for the `Label` folder itself.
pub fn index_class_folder(split: &str, class_name: &str, files: &Vec<FoundFile>) -> (r: Vec<
    ImageEntry,
>)
    ensures
        entries_view(r@) == class_folder_entries(split@, class_name@, found_view(files@)),
        forall|k: int|
            0 <= k < r@.len() ==> indexes_some_file(
                #[trigger] entries_view(r@)[k],
                found_view(files@),
                split@,
                class_name@,
            ),
{
    proof {
        reveal_strlit("Label");
        lemma_class_folder_entries(split@, class_name@, found_view(files@));
    }
    if text_order(class_name, "Label") == Lex::Same {
        let none: Vec<ImageEntry> = Vec::new();
        assert(entries_view(none@) =~= Seq::<ImageEntryView>::empty());
        return none;
    }
    let ghost fv = found_view(files@);
    let ghost g = |f: FoundFileView| image_entry_of(split@, class_name@, f);
    let mut out: Vec<ImageEntry> = Vec::new();
    let mut i: usize = 0;
    assert(fv.take(0) =~= Seq::<FoundFileView>::empty());
    while i < files.len()
        invariant
            fv == found_view(files@),
            g == (|f: FoundFileView| image_entry_of(split@, class_name@, f)),
            i <= files@.len(),
            entries_view(out@) == fv.take(i as int).filter_map(g),
        decreases files@.len() - i,
    {
        proof {
            fv.lemma_filter_map_take_succ(g, i as int);
            assert(fv[i as int] == files@[i as int]@);
        }
        match jpg_image_id(files[i].name.as_str()) {
            None => {},
            Some(id) => {
                let (label_path, boxes) = match &files[i].label {
                    Some(l) => (Some(l.path.clone()), parse_yolo_labels(l.text.as_str())),
                    None => (None, Vec::new()),
                };
                assert(label_path is None ==> boxes_view(boxes@) =~= Seq::<YoloBoxView>::empty());
                let e = ImageEntry {
                    path: files[i].path.clone(),
                    image_id: id,
                    class_name: String::from_str(class_name),
                    split: String::from_str(split),
                    label_path,
                    boxes,
                };
                assert(Some(e@) == g(fv[i as int]));
                let ghost before = out@;
                out.push(e);
                assert(entries_view(out@) =~= entries_view(before).push(e@));
            },
        }
        i += 1;
    }
    assert(fv.take(files@.len() as int) =~= fv);
    out
}

/// The boxes an image's label file gives: all those its text holds, none
/// where no label file was found.
pub open spec fn label_boxes(label: Option<(Seq<char>, Seq<char>)>) -> Seq<YoloBoxView> {
    match label {
        Some(l) => yolo_boxes(l.1),
        None => Seq::empty(),
    }
}

/// `e` is the index entry of file `f` of class folder `class_name` in split
/// folder `split`: `f` is a `.jpg` whose stem is the entry's id, the entry
/// has the file's path, the folder's split and class, the path of the label
/// file found for it, and all the boxes of that label file.
pub open spec fn indexes_file(
    e: ImageEntryView,
    f: FoundFileView,
    split: Seq<char>,
    class_name: Seq<char>,
) -> bool {
    &&& jpg_stem(f.0) == Some(e.image_id)
    &&& e.path == f.1
    &&& e.split == split
    &&& e.class_name == class_name
    &&& e.label_path == match f.2 {
        Some(l) => Some(l.0),
        None => None,
    }
    &&& e.boxes == label_boxes(f.2)
}

/// `e` indexes one of `files`.
pub open spec fn indexes_some_file(
    e: ImageEntryView,
    files: Seq<FoundFileView>,
    split: Seq<char>,
    class_name: Seq<char>,
) -> bool {
    exists|f: FoundFileView| #[trigger] files.contains(f) && indexes_file(e, f, split, class_name)
}

proof fn lemma_filter_map_keeps<A, B>(s: Seq<A>, f: spec_fn(A) -> Option<B>, i: int)
    requires
        0 <= i < s.len(),
        f(s[i]) is Some,
    ensures
        s.filter_map(f).contains(f(s[i])->Some_0),
    decreases s.len(),
{
    let r = s.filter_map(f);
    if i == s.len() - 1 {
        assert(r == s.drop_last().filter_map(f) + seq![f(s.last())->Some_0]);
        assert(r[r.len() - 1] == f(s[i])->Some_0);
    } else {
        lemma_filter_map_keeps(s.drop_last(), f, i);
        assert(s.drop_last()[i] == s[i]);
        let q = s.drop_last().filter_map(f);
        let k = choose|k: int| 0 <= k < q.len() && q[k] == f(s[i])->Some_0;
        match f(s.last()) {
            Some(b) => {
                assert(r == q + seq![b]);
                assert(r[k] == q[k]);
            },
            None => {
                assert(r == q);
            },
        }
    }
}

/// Each entry of a class folder indexes one of the folder's files, with all
/// the boxes of its label file; and every `.jpg` of a folder not named
/// `Label` is indexed by an entry.
pub proof fn lemma_class_folder_entries(
    split: Seq<char>,
    class_name: Seq<char>,
    files: Seq<FoundFileView>,
)
    ensures
        forall|k: int|
            0 <= k < class_folder_entries(split, class_name, files).len() ==> indexes_some_file(
                #[trigger] class_folder_entries(split, class_name, files)[k],
                files,
                split,
                class_name,
            ),
        class_name != "Label"@ ==> forall|f: FoundFileView|
            #[trigger] files.contains(f) && jpg_stem(f.0) is Some ==> exists|e: ImageEntryView|
                #[trigger] class_folder_entries(split, class_name, files).contains(e)
                    && indexes_file(e, f, split, class_name),
{
    let es = class_folder_entries(split, class_name, files);
    let g = |f: FoundFileView| image_entry_of(split, class_name, f);
    if class_name != "Label"@ {
        assert(es == files.filter_map(g));
        assert forall|k: int| 0 <= k < es.len() implies indexes_some_file(
            #[trigger] es[k],
            files,
            split,
            class_name,
        ) by {
            assert(es.contains(es[k]));
            files.lemma_filter_map_contains(g, es[k]);
            let f = choose|f: FoundFileView| #[trigger] files.contains(f) && g(f) == Some(es[k]);
            assert(indexes_file(es[k], f, split, class_name));
        }
        assert forall|f: FoundFileView| #[trigger] files.contains(f) && jpg_stem(f.0) is Some implies exists|
            e: ImageEntryView,
        | #[trigger] es.contains(e) && indexes_file(e, f, split, class_name) by {
            let i = choose|i: int| 0 <= i < files.len() && files[i] == f;
            lemma_filter_map_keeps(files, g, i);
            let e = g(f)->Some_0;
            assert(indexes_file(e, f, split, class_name));
        }
    }
}

proof fn lemma_filter_map_len<A, B>(s: Seq<A>, f: spec_fn(A) -> Option<B>)
    ensures
        s.filter_map(f).len() == s.filter(|a: A| f(a) is Some).len(),
    decreases s.len(),
{
    reveal(Seq::filter);
    if s.len() > 0 {
        lemma_filter_map_len(s.drop_last(), f);
    }
}

/// A label file's boxes are those of its lines, one per line that holds a
/// box: each such line's box is among them, each of them is the box of one
/// of the lines, and there are as many as there are lines holding a box.
pub proof fn lemma_yolo_boxes_by_line(text: Seq<char>)
    ensures
        yolo_boxes(text).len() == lines(text).filter(|l: Seq<char>| yolo_box_of_line(l) is Some).len(),
        forall|l: Seq<char>|
            #[trigger] lines(text).contains(l) && yolo_box_of_line(l) is Some ==> yolo_boxes(
                text,
            ).contains(yolo_box_of_line(l)->Some_0),
        forall|b: YoloBoxView|
            #[trigger] yolo_boxes(text).contains(b) ==> exists|l: Seq<char>|
                #[trigger] lines(text).contains(l) && yolo_box_of_line(l) == Some(b),
{
    let ls = lines(text);
    let f = |l: Seq<char>| yolo_box_of_line(l);
    lemma_filter_map_len(ls, f);
    assert((|a: Seq<char>| f(a) is Some) =~= (|l: Seq<char>| yolo_box_of_line(l) is Some));
    assert forall|l: Seq<char>| #[trigger] ls.contains(l) && yolo_box_of_line(l) is Some implies yolo_boxes(
        text,
    ).contains(yolo_box_of_line(l)->Some_0) by {
        let i = choose|i: int| 0 <= i < ls.len() && ls[i] == l;
        lemma_filter_map_keeps(ls, f, i);
    }
    assert forall|b: YoloBoxView| #[trigger] yolo_boxes(text).contains(b) implies exists|l: Seq<char>|
        #[trigger] ls.contains(l) && yolo_box_of_line(l) == Some(b) by {
        ls.lemma_filter_map_contains(f, b);
    }
}

/// The key the index is ordered by: split, class, image id.
pub open spec fn entry_key(e: ImageEntryView) -> Seq<Seq<char>> {
    seq![e.split, e.class_name, e.image_id]
}

/// The keys of a list of entries.
pub open spec fn index_keys(v: Seq<ImageEntryView>) -> Seq<Seq<Seq<char>>> {
    v.map_values(|e: ImageEntryView| entry_key(e))
}

/// The entries in index order: by split, then class, then image id (each
/// compared as std compares `String`s), equal keys in their given order.
pub open spec fn index_order(v: Seq<ImageEntryView>) -> Seq<ImageEntryView> {
    stable_order(index_keys(v)).map_values(|k: usize| v[k as int])
}

/// The entries sorted into index order (a stable sort by split, class and
/// image id).
pub fn sort_index(entries: &Vec<ImageEntry>) -> (r: Vec<ImageEntry>)
    ensures
        entries_view(r@) == index_order(entries_view(entries@)),
{
    let ghost ev = entries_view(entries@);
    let mut keys: Vec<Vec<String>> = Vec::new();
    let mut i: usize = 0;
    while i < entries.len()
        invariant
            ev == entries_view(entries@),
            i <= entries@.len(),
            keys_view(keys@) == index_keys(ev).take(i as int),
        decreases entries@.len() - i,
    {
        let k = vec![
            entries[i].split.clone(),
            entries[i].class_name.clone(),
            entries[i].image_id.clone(),
        ];
        assert(strings_view(k@) =~= entry_key(ev[i as int]));
        let ghost before = keys@;
        keys.push(k);
        assert(keys_view(keys@) =~= keys_view(before).push(strings_view(k@)));
        assert(keys_view(keys@) =~= index_keys(ev).take(i + 1));
        i += 1;
    }
    assert(keys_view(keys@) =~= index_keys(ev));
    let order = stable_sort_indices(&keys);
    proof {
        lemma_stable_order_permutation(index_keys(ev));
    }
    let mut out: Vec<ImageEntry> = Vec::new();
    let mut j: usize = 0;
    while j < order.len()
        invariant
            ev == entries_view(entries@),
            order@ == stable_order(index_keys(ev)),
            order@.len() == ev.len(),
            forall|p: int| 0 <= p < ev.len() ==> #[trigger] order@[p] < ev.len(),
            j <= order@.len(),
            entries_view(out@) == index_order(ev).take(j as int),
        decreases order@.len() - j,
    {
        let k = order[j];
        let e = entries[k].copy();
        let ghost before = out@;
        out.push(e);
        assert(entries_view(out@) =~= entries_view(before).push(e@));
        assert(entries_view(out@) =~= index_order(ev).take(j + 1));
        j += 1;
    }
    assert(index_order(ev).take(order@.len() as int) =~= index_order(ev));
    out
}

/// Index order keeps every entry exactly once, puts the entries in order of
/// split, class and image id, and keeps entries of equal key in their given
/// order.
pub proof fn lemma_index_order(v: Seq<ImageEntryView>)
    requires
        v.len() <= usize::MAX,
    ensures
        index_order(v).len() == v.len(),
        is_permutation(stable_order(index_keys(v)), v.len()),
        forall|i: int|
            0 <= i < v.len() ==> #[trigger] index_order(v)[i] == v[stable_order(
                index_keys(v),
            )[i] as int],
        forall|i: int, j: int|
            0 <= i < j < v.len() ==> !keys_lt(
                entry_key(#[trigger] index_order(v)[j]),
                entry_key(#[trigger] index_order(v)[i]),
            ),
        forall|i: int, j: int|
            0 <= i < j < v.len() && entry_key(#[trigger] index_order(v)[i]) == entry_key(
                #[trigger] index_order(v)[j],
            ) ==> stable_order(index_keys(v))[i] < stable_order(index_keys(v))[j],
{
    let kv = index_keys(v);
    let o = stable_order(kv);
    lemma_stable_order_permutation(kv);
    assert forall|i: int, j: int| 0 <= i < j < v.len() implies !keys_lt(
        entry_key(#[trigger] index_order(v)[j]),
        entry_key(#[trigger] index_order(v)[i]),
    ) && (entry_key(index_order(v)[i]) == entry_key(index_order(v)[j]) ==> o[i] < o[j]) by {
        lemma_stable_order_sorted(kv, i, j);
        assert(kv[o[i] as int] == entry_key(v[o[i] as int]));
        assert(kv[o[j] as int] == entry_key(v[o[j] as int]));
        assert(o[i] != o[j]);
    }
}

/// Sorting the index again changes nothing: an index in index order is
/// already sorted.
pub proof fn lemma_index_order_idempotent(v: Seq<ImageEntryView>)
    requires
        v.len() <= usize::MAX,
    ensures
        index_order(index_order(v)) == index_order(v),
{
    let w = index_order(v);
    lemma_index_order(v);
    let kw = index_keys(w);
    let ids = Seq::new(w.len(), |i: int| i as usize);
    let leq = index_leq(kw);
    lemma_index_leq_total(kw);
    assert forall|i: int, j: int| 0 <= i < j < ids.len() implies #[trigger] leq(ids[i], ids[j]) by {
        assert(!keys_lt(entry_key(w[j]), entry_key(w[i])));
        lemma_keys_lt_total(entry_key(w[i]), entry_key(w[j]));
        assert(kw[i] == entry_key(w[i]));
        assert(kw[j] == entry_key(w[j]));
    }
    assert(sorted_by(ids, leq));
    ids.lemma_sort_by_ensures(leq);
    lemma_sorted_unique(ids, ids.sort_by(leq), leq);
    assert(stable_order(kw) == ids);
    assert(index_order(w) =~= w);
}

/// The class names of index entries.
pub open spec fn entry_classes(v: Seq<ImageEntry>) -> Seq<Seq<char>> {
    v.map_values(|e: ImageEntry| e.class_name@)
}

/// The distinct class names of the index entries, in increasing order.
pub fn list_local_classes(entries: &Vec<ImageEntry>) -> (r: Vec<String>)
    ensures
        is_sorted_set_of(strings_view(r@), entry_classes(entries@)),
{
    let mut names: Vec<String> = Vec::new();
    let mut i: usize = 0;
    while i < entries.len()
        invariant
            i <= entries@.len(),
            strings_view(names@) == entry_classes(entries@).take(i as int),
        decreases entries@.len() - i,
    {
        let ghost before = names@;
        names.push(entries[i].class_name.clone());
        assert(strings_view(names@) =~= strings_view(before).push(entries@[i as int].class_name@));
        assert(strings_view(names@) =~= entry_classes(entries@).take(i + 1));
        i += 1;
    }
    assert(entry_classes(entries@).take(i as int) =~= entry_classes(entries@));
    sorted_distinct(&names)
}

/// The folder the dataset is indexed from: the one given, else `Dataset`
/// in the application data directory.
pub fn dataset_root(dataset_dir: Option<String>, app_data: &str) -> (r: String)
    ensures
        match dataset_dir {
            Some(d) => r == d,
            None => r@ == joined_path(app_data@, "Dataset"@) && (!is_verbatim(app_data@)
                ==> is_join_of(r@, app_data@, "Dataset"@)),
        },
{
    match dataset_dir {
        Some(d) => d,
        None => {
            proof {
                reveal_strlit("Dataset");
                let d = "Dataset"@;
                assert(d =~= seq!['D', 'a', 't', 'a', 's', 'e', 't']);
                assert(d != seq!['.']);
                assert(d != seq!['.', '.']);
                assert forall|i: int| 0 <= i < d.len() implies #[trigger] d[i] != '/' && d[i]
                    != '\\' && d[i] != ':' by {
                    assert(0 <= i < 7);
                }
            }
            path_join(app_data, "Dataset")
        },
    }
}

/// The application data directory where the platform gives one, else `OID`
/// (relative to the working directory).
pub fn data_dir_or_default(platform_dir: Option<String>) -> (r: String)
    ensures
        match platform_dir {
            Some(d) => r == d,
            None => r@ == "OID"@,
        },
{
    match platform_dir {
        Some(d) => d,
        None => String::from_str("OID"),
    }
}

} // verus!
