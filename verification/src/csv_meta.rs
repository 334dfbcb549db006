//! The class list and the annotation CSV files of Open Images.

use vstd::prelude::*;
use crate::models::{ClassEntry, Split, split_annotation_files};
use crate::order::{Lex, text_order};
use crate::order::{
    keys_view, stable_order, stable_sort_indices, lemma_stable_order_permutation,
    lemma_stable_order_sorted, lemma_single_keys, text_lt, is_permutation,
};
use crate::paths::{is_join_of, is_plain_name, is_verbatim, joined_path, path_join};
use crate::text::{chars_of, lines, lines_of, string_of_range, strings_view, trim, trim_quotes, trim_span};

verus! {

/// Where the class descriptions CSV is downloaded from.
pub const CLASSES_URL: &'static str = "https://storage.googleapis.com/openimages/v5/class-descriptions-boxable.csv";

/// The file name of the class descriptions CSV.
pub const CLASSES_FILE: &'static str = "class-descriptions-boxable.csv";

/// `k` is the position of the first `c` in `s`.
pub open spec fn is_first_at(s: Seq<char>, c: char, k: int) -> bool {
    &&& 0 <= k < s.len()
    &&& s[k] == c
    &&& forall|i: int| 0 <= i < k ==> s[i] != c
}

/// The class a line of the class descriptions CSV holds, as (code, name):
/// the line is split at its first comma, the code is the part before it
/// trimmed, the name the part after it trimmed and stripped of enclosing
/// double quotes. A line without a comma holds no class.
pub open spec fn class_of_line(line: Seq<char>) -> Option<(Seq<char>, Seq<char>)> {
    if exists|k: int| is_first_at(line, ',', k) {
        let k = choose|k: int| is_first_at(line, ',', k);
        Some((trim(line.take(k)), trim_quotes(trim(line.skip(k + 1)))))
    } else {
        None
    }
}

/// The classes of a class descriptions CSV, in file order.
pub open spec fn class_list(text: Seq<char>) -> Seq<(Seq<char>, Seq<char>)> {
    lines(text).filter_map(|l: Seq<char>| class_of_line(l))
}

/// A class entry as (code, name).
pub open spec fn entry_pair(e: ClassEntry) -> (Seq<char>, Seq<char>) {
    (e.code@, e.name@)
}

/// Class entries as (code, name) pairs.
pub open spec fn entry_pairs(v: Seq<ClassEntry>) -> Seq<(Seq<char>, Seq<char>)> {
    v.map_values(|e: ClassEntry| entry_pair(e))
}

/// The class a line holds, if any.
pub fn class_from_line(line: &str) -> (r: Option<ClassEntry>)
    ensures
        match r {
            Some(e) => class_of_line(line@) == Some(entry_pair(e)),
            None => class_of_line(line@) is None,
        },
{
    let v = chars_of(line);
    let n = v.len();
    let mut k: usize = 0;
    while k < n && v[k] != ','
        invariant
            v@ == line@,
            n == v@.len(),
            k <= n,
            forall|i: int| 0 <= i < k ==> v@[i] != ',',
        decreases n - k,
    {
        k += 1;
    }
    if k == n {
        assert(!exists|j: int| is_first_at(line@, ',', j)) by {
            if exists|j: int| is_first_at(line@, ',', j) {
                let j = choose|j: int| is_first_at(line@, ',', j);
                assert(v@[j] == ',');
            }
        }
        return None;
    }
    assert(is_first_at(line@, ',', k as int));
    proof {
        let j = choose|j: int| is_first_at(line@, ',', j);
        if j < k {
            assert(v@[j] != ',');
        } else if k < j {
            assert(line@[k as int] != ',');
        }
        assert(j == k);
    }
    let (c0, c1) = trim_span(&v, 0, k, false);
    assert(v@.subrange(0, k as int) =~= line@.take(k as int));
    let code = string_of_range(&v, c0, c1);
    let (n0, n1) = trim_span(&v, k + 1, n, false);
    assert(v@.subrange(k + 1, n as int) =~= line@.skip(k + 1));
    let (q0, q1) = trim_span(&v, n0, n1, true);
    let name = string_of_range(&v, q0, q1);
    Some(ClassEntry { code, name })
}

/// The classes of a class descriptions CSV, in file order.
pub fn parse_class_descriptions(text: &str) -> (r: Vec<ClassEntry>)
    ensures
        entry_pairs(r@) == class_list(text@),
{
    let ls = lines_of(text);
    let ghost lv = strings_view(ls@);
    let mut out: Vec<ClassEntry> = Vec::new();
    let mut i: usize = 0;
    assert(lv.take(0) =~= Seq::<Seq<char>>::empty());
    while i < ls.len()
        invariant
            lv == strings_view(ls@),
            lv == lines(text@),
            i <= ls@.len(),
            entry_pairs(out@) == lv.take(i as int).filter_map(|l: Seq<char>| class_of_line(l)),
        decreases ls@.len() - i,
    {
        let ghost before = out@;
        let got = class_from_line(ls[i].as_str());
        proof {
            lv.lemma_filter_map_take_succ(|l: Seq<char>| class_of_line(l), i as int);
            assert(lv[i as int] == ls@[i as int]@);
        }
        match got {
            Some(e) => {
                out.push(e);
                assert(entry_pairs(out@) =~= entry_pairs(before).push(entry_pair(e)));
            },
            None => {},
        }
        i += 1;
    }
    assert(lv.take(ls@.len() as int) =~= lv);
    out
}

/// The sort keys of class entries: each entry's name.
pub open spec fn name_keys(v: Seq<ClassEntry>) -> Seq<Seq<Seq<char>>> {
    v.map_values(|e: ClassEntry| seq![e.name@])
}

/// Class entries sorted by name, entries of equal names in their given
/// order (std's stable `sort_by` on the names).
pub open spec fn sorted_by_name(v: Seq<ClassEntry>) -> Seq<ClassEntry> {
    stable_order(name_keys(v)).map_values(|j: usize| v[j as int])
}

/// The entries sorted by name, equal names keeping their order.
pub fn sort_by_name(v: &Vec<ClassEntry>) -> (r: Vec<ClassEntry>)
    ensures
        r@ == sorted_by_name(v@),
{
    let mut keys: Vec<Vec<String>> = Vec::new();
    let mut i: usize = 0;
    while i < v.len()
        invariant
            i <= v@.len(),
            keys_view(keys@) == name_keys(v@).take(i as int),
        decreases v@.len() - i,
    {
        let k = vec![v[i].name.clone()];
        assert(strings_view(k@) =~= seq![v@[i as int].name@]);
        let ghost before = keys@;
        keys.push(k);
        assert(keys_view(keys@) =~= keys_view(before).push(strings_view(k@)));
        assert(keys_view(keys@) =~= name_keys(v@).take(i + 1));
        i += 1;
    }
    assert(keys_view(keys@) =~= name_keys(v@));
    let order = stable_sort_indices(&keys);
    proof {
        lemma_stable_order_permutation(name_keys(v@));
    }
    let mut out: Vec<ClassEntry> = Vec::new();
    let mut j: usize = 0;
    while j < order.len()
        invariant
            order@ == stable_order(name_keys(v@)),
            order@.len() == v@.len(),
            forall|p: int| 0 <= p < v@.len() ==> #[trigger] order@[p] < v@.len(),
            j <= order@.len(),
            out@ == order@.take(j as int).map_values(|x: usize| v@[x as int]),
        decreases order@.len() - j,
    {
        out.push(v[order[j]].copy());
        assert(out@ =~= order@.take(j + 1).map_values(|x: usize| v@[x as int]));
        j += 1;
    }
    assert(order@.take(order@.len() as int) =~= order@);
    out
}

/// The sort keys of (code, name) pairs: each name.
pub open spec fn pair_keys(ps: Seq<(Seq<char>, Seq<char>)>) -> Seq<Seq<Seq<char>>> {
    ps.map_values(|p: (Seq<char>, Seq<char>)| seq![p.1])
}

/// The classes of a class descriptions CSV sorted by name, classes of equal
/// names in file order.
pub open spec fn sorted_class_list(text: Seq<char>) -> Seq<(Seq<char>, Seq<char>)> {
    let ps = class_list(text);
    stable_order(pair_keys(ps)).map_values(|j: usize| ps[j as int])
}

/// The classes of a class descriptions CSV, sorted by name (equal names in
/// file order).
pub fn sorted_classes(text: &str) -> (r: Vec<ClassEntry>)
    ensures
        entry_pairs(r@) == sorted_class_list(text@),
        forall|i: int, j: int| 0 <= i < j < r@.len() ==> !text_lt(r@[j].name@, r@[i].name@),
        exists|perm: Seq<usize>|
            {
                &&& is_permutation(perm, class_list(text@).len())
                &&& forall|i: int| 0 <= i < r@.len() ==> entry_pair(#[trigger] r@[i]) == class_list(
                    text@,
                )[perm[i] as int]
                &&& forall|i: int, j: int|
                    0 <= i < j < r@.len() && r@[i].name@ == r@[j].name@ ==> perm[i] < perm[j]
            },
{
    let parsed = parse_class_descriptions(text);
    let n = parsed.len();
    let r = sort_by_name(&parsed);
    proof {
        let ps = class_list(text@);
        assert(name_keys(parsed@) =~= pair_keys(ps));
        let kv = pair_keys(ps);
        lemma_stable_order_permutation(kv);
        assert(entry_pairs(r@) =~= sorted_class_list(text@));
        let perm = stable_order(kv);
        assert forall|i: int, j: int| 0 <= i < j < r@.len() implies !text_lt(
            r@[j].name@,
            r@[i].name@,
        ) by {
            lemma_stable_order_sorted(kv, i, j);
            lemma_single_keys(ps[perm[i] as int].1, ps[perm[j] as int].1);
            lemma_single_keys(ps[perm[j] as int].1, ps[perm[i] as int].1);
            assert(entry_pair(r@[i]) == ps[perm[i] as int]);
            assert(entry_pair(r@[j]) == ps[perm[j] as int]);
            assert(perm[i] != perm[j]);
        }
        assert forall|i: int, j: int|
            0 <= i < j < r@.len() && r@[i].name@ == r@[j].name@ implies perm[i] < perm[j] by {
            lemma_stable_order_sorted(kv, i, j);
            lemma_single_keys(ps[perm[i] as int].1, ps[perm[j] as int].1);
            lemma_single_keys(ps[perm[j] as int].1, ps[perm[i] as int].1);
            assert(entry_pair(r@[i]) == ps[perm[i] as int]);
            assert(entry_pair(r@[j]) == ps[perm[j] as int]);
            assert(perm[i] != perm[j]);
        }
        assert(is_permutation(perm, ps.len()));
        assert forall|i: int| 0 <= i < r@.len() implies entry_pair(#[trigger] r@[i]) == ps[perm[i] as int] by {
            assert(entry_pairs(r@)[i] == entry_pair(r@[i]));
        }
        assert(ps == class_list(text@));
    }
    r
}

/// The code that the class map of the list gives `name`: that of the last
/// class of this name (a later line overrides an earlier one).
pub open spec fn code_for(ps: Seq<(Seq<char>, Seq<char>)>, name: Seq<char>) -> Option<Seq<char>>
    decreases ps.len(),
{
    if ps.len() == 0 {
        None
    } else if ps.last().1 == name {
        Some(ps.last().0)
    } else {
        code_for(ps.drop_last(), name)
    }
}

/// The code of the class named `name`, by the last entry of that name.
pub fn class_code(classes: &Vec<ClassEntry>, name: &str) -> (r: Option<String>)
    ensures
        match r {
            Some(c) => code_for(entry_pairs(classes@), name@) == Some(c@),
            None => code_for(entry_pairs(classes@), name@) is None,
        },
{
    let ghost ps = entry_pairs(classes@);
    let mut i = classes.len();
    assert(ps.take(i as int) =~= ps);
    while i > 0
        invariant
            i <= classes@.len(),
            ps == entry_pairs(classes@),
            code_for(ps, name@) == code_for(ps.take(i as int), name@),
        decreases i,
    {
        assert(ps.take(i as int).drop_last() =~= ps.take(i - 1));
        assert(ps.take(i as int).last() == entry_pair(classes@[i - 1]));
        if text_order(classes[i - 1].name.as_str(), name) == Lex::Same {
            return Some(classes[i - 1].code.clone());
        }
        i -= 1;
    }
    None
}

/// The URL an annotation CSV of the current release is downloaded from; an
/// error for a file name that is not one of the three annotation files.
pub fn annotation_url(ann_file: &str) -> (r: Result<&'static str, String>)
    ensures
        ann_file@ == "train-annotations-bbox.csv"@ ==> r == Ok::<&'static str, String>(
            "https://storage.googleapis.com/openimages/v5/train-annotations-bbox.csv",
        ),
        ann_file@ == "validation-annotations-bbox.csv"@ ==> r == Ok::<&'static str, String>(
            "https://storage.googleapis.com/openimages/v5/validation-annotations-bbox.csv",
        ),
        ann_file@ == "test-annotations-bbox.csv"@ ==> r == Ok::<&'static str, String>(
            "https://storage.googleapis.com/openimages/v5/test-annotations-bbox.csv",
        ),
        r is Ok <==> split_annotation_files(Split::All).contains(ann_file@),
        r matches Err(e) ==> e@ == "Unknown annotation file: "@ + ann_file@,
{
    let ghost all = split_annotation_files(Split::All);
    assert(all[0] == "train-annotations-bbox.csv"@);
    assert(all[1] == "validation-annotations-bbox.csv"@);
    assert(all[2] == "test-annotations-bbox.csv"@);
    proof {
        reveal_strlit("train-annotations-bbox.csv");
        reveal_strlit("validation-annotations-bbox.csv");
        reveal_strlit("test-annotations-bbox.csv");
    }
    if text_order(ann_file, "train-annotations-bbox.csv") == Lex::Same {
        Ok("https://storage.googleapis.com/openimages/v5/train-annotations-bbox.csv")
    } else if text_order(ann_file, "validation-annotations-bbox.csv") == Lex::Same {
        Ok("https://storage.googleapis.com/openimages/v5/validation-annotations-bbox.csv")
    } else if text_order(ann_file, "test-annotations-bbox.csv") == Lex::Same {
        Ok("https://storage.googleapis.com/openimages/v5/test-annotations-bbox.csv")
    } else {
        let mut msg = String::from_str("Unknown annotation file: ");
        msg.append(ann_file);
        Err(msg)
    }
}

/// Every annotation file a split needs has a download URL.
pub proof fn lemma_split_files_have_urls(split: Split, i: int)
    requires
        0 <= i < split_annotation_files(split).len(),
    ensures
        split_annotation_files(Split::All).contains(split_annotation_files(split)[i]),
{
    let all = split_annotation_files(Split::All);
    assert(all[0] == "train-annotations-bbox.csv"@);
    assert(all[1] == "validation-annotations-bbox.csv"@);
    assert(all[2] == "test-annotations-bbox.csv"@);
}

/// The folder of the CSV files inside the application data directory.
pub fn csv_dir(app_data: &str) -> (r: String)
    ensures
        r@ == joined_path(app_data@, "csv_folder"@),
        !is_verbatim(app_data@) ==> is_join_of(r@, app_data@, "csv_folder"@),
{
    proof {
        reveal_strlit("csv_folder");
        assert(is_plain_name("csv_folder"@));
    }
    path_join(app_data, "csv_folder")
}

/// The base URL of the 2018_04 release of the CSV files.
pub const RELEASE_2018_04_URL: &'static str = "https://storage.googleapis.com/openimages/2018_04/";

/// The part of a CSV file name before its first `'-'` (all of it if it has
/// none), which names the release folder the file is in.
pub open spec fn name_folder(f: Seq<char>) -> Seq<char> {
    if exists|k: int| is_first_at(f, '-', k) {
        f.take(choose|k: int| is_first_at(f, '-', k))
    } else {
        f
    }
}

/// Where a CSV file of the 2018_04 release is downloaded from: the class
/// descriptions (`class-...`) lie at the root, the others in the folder
/// their name begins with.
pub open spec fn release_csv_url(f: Seq<char>) -> Seq<char> {
    if name_folder(f) == "class"@ {
        RELEASE_2018_04_URL@ + f
    } else {
        RELEASE_2018_04_URL@ + name_folder(f) + "/"@ + f
    }
}

/// The download URL of a CSV file of the 2018_04 release.
pub fn csv_source_url(file_name: &str) -> (r: String)
    ensures
        r@ == release_csv_url(file_name@),
{
    let v = chars_of(file_name);
    let n = v.len();
    let mut k: usize = 0;
    while k < n && v[k] != '-'
        invariant
            v@ == file_name@,
            n == v@.len(),
            k <= n,
            forall|i: int| 0 <= i < k ==> v@[i] != '-',
        decreases n - k,
    {
        k += 1;
    }
    proof {
        if k < n {
            assert(is_first_at(file_name@, '-', k as int));
            let j = choose|j: int| is_first_at(file_name@, '-', j);
            if j < k {
                assert(v@[j] != '-');
            } else if k < j {
                assert(file_name@[k as int] != '-');
            }
        } else {
            if exists|j: int| is_first_at(file_name@, '-', j) {
                let j = choose|j: int| is_first_at(file_name@, '-', j);
                assert(v@[j] == '-');
            }
            assert(v@.take(n as int) =~= v@);
        }
    }
    let folder = string_of_range(&v, 0, k);
    let mut url = String::from_str(RELEASE_2018_04_URL);
    if text_order(folder.as_str(), "class") == Lex::Same {
        url.append(file_name);
    } else {
        url.append(folder.as_str());
        url.append("/");
        url.append(file_name);
    }
    url
}

/// The split a split name selects: `train`, `validation` and `test` their
/// own, any other name all three.
pub fn split_for_name(name: &str) -> (r: Split)
    ensures
        name@ == "train"@ ==> r == Split::Train,
        name@ == "validation"@ ==> r == Split::Validation,
        name@ == "test"@ ==> r == Split::Test,
        name@ != "train"@ && name@ != "validation"@ && name@ != "test"@ ==> r == Split::All,
{
    proof {
        reveal_strlit("train");
        reveal_strlit("validation");
        reveal_strlit("test");
    }
    if text_order(name, "train") == Lex::Same {
        Split::Train
    } else if text_order(name, "validation") == Lex::Same {
        Split::Validation
    } else if text_order(name, "test") == Lex::Same {
        Split::Test
    } else {
        Split::All
    }
}

} // verus!
