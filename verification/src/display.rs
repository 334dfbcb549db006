//! What the screens show: elapsed times, box colours and class suggestions.

use vstd::prelude::*;
use crate::models::ClassEntry;
use crate::numbers::{decimal, push_decimal};
use crate::text::strings_view;

verus! {

/// An elapsed time as shown: `<s>s` under a minute, else `<m>m <s>s`.
pub open spec fn elapsed_text(secs: nat) -> Seq<char> {
    if secs < 60 {
        decimal(secs) + "s"@
    } else {
        decimal(secs / 60) + "m "@ + decimal(secs % 60) + "s"@
    }
}

/// An elapsed time in seconds as shown on the jobs screen.
pub fn format_elapsed(secs: u64) -> (r: String)
    ensures
        r@ == elapsed_text(secs as nat),
{
    let mut s = String::new();
    if secs < 60 {
        push_decimal(&mut s, secs as u128);
        s.append("s");
    } else {
        push_decimal(&mut s, (secs / 60) as u128);
        s.append("m ");
        push_decimal(&mut s, (secs % 60) as u128);
        s.append("s");
    }
    s
}

/// The colours boxes are drawn in, by class index, as RGB.
pub open spec fn box_colours() -> Seq<u32> {
    seq![
        0x48bb78u32,
        0x63b3edu32,
        0xf6e05eu32,
        0xfc8181u32,
        0xb794f4u32,
        0xf6ad55u32,
        0x76e4f7u32,
        0xfbb6ceu32,
        0x9ae6b4u32,
        0xfeb2b2u32,
    ]
}

/// The colour the boxes of class `class_idx` are drawn in: the palette
/// repeats every ten classes.
pub fn colour_for_class(class_idx: u32) -> (r: u32)
    ensures
        r == box_colours()[(class_idx % 10) as int],
{
    match class_idx % 10 {
        0 => 0x48bb78,
        1 => 0x63b3ed,
        2 => 0xf6e05e,
        3 => 0xfc8181,
        4 => 0xb794f4,
        5 => 0xf6ad55,
        6 => 0x76e4f7,
        7 => 0xfbb6ce,
        8 => 0x9ae6b4,
        _ => 0xfeb2b2,
    }
}

/// What std's `str::to_lowercase` gives for `s` (by the Unicode tables of
/// the std in use).
pub uninterp spec fn lowercase(s: Seq<char>) -> Seq<char>;

/// std's `str::to_lowercase`.
#[verifier::external_body]
fn to_lowercase(s: &str) -> (r: String)
    ensures
        r@ == lowercase(s@),
{
    s.to_lowercase()
}

/// `needle` occurs in `hay` (std's `str::contains` with a string pattern).
pub open spec fn has_part(hay: Seq<char>, needle: Seq<char>) -> bool {
    exists|i: int| 0 <= i <= hay.len() - needle.len() && #[trigger] hay.subrange(i, i + needle.len()) == needle
}

/// Whether `needle` occurs in `hay`.
pub fn contains_text(hay: &str, needle: &str) -> (r: bool)
    ensures
        r == has_part(hay@, needle@),
{
    let h = crate::text::chars_of(hay);
    let n = crate::text::chars_of(needle);
    let hl = h.len();
    let nl = n.len();
    if nl > hl {
        return false;
    }
    let mut i: usize = 0;
    while i <= hl - nl
        invariant
            hl == h@.len(),
            nl == n@.len(),
            h@ == hay@,
            n@ == needle@,
            n@.len() <= h@.len(),
            i <= hl - nl + 1,
            forall|k: int| 0 <= k < i ==> #[trigger] hay@.subrange(k, k + needle@.len()) != needle@,
        decreases hl - nl + 1 - i,
    {
        let mut j: usize = 0;
        while j < nl
            invariant
                hl == h@.len(),
                nl == n@.len(),
                h@ == hay@,
                n@ == needle@,
                i + n@.len() <= h@.len(),
                j <= n@.len(),
                forall|m: int| 0 <= m < j ==> h@[i + m] == n@[m],
            ensures
                j <= n@.len(),
                forall|m: int| 0 <= m < j ==> h@[i + m] == n@[m],
                j < n@.len() ==> h@[i + j] != n@[j as int],
            decreases n@.len() - j,
        {
            if h[i + j] != n[j] {
                break;
            }
            j += 1;
        }
        if j == nl {
            assert(hay@.subrange(i as int, i + needle@.len()) =~= needle@);
            return true;
        }
        assert(hay@.subrange(i as int, i + needle@.len())[j as int] != needle@[j as int]);
        i += 1;
    }
    assert forall|k: int| 0 <= k <= hay@.len() - needle@.len() implies #[trigger] hay@.subrange(
        k,
        k + needle@.len(),
    ) != needle@ by {
        assert(k < i);
    }
    false
}

/// The class suggestions for the typed search text `search`, whose
/// lowercased form is `query`, given each class name with its lowercased
/// form: none where under two characters are typed; else the names whose
/// lowercased form contains the query, in order, at most fifty.
pub open spec fn suggestions_of(
    names: Seq<Seq<char>>,
    lowered: Seq<Seq<char>>,
    search: Seq<char>,
    query: Seq<char>,
) -> Seq<Seq<char>> {
    if search.len() < 2 {
        Seq::empty()
    } else {
        let hits = Seq::new(names.len(), |i: int| i).filter(|i: int| has_part(lowered[i], query));
        let picked = if hits.len() > 50 {
            hits.take(50)
        } else {
            hits
        };
        picked.map_values(|i: int| names[i])
    }
}

/// The class suggestions for the typed search text `search`, lowercased as
/// `query`, each name given with its lowercased form.
pub fn pick_suggestions(
    names: &Vec<String>,
    lowered: &Vec<String>,
    search: &str,
    query: &str,
) -> (r: Vec<String>)
    requires
        lowered@.len() == names@.len(),
    ensures
        strings_view(r@) == suggestions_of(
            strings_view(names@),
            strings_view(lowered@),
            search@,
            query@,
        ),
{
    let ghost nv = strings_view(names@);
    let ghost lv = strings_view(lowered@);
    let ghost pred = |i: int| has_part(lv[i], query@);
    let ghost idx = Seq::new(names@.len(), |i: int| i);
    let mut out: Vec<String> = Vec::new();
    let typed = crate::text::chars_of(search);
    if typed.len() < 2 {
        assert(strings_view(out@) =~= Seq::<Seq<char>>::empty());
        return out;
    }
    let ghost mut hits: Seq<int> = Seq::empty();
    proof {
        reveal(Seq::filter);
    }
    assert(idx.take(0) =~= Seq::<int>::empty());
    let mut i: usize = 0;
    while i < names.len() && out.len() < 50
        invariant
            nv == strings_view(names@),
            lv == strings_view(lowered@),
            lowered@.len() == names@.len(),
            idx == Seq::new(names@.len(), |i: int| i),
            pred == (|i: int| has_part(lv[i], query@)),
            i <= names@.len(),
            hits == idx.take(i as int).filter(pred),
            hits.len() <= 50,
            strings_view(out@) == hits.map_values(|k: int| nv[k]),
        decreases names@.len() - i,
    {
        assert(idx.take(i + 1) =~= idx.take(i as int).push(i as int));
        proof {
            idx.take(i as int).lemma_filter_push(i as int, pred);
        }
        assert(lv[i as int] == lowered@[i as int]@);
        if contains_text(lowered[i].as_str(), query) {
            let ghost before = out@;
            out.push(names[i].clone());
            proof {
                hits = hits.push(i as int);
            }
            assert(strings_view(out@) =~= strings_view(before).push(nv[i as int]));
            assert(strings_view(out@) =~= hits.map_values(|k: int| nv[k]));
        }
        i += 1;
    }
    proof {
        let all = idx.filter(pred);
        lemma_filter_prefix(idx, pred, i as int);
        if i < names@.len() {
            assert(hits.len() == 50);
            assert(all.take(50) =~= hits);
        } else {
            assert(idx.take(i as int) =~= idx);
        }
    }
    out
}

/// The filter of a prefix is a prefix of the filter, and what the rest adds
/// comes after it.
proof fn lemma_filter_prefix(s: Seq<int>, p: spec_fn(int) -> bool, k: int)
    requires
        0 <= k <= s.len(),
    ensures
        s.take(k).filter(p).len() <= s.filter(p).len(),
        s.filter(p).take(s.take(k).filter(p).len() as int) == s.take(k).filter(p),
    decreases s.len() - k,
{
    reveal(Seq::filter);
    if k == s.len() {
        assert(s.take(k) =~= s);
        assert(s.filter(p).take(s.filter(p).len() as int) =~= s.filter(p));
    } else {
        lemma_filter_prefix(s, p, k + 1);
        assert(s.take(k + 1) =~= s.take(k).push(s[k]));
        s.take(k).lemma_filter_push(s[k], p);
        let a = s.take(k).filter(p);
        let b = s.take(k + 1).filter(p);
        let f = s.filter(p);
        assert(f.take(a.len() as int) =~= b.take(a.len() as int));
        assert(b.take(a.len() as int) =~= a);
    }
}

/// The names of the classes, in order.
pub open spec fn class_names(classes: Seq<ClassEntry>) -> Seq<Seq<char>> {
    classes.map_values(|c: ClassEntry| c.name@)
}

/// The lowercase forms of the names of the classes, in order.
pub open spec fn lowered_names(classes: Seq<ClassEntry>) -> Seq<Seq<char>> {
    classes.map_values(|c: ClassEntry| lowercase(c.name@))
}

/// The class suggestions for the text typed in the class search field: the
/// names of the known classes whose lowercase form contains the lowercase
/// search text, in list order, at most fifty; none where under two
/// characters are typed.
pub fn class_suggestions(classes: &Vec<ClassEntry>, search: &str) -> (r: Vec<String>)
    ensures
        strings_view(r@) == suggestions_of(
            class_names(classes@),
            lowered_names(classes@),
            search@,
            lowercase(search@),
        ),
{
    let query = to_lowercase(search);
    let mut names: Vec<String> = Vec::new();
    let mut lowered: Vec<String> = Vec::new();
    let ghost names_of = class_names(classes@);
    let ghost low_of = lowered_names(classes@);
    let mut i: usize = 0;
    while i < classes.len()
        invariant
            names_of == class_names(classes@),
            low_of == lowered_names(classes@),
            i <= classes@.len(),
            strings_view(names@) == names_of.take(i as int),
            strings_view(lowered@) == low_of.take(i as int),
        decreases classes@.len() - i,
    {
        let ghost before = names@;
        names.push(classes[i].name.clone());
        let ghost lbefore = lowered@;
        let low = to_lowercase(classes[i].name.as_str());
        lowered.push(low);
        assert(strings_view(names@) =~= strings_view(before).push(classes@[i as int].name@));
        assert(strings_view(names@) =~= names_of.take(i + 1));
        assert(strings_view(lowered@) =~= strings_view(lbefore).push(low@));
        assert(strings_view(lowered@) =~= low_of.take(i + 1));
        i += 1;
    }
    assert(names_of.take(i as int) =~= names_of);
    assert(low_of.take(i as int) =~= low_of);
    pick_suggestions(&names, &lowered, search, query.as_str())
}

/// The badge of a job: done or running.
pub fn job_status_label(finished: bool) -> (r: &'static str)
    ensures
        finished ==> r@ == "✅ Done"@,
        !finished ==> r@ == "⏳ Running"@,
{
    if finished {
        "✅ Done"
    } else {
        "⏳ Running"
    }
}

/// The count line of a job: `<downloaded> / <total> images`, with `?` for a
/// total not known yet (0).
pub open spec fn images_text_of(downloaded: nat, total: nat) -> Seq<char> {
    decimal(downloaded) + " / "@ + (if total == 0 {
        "?"@
    } else {
        decimal(total)
    }) + " images"@
}

/// The count line of a job.
pub fn images_text(downloaded: usize, total: usize) -> (r: String)
    ensures
        r@ == images_text_of(downloaded as nat, total as nat),
{
    let mut s = String::new();
    push_decimal(&mut s, downloaded as u128);
    s.append(" / ");
    if total == 0 {
        s.append("?");
    } else {
        push_decimal(&mut s, total as u128);
    }
    s.append(" images");
    s
}

/// The errors joined with `; ` between each two.
pub open spec fn joined_errors(errors: Seq<Seq<char>>) -> Seq<char>
    decreases errors.len(),
{
    if errors.len() == 0 {
        Seq::empty()
    } else if errors.len() == 1 {
        errors[0]
    } else {
        joined_errors(errors.drop_last()) + "; "@ + errors.last()
    }
}

/// The error line of a job: `<n> error(s): ` and its first three errors.
pub open spec fn errors_text_of(errors: Seq<Seq<char>>) -> Seq<char> {
    decimal(errors.len()) + " error(s): "@ + joined_errors(
        if errors.len() > 3 {
            errors.take(3)
        } else {
            errors
        },
    )
}

/// The error line of a job.
pub fn errors_text(errors: &Vec<String>) -> (r: String)
    ensures
        r@ == errors_text_of(strings_view(errors@)),
{
    let ghost ev = strings_view(errors@);
    let mut s = String::new();
    push_decimal(&mut s, errors.len() as u128);
    s.append(" error(s): ");
    let ghost head = s@;
    let shown: usize = if errors.len() > 3 { 3 } else { errors.len() };
    let ghost sv = if ev.len() > 3 { ev.take(3) } else { ev };
    assert(sv =~= ev.take(shown as int));
    let mut i: usize = 0;
    assert(ev.take(0) =~= Seq::<Seq<char>>::empty());
    while i < shown
        invariant
            ev == strings_view(errors@),
            shown <= errors@.len(),
            i <= shown,
            s@ == head + joined_errors(ev.take(i as int)),
        decreases shown - i,
    {
        assert(ev.take(i + 1).drop_last() =~= ev.take(i as int));
        assert(ev.take(i + 1).last() == errors@[i as int]@);
        if i > 0 {
            s.append("; ");
        }
        s.append(errors[i].as_str());
        assert(s@ =~= head + joined_errors(ev.take(i + 1)));
        i += 1;
    }
    s
}

} // verus!
