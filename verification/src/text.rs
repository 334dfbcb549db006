//! Character-level text utilities with exact specifications.

use vstd::prelude::*;

verus! {

/// Appends one character to a `String` (std's `String::push`): the new
/// content is the old content followed by `c`.
#[verifier::external_body]
pub(crate) fn push_char(s: &mut String, c: char)
    ensures
        final(s)@ == old(s)@.push(c),
{
    s.push(c);
}

/// The characters of `s`, in order.
pub fn chars_of(s: &str) -> (r: Vec<char>)
    ensures
        r@ == s@,
{
    let mut r: Vec<char> = Vec::new();
    for c in it: s.chars()
        invariant
            r@ == it.seq().take(it.index() as int),
    {
        r.push(c);
    }
    r
}


/// The contents of a sequence of strings, each taken by its characters.
pub open spec fn strings_view(v: Seq<String>) -> Seq<Seq<char>> {
    v.map_values(|s: String| s@)
}

/// The characters `v[lo..hi]` as a new `String`.
pub fn string_of_range(v: &Vec<char>, lo: usize, hi: usize) -> (r: String)
    requires
        lo <= hi <= v@.len(),
    ensures
        r@ == v@.subrange(lo as int, hi as int),
{
    let mut r = String::new();
    let mut i = lo;
    while i < hi
        invariant
            lo <= i <= hi <= v@.len(),
            r@ == v@.subrange(lo as int, i as int),
        decreases hi - i,
    {
        push_char(&mut r, v[i]);
        assert(v@.subrange(lo as int, i + 1) == v@.subrange(lo as int, i as int).push(v@[i as int]));
        i += 1;
    }
    r
}

/// The pieces of `s` between occurrences of `sep` (always at least one piece;
/// `k` separators give `k + 1` pieces, some of them possibly empty).
pub open spec fn split_on(s: Seq<char>, sep: char) -> Seq<Seq<char>>
    decreases s.len(),
{
    if s.len() == 0 {
        seq![Seq::<char>::empty()]
    } else {
        let pieces = split_on(s.drop_last(), sep);
        if s.last() == sep {
            pieces.push(Seq::<char>::empty())
        } else {
            pieces.update(pieces.len() - 1, pieces.last().push(s.last()))
        }
    }
}

/// A line without its terminator: one `'\r'` right before the `'\n'` is part
/// of the terminator.
pub open spec fn strip_cr(line: Seq<char>) -> Seq<char> {
    if line.len() > 0 && line.last() == '\r' {
        line.drop_last()
    } else {
        line
    }
}

/// The lines of a text as std's `str::lines` yields them: the text is split
/// at each `'\n'`, a final empty piece (after a trailing `'\n'`, or of the
/// empty text) is not a line, and a `'\r'` right before a `'\n'` belongs to
/// the line ending. A last line without `'\n'` keeps any trailing `'\r'`.
pub open spec fn lines(s: Seq<char>) -> Seq<Seq<char>> {
    let pieces = split_on(s, '\n');
    let body = pieces.drop_last();
    let ended = body.map_values(|l: Seq<char>| strip_cr(l));
    if pieces.last().len() == 0 {
        ended
    } else {
        ended.push(pieces.last())
    }
}

proof fn lemma_split_on_nonempty(s: Seq<char>, sep: char)
    ensures
        split_on(s, sep).len() >= 1,
    decreases s.len(),
{
    if s.len() > 0 {
        lemma_split_on_nonempty(s.drop_last(), sep);
    }
}

/// The lines of `text`, as std's `str::lines` gives them.
pub fn lines_of(text: &str) -> (r: Vec<String>)
    ensures
        strings_view(r@) == lines(text@),
{
    let v = chars_of(text);
    let n = v.len();
    let mut done: Vec<String> = Vec::new();
    let ghost mut raw: Seq<Seq<char>> = seq![];
    let mut start: usize = 0;
    let mut i: usize = 0;
    assert(v@.take(0) == Seq::<char>::empty());
    assert(raw.push(v@.subrange(0, 0)) == seq![Seq::<char>::empty()]);
    while i < n
        invariant
            n == v@.len(),
            v@ == text@,
            start <= i <= n,
            split_on(v@.take(i as int), '\n') == raw.push(v@.subrange(start as int, i as int)),
            strings_view(done@) == raw.map_values(|l: Seq<char>| strip_cr(l)),
        decreases n - i,
    {
        assert(v@.take(i + 1).drop_last() == v@.take(i as int));
        assert(v@.take(i + 1).last() == v@[i as int]);
        if v[i] == '\n' {
            let end = if i > start && v[i - 1] == '\r' { i - 1 } else { i };
            let piece = string_of_range(&v, start, end);
            assert(piece@ == strip_cr(v@.subrange(start as int, i as int)));
            let ghost old_done = done@;
            let ghost cur = v@.subrange(start as int, i as int);
            proof {
                raw = raw.push(cur);
            }
            done.push(piece);
            start = i + 1;
            assert(strings_view(done@) =~= strings_view(old_done).push(piece@));
            assert(raw.map_values(|l: Seq<char>| strip_cr(l)) =~= raw.drop_last().map_values(
                |l: Seq<char>| strip_cr(l),
            ).push(strip_cr(cur)));
            assert(v@.subrange(start as int, start as int) =~= Seq::<char>::empty());
        } else {
            let ghost cur = v@.subrange(start as int, i as int);
            assert(v@.subrange(start as int, i + 1) =~= cur.push(v@[i as int]));
            assert(raw.push(cur).update(raw.len() as int, cur.push(v@[i as int])) =~= raw.push(
                cur.push(v@[i as int]),
            ));
        }
        i += 1;
    }
    assert(v@.take(n as int) == v@);
    let ghost pieces = split_on(v@, '\n');
    assert(pieces.drop_last() == raw);
    if start < n {
        let last = string_of_range(&v, start, n);
        done.push(last);
        assert(strings_view(done@) == lines(text@));
    } else {
        assert(strings_view(done@) == lines(text@));
    }
    done
}


/// Unicode `White_Space`, the property that std's `char::is_whitespace` and
/// `str::trim` go by.
pub open spec fn is_unicode_whitespace(c: char) -> bool {
    let u = c as u32;
    ||| 0x9 <= u <= 0xd
    ||| u == 0x20
    ||| u == 0x85
    ||| u == 0xa0
    ||| u == 0x1680
    ||| 0x2000 <= u <= 0x200a
    ||| u == 0x2028
    ||| u == 0x2029
    ||| u == 0x202f
    ||| u == 0x205f
    ||| u == 0x3000
}

/// Whether `c` is Unicode whitespace.
pub fn is_whitespace(c: char) -> (r: bool)
    ensures
        r == is_unicode_whitespace(c),
{
    let u = c as u32;
    (0x9 <= u && u <= 0xd) || u == 0x20 || u == 0x85 || u == 0xa0 || u == 0x1680 || (0x2000 <= u
        && u <= 0x200a) || u == 0x2028 || u == 0x2029 || u == 0x202f || u == 0x205f || u == 0x3000
}

/// The characters that a trim removes: whitespace, or (with `quotes`) the
/// double quote `'"'`.
pub open spec fn is_trimmed_char(c: char, quotes: bool) -> bool {
    if quotes {
        c == '"'
    } else {
        is_unicode_whitespace(c)
    }
}

/// How many characters at the front of `s` a trim removes.
pub open spec fn lead_len(s: Seq<char>, quotes: bool) -> nat
    decreases s.len(),
{
    if s.len() > 0 && is_trimmed_char(s[0], quotes) {
        1 + lead_len(s.drop_first(), quotes)
    } else {
        0
    }
}

/// How many characters at the back of `s` a trim removes.
pub open spec fn trail_len(s: Seq<char>, quotes: bool) -> nat
    decreases s.len(),
{
    if s.len() > 0 && is_trimmed_char(s.last(), quotes) {
        1 + trail_len(s.drop_last(), quotes)
    } else {
        0
    }
}

/// `s` without its leading and trailing trimmed characters.
pub open spec fn trim_by(s: Seq<char>, quotes: bool) -> Seq<char> {
    let t = s.skip(lead_len(s, quotes) as int);
    t.take(t.len() - trail_len(t, quotes))
}

/// std's `str::trim`: leading and trailing whitespace removed.
pub open spec fn trim(s: Seq<char>) -> Seq<char> {
    trim_by(s, false)
}

/// std's `str::trim_matches('"')`: all leading and trailing `'"'` removed.
pub open spec fn trim_quotes(s: Seq<char>) -> Seq<char> {
    trim_by(s, true)
}

proof fn lemma_lead_len_step(s: Seq<char>, quotes: bool)
    requires
        s.len() > 0,
        is_trimmed_char(s[0], quotes),
    ensures
        lead_len(s, quotes) == 1 + lead_len(s.drop_first(), quotes),
{
}

fn is_trimmed(c: char, quotes: bool) -> (r: bool)
    ensures
        r == is_trimmed_char(c, quotes),
{
    if quotes {
        c == '"'
    } else {
        is_whitespace(c)
    }
}

/// The bounds of `v[lo..hi]` trimmed: `v[a..b]` is what a trim leaves of it.
pub fn trim_span(v: &Vec<char>, lo: usize, hi: usize, quotes: bool) -> (r: (usize, usize))
    requires
        lo <= hi <= v@.len(),
    ensures
        lo <= r.0 <= r.1 <= hi,
        v@.subrange(r.0 as int, r.1 as int) == trim_by(v@.subrange(lo as int, hi as int), quotes),
{
    let mut a = lo;
    while a < hi && is_trimmed(v[a], quotes)
        invariant
            lo <= a <= hi <= v@.len(),
            lead_len(v@.subrange(lo as int, hi as int), quotes) == (a - lo) + lead_len(
                v@.subrange(a as int, hi as int),
                quotes,
            ),
        decreases hi - a,
    {
        assert(v@.subrange(a as int, hi as int).drop_first() =~= v@.subrange(a + 1, hi as int));
        proof { lemma_lead_len_step(v@.subrange(a as int, hi as int), quotes); }
        a += 1;
    }
    assert(v@.subrange(lo as int, hi as int).skip(a - lo) =~= v@.subrange(a as int, hi as int));
    let mut b = hi;
    while b > a && is_trimmed(v[b - 1], quotes)
        invariant
            lo <= a <= b <= hi <= v@.len(),
            trail_len(v@.subrange(a as int, hi as int), quotes) == (hi - b) + trail_len(
                v@.subrange(a as int, b as int),
                quotes,
            ),
        decreases b - a,
    {
        assert(v@.subrange(a as int, b as int).drop_last() =~= v@.subrange(a as int, b - 1));
        b -= 1;
    }
    assert(v@.subrange(a as int, hi as int).take(b - a) =~= v@.subrange(a as int, b as int));
    (a, b)
}


/// `s` with leading and trailing whitespace removed (std's `str::trim`).
pub fn trimmed(s: &str) -> (r: String)
    ensures
        r@ == trim(s@),
{
    let v = chars_of(s);
    let (a, b) = trim_span(&v, 0, v.len(), false);
    assert(v@.subrange(0, v@.len() as int) =~= s@);
    string_of_range(&v, a, b)
}

/// The whitespace-separated words of `s`, as std's `str::split_whitespace`
/// yields them: the maximal runs of non-whitespace characters, in order.
pub open spec fn words(s: Seq<char>) -> Seq<Seq<char>>
    decreases s.len(),
{
    if s.len() == 0 {
        seq![]
    } else {
        let w = words(s.drop_last());
        let c = s.last();
        if is_unicode_whitespace(c) {
            w
        } else if s.len() >= 2 && !is_unicode_whitespace(s[s.len() - 2]) {
            w.update(w.len() - 1, w.last().push(c))
        } else {
            w.push(seq![c])
        }
    }
}

/// The whitespace-separated words of `s`.
pub fn words_of(s: &str) -> (r: Vec<String>)
    ensures
        strings_view(r@) == words(s@),
{
    let v = chars_of(s);
    let n = v.len();
    let mut done: Vec<String> = Vec::new();
    let mut in_word = false;
    let mut start: usize = 0;
    let mut i: usize = 0;
    assert(v@.take(0) =~= Seq::<char>::empty());
    while i < n
        invariant
            n == v@.len(),
            v@ == s@,
            start <= i <= n,
            in_word <==> (i > 0 && !is_unicode_whitespace(v@[i - 1])),
            in_word ==> start < i,
            words(v@.take(i as int)) == if in_word {
                strings_view(done@).push(v@.subrange(start as int, i as int))
            } else {
                strings_view(done@)
            },
        decreases n - i,
    {
        assert(v@.take(i + 1).drop_last() =~= v@.take(i as int));
        assert(v@.take(i + 1).last() == v@[i as int]);
        let c = v[i];
        let ghost old_done = done@;
        if is_whitespace(c) {
            if in_word {
                let piece = string_of_range(&v, start, i);
                done.push(piece);
                assert(strings_view(done@) =~= strings_view(old_done).push(piece@));
            }
            in_word = false;
        } else if in_word {
            let ghost cur = v@.subrange(start as int, i as int);
            assert(v@.subrange(start as int, i + 1) =~= cur.push(c));
            assert(v@.take(i + 1)[i - 1] == v@[i - 1]);
            assert(strings_view(done@).push(cur).update(old_done.len() as int, cur.push(c))
                =~= strings_view(done@).push(cur.push(c)));
        } else {
            start = i;
            in_word = true;
            assert(v@.subrange(i as int, i + 1) =~= seq![c]);
        }
        i += 1;
    }
    assert(v@.take(n as int) =~= v@);
    if in_word {
        let ghost old_done = done@;
        let piece = string_of_range(&v, start, n);
        done.push(piece);
        assert(strings_view(done@) =~= strings_view(old_done).push(piece@));
    }
    done
}

} // verus!
