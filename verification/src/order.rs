//! Lexicographic order on texts and on lists of texts, and a stable sort.
//!
//! Texts are ordered character by character by code point, which is the
//! order of std's `String` (UTF-8 preserves code point order byte-wise).

use vstd::prelude::*;
use vstd::relations::{sorted_by, total_ordering};
use crate::text::{chars_of, strings_view};

verus! {

/// The result of comparing two values.
#[derive(Clone, Copy, Debug, PartialEq, Eq, Structural)]
pub enum Lex {
    Before,
    Same,
    After,
}

/// `a` comes strictly before `b`: at the first position where they differ
/// `a` has the smaller code point, or `a` is a proper prefix of `b`.
pub open spec fn text_lt(a: Seq<char>, b: Seq<char>) -> bool
    decreases a.len(),
{
    if a.len() == 0 {
        b.len() > 0
    } else if b.len() == 0 {
        false
    } else if a[0] != b[0] {
        (a[0] as int) < (b[0] as int)
    } else {
        text_lt(a.drop_first(), b.drop_first())
    }
}

/// Lists of texts in lexicographic order, each position compared by
/// `text_lt` (the order of std's tuples and `Vec`s of `String`s).
pub open spec fn keys_lt(a: Seq<Seq<char>>, b: Seq<Seq<char>>) -> bool
    decreases a.len(),
{
    if a.len() == 0 {
        b.len() > 0
    } else if b.len() == 0 {
        false
    } else if a[0] != b[0] {
        text_lt(a[0], b[0])
    } else {
        keys_lt(a.drop_first(), b.drop_first())
    }
}

pub proof fn lemma_text_lt_irreflexive(a: Seq<char>)
    ensures
        !text_lt(a, a),
    decreases a.len(),
{
    if a.len() > 0 {
        lemma_text_lt_irreflexive(a.drop_first());
    }
}

pub proof fn lemma_text_lt_asymmetric(a: Seq<char>, b: Seq<char>)
    ensures
        !(text_lt(a, b) && text_lt(b, a)),
    decreases a.len(),
{
    if a.len() > 0 && b.len() > 0 && a[0] == b[0] {
        lemma_text_lt_asymmetric(a.drop_first(), b.drop_first());
    }
}

pub proof fn lemma_text_lt_transitive(a: Seq<char>, b: Seq<char>, c: Seq<char>)
    requires
        text_lt(a, b),
        text_lt(b, c),
    ensures
        text_lt(a, c),
    decreases a.len(),
{
    if a.len() > 0 && b.len() > 0 && c.len() > 0 && a[0] == b[0] && b[0] == c[0] {
        lemma_text_lt_transitive(a.drop_first(), b.drop_first(), c.drop_first());
    }
}

pub proof fn lemma_text_lt_total(a: Seq<char>, b: Seq<char>)
    ensures
        a == b || text_lt(a, b) || text_lt(b, a),
    decreases a.len(),
{
    if a.len() > 0 && b.len() > 0 {
        if a[0] == b[0] {
            lemma_text_lt_total(a.drop_first(), b.drop_first());
            if a.drop_first() == b.drop_first() {
                assert(a =~= seq![a[0]] + a.drop_first());
                assert(b =~= seq![b[0]] + b.drop_first());
            }
        } else {
            assert(a[0] as int != b[0] as int);
        }
    } else if a.len() == 0 && b.len() == 0 {
        assert(a =~= b);
    }
}

pub proof fn lemma_keys_lt_irreflexive(a: Seq<Seq<char>>)
    ensures
        !keys_lt(a, a),
    decreases a.len(),
{
    if a.len() > 0 {
        lemma_keys_lt_irreflexive(a.drop_first());
    }
}

pub proof fn lemma_keys_lt_asymmetric(a: Seq<Seq<char>>, b: Seq<Seq<char>>)
    ensures
        !(keys_lt(a, b) && keys_lt(b, a)),
    decreases a.len(),
{
    if a.len() > 0 && b.len() > 0 {
        if a[0] == b[0] {
            lemma_keys_lt_asymmetric(a.drop_first(), b.drop_first());
        } else {
            lemma_text_lt_asymmetric(a[0], b[0]);
        }
    }
}

pub proof fn lemma_keys_lt_transitive(a: Seq<Seq<char>>, b: Seq<Seq<char>>, c: Seq<Seq<char>>)
    requires
        keys_lt(a, b),
        keys_lt(b, c),
    ensures
        keys_lt(a, c),
    decreases a.len(),
{
    if a.len() > 0 && b.len() > 0 && c.len() > 0 {
        if a[0] == b[0] && b[0] == c[0] {
            lemma_keys_lt_transitive(a.drop_first(), b.drop_first(), c.drop_first());
        } else if a[0] != b[0] && b[0] != c[0] {
            lemma_text_lt_transitive(a[0], b[0], c[0]);
            if a[0] == c[0] {
                lemma_text_lt_asymmetric(a[0], b[0]);
            }
        }
    }
}

pub proof fn lemma_keys_lt_total(a: Seq<Seq<char>>, b: Seq<Seq<char>>)
    ensures
        a == b || keys_lt(a, b) || keys_lt(b, a),
    decreases a.len(),
{
    if a.len() > 0 && b.len() > 0 {
        if a[0] == b[0] {
            lemma_keys_lt_total(a.drop_first(), b.drop_first());
            if a.drop_first() == b.drop_first() {
                assert(a =~= seq![a[0]] + a.drop_first());
                assert(b =~= seq![b[0]] + b.drop_first());
            }
        } else {
            lemma_text_lt_total(a[0], b[0]);
        }
    } else if a.len() == 0 && b.len() == 0 {
        assert(a =~= b);
    }
}

/// Compares two texts in `text_lt` order.
pub fn text_order(a: &str, b: &str) -> (r: Lex)
    ensures
        r == Lex::Before <==> text_lt(a@, b@),
        r == Lex::Same <==> a@ == b@,
        r == Lex::After <==> text_lt(b@, a@),
{
    let x = chars_of(a);
    let y = chars_of(b);
    let mut i: usize = 0;
    proof {
        lemma_text_lt_asymmetric(a@, b@);
        lemma_text_lt_total(a@, b@);
        lemma_text_lt_irreflexive(a@);
        assert(x@.skip(0) =~= x@);
        assert(y@.skip(0) =~= y@);
    }
    while i < x.len() && i < y.len() && x[i] == y[i]
        invariant
            x@ == a@,
            y@ == b@,
            i <= x@.len(),
            i <= y@.len(),
            x@.take(i as int) == y@.take(i as int),
            text_lt(a@, b@) == text_lt(x@.skip(i as int), y@.skip(i as int)),
            text_lt(b@, a@) == text_lt(y@.skip(i as int), x@.skip(i as int)),
        decreases x@.len() - i,
    {
        assert(x@.skip(i as int).drop_first() =~= x@.skip(i + 1));
        assert(y@.skip(i as int).drop_first() =~= y@.skip(i + 1));
        assert(x@.take(i + 1) =~= x@.take(i as int).push(x@[i as int]));
        assert(y@.take(i + 1) =~= y@.take(i as int).push(y@[i as int]));
        i += 1;
    }
    if i == x.len() && i == y.len() {
        assert(x@ =~= x@.take(i as int));
        assert(y@ =~= y@.take(i as int));
        Lex::Same
    } else if i == x.len() {
        proof {
            if a@ == b@ {
                assert(x@.len() == y@.len());
            }
        }
        Lex::Before
    } else if i == y.len() {
        proof {
            if a@ == b@ {
                assert(x@.len() == y@.len());
            }
        }
        Lex::After
    } else {
        assert(x@.skip(i as int)[0] == x@[i as int]);
        assert(y@.skip(i as int)[0] == y@[i as int]);
        assert(a@[i as int] != b@[i as int]);
        if x[i] < y[i] {
            Lex::Before
        } else {
            Lex::After
        }
    }
}


/// The keys of `keys`, each a list of texts.
pub open spec fn keys_view(keys: Seq<Vec<String>>) -> Seq<Seq<Seq<char>>> {
    keys.map_values(|k: Vec<String>| strings_view(k@))
}

/// Compares two lists of texts in `keys_lt` order.
pub fn keys_order(a: &Vec<String>, b: &Vec<String>) -> (r: Lex)
    ensures
        r == Lex::Before <==> keys_lt(strings_view(a@), strings_view(b@)),
        r == Lex::Same <==> strings_view(a@) == strings_view(b@),
        r == Lex::After <==> keys_lt(strings_view(b@), strings_view(a@)),
{
    let ghost x = strings_view(a@);
    let ghost y = strings_view(b@);
    proof {
        lemma_keys_lt_asymmetric(x, y);
        lemma_keys_lt_total(x, y);
        lemma_keys_lt_irreflexive(x);
        assert(x.skip(0) =~= x);
        assert(y.skip(0) =~= y);
    }
    let mut i: usize = 0;
    while i < a.len() && i < b.len()
        invariant
            x == strings_view(a@),
            y == strings_view(b@),
            i <= a@.len(),
            i <= b@.len(),
            x.take(i as int) == y.take(i as int),
            keys_lt(x, y) == keys_lt(x.skip(i as int), y.skip(i as int)),
            keys_lt(y, x) == keys_lt(y.skip(i as int), x.skip(i as int)),
        decreases a@.len() - i,
    {
        assert(x.skip(i as int)[0] == a@[i as int]@);
        assert(y.skip(i as int)[0] == b@[i as int]@);
        match text_order(a[i].as_str(), b[i].as_str()) {
            Lex::Same => {
                assert(x.skip(i as int).drop_first() =~= x.skip(i + 1));
                assert(y.skip(i as int).drop_first() =~= y.skip(i + 1));
                assert(x.take(i + 1) =~= x.take(i as int).push(x[i as int]));
                assert(y.take(i + 1) =~= y.take(i as int).push(y[i as int]));
                i += 1;
            },
            Lex::Before => {
                proof {
                    lemma_text_lt_irreflexive(x[i as int]);
                }
                assert(x != y);
                return Lex::Before;
            },
            Lex::After => {
                proof {
                    lemma_text_lt_irreflexive(x[i as int]);
                }
                assert(x != y);
                return Lex::After;
            },
        }
    }
    if i == a.len() && i == b.len() {
        assert(x =~= x.take(i as int));
        assert(y =~= y.take(i as int));
        Lex::Same
    } else if i == a.len() {
        assert(x.len() != y.len());
        Lex::Before
    } else {
        assert(x.len() != y.len());
        Lex::After
    }
}

/// Index `i` goes no later than index `j` when ordered by their keys, ties
/// kept in index order.
pub open spec fn key_leq(kv: Seq<Seq<Seq<char>>>, i: usize, j: usize) -> bool {
    keys_lt(kv[i as int], kv[j as int]) || (kv[i as int] == kv[j as int] && i <= j)
}

/// `key_leq` as a relation.
pub open spec fn index_leq(kv: Seq<Seq<Seq<char>>>) -> spec_fn(usize, usize) -> bool {
    |i: usize, j: usize| key_leq(kv, i, j)
}

/// The indices `0..kv.len()` in stable order of their keys: by key, and
/// among equal keys by index.
pub open spec fn stable_order(kv: Seq<Seq<Seq<char>>>) -> Seq<usize> {
    Seq::new(kv.len(), |i: int| i as usize).sort_by(index_leq(kv))
}

pub proof fn lemma_index_leq_total(kv: Seq<Seq<Seq<char>>>)
    ensures
        total_ordering(index_leq(kv)),
{
    let r = index_leq(kv);
    assert forall|x: usize| #[trigger] r(x, x) by {
        lemma_keys_lt_irreflexive(kv[x as int]);
    }
    assert forall|x: usize, y: usize| #[trigger] r(x, y) && #[trigger] r(y, x) implies x == y by {
        lemma_keys_lt_asymmetric(kv[x as int], kv[y as int]);
        lemma_keys_lt_irreflexive(kv[x as int]);
    }
    assert forall|x: usize, y: usize, z: usize| #[trigger] r(x, y) && #[trigger] r(y, z) implies r(
        x,
        z,
    ) by {
        if keys_lt(kv[x as int], kv[y as int]) && keys_lt(kv[y as int], kv[z as int]) {
            lemma_keys_lt_transitive(kv[x as int], kv[y as int], kv[z as int]);
        }
    }
    assert forall|x: usize, y: usize| #[trigger] r(x, y) || #[trigger] r(y, x) by {
        lemma_keys_lt_total(kv[x as int], kv[y as int]);
    }
}

fn index_leq_exec(keys: &Vec<Vec<String>>, i: usize, j: usize) -> (r: bool)
    requires
        i < keys@.len(),
        j < keys@.len(),
    ensures
        r == key_leq(keys_view(keys@), i, j),
{
    let ghost kv = keys_view(keys@);
    assert(kv[i as int] == strings_view(keys@[i as int]@));
    assert(kv[j as int] == strings_view(keys@[j as int]@));
    match keys_order(&keys[i], &keys[j]) {
        Lex::Before => true,
        Lex::Same => i <= j,
        Lex::After => {
            proof {
                lemma_keys_lt_asymmetric(kv[i as int], kv[j as int]);
                lemma_keys_lt_irreflexive(kv[i as int]);
            }
            false
        },
    }
}

fn merge_runs(keys: &Vec<Vec<String>>, a: &Vec<usize>, b: &Vec<usize>) -> (r: Vec<usize>)
    requires
        forall|k: int| 0 <= k < a@.len() ==> a@[k] < keys@.len(),
        forall|k: int| 0 <= k < b@.len() ==> b@[k] < keys@.len(),
        sorted_by(a@, index_leq(keys_view(keys@))),
        sorted_by(b@, index_leq(keys_view(keys@))),
    ensures
        sorted_by(r@, index_leq(keys_view(keys@))),
        r@.to_multiset() == (a@ + b@).to_multiset(),
        forall|k: int| 0 <= k < r@.len() ==> r@[k] < keys@.len(),
{
    broadcast use vstd::seq_lib::group_to_multiset_ensures;
    broadcast use vstd::multiset::group_multiset_axioms;

    let ghost leq = index_leq(keys_view(keys@));
    proof {
        lemma_index_leq_total(keys_view(keys@));
    }
    let mut out: Vec<usize> = Vec::new();
    let mut i: usize = 0;
    let mut j: usize = 0;
    while i < a.len() || j < b.len()
        invariant
            leq == index_leq(keys_view(keys@)),
            total_ordering(leq),
            forall|k: int| 0 <= k < a@.len() ==> a@[k] < keys@.len(),
            forall|k: int| 0 <= k < b@.len() ==> b@[k] < keys@.len(),
            sorted_by(a@, leq),
            sorted_by(b@, leq),
            i <= a@.len(),
            j <= b@.len(),
            out@.len() == i + j,
            sorted_by(out@, leq),
            out@.to_multiset() == (a@.take(i as int) + b@.take(j as int)).to_multiset(),
            forall|k: int| 0 <= k < out@.len() ==> out@[k] < keys@.len(),
            out@.len() > 0 && i < a@.len() ==> leq(out@.last(), a@[i as int]),
            out@.len() > 0 && j < b@.len() ==> leq(out@.last(), b@[j as int]),
        decreases a@.len() + b@.len() - i - j,
    {
        let take_a = if j >= b.len() {
            true
        } else if i >= a.len() {
            false
        } else {
            index_leq_exec(keys, a[i], b[j])
        };
        let ghost old_out = out@;
        if take_a {
            let x = a[i];
            out.push(x);
            proof {
                assert(a@.take(i + 1) =~= a@.take(i as int).push(x));
                vstd::seq_lib::lemma_multiset_commutative(a@.take(i as int), b@.take(j as int));
                vstd::seq_lib::lemma_multiset_commutative(a@.take(i + 1), b@.take(j as int));
                assert forall|p: int, q: int| 0 <= p < q < out@.len() implies #[trigger] leq(
                    out@[p],
                    out@[q],
                ) by {
                    if q == out@.len() - 1 && p < q {
                        if p < old_out.len() - 1 {
                            assert(leq(old_out[p], old_out.last()));
                        }
                    }
                }
                if i + 1 < a@.len() {
                    assert(leq(a@[i as int], a@[i + 1]));
                }
                vstd::seq_lib::to_multiset_build(a@.take(i as int), x);
                vstd::seq_lib::to_multiset_build(old_out, x);
                assert((a@.take(i + 1) + b@.take(j as int)).to_multiset() =~= (a@.take(i as int)
                    + b@.take(j as int)).to_multiset().insert(x));
            }
            i += 1;
        } else {
            let x = b[j];
            out.push(x);
            proof {
                assert(b@.take(j + 1) =~= b@.take(j as int).push(x));
                vstd::seq_lib::lemma_multiset_commutative(a@.take(i as int), b@.take(j as int));
                vstd::seq_lib::lemma_multiset_commutative(a@.take(i as int), b@.take(j + 1));
                assert forall|p: int, q: int| 0 <= p < q < out@.len() implies #[trigger] leq(
                    out@[p],
                    out@[q],
                ) by {
                    if q == out@.len() - 1 && p < q {
                        if p < old_out.len() - 1 {
                            assert(leq(old_out[p], old_out.last()));
                        }
                    }
                }
                if j + 1 < b@.len() {
                    assert(leq(b@[j as int], b@[j + 1]));
                }
                if i < a@.len() {
                    assert(leq(b@[j as int], a@[i as int]) || leq(a@[i as int], b@[j as int]));
                }
                vstd::seq_lib::to_multiset_build(b@.take(j as int), x);
                vstd::seq_lib::to_multiset_build(old_out, x);
                assert((a@.take(i as int) + b@.take(j + 1)).to_multiset() =~= (a@.take(i as int)
                    + b@.take(j as int)).to_multiset().insert(x));
            }
            j += 1;
        }
    }
    assert(a@.take(a@.len() as int) =~= a@);
    assert(b@.take(b@.len() as int) =~= b@);
    out
}

fn merge_sort_indices(keys: &Vec<Vec<String>>, v: Vec<usize>) -> (r: Vec<usize>)
    requires
        forall|k: int| 0 <= k < v@.len() ==> v@[k] < keys@.len(),
    ensures
        sorted_by(r@, index_leq(keys_view(keys@))),
        r@.to_multiset() == v@.to_multiset(),
        forall|k: int| 0 <= k < r@.len() ==> r@[k] < keys@.len(),
    decreases v@.len(),
{
    if v.len() <= 1 {
        return v;
    }
    let mid = v.len() / 2;
    let mut left = v;
    let right = left.split_off(mid);
    proof {
        assert(v@ =~= left@ + right@);
    }
    let l = merge_sort_indices(keys, left);
    let r = merge_sort_indices(keys, right);
    let m = merge_runs(keys, &l, &r);
    proof {
        vstd::seq_lib::lemma_multiset_commutative(l@, r@);
        vstd::seq_lib::lemma_multiset_commutative(left@, right@);
    }
    m
}

/// The stable order of the keys: the indices `0..keys.len()` sorted by key,
/// equal keys in index order.
pub fn stable_sort_indices(keys: &Vec<Vec<String>>) -> (r: Vec<usize>)
    ensures
        r@ == stable_order(keys_view(keys@)),
{
    let n = keys.len();
    let mut v: Vec<usize> = Vec::new();
    let mut i: usize = 0;
    while i < n
        invariant
            n == keys@.len(),
            i <= n,
            v@ == Seq::new(i as nat, |k: int| k as usize),
        decreases n - i,
    {
        v.push(i);
        assert(v@ =~= Seq::new((i + 1) as nat, |k: int| k as usize));
        i += 1;
    }
    let r = merge_sort_indices(keys, v);
    proof {
        let kv = keys_view(keys@);
        let leq = index_leq(kv);
        lemma_index_leq_total(kv);
        assert(kv.len() == n);
        v@.lemma_sort_by_ensures(leq);
        vstd::seq_lib::lemma_sorted_unique(r@, v@.sort_by(leq), leq);
    }
    r
}

/// The stable order lists every index `0..kv.len()` exactly once.
pub proof fn lemma_stable_order_permutation(kv: Seq<Seq<Seq<char>>>)
    requires
        kv.len() <= usize::MAX,
    ensures
        stable_order(kv).len() == kv.len(),
        stable_order(kv).no_duplicates(),
        forall|i: int| 0 <= i < kv.len() ==> #[trigger] stable_order(kv)[i] < kv.len(),
        forall|j: usize| j < kv.len() ==> #[trigger] stable_order(kv).contains(j),
{
    broadcast use vstd::seq_lib::group_to_multiset_ensures;

    let ids = Seq::new(kv.len(), |i: int| i as usize);
    let leq = index_leq(kv);
    lemma_index_leq_total(kv);
    ids.lemma_sort_by_ensures(leq);
    let o = ids.sort_by(leq);
    assert(ids.no_duplicates());
    ids.lemma_multiset_has_no_duplicates();
    assert(o.to_multiset() == ids.to_multiset());
    o.lemma_multiset_has_no_duplicates_conv();
    assert(o.len() == ids.len()) by {
        assert(o.to_multiset().len() == ids.to_multiset().len());
    }
    assert forall|i: int| 0 <= i < kv.len() implies #[trigger] o[i] < kv.len() by {
        assert(o.contains(o[i]));
        assert(o.to_multiset().count(o[i]) > 0);
        assert(ids.contains(o[i]));
    }
    assert forall|j: usize| j < kv.len() implies #[trigger] o.contains(j) by {
        assert(ids[j as int] == j);
        assert(ids.contains(j));
        assert(ids.to_multiset().count(j) > 0);
    }
}

/// The stable order is sorted by key, and among equal keys by index.
pub proof fn lemma_stable_order_sorted(kv: Seq<Seq<Seq<char>>>, i: int, j: int)
    requires
        0 <= i < j < stable_order(kv).len(),
    ensures
        key_leq(kv, stable_order(kv)[i], stable_order(kv)[j]),
        !keys_lt(kv[stable_order(kv)[j] as int], kv[stable_order(kv)[i] as int]),
{
    let ids = Seq::new(kv.len(), |i: int| i as usize);
    let leq = index_leq(kv);
    lemma_index_leq_total(kv);
    ids.lemma_sort_by_ensures(leq);
    let o = ids.sort_by(leq);
    assert(leq(o[i], o[j]));
    lemma_keys_lt_asymmetric(kv[o[i] as int], kv[o[j] as int]);
    lemma_keys_lt_irreflexive(kv[o[i] as int]);
}

/// Single texts as keys compare as the texts do.
pub proof fn lemma_single_keys(a: Seq<char>, b: Seq<char>)
    ensures
        keys_lt(seq![a], seq![b]) == text_lt(a, b),
        (seq![a] == seq![b]) == (a == b),
{
    lemma_text_lt_irreflexive(a);
    let sa = seq![a];
    let sb = seq![b];
    assert(sa[0] == a);
    assert(sb[0] == b);
    assert(sa.len() == 1 && sb.len() == 1);
    if a == b {
        assert(sa =~= sb);
        lemma_keys_lt_irreflexive(sa);
    }
    assert(seq![a].drop_first() =~= Seq::<Seq<char>>::empty());
    assert(seq![b].drop_first() =~= Seq::<Seq<char>>::empty());
}

/// `perm` lists each of `0..n` exactly once.
pub open spec fn is_permutation(perm: Seq<usize>, n: nat) -> bool {
    &&& perm.len() == n
    &&& perm.no_duplicates()
    &&& forall|i: int| 0 <= i < n ==> #[trigger] perm[i] < n
}

/// `r` is strictly increasing in text order.
pub open spec fn strictly_increasing(r: Seq<Seq<char>>) -> bool {
    forall|i: int, j: int| 0 <= i < j < r.len() ==> text_lt(#[trigger] r[i], #[trigger] r[j])
}

/// `r` lists the distinct texts of `names` in increasing order.
pub open spec fn is_sorted_set_of(r: Seq<Seq<char>>, names: Seq<Seq<char>>) -> bool {
    &&& strictly_increasing(r)
    &&& forall|x: Seq<char>| #[trigger] r.contains(x) <==> names.contains(x)
}

/// The keys of single texts.
pub open spec fn single_keys(names: Seq<Seq<char>>) -> Seq<Seq<Seq<char>>> {
    names.map_values(|n: Seq<char>| seq![n])
}

/// The distinct texts of `names`, in increasing order (what collecting them
/// into a set and sorting the set gives).
pub fn sorted_distinct(names: &Vec<String>) -> (r: Vec<String>)
    ensures
        is_sorted_set_of(strings_view(r@), strings_view(names@)),
{
    let ghost nv = strings_view(names@);
    let mut keys: Vec<Vec<String>> = Vec::new();
    let mut i: usize = 0;
    while i < names.len()
        invariant
            nv == strings_view(names@),
            i <= names@.len(),
            keys_view(keys@) == single_keys(nv).take(i as int),
        decreases names@.len() - i,
    {
        let k = vec![names[i].clone()];
        assert(strings_view(k@) =~= seq![nv[i as int]]);
        let ghost before = keys@;
        keys.push(k);
        assert(keys_view(keys@) =~= keys_view(before).push(strings_view(k@)));
        assert(keys_view(keys@) =~= single_keys(nv).take(i + 1));
        i += 1;
    }
    assert(keys_view(keys@) =~= single_keys(nv));
    let order = stable_sort_indices(&keys);
    let ghost kv = single_keys(nv);
    proof {
        lemma_stable_order_permutation(kv);
    }
    let mut out: Vec<String> = Vec::new();
    let mut j: usize = 0;
    while j < order.len()
        invariant
            nv == strings_view(names@),
            kv == single_keys(nv),
            order@ == stable_order(kv),
            order@.len() == nv.len(),
            forall|p: int| 0 <= p < nv.len() ==> #[trigger] order@[p] < nv.len(),
            j <= order@.len(),
            strictly_increasing(strings_view(out@)),
            j > 0 ==> out@.len() > 0 && strings_view(out@).last() == nv[order@[j - 1] as int],
            j == 0 ==> out@.len() == 0,
            forall|x: Seq<char>|
                #[trigger] strings_view(out@).contains(x) <==> exists|a: int|
                    0 <= a < j && nv[order@[a] as int] == x,
        decreases order@.len() - j,
    {
        let idx = order[j];
        let ghost ov = strings_view(out@);
        let ghost cur = nv[idx as int];
        let fresh = if out.len() == 0 {
            true
        } else {
            text_order(out[out.len() - 1].as_str(), names[idx].as_str()) != Lex::Same
        };
        proof {
            if j > 0 {
                lemma_stable_order_sorted(kv, j - 1, j as int);
                lemma_single_keys(nv[order@[j - 1] as int], cur);
                lemma_single_keys(cur, nv[order@[j - 1] as int]);
            }
        }
        if fresh {
            out.push(names[idx].clone());
            proof {
                let nov = strings_view(out@);
                assert(nov =~= ov.push(cur));
                if j > 0 {
                    lemma_text_lt_total(ov.last(), cur);
                    assert(text_lt(ov.last(), cur));
                }
                assert forall|x: int, y: int| 0 <= x < y < nov.len() implies text_lt(
                    #[trigger] nov[x],
                    #[trigger] nov[y],
                ) by {
                    if y == nov.len() - 1 && x < ov.len() - 1 {
                        assert(text_lt(ov[x], ov.last()));
                        lemma_text_lt_transitive(ov[x], ov.last(), cur);
                    }
                }
                assert forall|x: Seq<char>| #[trigger] nov.contains(x) <==> exists|a: int|
                    0 <= a < j + 1 && nv[order@[a] as int] == x by {
                    if nov.contains(x) && !ov.contains(x) {
                        assert(x == cur);
                        assert(nv[order@[j as int] as int] == x);
                    }
                    if exists|a: int| 0 <= a < j + 1 && nv[order@[a] as int] == x {
                        let a = choose|a: int| 0 <= a < j + 1 && nv[order@[a] as int] == x;
                        if a == j {
                            assert(nov[nov.len() - 1] == x);
                        } else {
                            assert(ov.contains(x));
                            let k = choose|k: int| 0 <= k < ov.len() && ov[k] == x;
                            assert(nov[k] == x);
                        }
                    }
                }
            }
        } else {
            proof {
                assert(ov.last() == cur);
                assert forall|x: Seq<char>| #[trigger] ov.contains(x) <==> exists|a: int|
                    0 <= a < j + 1 && nv[order@[a] as int] == x by {
                    if exists|a: int| 0 <= a < j + 1 && nv[order@[a] as int] == x {
                        let a = choose|a: int| 0 <= a < j + 1 && nv[order@[a] as int] == x;
                        if a == j {
                            assert(ov[ov.len() - 1] == x);
                        }
                    }
                }
            }
        }
        j += 1;
    }
    proof {
        let ov = strings_view(out@);
        assert forall|x: Seq<char>| #[trigger] ov.contains(x) <==> nv.contains(x) by {
            if nv.contains(x) {
                let k = choose|k: int| 0 <= k < nv.len() && nv[k] == x;
                assert(order@.contains(k as usize));
                let a = choose|a: int| 0 <= a < order@.len() && order@[a] == k as usize;
                assert(nv[order@[a] as int] == x);
            }
            if ov.contains(x) {
                let a = choose|a: int| 0 <= a < j && nv[order@[a] as int] == x;
                assert(nv[order@[a] as int] == x);
            }
        }
    }
    out
}

} // verus!
