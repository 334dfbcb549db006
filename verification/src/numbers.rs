//! Recognising the number texts that std's `FromStr` accepts.

use vstd::prelude::*;
use crate::text::{chars_of, push_char};

verus! {

/// An ASCII decimal digit.
pub open spec fn is_digit(c: char) -> bool {
    '0' as int <= c as int <= '9' as int
}

/// The value of a decimal digit.
pub open spec fn digit_value(c: char) -> int {
    c as int - '0' as int
}

/// Every character of `s` is a decimal digit.
pub open spec fn all_digits(s: Seq<char>) -> bool {
    forall|i: int| 0 <= i < s.len() ==> is_digit(#[trigger] s[i])
}

/// The value of a string of decimal digits (most significant first).
pub open spec fn digits_value(s: Seq<char>) -> int
    decreases s.len(),
{
    if s.len() == 0 {
        0
    } else {
        digits_value(s.drop_last()) * 10 + digit_value(s.last())
    }
}

/// What std's `from_str` for an unsigned integer type with largest value
/// `max` gives for `s`: an optional `'+'` followed by one or more digits,
/// whose value is at most `max`; anything else (a `'-'`, whitespace, an
/// empty text, overflow) is an error.
pub open spec fn unsigned_value(s: Seq<char>, max: int) -> Option<int> {
    let d = if s.len() > 0 && s[0] == '+' {
        s.drop_first()
    } else {
        s
    };
    if d.len() > 0 && all_digits(d) && digits_value(d) <= max {
        Some(digits_value(d))
    } else {
        None
    }
}

/// What std's `from_str` for `i8` gives for `s`: an optional `'+'` or `'-'`
/// followed by one or more digits, the value within `-128..=127`.
pub open spec fn i8_value(s: Seq<char>) -> Option<int> {
    let neg = s.len() > 0 && s[0] == '-';
    let d = if s.len() > 0 && (s[0] == '+' || s[0] == '-') {
        s.drop_first()
    } else {
        s
    };
    if d.len() > 0 && all_digits(d) {
        let v = if neg {
            -digits_value(d)
        } else {
            digits_value(d)
        };
        if -128 <= v <= 127 {
            Some(v)
        } else {
            None
        }
    } else {
        None
    }
}

proof fn lemma_digits_value_nonneg(s: Seq<char>)
    requires
        all_digits(s),
    ensures
        digits_value(s) >= 0,
    decreases s.len(),
{
    if s.len() > 0 {
        lemma_digits_value_nonneg(s.drop_last());
    }
}

proof fn lemma_digits_value_monotone(s: Seq<char>, k: int)
    requires
        all_digits(s),
        0 <= k <= s.len(),
    ensures
        digits_value(s.take(k)) <= digits_value(s),
    decreases s.len(),
{
    if k < s.len() {
        assert(s.drop_last().take(k) =~= s.take(k));
        lemma_digits_value_monotone(s.drop_last(), k);
        lemma_digits_value_nonneg(s.drop_last());
    } else {
        assert(s.take(k) =~= s);
    }
}

/// The value of the digits `v[lo..]` if they are one or more digits of value
/// at most `max`.
fn digits_at_most(v: &Vec<char>, lo: usize, max: u64) -> (r: Option<u64>)
    requires
        lo <= v@.len(),
    ensures
        ({
            let d = v@.skip(lo as int);
            match r {
                Some(x) => d.len() > 0 && all_digits(d) && digits_value(d) <= max && x
                    == digits_value(d),
                None => !(d.len() > 0 && all_digits(d) && digits_value(d) <= max),
            }
        }),
{
    let ghost d = v@.skip(lo as int);
    if lo >= v.len() {
        return None;
    }
    let mut acc: u64 = 0;
    let mut i = lo;
    while i < v.len()
        invariant
            lo <= i <= v@.len(),
            d == v@.skip(lo as int),
            all_digits(d.take(i - lo)),
            acc == digits_value(d.take(i - lo)),
            acc <= max,
        decreases v@.len() - i,
    {
        let c = v[i];
        assert(d[i - lo] == c);
        if !('0' <= c && c <= '9') {
            return None;
        }
        let dv = (c as u32 - '0' as u32) as u64;
        assert(d.take(i - lo + 1).drop_last() =~= d.take(i - lo));
        assert(d.take(i - lo + 1).last() == c);
        if dv > max || acc > (max - dv) / 10 {
            proof {
                assert(digits_value(d.take(i - lo + 1)) == acc * 10 + dv);
                if dv <= max {
                    assert(acc * 10 + dv > max) by (nonlinear_arith)
                        requires
                            acc > (max - dv) / 10,
                            dv <= max,
                    ;
                }
                if all_digits(d) {
                    lemma_digits_value_monotone(d, i - lo + 1);
                }
            }
            return None;
        }
        assert(acc * 10 + dv <= max) by (nonlinear_arith)
            requires
                acc <= (max - dv) / 10,
                dv <= max,
        ;
        acc = acc * 10 + dv;
        i += 1;
    }
    assert(d.take(i - lo) =~= d);
    Some(acc)
}

fn unsigned_of(s: &str, max: u64) -> (r: Option<u64>)
    ensures
        match r {
            Some(x) => unsigned_value(s@, max as int) == Some(x as int),
            None => unsigned_value(s@, max as int) is None,
        },
{
    let v = chars_of(s);
    let lo: usize = if v.len() > 0 && v[0] == '+' { 1 } else { 0 };
    assert(lo == 1 ==> v@.skip(1) =~= s@.drop_first());
    assert(lo == 0 ==> v@.skip(0) =~= s@);
    digits_at_most(&v, lo, max)
}

/// std's `str::parse::<u32>`: `None` where std gives an error.
pub fn parse_u32(s: &str) -> (r: Option<u32>)
    ensures
        match r {
            Some(x) => unsigned_value(s@, u32::MAX as int) == Some(x as int),
            None => unsigned_value(s@, u32::MAX as int) is None,
        },
{
    match unsigned_of(s, u32::MAX as u64) {
        Some(x) => Some(x as u32),
        None => None,
    }
}

/// std's `str::parse::<usize>`: `None` where std gives an error.
pub fn parse_usize(s: &str) -> (r: Option<usize>)
    ensures
        match r {
            Some(x) => unsigned_value(s@, usize::MAX as int) == Some(x as int),
            None => unsigned_value(s@, usize::MAX as int) is None,
        },
{
    match unsigned_of(s, usize::MAX as u64) {
        Some(x) => Some(x as usize),
        None => None,
    }
}

/// std's `str::parse::<i8>`: `None` where std gives an error.
pub fn parse_i8(s: &str) -> (r: Option<i8>)
    ensures
        match r {
            Some(x) => i8_value(s@) == Some(x as int),
            None => i8_value(s@) is None,
        },
{
    let v = chars_of(s);
    let neg = v.len() > 0 && v[0] == '-';
    let lo: usize = if v.len() > 0 && (v[0] == '+' || v[0] == '-') { 1 } else { 0 };
    assert(lo == 1 ==> v@.skip(1) =~= s@.drop_first());
    assert(lo == 0 ==> v@.skip(0) =~= s@);
    let bound: u64 = if neg { 128 } else { 127 };
    match digits_at_most(&v, lo, bound) {
        Some(x) => {
            if neg {
                if x == 128 {
                    Some(-128i8)
                } else {
                    Some(-(x as i8))
                }
            } else {
                Some(x as i8)
            }
        },
        None => None,
    }
}

/// ASCII letters compared without regard to case.
pub open spec fn ascii_lower(c: char) -> char {
    if 'A' as int <= c as int <= 'Z' as int {
        ((c as int) + 32) as char
    } else {
        c
    }
}

/// An exponent marker of a float text.
pub open spec fn is_exp_marker(c: char) -> bool {
    c == 'e' || c == 'E'
}

/// The mantissa of a float text: digits and at most one `'.'`, with at least
/// one digit (`Digit+ | Digit+ '.' Digit* | Digit* '.' Digit+`).
pub open spec fn mantissa_ok(m: Seq<char>) -> bool {
    &&& forall|i: int| 0 <= i < m.len() ==> is_digit(#[trigger] m[i]) || m[i] == '.'
    &&& forall|i: int, j: int| 0 <= i < j < m.len() ==> !(#[trigger] m[i] == '.' && #[trigger] m[j] == '.')
    &&& exists|i: int| 0 <= i < m.len() && is_digit(#[trigger] m[i])
}

/// The part after the exponent marker: an optional sign, then one or more
/// digits.
pub open spec fn exponent_ok(e: Seq<char>) -> bool {
    let d = if e.len() > 0 && (e[0] == '+' || e[0] == '-') {
        e.drop_first()
    } else {
        e
    };
    d.len() > 0 && all_digits(d)
}

/// A float text without its sign: `inf`, `infinity` or `nan` in any ASCII
/// case, or a mantissa optionally followed by an exponent.
pub open spec fn unsigned_float_ok(b: Seq<char>) -> bool {
    let low = b.map_values(|c: char| ascii_lower(c));
    ||| low == seq!['i', 'n', 'f']
    ||| low == seq!['i', 'n', 'f', 'i', 'n', 'i', 't', 'y']
    ||| low == seq!['n', 'a', 'n']
    ||| exists|k: int| #[trigger] number_split_ok(b, k)
}

/// `b[..k]` is a mantissa and `k` is where the exponent marker stands (or
/// the end of `b`), with a well-formed exponent after it.
pub open spec fn number_split_ok(b: Seq<char>, k: int) -> bool {
    &&& 0 <= k <= b.len()
    &&& forall|i: int| 0 <= i < k ==> !is_exp_marker(#[trigger] b[i])
    &&& k == b.len() || is_exp_marker(b[k])
    &&& mantissa_ok(b.take(k))
    &&& k == b.len() || exponent_ok(b.skip(k + 1))
}

/// The texts that std's `str::parse::<f32>` accepts (its documented
/// grammar, letters compared without regard to case): an optional sign,
/// then `inf`, `infinity`, `nan`, or a decimal number with an optional
/// exponent. Whitespace anywhere is an error.
pub open spec fn float_text_ok(s: Seq<char>) -> bool {
    let b = if s.len() > 0 && (s[0] == '+' || s[0] == '-') {
        s.drop_first()
    } else {
        s
    };
    unsigned_float_ok(b)
}

fn lower_exec(c: char) -> (r: char)
    ensures
        r == ascii_lower(c),
{
    if 'A' <= c && c <= 'Z' {
        ((c as u8) + 32) as char
    } else {
        c
    }
}

/// Whether `v[lo..]` is one or more digits.
fn digits_from(v: &Vec<char>, lo: usize) -> (r: bool)
    requires
        lo <= v@.len(),
    ensures
        r == (v@.skip(lo as int).len() > 0 && all_digits(v@.skip(lo as int))),
{
    if lo >= v.len() {
        return false;
    }
    let mut i = lo;
    while i < v.len()
        invariant
            lo <= i <= v@.len(),
            forall|p: int| lo <= p < i ==> is_digit(#[trigger] v@[p]),
        decreases v@.len() - i,
    {
        if !('0' <= v[i] && v[i] <= '9') {
            assert(v@.skip(lo as int)[i - lo] == v@[i as int]);
            return false;
        }
        i += 1;
    }
    assert forall|p: int| 0 <= p < v@.skip(lo as int).len() implies is_digit(
        #[trigger] v@.skip(lo as int)[p],
    ) by {
        assert(v@.skip(lo as int)[p] == v@[lo + p]);
    }
    true
}

/// Whether `v[lo..hi]` is a mantissa.
fn mantissa_exec(v: &Vec<char>, lo: usize, hi: usize) -> (r: bool)
    requires
        lo <= hi <= v@.len(),
    ensures
        r == mantissa_ok(v@.subrange(lo as int, hi as int)),
{
    let ghost m = v@.subrange(lo as int, hi as int);
    let mut dot: Option<usize> = None;
    let mut digit: Option<usize> = None;
    let mut i = lo;
    while i < hi
        invariant
            lo <= i <= hi <= v@.len(),
            m == v@.subrange(lo as int, hi as int),
            forall|p: int| 0 <= p < i - lo ==> is_digit(#[trigger] m[p]) || m[p] == '.',
            match dot {
                Some(d) => lo <= d < i && m[d - lo] == '.' && forall|p: int|
                    0 <= p < i - lo && p != d - lo ==> #[trigger] m[p] != '.',
                None => forall|p: int| 0 <= p < i - lo ==> #[trigger] m[p] != '.',
            },
            match digit {
                Some(d) => lo <= d < i && is_digit(m[d - lo]),
                None => forall|p: int| 0 <= p < i - lo ==> !is_digit(#[trigger] m[p]),
            },
        decreases hi - i,
    {
        let c = v[i];
        assert(m[i - lo] == c);
        if c == '.' {
            match dot {
                Some(d) => {
                    assert(m[d - lo] == '.' && m[i - lo] == '.');
                    return false;
                },
                None => {
                    dot = Some(i);
                },
            }
        } else if '0' <= c && c <= '9' {
            digit = Some(i);
        } else {
            return false;
        }
        i += 1;
    }
    match digit {
        Some(d) => {
            assert(is_digit(m[d - lo]));
        },
        None => {},
    }
    digit.is_some()
}

/// Whether `s` is a text that std's `str::parse::<f32>` accepts.
pub fn is_float_text(s: &str) -> (r: bool)
    ensures
        r == float_text_ok(s@),
{
    let v = chars_of(s);
    let n = v.len();
    let lo: usize = if n > 0 && (v[0] == '+' || v[0] == '-') { 1 } else { 0 };
    let ghost b = v@.skip(lo as int);
    assert(lo == 1 ==> b =~= s@.drop_first());
    assert(lo == 0 ==> b =~= s@);
    let ghost low = b.map_values(|c: char| ascii_lower(c));
    let len = n - lo;
    if len == 3 {
        let l0 = lower_exec(v[lo]);
        let l1 = lower_exec(v[lo + 1]);
        let l2 = lower_exec(v[lo + 2]);
        assert(low[0] == l0 && low[1] == l1 && low[2] == l2);
        if l0 == 'i' && l1 == 'n' && l2 == 'f' {
            assert(low =~= seq!['i', 'n', 'f']);
            return true;
        }
        if l0 == 'n' && l1 == 'a' && l2 == 'n' {
            assert(low =~= seq!['n', 'a', 'n']);
            return true;
        }
        assert(low != seq!['i', 'n', 'f']) by {
            if low == seq!['i', 'n', 'f'] {
                assert(low[0] == 'i' && low[1] == 'n' && low[2] == 'f');
            }
        }
        assert(low != seq!['n', 'a', 'n']) by {
            if low == seq!['n', 'a', 'n'] {
                assert(low[0] == 'n' && low[1] == 'a' && low[2] == 'n');
            }
        }
    }
    assert(low.len() == len);
    if len == 8 {
        let mut all = true;
        let word = ['i', 'n', 'f', 'i', 'n', 'i', 't', 'y'];
        let mut i: usize = 0;
        while i < 8
            invariant
                n == v@.len(),
                lo + 8 == n,
                b == v@.skip(lo as int),
                low == b.map_values(|c: char| ascii_lower(c)),
                word@ == seq!['i', 'n', 'f', 'i', 'n', 'i', 't', 'y'],
                i <= 8,
                all <==> forall|p: int| 0 <= p < i ==> low[p] == word@[p],
            decreases 8 - i,
        {
            let l = lower_exec(v[lo + i]);
            assert(low[i as int] == l);
            if l != word[i] {
                all = false;
            }
            i += 1;
        }
        if all {
            assert(low =~= seq!['i', 'n', 'f', 'i', 'n', 'i', 't', 'y']);
            return true;
        }
    }
    assert(low != seq!['i', 'n', 'f']);
    assert(low != seq!['n', 'a', 'n']);
    assert(low != seq!['i', 'n', 'f', 'i', 'n', 'i', 't', 'y']);
    let mut k = lo;
    while k < n && !(v[k] == 'e' || v[k] == 'E')
        invariant
            lo <= k <= n == v@.len(),
            b == v@.skip(lo as int),
            forall|p: int| 0 <= p < k - lo ==> !is_exp_marker(#[trigger] b[p]),
        decreases n - k,
    {
        assert(b[k - lo] == v@[k as int]);
        k += 1;
    }
    let ghost kk: int = k - lo;
    assert(kk == b.len() || is_exp_marker(b[kk]));
    assert(b.take(kk) =~= v@.subrange(lo as int, k as int));
    let m_ok = mantissa_exec(&v, lo, k);
    let e_ok = if k == n {
        true
    } else {
        let elo: usize = if k + 1 < n && (v[k + 1] == '+' || v[k + 1] == '-') { k + 2 } else { k + 1 };
        let ghost e = b.skip(kk + 1);
        assert(e =~= v@.skip(k + 1));
        assert(elo == k + 2 ==> e.drop_first() =~= v@.skip(elo as int));
        assert(elo == k + 1 ==> e =~= v@.skip(elo as int));
        digits_from(&v, elo)
    };
    proof {
        if m_ok && e_ok {
            assert(number_split_ok(b, kk));
        }
        if unsigned_float_ok(b) {
            let k2 = choose|k2: int| #[trigger] number_split_ok(b, k2);
            if k2 < kk {
                assert(k2 < b.len());
                assert(is_exp_marker(b[k2]));
            } else if kk < k2 {
                assert(!is_exp_marker(b[kk]));
            }
            assert(k2 == kk);
        }
    }
    m_ok && e_ok
}

/// The character of a decimal digit `d < 10`.
pub open spec fn digit_char(d: nat) -> char {
    ((d + '0' as int) as char)
}

/// The decimal text of `n` (std's `Display` for unsigned integers): its
/// digits, most significant first, with no leading zeros.
pub open spec fn decimal(n: nat) -> Seq<char>
    decreases n,
{
    if n < 10 {
        seq![digit_char(n)]
    } else {
        decimal(n / 10).push(digit_char(n % 10))
    }
}

/// Appends the decimal text of `n` to `s`.
pub fn push_decimal(s: &mut String, n: u128)
    ensures
        final(s)@ == old(s)@ + decimal(n as nat),
    decreases n,
{
    let ghost start = s@;
    if n >= 10 {
        push_decimal(s, n / 10);
    }
    let d: u8 = (n % 10) as u8;
    let c: char = (d + 48u8) as char;
    assert(c == digit_char((n % 10) as nat));
    let ghost mid = s@;
    push_char(s, c);
    assert(s@ =~= start + decimal(n as nat));
}

/// The decimal text of `n`.
pub fn decimal_text(n: u128) -> (r: String)
    ensures
        r@ == decimal(n as nat),
{
    let mut s = String::new();
    push_decimal(&mut s, n);
    assert(s@ =~= decimal(n as nat));
    s
}

proof fn lemma_digit_char(d: nat)
    requires
        d < 10,
    ensures
        digit_char(d) as int == d + '0' as int,
{
}

proof fn lemma_decimal_len(n: nat)
    ensures
        decimal(n).len() >= 1,
        n >= 10 ==> decimal(n).len() >= 2,
    decreases n,
{
    if n >= 10 {
        lemma_decimal_len(n / 10);
    }
}

/// Different numbers have different decimal texts.
pub proof fn lemma_decimal_injective(a: nat, b: nat)
    ensures
        decimal(a) == decimal(b) ==> a == b,
    decreases a,
{
    lemma_decimal_len(a);
    lemma_decimal_len(b);
    if decimal(a) == decimal(b) {
        if a < 10 && b < 10 {
            assert(decimal(a)[0] == decimal(b)[0]);
            lemma_digit_char(a);
            lemma_digit_char(b);
        } else if a >= 10 && b >= 10 {
            assert(decimal(a).last() == decimal(b).last());
            lemma_digit_char(a % 10);
            lemma_digit_char(b % 10);
            assert(decimal(a).drop_last() =~= decimal(a / 10));
            assert(decimal(b).drop_last() =~= decimal(b / 10));
            lemma_decimal_injective(a / 10, b / 10);
        }
    }
}

} // verus!
