//! Canonical text layer.
//!
//! Values are rendered as a canonical subset of JSON text: object keys in
//! strictly ascending order, no whitespace, integers in plain decimal with no
//! leading zeros and no negative zero, and strings quoted with only `"` and
//! `\` escaped (all other characters, UTF-8 included, are carried as-is).
//! The readers in this module accept exactly that canonical spelling and
//! nothing else, so every value has one encoding and every accepted text is
//! the encoding of exactly one value.
use vstd::prelude::*;
use vstd::string::StrSliceExecFns;

verus! {

// ---------------------------------------------------------------------------
// Positions in a text
// ---------------------------------------------------------------------------

/// The text `t` carries exactly the segment `s` starting at position `i`.
pub open spec fn text_at(t: Seq<char>, i: int, s: Seq<char>) -> bool {
    0 <= i && i + s.len() <= t.len() && t.subrange(i, i + s.len()) == s
}

pub proof fn lemma_text_at_concat(t: Seq<char>, i: int, a: Seq<char>, b: Seq<char>)
    ensures
        text_at(t, i, a + b) <==> (text_at(t, i, a) && text_at(t, i + a.len(), b)),
{
    if text_at(t, i, a + b) {
        assert forall|k: int| 0 <= k < (a + b).len() implies t[i + k] == (a + b)[k] by {
            assert(t.subrange(i, i + (a + b).len())[k] == (a + b)[k]);
        }
        assert(t.subrange(i, i + a.len()) =~= a);
        assert forall|k: int| 0 <= k < b.len() implies t.subrange(
            i + a.len(),
            i + a.len() + b.len(),
        )[k] == b[k] by {
            assert(t[i + (a.len() + k)] == (a + b)[a.len() + k]);
        }
        assert(t.subrange(i + a.len(), i + a.len() + b.len()) =~= b);
    }
    if text_at(t, i, a) && text_at(t, i + a.len(), b) {
        assert(t.subrange(i, i + (a + b).len()) =~= a + b);
    }
}

pub proof fn lemma_text_at_char(t: Seq<char>, i: int, s: Seq<char>, k: int)
    requires
        text_at(t, i, s),
        0 <= k < s.len(),
    ensures
        t[i + k] == s[k],
{
    assert(t.subrange(i, i + s.len())[k] == s[k]);
}

// ---------------------------------------------------------------------------
// Decimal integers
// ---------------------------------------------------------------------------

pub open spec fn is_digit(c: char) -> bool {
    '0' as u32 <= c as u32 && c as u32 <= '9' as u32
}

pub open spec fn digit_char(d: int) -> char
    recommends
        0 <= d < 10,
{
    if d == 0 { '0' }
    else if d == 1 { '1' }
    else if d == 2 { '2' }
    else if d == 3 { '3' }
    else if d == 4 { '4' }
    else if d == 5 { '5' }
    else if d == 6 { '6' }
    else if d == 7 { '7' }
    else if d == 8 { '8' }
    else { '9' }
}

pub open spec fn digit_val(c: char) -> int {
    if c == '0' { 0 }
    else if c == '1' { 1 }
    else if c == '2' { 2 }
    else if c == '3' { 3 }
    else if c == '4' { 4 }
    else if c == '5' { 5 }
    else if c == '6' { 6 }
    else if c == '7' { 7 }
    else if c == '8' { 8 }
    else { 9 }
}

/// Decimal digits of `n`, most significant first.
pub open spec fn digits_of(n: nat) -> Seq<char>
    decreases n,
{
    if n < 10 {
        seq![digit_char(n as int)]
    } else {
        digits_of(n / 10) + seq![digit_char((n % 10) as int)]
    }
}

/// Canonical text of an integer: plain decimal, `-` sign for negatives,
/// no leading zeros, no `-0`.
pub open spec fn int_text(n: int) -> Seq<char> {
    if n < 0 {
        seq!['-'] + digits_of((-n) as nat)
    } else {
        digits_of(n as nat)
    }
}

/// Value of a run of decimal digits, most significant first.
pub open spec fn digits_val(s: Seq<char>) -> int
    decreases s.len(),
{
    if s.len() == 0 {
        0
    } else {
        digits_val(s.drop_last()) * 10 + digit_val(s.last())
    }
}

pub open spec fn pow10(k: nat) -> int
    decreases k,
{
    if k == 0 { 1 } else { 10 * pow10((k - 1) as nat) }
}

pub proof fn lemma_digit_char_val(d: int)
    requires
        0 <= d < 10,
    ensures
        digit_val(digit_char(d)) == d,
        is_digit(digit_char(d)),
{
}

pub proof fn lemma_digits_of_shape(n: nat)
    ensures
        digits_of(n).len() >= 1,
        forall|k: int| 0 <= k < digits_of(n).len() ==> is_digit(#[trigger] digits_of(n)[k]),
        digits_val(digits_of(n)) == n,
        n < pow10(digits_of(n).len() as nat),
        n >= 1 ==> digits_of(n)[0] != '0',
        n >= 10 ==> digits_of(n).len() >= 2,
    decreases n,
{
    if n < 10 {
        lemma_digit_char_val(n as int);
        let s = digits_of(n);
        assert(s =~= seq![digit_char(n as int)]);
        assert(s.drop_last() =~= Seq::<char>::empty());
        assert(s.last() == digit_char(n as int));
        assert(digits_val(s) == digits_val(s.drop_last()) * 10 + digit_val(s.last()));
        assert(digits_val(Seq::<char>::empty()) == 0);
        assert(pow10(1) == 10) by {
            reveal_with_fuel(pow10, 2);
        }
    } else {
        lemma_digits_of_shape(n / 10);
        lemma_digit_char_val((n % 10) as int);
        let s = digits_of(n);
        let hi = digits_of(n / 10);
        assert(s =~= hi + seq![digit_char((n % 10) as int)]);
        assert(s.drop_last() =~= hi);
        assert(s.last() == digit_char((n % 10) as int));
        assert(digits_val(s) == digits_val(hi) * 10 + (n % 10));
        assert(digits_val(s) == n) by {
            assert(n == (n / 10) * 10 + n % 10);
        }
        assert(n < pow10(s.len() as nat)) by {
            assert(n / 10 < pow10(hi.len() as nat));
            assert(n < (n / 10) * 10 + 10);
            assert((n / 10) * 10 + 10 <= pow10(hi.len() as nat) * 10) by {
                assert(n / 10 + 1 <= pow10(hi.len() as nat));
                assert((n / 10 + 1) * 10 <= pow10(hi.len() as nat) * 10) by (nonlinear_arith)
                    requires
                        n / 10 + 1 <= pow10(hi.len() as nat),
                ;
            }
            assert(pow10(s.len() as nat) == 10 * pow10(hi.len() as nat));
        }
        assert(s[0] == hi[0]);
    }
}

pub proof fn lemma_digits_of_injective(a: nat, b: nat)
    requires
        digits_of(a) == digits_of(b),
    ensures
        a == b,
    decreases a,
{
    lemma_digits_of_shape(a);
    lemma_digits_of_shape(b);
    assert(digits_val(digits_of(a)) == digits_val(digits_of(b)));
}

pub proof fn lemma_pow10_bound_19()
    ensures
        pow10(19) == 10_000_000_000_000_000_000,
{
    reveal_with_fuel(pow10, 20);
}

/// A digit run of length at most 19 has a value below `10^19`, which fits in
/// a `u64`; conversely a value of at most `2^63` has at most 19 digits.
pub proof fn lemma_digits_len_bound(n: nat)
    requires
        n <= 9_223_372_036_854_775_808,
    ensures
        digits_of(n).len() <= 19,
{
    lemma_digits_of_shape(n);
    if digits_of(n).len() > 19 {
        lemma_pow10_mono(19, (digits_of(n).len() - 1) as nat);
        lemma_pow10_bound_19();
        lemma_digits_low_bound(n);
        assert(false);
    }
}

/// A number's leading digit is not zero, so its value reaches `10^(len-1)`.
pub proof fn lemma_digits_low_bound(n: nat)
    ensures
        n >= pow10((digits_of(n).len() - 1) as nat) || n == 0,
    decreases n,
{
    if n < 10 {
    } else {
        lemma_digits_low_bound(n / 10);
        lemma_digits_of_shape(n / 10);
        let lh = (digits_of(n / 10).len() - 1) as nat;
        assert(digits_of(n).len() - 1 == lh + 1);
        assert(n / 10 >= pow10(lh));
        assert(n >= (n / 10) * 10) by {
            assert(n == (n / 10) * 10 + n % 10);
        }
        assert((n / 10) * 10 >= pow10(lh) * 10) by (nonlinear_arith)
            requires
                n / 10 >= pow10(lh),
        ;
        assert(pow10((lh + 1) as nat) == 10 * pow10(lh));
    }
}

/// A well-formed digit run: nonempty, only digits, no leading zero.
pub open spec fn digit_run(s: Seq<char>) -> bool {
    s.len() >= 1 && (forall|k: int| 0 <= k < s.len() ==> is_digit(#[trigger] s[k])) && (s[0] != '0'
        || s.len() == 1)
}

pub proof fn lemma_digit_char_of_val(c: char)
    requires
        is_digit(c),
    ensures
        digit_char(digit_val(c)) == c,
        0 <= digit_val(c) < 10,
{
    assert(c == '0' || c == '1' || c == '2' || c == '3' || c == '4' || c == '5' || c == '6' || c
        == '7' || c == '8' || c == '9') by {
        assert('0' as u32 <= c as u32 <= '9' as u32);
        assert(c as u32 == 48 || c as u32 == 49 || c as u32 == 50 || c as u32 == 51 || c as u32
            == 52 || c as u32 == 53 || c as u32 == 54 || c as u32 == 55 || c as u32 == 56 || c
            as u32 == 57);
    }
}

pub proof fn lemma_digits_val_bound(s: Seq<char>)
    ensures
        0 <= digits_val(s) < pow10(s.len() as nat),
    decreases s.len(),
{
    if s.len() == 0 {
    } else {
        lemma_digits_val_bound(s.drop_last());
        let v = digits_val(s.drop_last());
        assert(v + 1 <= pow10((s.len() - 1) as nat));
        assert((v + 1) * 10 <= pow10((s.len() - 1) as nat) * 10) by (nonlinear_arith)
            requires
                v + 1 <= pow10((s.len() - 1) as nat),
        ;
        assert(digit_val(s.last()) <= 9);
    }
}

/// Printing the value of a well-formed digit run gives back the run.
pub proof fn lemma_digits_of_val(s: Seq<char>)
    requires
        digit_run(s),
    ensures
        digits_val(s) >= 0,
        digits_of(digits_val(s) as nat) == s,
    decreases s.len(),
{
    lemma_digits_val_bound(s);
    if s.len() == 1 {
        lemma_digit_char_of_val(s[0]);
        assert(s.last() == s[0]);
        assert(s.drop_last() =~= Seq::<char>::empty());
        assert(digits_val(s.drop_last()) == 0);
        assert(digits_val(s) == digit_val(s[0]));
        assert(digits_of(digits_val(s) as nat) =~= s);
    } else {
        let s1 = s.drop_last();
        assert(s1[0] == s[0]);
        assert(forall|k: int| 0 <= k < s1.len() ==> is_digit(#[trigger] s1[k]));
        lemma_digits_of_val(s1);
        lemma_digit_char_of_val(s.last());
        let v1 = digits_val(s1);
        if v1 == 0 {
            // then digits_of(0) == "0" == s1, so s[0] == '0' with s.len() > 1
            assert(digits_of(0nat) =~= seq!['0']);
            assert(s1[0] == '0');
            assert(false);
        }
        let v = digits_val(s);
        assert(v == v1 * 10 + digit_val(s.last()));
        assert(v >= 10) by {
            assert(v1 * 10 >= 10) by (nonlinear_arith)
                requires
                    v1 >= 1,
            ;
        }
        assert(v as nat / 10 == v1 && v as nat % 10 == digit_val(s.last())) by {
            assert(v == v1 * 10 + digit_val(s.last()));
            assert(0 <= digit_val(s.last()) < 10);
        }
        assert(digits_of(v as nat) == digits_of(v1 as nat) + seq![digit_char(digit_val(s.last()))]);
        assert(digits_of(v as nat) =~= s);
    }
}

/// A digit run's value determines where it ends: two runs that start at the
/// same position and both stop at a non-digit stop at the same place.
pub proof fn lemma_run_end(t: Seq<char>, start: int, j: int, e: int)
    requires
        0 <= start <= j <= t.len(),
        forall|k: int| start <= k < j ==> is_digit(#[trigger] t[k]),
        j == t.len() || !is_digit(t[j]),
        start <= e <= t.len(),
        forall|k: int| start <= k < e ==> is_digit(#[trigger] t[k]),
        e == t.len() || !is_digit(t[e]),
    ensures
        e == j,
{
}

pub proof fn lemma_pow10_pos(a: nat)
    ensures
        pow10(a) >= 1,
    decreases a,
{
    if a > 0 {
        lemma_pow10_pos((a - 1) as nat);
    }
}

pub proof fn lemma_pow10_mono(a: nat, b: nat)
    requires
        a <= b,
    ensures
        pow10(a) <= pow10(b),
        pow10(a) >= 1,
    decreases b,
{
    if a == b {
        lemma_pow10_pos(a);
    } else {
        lemma_pow10_mono(a, (b - 1) as nat);
    }
}

// ---------------------------------------------------------------------------
// Integer writer and reader
// ---------------------------------------------------------------------------

fn digit_test(c: char) -> (r: bool)
    ensures
        r == is_digit(c),
{
    let u = c as u32;
    48 <= u && u <= 57
}

fn char_to_digit(c: char) -> (d: u8)
    requires
        is_digit(c),
    ensures
        d == digit_val(c),
        d < 10,
{
    proof {
        lemma_digit_char_of_val(c);
    }
    match c {
        '0' => 0,
        '1' => 1,
        '2' => 2,
        '3' => 3,
        '4' => 4,
        '5' => 5,
        '6' => 6,
        '7' => 7,
        '8' => 8,
        _ => 9,
    }
}

fn digit_to_char(d: u8) -> (c: char)
    requires
        d < 10,
    ensures
        c == digit_char(d as int),
{
    match d {
        0 => '0',
        1 => '1',
        2 => '2',
        3 => '3',
        4 => '4',
        5 => '5',
        6 => '6',
        7 => '7',
        8 => '8',
        _ => '9',
    }
}

fn write_digits(out: &mut Vec<char>, m: u64)
    ensures
        final(out)@ == old(out)@ + digits_of(m as nat),
    decreases m,
{
    if m < 10 {
        out.push(digit_to_char(m as u8));
        assert(out@ =~= old(out)@ + digits_of(m as nat));
    } else {
        let ghost mid = out@;
        write_digits(out, m / 10);
        out.push(digit_to_char((m % 10) as u8));
        assert(out@ =~= old(out)@ + digits_of(m as nat));
    }
}

/// Appends the canonical decimal text of `n`.
pub fn write_int(out: &mut Vec<char>, n: i64)
    ensures
        final(out)@ == old(out)@ + int_text(n as int),
{
    if n < 0 {
        out.push('-');
        let m: u64 = ((-(n + 1)) as u64) + 1;
        assert(m as int == -(n as int));
        write_digits(out, m);
        assert(out@ =~= old(out)@ + int_text(n as int));
    } else {
        write_digits(out, n as u64);
    }
}

fn scan_digits(t: &Vec<char>, start: usize) -> (j: usize)
    requires
        start <= t@.len(),
    ensures
        start <= j <= t@.len(),
        forall|k: int| start <= k < j ==> is_digit(#[trigger] t@[k]),
        j == t@.len() || !is_digit(t@[j as int]),
{
    let mut j = start;
    loop
        invariant
            start <= j <= t@.len(),
            forall|k: int| start <= k < j ==> is_digit(#[trigger] t@[k]),
        decreases t@.len() - j,
    {
        if j == t.len() {
            return j;
        }
        if !digit_test(t[j]) {
            return j;
        }
        j = j + 1;
    }
}

/// Magnitude of an integer.
pub open spec fn mag(n: int) -> nat {
    if n < 0 { (-n) as nat } else { n as nat }
}

/// The text carries the canonical decimal of `n` at `i`, with no further
/// digit following it (so the token is read to its full extent).
pub open spec fn int_token_at(t: Seq<char>, i: int, n: int) -> bool {
    &&& text_at(t, i, int_text(n))
    &&& {
        let e = i + int_text(n).len();
        e == t.len() || !is_digit(t[e])
    }
}

/// Reads the canonical decimal of an `i64` starting at `i`.  Accepts exactly
/// the texts `int_text` produces; anything else (leading zeros, `-0`, a
/// value out of the `i64` range, no digits at all) is refused.
pub fn parse_int(t: &Vec<char>, i: usize) -> (r: Option<(i64, usize)>)
    requires
        i <= t@.len(),
    ensures
        r matches Some(p) ==> i < p.1 <= t@.len() && int_token_at(t@, i as int, p.0 as int) && p.1
            == i + int_text(p.0 as int).len(),
        forall|n: i64|
            int_token_at(t@, i as int, n as int) ==> (r matches Some(p) && p.0 == n && p.1 == i
                + int_text(n as int).len()),
{
    let ghost ti = t@;
    let neg = i < t.len() && t[i] == '-';
    let start = if neg { i + 1 } else { i };
    let j = scan_digits(t, start);
    proof {
        // Relate any candidate token to the scanned run.
        assert forall|n: i64| int_token_at(ti, i as int, n as int) implies {
            &&& (n < 0) == neg
            &&& text_at(ti, start as int, digits_of(mag(n as int)))
            &&& j == start + digits_of(mag(n as int)).len()
            &&& digit_run(ti.subrange(start as int, j as int))
        } by {
            lemma_digits_of_shape(mag(n as int));
            let m = mag(n as int);
            if n < 0 {
                assert(int_text(n as int) == seq!['-'] + digits_of(m));
                lemma_text_at_char(ti, i as int, int_text(n as int), 0);
                assert(ti[i as int] == '-');
                lemma_text_at_concat(ti, i as int, seq!['-'], digits_of(m));
                assert(text_at(ti, i + 1, digits_of(m)));
                assert(neg);
            } else {
                assert(int_text(n as int) == digits_of(m));
                lemma_text_at_char(ti, i as int, int_text(n as int), 0);
                assert(is_digit(ti[i as int]));
                assert(!neg) by {
                    assert(!is_digit('-'));
                }
                assert(text_at(ti, i as int, digits_of(m)));
            }
            let e = start + digits_of(m).len();
            assert forall|k: int| start <= k < e implies is_digit(#[trigger] ti[k]) by {
                lemma_text_at_char(ti, start as int, digits_of(m), k - start);
            }
            assert(e == ti.len() || !is_digit(ti[e]));
            lemma_run_end(ti, start as int, j as int, e);
            let run = ti.subrange(start as int, j as int);
            assert(run =~= digits_of(m));
        }
    }
    if j == start {
        // no digits at all
        return None;
    }
    assert(is_digit(ti[start as int]));
    if char_at_is(t, start, '0') && (neg || j > start + 1) {
        proof {
            assert forall|n: i64| !int_token_at(ti, i as int, n as int) by {
                if int_token_at(ti, i as int, n as int) {
                    let m = mag(n as int);
                    lemma_digits_of_shape(m);
                    lemma_text_at_char(ti, start as int, digits_of(m), 0);
                    // leading digit is '0', so the magnitude is zero
                    assert(m == 0);
                    if neg {
                        assert(n < 0);
                        assert(false);
                    } else {
                        assert(digits_of(m).len() == 1);
                        assert(j == start + 1);
                        assert(false);
                    }
                }
            }
        }
        return None;
    }
    if j - start > 19 {
        proof {
            assert forall|n: i64| !int_token_at(ti, i as int, n as int) by {
                if int_token_at(ti, i as int, n as int) {
                    lemma_digits_len_bound(mag(n as int));
                }
            }
        }
        return None;
    }
    let ghost run = ti.subrange(start as int, j as int);
    proof {
        assert(digit_run(run)) by {
            assert(run[0] == ti[start as int]);
            if run[0] == '0' && run.len() != 1 {
                assert(!neg && j > start + 1);
            }
        }
        lemma_digits_of_val(run);
        lemma_digits_val_bound(run);
    }
    let mut acc: u64 = 0;
    let mut k = start;
    while k < j
        invariant
            start <= k <= j <= t@.len(),
            t@ == ti,
            j - start <= 19,
            forall|q: int| start <= q < j ==> is_digit(#[trigger] ti[q]),
            acc == digits_val(ti.subrange(start as int, k as int)),
            acc < pow10((k - start) as nat),
        decreases j - k,
    {
        let d = char_to_digit(t[k]);
        proof {
            let sub = ti.subrange(start as int, k as int);
            let sub1 = ti.subrange(start as int, k + 1);
            assert(sub1.drop_last() =~= sub);
            assert(sub1.last() == ti[k as int]);
            lemma_pow10_mono((k - start + 1) as nat, 19);
            lemma_pow10_bound_19();
            assert(acc * 10 + digit_val(ti[k as int]) < pow10((k - start + 1) as nat)) by {
                assert((acc + 1) * 10 <= pow10((k - start) as nat) * 10) by (nonlinear_arith)
                    requires
                        acc + 1 <= pow10((k - start) as nat),
                ;
            }
        }
        acc = acc * 10 + (d as u64);
        k = k + 1;
    }
    proof {
        assert(ti.subrange(start as int, k as int) =~= run);
        assert(acc == digits_val(run));
        assert(digits_of(acc as nat) == run);
    }
    let limit: u64 = if neg {
        9_223_372_036_854_775_808
    } else {
        9_223_372_036_854_775_807
    };
    if acc > limit {
        proof {
            assert forall|n: i64| !int_token_at(ti, i as int, n as int) by {
                if int_token_at(ti, i as int, n as int) {
                    let m = mag(n as int);
                    assert(run =~= digits_of(m));
                    lemma_digits_of_injective(acc as nat, m);
                }
            }
        }
        return None;
    }
    let value: i64 = if neg {
        if acc == 9_223_372_036_854_775_808 {
            i64::MIN
        } else {
            -(acc as i64)
        }
    } else {
        acc as i64
    };
    proof {
        assert(mag(value as int) == acc as nat);
        // soundness: the token we produced is present
        let m = acc as nat;
        assert(text_at(ti, start as int, digits_of(m))) by {
            assert(ti.subrange(start as int, start + digits_of(m).len() as int) =~= run);
        }
        if neg {
            lemma_text_at_concat(ti, i as int, seq!['-'], digits_of(m));
            assert(ti.subrange(i as int, i + 1) =~= seq!['-']);
            assert(int_text(value as int) == seq!['-'] + digits_of(m));
        } else {
            assert(int_text(value as int) == digits_of(m));
        }
        assert(int_token_at(ti, i as int, value as int));
        assert forall|n: i64|
            int_token_at(ti, i as int, n as int) implies n == value by {
            let m2 = mag(n as int);
            assert(run =~= digits_of(m2));
            lemma_digits_of_injective(acc as nat, m2);
            assert((n < 0) == neg);
        }
    }
    Some((value, j))
}

pub(crate) fn char_at_is(t: &Vec<char>, i: usize, c: char) -> (r: bool)
    requires
        i < t@.len(),
    ensures
        r == (t@[i as int] == c),
{
    t[i] == c
}

// ---------------------------------------------------------------------------
// Strings
// ---------------------------------------------------------------------------

/// Canonical escaping: only `"` and `\` take a backslash; every other
/// character, control characters and non-ASCII included, is carried as-is.
pub open spec fn escape_char(c: char) -> Seq<char> {
    if c == '"' || c == '\\' {
        seq!['\\', c]
    } else {
        seq![c]
    }
}

pub open spec fn escape(s: Seq<char>) -> Seq<char>
    decreases s.len(),
{
    if s.len() == 0 {
        Seq::empty()
    } else {
        escape_char(s[0]) + escape(s.drop_first())
    }
}

/// Canonical text of a string value.
pub open spec fn quoted(s: Seq<char>) -> Seq<char> {
    seq!['"'] + escape(s) + seq!['"']
}

pub proof fn lemma_escape_snoc(s: Seq<char>, c: char)
    ensures
        escape(s.push(c)) == escape(s) + escape_char(c),
    decreases s.len(),
{
    if s.len() == 0 {
        assert(s.push(c)[0] == c);
        assert(s.push(c).drop_first() =~= Seq::<char>::empty());
        assert(escape(s.push(c)) == escape_char(c) + escape(Seq::<char>::empty()));
        assert(escape_char(c) + Seq::<char>::empty() =~= escape_char(c));
        assert(escape(s) + escape_char(c) =~= escape_char(c));
    } else {
        lemma_escape_snoc(s.drop_first(), c);
        assert(s.push(c).drop_first() =~= s.drop_first().push(c));
        assert(escape(s.push(c)) =~= escape(s) + escape_char(c));
    }
}

/// The first character of an escaped body is never a bare quote, and it is a
/// backslash exactly when the first source character needed escaping.
pub proof fn lemma_escape_first(s: Seq<char>)
    requires
        s.len() > 0,
    ensures
        escape(s).len() > 0,
        escape(s)[0] != '"',
        (escape(s)[0] == '\\') == (s[0] == '"' || s[0] == '\\'),
        (s[0] == '"' || s[0] == '\\') ==> escape(s).len() >= 2 && escape(s)[1] == s[0],
        !(s[0] == '"' || s[0] == '\\') ==> escape(s)[0] == s[0],
{
}

/// Appends the canonical quoted form of `s`.
pub fn write_quoted(out: &mut Vec<char>, s: &str)
    ensures
        final(out)@ == old(out)@ + quoted(s@),
{
    out.push('"');
    let n = s.unicode_len();
    let mut i: usize = 0;
    while i < n
        invariant
            i <= n,
            n == s@.len(),
            out@ == old(out)@ + seq!['"'] + escape(s@.take(i as int)),
        decreases n - i,
    {
        let c = s.get_char(i);
        if c == '"' || c == '\\' {
            out.push('\\');
        }
        out.push(c);
        proof {
            lemma_escape_snoc(s@.take(i as int), s@[i as int]);
            assert(s@.take(i + 1) =~= s@.take(i as int).push(s@[i as int]));
            assert(out@ =~= old(out)@ + seq!['"'] + escape(s@.take(i + 1)));
        }
        i = i + 1;
    }
    out.push('"');
    proof {
        assert(s@.take(n as int) =~= s@);
        assert(out@ =~= old(out)@ + quoted(s@));
    }
}

/// Decomposes a quoted-body match on a nonempty source string.
proof fn lemma_body_decompose(t: Seq<char>, j: int, s: Seq<char>)
    requires
        text_at(t, j, escape(s) + seq!['"']),
        s.len() > 0,
    ensures
        escape(s) == escape_char(s[0]) + escape(s.drop_first()),
        escape(s).len() == escape_char(s[0]).len() + escape(s.drop_first()).len(),
        0 <= j < t.len(),
        t[j] != '"',
        text_at(t, j + escape_char(s[0]).len(), escape(s.drop_first()) + seq!['"']),
        (s[0] == '"' || s[0] == '\\') ==> t[j] == '\\' && j + 1 < t.len() && t[j + 1] == s[0]
            && escape_char(s[0]).len() == 2,
        !(s[0] == '"' || s[0] == '\\') ==> t[j] == s[0] && t[j] != '\\' && escape_char(
            s[0],
        ).len() == 1,
{
    lemma_escape_first(s);
    lemma_text_at_char(t, j, escape(s) + seq!['"'], 0);
    assert((escape(s) + seq!['"'])[0] == escape(s)[0]);
    if s[0] == '"' || s[0] == '\\' {
        lemma_text_at_char(t, j, escape(s) + seq!['"'], 1);
        assert((escape(s) + seq!['"'])[1] == escape(s)[1]);
    }
    assert(escape_char(s[0]) + (escape(s.drop_first()) + seq!['"']) =~= escape(s) + seq!['"']);
    lemma_text_at_concat(t, j, escape_char(s[0]), escape(s.drop_first()) + seq!['"']);
}

/// Reads the body of a quoted string up to and including the closing quote.
#[verifier::rlimit(60)]
fn parse_quoted_body(t: &Vec<char>, j: usize) -> (r: Option<(Vec<char>, usize)>)
    requires
        j <= t@.len(),
    ensures
        r matches Some(p) ==> j < p.1 <= t@.len() && text_at(
            t@,
            j as int,
            escape(p.0@) + seq!['"'],
        ) && p.1 == j + escape(p.0@).len() + 1,
        forall|s: Seq<char>|
            text_at(t@, j as int, escape(s) + seq!['"']) ==> (r matches Some(p) && p.0@ == s && p.1
                == j + escape(s).len() + 1),
    decreases t@.len() - j,
{
    let ghost ti = t@;
    if j == t.len() {
        proof {
            assert forall|s: Seq<char>| !text_at(ti, j as int, escape(s) + seq!['"']) by {
                assert((escape(s) + seq!['"']).len() > 0);
            }
        }
        return None;
    }
    let c = t[j];
    if c == '"' {
        let v: Vec<char> = Vec::new();
        proof {
            assert(escape(v@) =~= Seq::<char>::empty());
            assert(escape(v@) + seq!['"'] =~= seq!['"']);
            assert(ti.subrange(j as int, j + 1) =~= seq!['"']);
            assert(text_at(ti, j as int, escape(v@) + seq!['"']));
            assert forall|s: Seq<char>|
                text_at(ti, j as int, escape(s) + seq!['"']) implies s == v@ && escape(s).len()
                == 0 by {
                if s.len() > 0 {
                    lemma_body_decompose(ti, j as int, s);
                } else {
                    assert(s =~= v@);
                    assert(escape(s) =~= Seq::<char>::empty());
                }
            }
        }
        return Some((v, j + 1));
    }
    if c == '\\' {
        let bad = if j + 1 == t.len() {
            true
        } else {
            let e0 = t[j + 1];
            !(e0 == '"' || e0 == '\\')
        };
        if bad {
            proof {
                assert forall|s: Seq<char>| !text_at(ti, j as int, escape(s) + seq!['"']) by {
                    if text_at(ti, j as int, escape(s) + seq!['"']) {
                        if s.len() == 0 {
                            lemma_text_at_char(ti, j as int, escape(s) + seq!['"'], 0);
                        } else {
                            lemma_body_decompose(ti, j as int, s);
                        }
                    }
                }
            }
            return None;
        }
        let e = t[j + 1];
        let rec = parse_quoted_body(t, j + 2);
        proof {
            assert forall|s: Seq<char>|
                text_at(ti, j as int, escape(s) + seq!['"']) implies s.len() > 0 && s[0] == e
                && escape_char(s[0]).len() == 2 && text_at(
                ti,
                j + 2,
                escape(s.drop_first()) + seq!['"'],
            ) by {
                if s.len() == 0 {
                    lemma_text_at_char(ti, j as int, escape(s) + seq!['"'], 0);
                } else {
                    lemma_body_decompose(ti, j as int, s);
                }
            }
        }
        match rec {
            None => {
                return None;
            },
            Some((v0, j2)) => {
                let mut v = v0;
                let ghost tail = v@;
                v.insert(0, e);
                proof {
                    assert(v@ =~= seq![e] + tail);
                    assert(v@[0] == e);
                    assert(v@.drop_first() =~= tail);
                    assert(escape(v@) == escape_char(e) + escape(tail));
                    assert(escape_char(e) =~= seq!['\\', e]);
                    assert(ti.subrange(j as int, j + 2) =~= seq!['\\', e]);
                    lemma_text_at_concat(ti, j as int, seq!['\\', e], escape(tail) + seq!['"']);
                    assert(seq!['\\', e] + (escape(tail) + seq!['"']) =~= escape(v@) + seq!['"']);
                }
                return Some((v, j2));
            },
        }
    }
    // an ordinary, unescaped character
    let rec = parse_quoted_body(t, j + 1);
    proof {
        assert forall|s: Seq<char>|
            text_at(ti, j as int, escape(s) + seq!['"']) implies s.len() > 0 && s[0] == c
            && escape_char(s[0]).len() == 1 && text_at(
            ti,
            j + 1,
            escape(s.drop_first()) + seq!['"'],
        ) by {
            if s.len() == 0 {
                lemma_text_at_char(ti, j as int, escape(s) + seq!['"'], 0);
            } else {
                lemma_body_decompose(ti, j as int, s);
            }
        }
    }
    match rec {
        None => None,
        Some((v0, j2)) => {
            let mut v = v0;
            let ghost tail = v@;
            v.insert(0, c);
            proof {
                assert(v@ =~= seq![c] + tail);
                assert(v@[0] == c);
                assert(v@.drop_first() =~= tail);
                assert(escape(v@) == escape_char(c) + escape(tail));
                assert(escape_char(c) =~= seq![c]);
                assert(ti.subrange(j as int, j + 1) =~= seq![c]);
                lemma_text_at_concat(ti, j as int, seq![c], escape(tail) + seq!['"']);
                assert(seq![c] + (escape(tail) + seq!['"']) =~= escape(v@) + seq!['"']);
            }
            Some((v, j2))
        },
    }
}

/// Reads a canonical quoted string starting at `i`.
pub fn parse_quoted(t: &Vec<char>, i: usize) -> (r: Option<(Vec<char>, usize)>)
    requires
        i <= t@.len(),
    ensures
        r matches Some(p) ==> i < p.1 <= t@.len() && text_at(t@, i as int, quoted(p.0@)) && p.1 == i
            + quoted(p.0@).len(),
        forall|s: Seq<char>|
            text_at(t@, i as int, quoted(s)) ==> (r matches Some(p) && p.0@ == s && p.1 == i
                + quoted(s).len()),
{
    let ghost ti = t@;
    proof {
        assert forall|s: Seq<char>|
            text_at(ti, i as int, quoted(s)) implies ti[i as int] == '"' && i < ti.len()
            && text_at(ti, i + 1, escape(s) + seq!['"']) by {
            lemma_text_at_char(ti, i as int, quoted(s), 0);
            assert(quoted(s)[0] == '"');
            assert(seq!['"'] + (escape(s) + seq!['"']) =~= quoted(s));
            lemma_text_at_concat(ti, i as int, seq!['"'], escape(s) + seq!['"']);
        }
    }
    if i == t.len() {
        return None;
    }
    if !char_at_is(t, i, '"') {
        return None;
    }
    let rec = parse_quoted_body(t, i + 1);
    match rec {
        None => None,
        Some((v, j2)) => {
            proof {
                assert(ti.subrange(i as int, i + 1) =~= seq!['"']);
                lemma_text_at_concat(ti, i as int, seq!['"'], escape(v@) + seq!['"']);
                assert(seq!['"'] + (escape(v@) + seq!['"']) =~= quoted(v@));
            }
            Some((v, j2))
        },
    }
}

// ---------------------------------------------------------------------------
// Character-sequence utilities and lexicographic order
// ---------------------------------------------------------------------------

/// Appends the characters of `s`.
pub fn push_chars(out: &mut Vec<char>, s: &str)
    ensures
        final(out)@ == old(out)@ + s@,
{
    let n = s.unicode_len();
    let mut i: usize = 0;
    while i < n
        invariant
            i <= n,
            n == s@.len(),
            out@ == old(out)@ + s@.take(i as int),
        decreases n - i,
    {
        out.push(s.get_char(i));
        proof {
            assert(s@.take(i + 1) =~= s@.take(i as int).push(s@[i as int]));
            assert(out@ =~= old(out)@ + s@.take(i + 1));
        }
        i = i + 1;
    }
    proof {
        assert(s@.take(n as int) =~= s@);
    }
}

/// The characters of `s`, as a vector.
pub fn str_to_chars(s: &str) -> (r: Vec<char>)
    ensures
        r@ == s@,
{
    let mut v: Vec<char> = Vec::new();
    push_chars(&mut v, s);
    v
}

/// Strict lexicographic order on character sequences by scalar value.  For
/// canonical encoding this coincides with byte-wise order of the UTF-8
/// encodings, since UTF-8 preserves the order of Unicode scalars.
pub open spec fn lex_lt(a: Seq<char>, b: Seq<char>) -> bool
    decreases a.len(),
{
    if b.len() == 0 {
        false
    } else if a.len() == 0 {
        true
    } else if (a[0] as u32) < (b[0] as u32) {
        true
    } else if a[0] == b[0] {
        lex_lt(a.drop_first(), b.drop_first())
    } else {
        false
    }
}

fn chars_lt_from(a: &Vec<char>, b: &Vec<char>, i: usize) -> (r: bool)
    requires
        i <= a@.len(),
        i <= b@.len(),
    ensures
        r == lex_lt(a@.skip(i as int), b@.skip(i as int)),
    decreases a@.len() - i,
{
    proof {
        if i < a@.len() && i < b@.len() {
            assert(a@.skip(i as int)[0] == a@[i as int]);
            assert(b@.skip(i as int)[0] == b@[i as int]);
            assert(a@.skip(i as int).drop_first() =~= a@.skip(i + 1));
            assert(b@.skip(i as int).drop_first() =~= b@.skip(i + 1));
        }
    }
    if i == b.len() {
        return false;
    }
    if i == a.len() {
        return true;
    }
    let ca = a[i];
    let cb = b[i];
    if (ca as u32) < (cb as u32) {
        true
    } else if ca == cb {
        chars_lt_from(a, b, i + 1)
    } else {
        false
    }
}

/// Compares two character vectors in canonical key order.
pub fn chars_lt(a: &Vec<char>, b: &Vec<char>) -> (r: bool)
    ensures
        r == lex_lt(a@, b@),
{
    let r = chars_lt_from(a, b, 0);
    proof {
        assert(a@.skip(0) =~= a@);
        assert(b@.skip(0) =~= b@);
    }
    r
}

/// Compares two strings in canonical key order.
pub fn str_lt(a: &str, b: &str) -> (r: bool)
    ensures
        r == lex_lt(a@, b@),
{
    let va = str_to_chars(a);
    let vb = str_to_chars(b);
    chars_lt(&va, &vb)
}

// ---------------------------------------------------------------------------
// Objects with string keys
// ---------------------------------------------------------------------------

/// Keys strictly ascend, starting above `prev`.
pub open spec fn keys_sorted_from<V>(prev: Seq<char>, m: Seq<(Seq<char>, V)>) -> bool
    decreases m.len(),
{
    m.len() == 0 || (lex_lt(prev, m[0].0) && keys_sorted_from(m[0].0, m.drop_first()))
}

/// Keys strictly ascend: the canonical order of object entries.
pub open spec fn keys_sorted<V>(m: Seq<(Seq<char>, V)>) -> bool {
    m.len() == 0 || keys_sorted_from(m[0].0, m.drop_first())
}

/// Entries of a map after inserting or replacing the binding for `k`,
/// keeping keys in ascending order.
pub open spec fn map_insert<V>(m: Seq<(Seq<char>, V)>, k: Seq<char>, v: V) -> Seq<(Seq<char>, V)>
    decreases m.len(),
{
    if m.len() == 0 {
        seq![(k, v)]
    } else if lex_lt(k, m[0].0) {
        seq![(k, v)] + m
    } else if k == m[0].0 {
        seq![(k, v)] + m.drop_first()
    } else {
        seq![m[0]] + map_insert(m.drop_first(), k, v)
    }
}

/// `lex_lt` is a strict total order: exactly one of `a < b`, `a == b`,
/// `b < a` holds.
pub proof fn lemma_lex_trichotomy(a: Seq<char>, b: Seq<char>)
    ensures
        lex_lt(a, b) || lex_lt(b, a) || a == b,
        lex_lt(a, b) ==> !lex_lt(b, a) && a != b,
        lex_lt(b, a) ==> !lex_lt(a, b) && a != b,
    decreases a.len(),
{
    if a.len() == 0 && b.len() == 0 {
        assert(a =~= b);
    } else if a.len() > 0 && b.len() > 0 {
        if a[0] == b[0] {
            lemma_lex_trichotomy(a.drop_first(), b.drop_first());
            if a.drop_first() == b.drop_first() {
                assert forall|k: int| 0 <= k < a.len() implies a[k] == b[k] by {
                    if k > 0 {
                        assert(a[k] == a.drop_first()[k - 1]);
                        assert(b[k] == b.drop_first()[k - 1]);
                    }
                }
                assert(a =~= b);
            }
            if a == b {
                assert(a.drop_first() =~= b.drop_first());
            }
        } else {
            // distinct characters have distinct scalar values
            vstd::utf8::char_u32_cast(a[0], a[0] as u32);
            vstd::utf8::char_u32_cast(b[0], b[0] as u32);
            assert(a[0] as u32 != b[0] as u32);
        }
    }
}

pub proof fn lemma_map_insert_sorted<V>(m: Seq<(Seq<char>, V)>, k: Seq<char>, v: V)
    requires
        keys_sorted(m),
    ensures
        keys_sorted(map_insert(m, k, v)),
        map_insert(m, k, v).len() >= 1,
        map_insert(m, k, v).len() <= m.len() + 1,
{
    lemma_map_insert_sorted_from(m, k, v);
}

/// The inserted map stays sorted, and its first key is the smaller of `k`
/// and the old first key.
proof fn lemma_map_insert_sorted_from<V>(m: Seq<(Seq<char>, V)>, k: Seq<char>, v: V)
    requires
        keys_sorted(m),
    ensures
        keys_sorted(map_insert(m, k, v)),
        map_insert(m, k, v).len() >= 1,
        map_insert(m, k, v).len() <= m.len() + 1,
        map_insert(m, k, v)[0].0 == k || (m.len() > 0 && map_insert(m, k, v)[0].0 == m[0].0),
        forall|p: Seq<char>|
            keys_sorted_from(p, m) && lex_lt(p, k) ==> keys_sorted_from(p, map_insert(m, k, v)),
    decreases m.len(),
{
    if m.len() == 0 {
    } else {
        lemma_lex_trichotomy(k, m[0].0);
        let r = map_insert(m, k, v);
        if lex_lt(k, m[0].0) {
            assert(r =~= seq![(k, v)] + m);
            assert(r[0] == (k, v));
            assert(r.drop_first() =~= m);
            assert(keys_sorted_from(k, m)) by {
                if m.len() > 0 {
                    assert(keys_sorted_from(m[0].0, m.drop_first()));
                }
            }
        } else if k == m[0].0 {
            assert(r =~= seq![(k, v)] + m.drop_first());
            assert(r.drop_first() =~= m.drop_first());
            assert(keys_sorted_from(m[0].0, m.drop_first()));
        } else {
            // lex_lt(m[0].0, k)
            assert(keys_sorted(m.drop_first())) by {
                if m.len() > 1 {
                    assert(keys_sorted_from(m[0].0, m.drop_first()));
                    assert(keys_sorted_from(m.drop_first()[0].0, m.drop_first().drop_first()));
                }
            }
            lemma_map_insert_sorted_from(m.drop_first(), k, v);
            let rr = map_insert(m.drop_first(), k, v);
            assert(r =~= seq![m[0]] + rr);
            assert(r[0] == m[0]);
            assert(r.drop_first() =~= rr);
            assert(keys_sorted_from(m[0].0, rr)) by {
                if m.len() > 1 {
                    assert(keys_sorted_from(m[0].0, m.drop_first()));
                }
            }
        }
    }
}

/// Deep view of string-pair entries.
pub open spec fn kv_view(v: Seq<(String, String)>) -> Seq<(Seq<char>, Seq<char>)> {
    v.map(|i: int, e: (String, String)| (e.0@, e.1@))
}

/// Canonical text of one `"key":"value"` entry.
pub open spec fn kv_entry_text(e: (Seq<char>, Seq<char>)) -> Seq<char> {
    quoted(e.0) + seq![':'] + quoted(e.1)
}

/// Text following the first entry of an object: each further entry with its
/// leading comma, then the closing brace.
pub open spec fn kv_tail_text(m: Seq<(Seq<char>, Seq<char>)>) -> Seq<char>
    decreases m.len(),
{
    if m.len() == 0 {
        seq!['}']
    } else {
        seq![','] + kv_entry_text(m[0]) + kv_tail_text(m.drop_first())
    }
}

/// Canonical text of an object of string values, keys ascending.
pub open spec fn kv_text(m: Seq<(Seq<char>, Seq<char>)>) -> Seq<char> {
    if m.len() == 0 {
        seq!['{', '}']
    } else {
        seq!['{'] + kv_entry_text(m[0]) + kv_tail_text(m.drop_first())
    }
}

pub proof fn lemma_kv_tail_shape(m: Seq<(Seq<char>, Seq<char>)>)
    ensures
        kv_tail_text(m).len() >= 1,
        m.len() == 0 ==> kv_tail_text(m) == seq!['}'],
        m.len() > 0 ==> kv_tail_text(m)[0] == ',',
{
    if m.len() == 0 {
        assert(kv_tail_text(m) =~= seq!['}']);
    } else {
        assert(kv_tail_text(m)[0] == (seq![','] + kv_entry_text(m[0]) + kv_tail_text(
            m.drop_first(),
        ))[0]);
    }
}

pub proof fn lemma_kv_text_shape(m: Seq<(Seq<char>, Seq<char>)>)
    ensures
        kv_text(m).len() >= 2,
        kv_text(m)[0] == '{',
        m.len() == 0 ==> kv_text(m) == seq!['{', '}'],
        m.len() > 0 ==> kv_text(m)[1] == '"',
{
    if m.len() == 0 {
        assert(kv_text(m) =~= seq!['{', '}']);
    } else {
        lemma_kv_tail_shape(m.drop_first());
        assert(kv_text(m)[0] == '{');
        assert(kv_text(m)[1] == kv_entry_text(m[0])[0]);
        assert(kv_entry_text(m[0])[0] == quoted(m[0].0)[0]);
    }
}

/// Text of a nonempty run of entries: the first entry, then each further
/// entry with its leading comma, then the closing brace.
pub open spec fn entries_text(m: Seq<(Seq<char>, Seq<char>)>) -> Seq<char>
    recommends
        m.len() > 0,
{
    kv_entry_text(m[0]) + kv_tail_text(m.drop_first())
}

fn write_kv_tail(out: &mut Vec<char>, m: &Vec<(String, String)>, i: usize)
    requires
        i <= m@.len(),
    ensures
        final(out)@ == old(out)@ + kv_tail_text(kv_view(m@).skip(i as int)),
    decreases m@.len() - i,
{
    if i == m.len() {
        out.push('}');
        proof {
            assert(kv_view(m@).skip(i as int) =~= Seq::<(Seq<char>, Seq<char>)>::empty());
            assert(out@ =~= old(out)@ + kv_tail_text(kv_view(m@).skip(i as int)));
        }
    } else {
        out.push(',');
        let e = &m[i];
        write_quoted(out, e.0.as_str());
        out.push(':');
        write_quoted(out, e.1.as_str());
        write_kv_tail(out, m, i + 1);
        proof {
            let mv = kv_view(m@);
            assert(mv.skip(i as int)[0] == (m@[i as int].0@, m@[i as int].1@));
            assert(mv.skip(i as int).drop_first() =~= mv.skip(i + 1));
            assert(kv_entry_text(mv.skip(i as int)[0]) =~= quoted(m@[i as int].0@) + seq![':']
                + quoted(m@[i as int].1@));
            assert(out@ =~= old(out)@ + kv_tail_text(mv.skip(i as int)));
        }
    }
}

/// Appends the canonical text of an object of string values, in stored order
/// (the caller keeps entries sorted).
pub fn write_kv(out: &mut Vec<char>, m: &Vec<(String, String)>)
    ensures
        final(out)@ == old(out)@ + kv_text(kv_view(m@)),
{
    out.push('{');
    if m.len() == 0 {
        out.push('}');
        proof {
            assert(kv_view(m@).len() == 0);
            assert(kv_text(kv_view(m@)) =~= seq!['{', '}']);
            assert(out@ =~= old(out)@ + kv_text(kv_view(m@)));
        }
    } else {
        let e = &m[0];
        write_quoted(out, e.0.as_str());
        out.push(':');
        write_quoted(out, e.1.as_str());
        write_kv_tail(out, m, 1);
        proof {
            let mv = kv_view(m@);
            assert(mv[0] == (m@[0].0@, m@[0].1@));
            assert(mv.drop_first() =~= mv.skip(1));
            assert(kv_entry_text(mv[0]) =~= quoted(m@[0].0@) + seq![':'] + quoted(m@[0].1@));
            assert(out@ =~= old(out)@ + kv_text(mv));
        }
    }
}

/// Whether the entries read so far may continue with keys above `prev`:
/// with no bound yet, any ascending run is fine.
pub open spec fn chain_ok<V>(prev: Option<Seq<char>>, m: Seq<(Seq<char>, V)>) -> bool {
    match prev {
        Some(p) => keys_sorted_from(p, m),
        None => keys_sorted(m),
    }
}

pub open spec fn opt_key_view(prev: Option<&Vec<char>>) -> Option<Seq<char>> {
    match prev {
        Some(p) => Some(p@),
        None => None,
    }
}

/// Decomposes a match of one `"key":"value"` entry.
proof fn lemma_entry_decompose(t: Seq<char>, j: int, e: (Seq<char>, Seq<char>))
    requires
        text_at(t, j, kv_entry_text(e)),
    ensures
        text_at(t, j, quoted(e.0)),
        ({
            let jk = j + quoted(e.0).len();
            &&& jk < t.len()
            &&& t[jk] == ':'
            &&& text_at(t, jk + 1, quoted(e.1))
            &&& kv_entry_text(e).len() == quoted(e.0).len() + 1 + quoted(e.1).len()
        }),
{
    assert(kv_entry_text(e) =~= quoted(e.0) + (seq![':'] + quoted(e.1)));
    lemma_text_at_concat(t, j, quoted(e.0), seq![':'] + quoted(e.1));
    let jk = j + quoted(e.0).len();
    lemma_text_at_concat(t, jk, seq![':'], quoted(e.1));
    lemma_text_at_char(t, jk, seq![':'], 0);
}

/// Reads one `"key":"value"` entry; also hands the key back in character
/// form so the caller can check the canonical key order.
#[verifier::rlimit(60)]
fn parse_entry(t: &Vec<char>, j: usize) -> (r: Option<((String, String), Vec<char>, usize)>)
    requires
        j <= t@.len(),
    ensures
        r matches Some(p) ==> j < p.2 <= t@.len() && p.1@ == p.0.0@ && text_at(
            t@,
            j as int,
            kv_entry_text((p.0.0@, p.0.1@)),
        ) && p.2 == j + kv_entry_text((p.0.0@, p.0.1@)).len(),
        forall|e: (Seq<char>, Seq<char>)|
            text_at(t@, j as int, kv_entry_text(e)) ==> (r matches Some(p) && p.0.0@ == e.0
                && p.0.1@ == e.1 && p.2 == j + kv_entry_text(e).len()),
{
    let ghost ti = t@;
    proof {
        assert forall|e: (Seq<char>, Seq<char>)|
            text_at(ti, j as int, kv_entry_text(e)) implies text_at(ti, j as int, quoted(e.0)) by {
            lemma_entry_decompose(ti, j as int, e);
        }
    }
    let rk = parse_quoted(t, j);
    let (kc, jk) = match rk {
        None => {
            return None;
        },
        Some(p) => p,
    };
    proof {
        assert forall|e: (Seq<char>, Seq<char>)|
            text_at(ti, j as int, kv_entry_text(e)) implies (e.0 == kc@ && jk < ti.len()
            && ti[jk as int] == ':' && text_at(ti, jk + 1, quoted(e.1))) by {
            lemma_entry_decompose(ti, j as int, e);
        }
    }
    if jk == t.len() {
        return None;
    }
    if !char_at_is(t, jk, ':') {
        return None;
    }
    let rv = parse_quoted(t, jk + 1);
    match rv {
        None => None,
        Some((vc, jv)) => {
            let ks = chars_to_string(&kc);
            let vs = chars_to_string(&vc);
            proof {
                assert(ti.subrange(jk as int, jk + 1) =~= seq![':']);
                lemma_text_at_concat(ti, jk as int, seq![':'], quoted(vc@));
                lemma_text_at_concat(ti, j as int, quoted(kc@), seq![':'] + quoted(vc@));
                assert(quoted(kc@) + (seq![':'] + quoted(vc@)) =~= kv_entry_text((kc@, vc@)));
            }
            Some(((ks, vs), kc, jv))
        },
    }
}

/// Glues one entry and a continuation back into an entry run.
proof fn lemma_entries_assemble(
    t: Seq<char>,
    j: int,
    e0: (Seq<char>, Seq<char>),
    je: int,
    tailv: Seq<(Seq<char>, Seq<char>)>,
)
    requires
        text_at(t, j, kv_entry_text(e0)),
        je == j + kv_entry_text(e0).len(),
        text_at(t, je, kv_tail_text(tailv)),
    ensures
        text_at(t, j, entries_text(seq![e0] + tailv)),
        entries_text(seq![e0] + tailv).len() == kv_entry_text(e0).len() + kv_tail_text(
            tailv,
        ).len(),
        (seq![e0] + tailv)[0] == e0,
        (seq![e0] + tailv).drop_first() == tailv,
{
    let m = seq![e0] + tailv;
    assert(m[0] == e0);
    assert(m.drop_first() =~= tailv);
    assert(entries_text(m) =~= kv_entry_text(e0) + kv_tail_text(tailv));
    lemma_text_at_concat(t, j, kv_entry_text(e0), kv_tail_text(tailv));
}

/// Reads a nonempty run of `"key":"value"` entries followed by the closing
/// brace, keys strictly ascending (above `prev`, when one is given).
#[verifier::rlimit(100)]
#[verifier::spinoff_prover]
fn parse_entries(t: &Vec<char>, j: usize, prev: Option<&Vec<char>>) -> (r: Option<
    (Vec<(String, String)>, usize),
>)
    requires
        j <= t@.len(),
    ensures
        r matches Some(p) ==> j < p.1 <= t@.len() && kv_view(p.0@).len() > 0 && chain_ok(
            opt_key_view(prev),
            kv_view(p.0@),
        ) && text_at(t@, j as int, entries_text(kv_view(p.0@))) && p.1 == j + entries_text(
            kv_view(p.0@),
        ).len(),
        forall|m: Seq<(Seq<char>, Seq<char>)>|
            (m.len() > 0 && chain_ok(opt_key_view(prev), m) && text_at(
                t@,
                j as int,
                entries_text(m),
            )) ==> (r matches Some(p) && kv_view(p.0@) == m && p.1 == j + entries_text(m).len()),
    decreases t@.len() - j,
{
    let ghost ti = t@;
    proof {
        assert forall|m: Seq<(Seq<char>, Seq<char>)>|
            (m.len() > 0 && text_at(ti, j as int, entries_text(m))) implies (text_at(
            ti,
            j as int,
            kv_entry_text((m[0].0, m[0].1)),
        ) && text_at(
            ti,
            j + kv_entry_text((m[0].0, m[0].1)).len(),
            kv_tail_text(m.drop_first()),
        )) by {
            assert(entries_text(m) =~= kv_entry_text(m[0]) + kv_tail_text(m.drop_first()));
            lemma_text_at_concat(ti, j as int, kv_entry_text(m[0]), kv_tail_text(m.drop_first()));
            assert((m[0].0, m[0].1) == m[0]);
        }
    }
    let re = parse_entry(t, j);
    let (entry, kc, je) = match re {
        None => {
            return None;
        },
        Some(p) => p,
    };
    let ghost e0 = (kc@, entry.1@);
    proof {
        // every candidate run starts with the entry just read
        assert forall|m: Seq<(Seq<char>, Seq<char>)>|
            (m.len() > 0 && text_at(ti, j as int, entries_text(m))) implies (m[0] == e0 && text_at(
            ti,
            je as int,
            kv_tail_text(m.drop_first()),
        ) && entries_text(m).len() == kv_entry_text(e0).len() + kv_tail_text(
            m.drop_first(),
        ).len()) by {
            assert(entries_text(m) =~= kv_entry_text(m[0]) + kv_tail_text(m.drop_first()));
            lemma_text_at_concat(ti, j as int, kv_entry_text(m[0]), kv_tail_text(m.drop_first()));
            assert((m[0].0, m[0].1) == m[0]);
        }
    }
    let sorted_ok = match prev {
        None => true,
        Some(p) => chars_lt(p, &kc),
    };
    if !sorted_ok {
        return None;
    }
    if je == t.len() {
        proof {
            assert forall|m: Seq<(Seq<char>, Seq<char>)>|
                !(m.len() > 0 && text_at(ti, j as int, entries_text(m))) by {
                if m.len() > 0 && text_at(ti, j as int, entries_text(m)) {
                    lemma_kv_tail_shape(m.drop_first());
                }
            }
        }
        return None;
    }
    if char_at_is(t, je, '}') {
        // this was the last entry
        let mut res: Vec<(String, String)> = Vec::new();
        res.push(entry);
        proof {
            let mv = kv_view(res@);
            assert(mv =~= seq![e0] + Seq::<(Seq<char>, Seq<char>)>::empty());
            assert(kv_tail_text(Seq::<(Seq<char>, Seq<char>)>::empty()) =~= seq!['}']);
            assert(ti.subrange(je as int, je + 1) =~= seq!['}']);
            lemma_entries_assemble(
                ti,
                j as int,
                e0,
                je as int,
                Seq::<(Seq<char>, Seq<char>)>::empty(),
            );
            assert(mv[0] == e0);
            assert(mv.drop_first() =~= Seq::<(Seq<char>, Seq<char>)>::empty());
            assert(keys_sorted_from(kc@, mv.drop_first()));
            match prev {
                Some(p) => {
                    assert(lex_lt(p@, kc@));
                    assert(keys_sorted_from(p@, mv));
                },
                None => {
                    assert(keys_sorted(mv));
                },
            }
            assert forall|m: Seq<(Seq<char>, Seq<char>)>|
                (m.len() > 0 && text_at(ti, j as int, entries_text(m))) implies m == mv by {
                lemma_kv_tail_shape(m.drop_first());
                if m.len() > 1 {
                    lemma_text_at_char(ti, je as int, kv_tail_text(m.drop_first()), 0);
                }
                assert(m.len() == 1);
                assert(m =~= mv);
            }
        }
        return Some((res, je + 1));
    }
    if !char_at_is(t, je, ',') {
        proof {
            assert forall|m: Seq<(Seq<char>, Seq<char>)>|
                !(m.len() > 0 && text_at(ti, j as int, entries_text(m))) by {
                if m.len() > 0 && text_at(ti, j as int, entries_text(m)) {
                    lemma_kv_tail_shape(m.drop_first());
                    lemma_text_at_char(ti, je as int, kv_tail_text(m.drop_first()), 0);
                }
            }
        }
        return None;
    }
    // more entries follow
    proof {
        assert forall|m: Seq<(Seq<char>, Seq<char>)>|
            (m.len() > 1 && text_at(ti, j as int, entries_text(m))) implies text_at(
            ti,
            je + 1,
            entries_text(m.drop_first()),
        ) by {
            assert(kv_tail_text(m.drop_first()) =~= seq![','] + entries_text(m.drop_first()));
            lemma_text_at_concat(ti, je as int, seq![','], entries_text(m.drop_first()));
        }
        assert forall|m: Seq<(Seq<char>, Seq<char>)>|
            (m.len() > 0 && text_at(ti, j as int, entries_text(m))) implies m.len() > 1 by {
            lemma_kv_tail_shape(m.drop_first());
            if m.len() == 1 {
                lemma_text_at_char(ti, je as int, kv_tail_text(m.drop_first()), 0);
            }
        }
    }
    let rec = parse_entries(t, je + 1, Some(&kc));
    match rec {
        None => {
            proof {
                assert forall|m: Seq<(Seq<char>, Seq<char>)>|
                    !(m.len() > 0 && chain_ok(opt_key_view(prev), m) && text_at(
                        ti,
                        j as int,
                        entries_text(m),
                    )) by {
                    if m.len() > 0 && chain_ok(opt_key_view(prev), m) && text_at(
                        ti,
                        j as int,
                        entries_text(m),
                    ) {
                        assert(m.len() > 1);
                        assert(m[0] == e0);
                        assert(keys_sorted_from(m[0].0, m.drop_first()));
                        assert(chain_ok(Some(kc@), m.drop_first()));
                        assert(text_at(ti, je + 1, entries_text(m.drop_first())));
                    }
                }
            }
            return None;
        },
        Some((list, j2)) => {
            let ghost tailv = kv_view(list@);
            let mut res = list;
            res.insert(0, entry);
            proof {
                let mv = kv_view(res@);
                assert(mv =~= seq![e0] + tailv);
                // soundness: stitch the entry and the continuation together
                assert(ti.subrange(je as int, je + 1) =~= seq![',']);
                assert(kv_tail_text(tailv) =~= seq![','] + entries_text(tailv));
                lemma_text_at_concat(ti, je as int, seq![','], entries_text(tailv));
                lemma_entries_assemble(ti, j as int, e0, je as int, tailv);
                assert(mv[0] == e0);
                assert(mv.drop_first() == tailv);
                assert(keys_sorted_from(kc@, tailv));
                match prev {
                    Some(p) => {
                        assert(lex_lt(p@, kc@));
                        assert(keys_sorted_from(p@, mv));
                    },
                    None => {
                        assert(keys_sorted(mv));
                    },
                }
                assert forall|m: Seq<(Seq<char>, Seq<char>)>|
                    (m.len() > 0 && chain_ok(opt_key_view(prev), m) && text_at(
                        ti,
                        j as int,
                        entries_text(m),
                    )) implies m == mv && entries_text(m).len() == entries_text(mv).len() by {
                    assert(m.len() > 1);
                    assert(chain_ok(Some(kc@), m.drop_first()));
                    assert(m.drop_first() == tailv);
                    assert(m =~= mv);
                }
            }
            return Some((res, j2));
        },
    }
}

/// Reads a canonical object of string values starting at `i`: keys strictly
/// ascending, no whitespace.  Accepts exactly the texts `kv_text` produces
/// for sorted entry lists.
#[verifier::rlimit(60)]
pub fn parse_kv(t: &Vec<char>, i: usize) -> (r: Option<(Vec<(String, String)>, usize)>)
    requires
        i <= t@.len(),
    ensures
        r matches Some(p) ==> i < p.1 <= t@.len() && keys_sorted(kv_view(p.0@)) && text_at(
            t@,
            i as int,
            kv_text(kv_view(p.0@)),
        ) && p.1 == i + kv_text(kv_view(p.0@)).len(),
        forall|m: Seq<(Seq<char>, Seq<char>)>|
            (keys_sorted(m) && text_at(t@, i as int, kv_text(m))) ==> (r matches Some(p) && kv_view(
                p.0@,
            ) == m && p.1 == i + kv_text(m).len()),
{
    let ghost ti = t@;
    if i == t.len() || !char_at_is(t, i, '{') {
        proof {
            assert forall|m: Seq<(Seq<char>, Seq<char>)>|
                !text_at(ti, i as int, kv_text(m)) by {
                if text_at(ti, i as int, kv_text(m)) {
                    lemma_kv_text_shape(m);
                    lemma_text_at_char(ti, i as int, kv_text(m), 0);
                }
            }
        }
        return None;
    }
    if i + 1 == t.len() {
        proof {
            assert forall|m: Seq<(Seq<char>, Seq<char>)>|
                !text_at(ti, i as int, kv_text(m)) by {
                lemma_kv_text_shape(m);
            }
        }
        return None;
    }
    if char_at_is(t, i + 1, '}') {
        let v: Vec<(String, String)> = Vec::new();
        proof {
            assert(kv_view(v@) =~= Seq::<(Seq<char>, Seq<char>)>::empty());
            assert(kv_text(kv_view(v@)) =~= seq!['{', '}']);
            assert(ti.subrange(i as int, i + 2) =~= seq!['{', '}']);
            assert forall|m: Seq<(Seq<char>, Seq<char>)>|
                text_at(ti, i as int, kv_text(m)) implies m == kv_view(v@) by {
                lemma_kv_text_shape(m);
                if m.len() > 0 {
                    lemma_text_at_char(ti, i as int, kv_text(m), 1);
                } else {
                    assert(m =~= kv_view(v@));
                }
            }
        }
        return Some((v, i + 2));
    }
    proof {
        assert forall|m: Seq<(Seq<char>, Seq<char>)>|
            (keys_sorted(m) && text_at(ti, i as int, kv_text(m))) implies (m.len() > 0 && chain_ok(
            None,
            m,
        ) && text_at(ti, i + 1, entries_text(m))) by {
            lemma_kv_text_shape(m);
            if m.len() == 0 {
                lemma_text_at_char(ti, i as int, kv_text(m), 1);
            } else {
                assert(kv_text(m) =~= seq!['{'] + entries_text(m));
                lemma_text_at_concat(ti, i as int, seq!['{'], entries_text(m));
            }
        }
    }
    let rec = parse_entries(t, i + 1, None);
    match rec {
        None => None,
        Some((res, j2)) => {
            proof {
                let mv = kv_view(res@);
                assert(ti.subrange(i as int, i + 1) =~= seq!['{']);
                lemma_text_at_concat(ti, i as int, seq!['{'], entries_text(mv));
                assert(seq!['{'] + entries_text(mv) =~= kv_text(mv));
            }
            Some((res, j2))
        },
    }
}

/// Reads the fixed text `lit` at `i`: succeeds exactly when it is there.
pub fn expect_lit(t: &Vec<char>, i: usize, lit: &str) -> (r: Option<usize>)
    requires
        i <= t@.len(),
    ensures
        r is Some <==> text_at(t@, i as int, lit@),
        r matches Some(j) ==> j == i + lit@.len() && j <= t@.len(),
{
    let ghost ti = t@;
    let n = lit.unicode_len();
    let tl = t.len();
    if tl - i < n {
        return None;
    }
    let mut k: usize = 0;
    while k < n
        invariant
            k <= n,
            n == lit@.len(),
            i + n <= tl,
            tl == ti.len(),
            t@ == ti,
            forall|q: int| 0 <= q < k ==> ti[i + q] == lit@[q],
        decreases n - k,
    {
        let c = lit.get_char(k);
        if t[i + k] != c {
            proof {
                if text_at(ti, i as int, lit@) {
                    lemma_text_at_char(ti, i as int, lit@, k as int);
                }
            }
            return None;
        }
        k = k + 1;
    }
    proof {
        assert(ti.subrange(i as int, i + lit@.len()) =~= lit@);
    }
    Some(i + n)
}

// ---------------------------------------------------------------------------
// Well-formed value texts
// ---------------------------------------------------------------------------
//
// The error taxonomy distinguishes input that is not well-formed structured
// text at all (truncated or corrupt) from well-formed text that merely fails
// a schema.  The grammar here is the value layer of the canonical format --
// `null`, a decimal integer, a quoted string, or an object of string keys --
// read leniently: key order, duplicate keys, leading zeros and integer range
// are schema concerns, not well-formedness concerns.

/// End of the digit run starting at `i`.
pub open spec fn digit_run_end(t: Seq<char>, i: int) -> int
    decreases t.len() - i,
{
    if 0 <= i < t.len() && is_digit(t[i]) {
        digit_run_end(t, i + 1)
    } else {
        i
    }
}

/// Position after a well-formed integer starting at `i`, if one is there.
pub open spec fn skip_int(t: Seq<char>, i: int) -> Option<int> {
    let s = if 0 <= i < t.len() && t[i] == '-' {
        i + 1
    } else {
        i
    };
    let e = digit_run_end(t, s);
    if e > s {
        Some(e)
    } else {
        None
    }
}

/// Position after the rest of a quoted string (after the opening quote),
/// if the body and closing quote are well-formed.
pub open spec fn skip_quoted_rest(t: Seq<char>, i: int) -> Option<int>
    decreases t.len() - i,
{
    if !(0 <= i < t.len()) {
        None
    } else if t[i] == '"' {
        Some(i + 1)
    } else if t[i] == '\\' {
        if i + 1 < t.len() && (t[i + 1] == '"' || t[i + 1] == '\\') {
            skip_quoted_rest(t, i + 2)
        } else {
            None
        }
    } else {
        skip_quoted_rest(t, i + 1)
    }
}

/// Position after a whole quoted string starting at `i`.
pub open spec fn skip_quoted(t: Seq<char>, i: int) -> Option<int> {
    if 0 <= i < t.len() && t[i] == '"' {
        skip_quoted_rest(t, i + 1)
    } else {
        None
    }
}

/// Position after a well-formed value starting at `i`.
pub open spec fn skip_value(t: Seq<char>, i: int) -> Option<int>
    decreases t.len() - i, 1int,
{
    if !(0 <= i < t.len()) {
        None
    } else if t[i] == 'n' {
        if i + 4 <= t.len() && t[i + 1] == 'u' && t[i + 2] == 'l' && t[i + 3] == 'l' {
            Some(i + 4)
        } else {
            None
        }
    } else if t[i] == '"' {
        skip_quoted_rest(t, i + 1)
    } else if t[i] == '{' {
        if i + 1 < t.len() && t[i + 1] == '}' {
            Some(i + 2)
        } else {
            skip_entries(t, i + 1)
        }
    } else {
        skip_int(t, i)
    }
}

/// Position after a nonempty `"key":value` run and its closing brace,
/// starting at the first key.
pub open spec fn skip_entries(t: Seq<char>, i: int) -> Option<int>
    decreases t.len() - i, 0int,
{
    match skip_quoted(t, i) {
        None => None,
        Some(jk) => if !(i < jk <= t.len()) {
            None
        } else if jk == t.len() || t[jk] != ':' {
            None
        } else {
            match skip_value(t, jk + 1) {
                None => None,
                Some(jv) => if !(jk + 1 <= jv <= t.len()) {
                    None
                } else if jv == t.len() {
                    None
                } else if t[jv] == '}' {
                    Some(jv + 1)
                } else if t[jv] == ',' {
                    skip_entries(t, jv + 1)
                } else {
                    None
                },
            }
        },
    }
}

/// The whole text is one well-formed value.
pub open spec fn wf_value_text(t: Seq<char>) -> bool {
    match skip_value(t, 0) {
        Some(j) => j == t.len(),
        None => false,
    }
}

fn check_quoted_rest(t: &Vec<char>, i: usize) -> (r: Option<usize>)
    requires
        i <= t@.len(),
    ensures
        match r {
            Some(j) => skip_quoted_rest(t@, i as int) == Some(j as int) && i < j <= t@.len(),
            None => skip_quoted_rest(t@, i as int) is None,
        },
    decreases t@.len() - i,
{
    if i == t.len() {
        return None;
    }
    let c = t[i];
    if c == '"' {
        Some(i + 1)
    } else if c == '\\' {
        if i + 1 < t.len() {
            let e = t[i + 1];
            if e == '"' || e == '\\' {
                return check_quoted_rest(t, i + 2);
            }
        }
        None
    } else {
        check_quoted_rest(t, i + 1)
    }
}

fn check_value(t: &Vec<char>, i: usize) -> (r: Option<usize>)
    requires
        i <= t@.len(),
    ensures
        match r {
            Some(j) => skip_value(t@, i as int) == Some(j as int) && i < j <= t@.len(),
            None => skip_value(t@, i as int) is None,
        },
    decreases t@.len() - i, 1int,
{
    if i == t.len() {
        return None;
    }
    let c = t[i];
    if c == 'n' {
        if t.len() - i >= 4 && t[i + 1] == 'u' && t[i + 2] == 'l' && t[i + 3] == 'l' {
            Some(i + 4)
        } else {
            None
        }
    } else if c == '"' {
        check_quoted_rest(t, i + 1)
    } else if c == '{' {
        if i + 1 < t.len() && t[i + 1] == '}' {
            Some(i + 2)
        } else {
            check_entries(t, i + 1)
        }
    } else {
        // an integer: optional sign, then a nonempty digit run
        let s = if c == '-' {
            i + 1
        } else {
            i
        };
        let e = scan_digits(t, s);
        proof {
            lemma_digit_run_end(t@, s as int, e as int);
        }
        if e > s {
            Some(e)
        } else {
            None
        }
    }
}

fn check_entries(t: &Vec<char>, i: usize) -> (r: Option<usize>)
    requires
        i <= t@.len(),
    ensures
        match r {
            Some(j) => skip_entries(t@, i as int) == Some(j as int) && i < j <= t@.len(),
            None => skip_entries(t@, i as int) is None,
        },
    decreases t@.len() - i, 0int,
{
    if i == t.len() || !char_at_is(t, i, '"') {
        return None;
    }
    let jk = match check_quoted_rest(t, i + 1) {
        None => {
            return None;
        },
        Some(j) => j,
    };
    if jk == t.len() {
        return None;
    }
    if !char_at_is(t, jk, ':') {
        return None;
    }
    let jv = match check_value(t, jk + 1) {
        None => {
            return None;
        },
        Some(j) => j,
    };
    if jv == t.len() {
        return None;
    }
    if char_at_is(t, jv, '}') {
        Some(jv + 1)
    } else if char_at_is(t, jv, ',') {
        check_entries(t, jv + 1)
    } else {
        None
    }
}

/// The scanned digit run ends where `digit_run_end` says.
proof fn lemma_digit_run_end(t: Seq<char>, s: int, e: int)
    requires
        0 <= s <= e <= t.len(),
        forall|k: int| s <= k < e ==> is_digit(#[trigger] t[k]),
        e == t.len() || !is_digit(t[e]),
    ensures
        digit_run_end(t, s) == e,
    decreases e - s,
{
    if s < e {
        lemma_digit_run_end(t, s + 1, e);
    }
}

/// Decides whether the whole text is one well-formed value of the canonical
/// grammar, for classifying rejected input.
pub fn wf_value_check(t: &Vec<char>) -> (r: bool)
    ensures
        r == wf_value_text(t@),
{
    match check_value(t, 0) {
        None => false,
        Some(j) => j == t.len(),
    }
}

// ---------------------------------------------------------------------------
// Boundary conversions (trusted)
// ---------------------------------------------------------------------------

/// Relies on `String`'s `FromIterator<char>` implementation, through
/// `Iterator::collect`: the collected string holds exactly the characters of
/// `v`, in order.
#[verifier::external_body]
pub fn chars_to_string(v: &Vec<char>) -> (r: String)
    ensures
        r@ == v@,
{
    v.iter().collect()
}

/// Relies on `core::str::from_utf8`: it succeeds exactly on valid UTF-8
/// input, and the returned text is the decoding of those bytes.
#[verifier::external_body]
pub fn bytes_to_string(b: &[u8]) -> (r: Option<String>)
    ensures
        r is Some <==> vstd::utf8::valid_utf8(b@),
        r matches Some(s) ==> s@ == vstd::utf8::decode_utf8(b@),
{
    match core::str::from_utf8(b) {
        Ok(s) => Some(s.to_owned()),
        Err(_) => None,
    }
}

} // verus!
