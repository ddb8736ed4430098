//! Decimal encoding and parsing of unsigned integers, the numeric half of the
//! task-filename codec. `dec_rep` is the canonical decimal representation (no
//! leading zeros); `parse_decimal_range` accepts exactly the canonical
//! representations that fit in `usize`.

use vstd::prelude::*;

verus! {

/// Numeric value of a decimal digit character, or 10 for any other character.
pub open spec fn digit_val(c: char) -> int {
    if c == '0' {
        0
    } else if c == '1' {
        1
    } else if c == '2' {
        2
    } else if c == '3' {
        3
    } else if c == '4' {
        4
    } else if c == '5' {
        5
    } else if c == '6' {
        6
    } else if c == '7' {
        7
    } else if c == '8' {
        8
    } else if c == '9' {
        9
    } else {
        10
    }
}

pub open spec fn is_digit(c: char) -> bool {
    digit_val(c) < 10
}

/// The decimal digit character for a value in 0..10.
pub open spec fn digit_char(d: int) -> char {
    if d == 0 {
        '0'
    } else if d == 1 {
        '1'
    } else if d == 2 {
        '2'
    } else if d == 3 {
        '3'
    } else if d == 4 {
        '4'
    } else if d == 5 {
        '5'
    } else if d == 6 {
        '6'
    } else if d == 7 {
        '7'
    } else if d == 8 {
        '8'
    } else {
        '9'
    }
}

proof fn lemma_digit_char_val(d: int)
    requires
        0 <= d < 10,
    ensures
        digit_val(digit_char(d)) == d,
        is_digit(digit_char(d)),
{
}

proof fn lemma_digit_val_char(c: char)
    requires
        is_digit(c),
    ensures
        digit_char(digit_val(c)) == c,
{
}

/// The canonical decimal representation of `n`: most significant digit first,
/// no leading zeros, `"0"` for zero.
pub open spec fn dec_rep(n: nat) -> Seq<char>
    decreases n,
{
    if n < 10 {
        seq![digit_char(n as int)]
    } else {
        dec_rep(n / 10) + seq![digit_char((n % 10) as int)]
    }
}

/// Value of a digit string, most significant digit first.
pub open spec fn digits_value(s: Seq<char>) -> int
    decreases s.len(),
{
    if s.len() == 0 {
        0
    } else {
        digits_value(s.drop_last()) * 10 + digit_val(s.last())
    }
}

pub open spec fn all_digits(s: Seq<char>) -> bool {
    forall|i: int| 0 <= i < s.len() ==> is_digit(#[trigger] s[i])
}

/// A digit string with no leading zero (a single `'0'` is canonical).
pub open spec fn canonical_digits(s: Seq<char>) -> bool {
    &&& s.len() >= 1
    &&& all_digits(s)
    &&& (s.len() == 1 || s[0] != '0')
}

pub proof fn lemma_dec_rep_canonical(n: nat)
    ensures
        canonical_digits(dec_rep(n)),
        n < 10 ==> dec_rep(n).len() == 1,
        n >= 10 ==> dec_rep(n).len() >= 2,
        n >= 1 ==> dec_rep(n)[0] != '0',
    decreases n,
{
    if n < 10 {
        lemma_digit_char_val(n as int);
    } else {
        lemma_dec_rep_canonical(n / 10);
        lemma_digit_char_val((n % 10) as int);
        let s = dec_rep(n);
        let front = dec_rep(n / 10);
        assert(s[0] == front[0]);
        assert forall|i: int| 0 <= i < s.len() implies is_digit(#[trigger] s[i]) by {
            if i < front.len() {
                assert(s[i] == front[i]);
            } else {
                assert(s[i] == digit_char((n % 10) as int));
            }
        }
    }
}

pub proof fn lemma_digits_value_dec_rep(n: nat)
    ensures
        digits_value(dec_rep(n)) == n,
    decreases n,
{
    if n < 10 {
        lemma_digit_char_val(n as int);
        assert(dec_rep(n).drop_last() =~= Seq::<char>::empty());
        assert(digits_value(Seq::<char>::empty()) == 0);
        assert(dec_rep(n).last() == digit_char(n as int));
    } else {
        lemma_digits_value_dec_rep(n / 10);
        lemma_digit_char_val((n % 10) as int);
        let s = dec_rep(n);
        assert(s.drop_last() =~= dec_rep(n / 10));
        assert(s.last() == digit_char((n % 10) as int));
    }
}

proof fn lemma_digits_value_nonneg(s: Seq<char>)
    requires
        all_digits(s),
    ensures
        digits_value(s) >= 0,
    decreases s.len(),
{
    if s.len() > 0 {
        assert(all_digits(s.drop_last())) by {
            assert(forall|i: int| 0 <= i < s.len() - 1 ==> is_digit(#[trigger] s[i]));
        }
        lemma_digits_value_nonneg(s.drop_last());
        assert(digit_val(s.last()) >= 0);
    }
}

proof fn lemma_digits_value_first_nonzero(s: Seq<char>)
    requires
        all_digits(s),
        s.len() >= 1,
        s[0] != '0',
    ensures
        digits_value(s) >= 1,
    decreases s.len(),
{
    if s.len() == 1 {
        assert(digits_value(s.drop_last()) == 0) by {
            assert(s.drop_last().len() == 0);
        }
    } else {
        let front = s.drop_last();
        assert(all_digits(front) && front[0] != '0');
        lemma_digits_value_first_nonzero(front);
    }
}

/// A canonical digit string is the representation of its own value.
pub proof fn lemma_dec_rep_of_value(s: Seq<char>)
    requires
        canonical_digits(s),
    ensures
        digits_value(s) >= 0,
        dec_rep(digits_value(s) as nat) == s,
    decreases s.len(),
{
    lemma_digits_value_nonneg(s);
    let v = digits_value(s);
    if s.len() == 1 {
        assert(s.drop_last().len() == 0);
        assert(digits_value(s.drop_last()) == 0);
        assert(v == digit_val(s[0]));
        lemma_digit_val_char(s[0]);
        assert(dec_rep(v as nat) =~= s);
    } else {
        let front = s.drop_last();
        assert(canonical_digits(front)) by {
            assert(forall|i: int| 0 <= i < front.len() ==> is_digit(#[trigger] front[i]));
        }
        lemma_dec_rep_of_value(front);
        lemma_digits_value_first_nonzero(front);
        let fv = digits_value(front);
        assert(v == fv * 10 + digit_val(s.last()));
        assert(v >= 10) by {
            assert(fv >= 1);
            assert(fv * 10 >= 10) by (nonlinear_arith)
                requires
                    fv >= 1,
            ;
        }
        assert(v / 10 == fv && v % 10 == digit_val(s.last())) by (nonlinear_arith)
            requires
                v == fv * 10 + digit_val(s.last()),
                0 <= digit_val(s.last()) < 10,
        ;
        lemma_digit_val_char(s.last());
        assert(dec_rep(v as nat) =~= s);
    }
}

/// The value of a digit string dominates the value of each of its prefixes.
proof fn lemma_digits_value_prefix(s: Seq<char>, k: int)
    requires
        all_digits(s),
        0 <= k <= s.len(),
    ensures
        digits_value(s.take(k)) <= digits_value(s),
    decreases s.len() - k,
{
    if k < s.len() {
        let t = s.take(k + 1);
        assert(all_digits(t)) by {
            assert(forall|i: int| 0 <= i < t.len() ==> t[i] == s[i]);
        }
        assert(t.drop_last() =~= s.take(k));
        lemma_digits_value_nonneg(s.take(k));
        assert(digits_value(s.take(k)) * 10 >= digits_value(s.take(k))) by (nonlinear_arith)
            requires
                digits_value(s.take(k)) >= 0,
        ;
        assert(digits_value(t) >= digits_value(s.take(k)));
        lemma_digits_value_prefix(s, k + 1);
        assert(s.take(k + 1) == t);
    } else {
        assert(s.take(k) =~= s);
    }
}

fn exec_digit_char(d: usize) -> (c: char)
    requires
        d < 10,
    ensures
        c == digit_char(d as int),
{
    match d {
        0 => '0',
        1 => '1',
        2 => '2',
        3 => '3',
        4 => '4',
        5 => '5',
        6 => '6',
        7 => '7',
        8 => '8',
        _ => '9',
    }
}

fn exec_digit_val(c: char) -> (d: usize)
    ensures
        is_digit(c) ==> d == digit_val(c),
        !is_digit(c) ==> d == 10,
{
    match c {
        '0' => 0,
        '1' => 1,
        '2' => 2,
        '3' => 3,
        '4' => 4,
        '5' => 5,
        '6' => 6,
        '7' => 7,
        '8' => 8,
        '9' => 9,
        _ => 10,
    }
}

/// Appends the canonical decimal representation of `n` to `out`.
pub fn push_decimal(n: usize, out: &mut Vec<char>)
    ensures
        final(out)@ == old(out)@ + dec_rep(n as nat),
    decreases n,
{
    if n < 10 {
        out.push(exec_digit_char(n));
        assert(out@ =~= old(out)@ + dec_rep(n as nat));
    } else {
        push_decimal(n / 10, out);
        out.push(exec_digit_char(n % 10));
        assert(out@ =~= old(out)@ + dec_rep(n as nat));
    }
}

/// Parses `s[start..end]` as a canonical decimal number that fits in `usize`.
/// Returns `None` exactly when that range is not `dec_rep(n)` for any
/// `n <= usize::MAX`: empty, a leading zero, a non-digit, or overflow.
pub fn parse_decimal_range(s: &Vec<char>, start: usize, end: usize) -> (r: Option<usize>)
    requires
        start <= end <= s@.len(),
    ensures
        match r {
            Some(n) => s@.subrange(start as int, end as int) == dec_rep(n as nat),
            None => forall|n: nat|
                n <= usize::MAX ==> s@.subrange(start as int, end as int) != dec_rep(n),
        },
{
    let ghost seg = s@.subrange(start as int, end as int);
    if start == end {
        proof {
            assert forall|n: nat| n <= usize::MAX implies seg != dec_rep(n) by {
                lemma_dec_rep_canonical(n);
            }
        }
        return None;
    }
    if end - start >= 2 && s[start] == '0' {
        proof {
            assert forall|n: nat| n <= usize::MAX implies seg != dec_rep(n) by {
                lemma_dec_rep_canonical(n);
                if seg == dec_rep(n) {
                    assert(seg[0] == '0' && seg.len() >= 2);
                }
            }
        }
        return None;
    }
    let mut value: usize = 0;
    let mut i: usize = start;
    while i < end
        invariant
            start <= i <= end <= s@.len(),
            start < end,
            seg == s@.subrange(start as int, end as int),
            end - start >= 2 ==> s@[start as int] != '0',
            all_digits(s@.subrange(start as int, i as int)),
            value == digits_value(s@.subrange(start as int, i as int)),
        decreases end - i,
    {
        let c = s[i];
        let d = exec_digit_val(c);
        let ghost pre = s@.subrange(start as int, i as int);
        let ghost cur = s@.subrange(start as int, i + 1 as int);
        assert(cur.drop_last() =~= pre && cur.last() == c);
        if d >= 10 {
            proof {
                let j = i - start;
                assert(seg.len() == end - start);
                assert(seg[j] == s@[start + j]);
                assert(!is_digit(seg[j]));
                assert forall|n: nat| n <= usize::MAX implies seg != dec_rep(n) by {
                    lemma_dec_rep_canonical(n);
                    if seg == dec_rep(n) {
                        assert(is_digit(seg[j]));
                    }
                }
            }
            return None;
        }
        if value > (usize::MAX - d) / 10 {
            proof {
                assert(all_digits(cur));
                lemma_digits_value_nonneg(pre);
                assert(digits_value(cur) == value * 10 + d);
                assert(value * 10 + d > usize::MAX) by (nonlinear_arith)
                    requires
                        value > (usize::MAX - d) / 10,
                        0 <= d < 10,
                        value >= 0,
                ;
                assert forall|n: nat| n <= usize::MAX implies seg != dec_rep(n) by {
                    if seg == dec_rep(n) {
                        lemma_dec_rep_canonical(n);
                        lemma_digits_value_dec_rep(n);
                        lemma_digits_value_prefix(seg, i + 1 - start);
                        assert(seg.take(i + 1 - start) =~= cur);
                        assert(digits_value(seg) == n);
                    }
                }
            }
            return None;
        }
        value = value * 10 + d;
        i = i + 1;
    }
    proof {
        assert(seg =~= s@.subrange(start as int, i as int));
        assert(canonical_digits(seg)) by {
            if seg.len() >= 2 {
                assert(seg[0] == s@[start as int]);
            }
        }
        lemma_dec_rep_of_value(seg);
    }
    Some(value)
}

} // verus!
