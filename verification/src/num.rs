use vstd::prelude::*;
use crate::chars::push_char;

verus! {

pub open spec fn is_digit(c: char) -> bool {
    48 <= c as int <= 57
}

pub open spec fn digit_val(c: char) -> int {
    c as int - 48
}

pub open spec fn digit_char(d: int) -> char
    recommends
        0 <= d < 10,
{
    if d == 0 {
        '0'
    } else if d == 1 {
        '1'
    } else if d == 2 {
        '2'
    } else if d == 3 {
        '3'
    } else if d == 4 {
        '4'
    } else if d == 5 {
        '5'
    } else if d == 6 {
        '6'
    } else if d == 7 {
        '7'
    } else if d == 8 {
        '8'
    } else {
        '9'
    }
}

/// The canonical decimal rendering of a natural number, most significant
/// digit first, without leading zeros.
pub open spec fn dec_digits(n: nat) -> Seq<char>
    decreases n,
{
    if n < 10 {
        seq![digit_char(n as int)]
    } else {
        dec_digits(n / 10).push(digit_char((n % 10) as int))
    }
}

/// The canonical decimal rendering of a signed number.
pub open spec fn dec_int(n: int) -> Seq<char> {
    if n < 0 {
        seq!['-'] + dec_digits((-n) as nat)
    } else {
        dec_digits(n as nat)
    }
}

pub open spec fn all_digits(s: Seq<char>) -> bool {
    forall|i: int| 0 <= i < s.len() ==> is_digit(#[trigger] s[i])
}

/// The value of a digit string, most significant digit first.
pub open spec fn digits_val(s: Seq<char>) -> int
    decreases s.len(),
{
    if s.len() == 0 {
        0
    } else {
        digits_val(s.drop_last()) * 10 + digit_val(s.last())
    }
}

/// Reads a non-negative decimal number: at least one character, all of
/// them digits.  Leading zeros are accepted.
pub open spec fn parse_dec_spec(s: Seq<char>) -> Option<int> {
    if s.len() > 0 && all_digits(s) {
        Some(digits_val(s))
    } else {
        None
    }
}

/// Reads a decimal number with an optional leading minus sign, accepted
/// when its value fits between `lo` and `hi`.
pub open spec fn parse_signed_spec(s: Seq<char>, lo: int, hi: int) -> Option<int> {
    if s.len() > 0 && s[0] == '-' {
        match parse_dec_spec(s.skip(1)) {
            Some(v) => if lo <= -v <= hi {
                Some(-v)
            } else {
                None
            },
            None => None,
        }
    } else {
        match parse_dec_spec(s) {
            Some(v) => if lo <= v <= hi {
                Some(v)
            } else {
                None
            },
            None => None,
        }
    }
}

pub proof fn lemma_digits_val_nonneg(s: Seq<char>)
    requires
        all_digits(s),
    ensures
        digits_val(s) >= 0,
    decreases s.len(),
{
    if s.len() > 0 {
        assert(all_digits(s.drop_last())) by {
            assert(forall|i: int|
                0 <= i < s.len() - 1 ==> s.drop_last()[i] == #[trigger] s[i]);
        }
        lemma_digits_val_nonneg(s.drop_last());
    }
}

pub proof fn lemma_dec_digits_wf(n: nat)
    ensures
        dec_digits(n).len() >= 1,
        all_digits(dec_digits(n)),
    decreases n,
{
    if n >= 10 {
        lemma_dec_digits_wf(n / 10);
    }
}

/// Rendering a natural number and reading the digits back yields the same
/// number.
pub proof fn lemma_dec_roundtrip(n: nat)
    ensures
        parse_dec_spec(dec_digits(n)) == Some(n as int),
    decreases n,
{
    lemma_dec_digits_wf(n);
    if n < 10 {
        let s = dec_digits(n);
        assert(s =~= seq![digit_char(n as int)]);
        assert(s.drop_last() =~= Seq::<char>::empty());
        assert(digits_val(s.drop_last()) == 0);
        assert(s.last() == digit_char(n as int));
        assert(digit_val(digit_char(n as int)) == n);
        assert(digits_val(dec_digits(n)) == n);
    } else {
        lemma_dec_roundtrip(n / 10);
        lemma_dec_digits_wf(n / 10);
        let s = dec_digits(n);
        assert(s == dec_digits(n / 10).push(digit_char((n % 10) as int)));
        assert(s.drop_last() =~= dec_digits(n / 10));
        assert(digits_val(s) == digits_val(dec_digits(n / 10)) * 10 + (n % 10));
    }
}

/// Rendering a signed number and reading it back yields the same number.
pub proof fn lemma_dec_int_roundtrip(n: int, lo: int, hi: int)
    requires
        lo <= n <= hi,
        lo < 0 ==> hi < -lo,
    ensures
        parse_signed_spec(dec_int(n), lo, hi) == Some(n),
{
    if n < 0 {
        lemma_dec_digits_wf((-n) as nat);
        lemma_dec_roundtrip((-n) as nat);
        let s = dec_int(n);
        assert(s.skip(1) =~= dec_digits((-n) as nat));
        assert(s[0] == '-');
    } else {
        lemma_dec_digits_wf(n as nat);
        lemma_dec_roundtrip(n as nat);
        let s = dec_int(n);
        assert(s[0] != '-') by {
            lemma_dec_digits_wf(n as nat);
            assert(is_digit(s[0]));
        }
    }
}

pub proof fn lemma_dec_digits_plain(n: nat)
    ensures
        forall|i: int|
            0 <= i < dec_digits(n).len() ==> #[trigger] dec_digits(n)[i] != '\n'
                && dec_digits(n)[i] != ':' && dec_digits(n)[i] != ' ',
{
    lemma_dec_digits_wf(n);
    assert(forall|i: int|
        0 <= i < dec_digits(n).len() ==> is_digit(#[trigger] dec_digits(n)[i]));
}

pub proof fn lemma_dec_int_plain(n: int)
    ensures
        dec_int(n).len() >= 1,
        forall|i: int|
            0 <= i < dec_int(n).len() ==> #[trigger] dec_int(n)[i] != '\n' && dec_int(n)[i] != ':'
                && dec_int(n)[i] != ' ',
{
    if n < 0 {
        lemma_dec_digits_wf((-n) as nat);
        lemma_dec_digits_plain((-n) as nat);
        assert(forall|i: int|
            1 <= i < dec_int(n).len() ==> #[trigger] dec_int(n)[i] == dec_digits((-n) as nat)[i
                - 1]);
    } else {
        lemma_dec_digits_wf(n as nat);
        lemma_dec_digits_plain(n as nat);
    }
}

/// The decimal value of a digit character, `None` for any other character.
pub(crate) fn digit_of(c: char) -> (r: Option<u64>)
    ensures
        match r {
            Some(d) => is_digit(c) && digit_val(c) == d && d < 10,
            None => !is_digit(c),
        },
{
    match c {
        '0' => Some(0),
        '1' => Some(1),
        '2' => Some(2),
        '3' => Some(3),
        '4' => Some(4),
        '5' => Some(5),
        '6' => Some(6),
        '7' => Some(7),
        '8' => Some(8),
        '9' => Some(9),
        _ => None,
    }
}

pub(crate) fn digit_to_char(d: u64) -> (c: char)
    requires
        d < 10,
    ensures
        c == digit_char(d as int),
{
    if d == 0 {
        '0'
    } else if d == 1 {
        '1'
    } else if d == 2 {
        '2'
    } else if d == 3 {
        '3'
    } else if d == 4 {
        '4'
    } else if d == 5 {
        '5'
    } else if d == 6 {
        '6'
    } else if d == 7 {
        '7'
    } else if d == 8 {
        '8'
    } else {
        '9'
    }
}

/// Appends the canonical decimal rendering of `n` to `out`.
pub fn push_dec(out: &mut String, n: u64)
    ensures
        final(out)@ == old(out)@ + dec_digits(n as nat),
    decreases n,
{
    if n < 10 {
        push_char(out, digit_to_char(n));
        proof {
            assert(old(out)@.push(digit_char(n as int)) =~= old(out)@ + dec_digits(n as nat));
        }
    } else {
        push_dec(out, n / 10);
        push_char(out, digit_to_char(n % 10));
        proof {
            assert((old(out)@ + dec_digits((n / 10) as nat)).push(
                digit_char((n % 10) as int),
            ) =~= old(out)@ + dec_digits(n as nat));
        }
    }
}

/// Appends the canonical decimal rendering of the signed `n` to `out`.
pub fn push_dec_signed(out: &mut String, n: i64)
    ensures
        final(out)@ == old(out)@ + dec_int(n as int),
    decreases n,
{
    if n < 0 {
        push_char(out, '-');
        let m: u64 = ((-(n as i128)) as u64);
        push_dec(out, m);
        proof {
            assert(old(out)@.push('-') + dec_digits(m as nat) =~= old(out)@ + dec_int(n as int));
        }
    } else {
        push_dec(out, n as u64);
    }
}

/// Reads the characters of `v` between `from` and `to` as an unsigned
/// decimal number of value at most `bound`.
pub fn parse_dec_range(v: &[char], from: usize, to: usize, bound: u64) -> (r: Option<u64>)
    requires
        from <= to <= v@.len(),
    ensures
        ({
            let s = v@.subrange(from as int, to as int);
            match parse_dec_spec(s) {
                Some(val) => if val <= bound {
                    r == Some(val as u64)
                } else {
                    r is None
                },
                None => r is None,
            }
        }),
{
    let ghost s = v@.subrange(from as int, to as int);
    if from == to {
        return None;
    }
    let mut acc: u64 = 0;
    let mut i: usize = from;
    while i < to
        invariant
            from <= i <= to <= v@.len(),
            s == v@.subrange(from as int, to as int),
            all_digits(s.take(i - from)),
            acc == digits_val(s.take(i - from)),
            acc <= bound,
        decreases to - i,
    {
        let c = v[i];
        let dopt = digit_of(c);
        if dopt.is_none() {
            proof {
                assert(s[i - from] == c);
            }
            return None;
        }
        let d: u64 = dopt.unwrap();
        proof {
            assert(is_digit(c) && digit_val(c) == d);
            assert(s.take(i - from + 1).drop_last() =~= s.take(i - from));
            assert(s.take(i - from + 1).last() == c);
            lemma_digits_val_nonneg(s.take(i - from));
        }
        if acc > bound / 10 || (acc == bound / 10 && d > bound % 10) {
            // The value read so far already exceeds the bound, and further
            // digits can only increase it.
            proof {
                assert(digits_val(s.take(i - from + 1)) == acc * 10 + d > bound);
                if s.len() > 0 && all_digits(s) {
                    lemma_digits_prefix_monotone(s, i - from + 1);
                }
            }
            return None;
        }
        acc = acc * 10 + d;
        i = i + 1;
        proof {
            assert(all_digits(s.take(i - from))) by {
                assert(forall|j: int|
                    0 <= j < i - from ==> s.take(i - from)[j] == #[trigger] s[j]);
                assert(forall|j: int|
                    0 <= j < i - from - 1 ==> s.take(i - from - 1)[j] == #[trigger] s[j]);
            }
        }
    }
    proof {
        assert(s.take(to - from) =~= s);
    }
    Some(acc)
}

/// When a digit string is read left to right, every prefix value is a lower
/// bound for the whole value.
pub proof fn lemma_digits_prefix_monotone(s: Seq<char>, k: int)
    requires
        0 <= k <= s.len(),
        all_digits(s),
    ensures
        digits_val(s) >= digits_val(s.take(k)),
    decreases s.len() - k,
{
    lemma_digits_val_nonneg(s.take(k));
    if k == s.len() {
        assert(s.take(k) =~= s);
    } else {
        lemma_digits_prefix_monotone(s, k + 1);
        assert(s.take(k + 1).drop_last() =~= s.take(k));
        assert(is_digit(s[k]));
        assert(digits_val(s.take(k + 1)) == digits_val(s.take(k)) * 10 + digit_val(s.take(
            k + 1,
        ).last()));
        assert(s.take(k + 1).last() == s[k]);
        lemma_digits_val_nonneg(s.take(k));
    }
}

/// Reads the characters of `v` between `from` and `to` as a signed decimal
/// number between `lo` and `hi`.
pub fn parse_signed_range(v: &[char], from: usize, to: usize, lo: i64, hi: i64) -> (r: Option<
    i64,
>)
    requires
        from <= to <= v@.len(),
        -0x4000_0000_0000_0000 <= lo <= 0 <= hi <= 0x4000_0000_0000_0000,
    ensures
        ({
            let s = v@.subrange(from as int, to as int);
            match parse_signed_spec(s, lo as int, hi as int) {
                Some(x) => r == Some(x as i64),
                None => r is None,
            }
        }),
{
    let ghost s = v@.subrange(from as int, to as int);
    if to > from && v[from] == '-' {
        proof {
            assert(s[0] == v@[from as int]);
            assert(s.skip(1) =~= v@.subrange(from + 1, to as int));
        }
        let bound: u64 = (-(lo as i128)) as u64;
        match parse_dec_range(v, from + 1, to, bound) {
            Some(x) => {
                proof {
                    if s.skip(1).len() > 0 && all_digits(s.skip(1)) {
                        lemma_digits_val_nonneg(s.skip(1));
                    }
                }
                Some(-(x as i64))
            },
            None => None,
        }
    } else {
        proof {
            if to > from {
                assert(s[0] == v@[from as int]);
            }
        }
        match parse_dec_range(v, from, to, hi as u64) {
            Some(x) => {
                proof {
                    if s.len() > 0 && all_digits(s) {
                        lemma_digits_val_nonneg(s);
                    }
                }
                Some(x as i64)
            },
            None => None,
        }
    }
}

} // verus!
