use vstd::prelude::*;
use vstd::arithmetic::div_mod::{
    lemma_fundamental_div_mod, lemma_fundamental_div_mod_converse_div,
};
use crate::chars::push_char;
use crate::num::{
    all_digits, dec_digits, digit_char, digit_of, digit_to_char, digit_val, digits_val, is_digit,
    lemma_dec_digits_wf, lemma_dec_roundtrip, lemma_digits_val_nonneg, parse_dec_range,
    parse_dec_spec, push_dec,
};

verus! {

/// Largest epoch value the decimal date encoding accepts; it equals the
/// last second of year 9999, so every date this library can read in civil
/// form stays below it.
pub const MAX_EPOCH: u64 = 253402300799;

pub open spec fn is_leap_year(y: int) -> bool {
    y % 4 == 0 && (y % 100 != 0 || y % 400 == 0)
}

pub open spec fn days_in_year(y: int) -> int {
    if is_leap_year(y) {
        366
    } else {
        365
    }
}

pub open spec fn days_in_month(y: int, m: int) -> int
    recommends
        1 <= m <= 12,
{
    if m == 1 {
        31
    } else if m == 2 {
        if is_leap_year(y) {
            29
        } else {
            28
        }
    } else if m == 3 {
        31
    } else if m == 4 {
        30
    } else if m == 5 {
        31
    } else if m == 6 {
        30
    } else if m == 7 {
        31
    } else if m == 8 {
        31
    } else if m == 9 {
        30
    } else if m == 10 {
        31
    } else if m == 11 {
        30
    } else {
        31
    }
}

/// Days from 1970-01-01 to the first day of year `y`.
pub open spec fn days_before_year(y: int) -> int
    recommends
        y >= 1970,
    decreases y,
{
    if y <= 1970 {
        0
    } else {
        days_before_year(y - 1) + days_in_year(y - 1)
    }
}

/// Days from the first day of year `y` to the first day of its month `m`.
pub open spec fn days_before_month(y: int, m: int) -> int
    recommends
        1 <= m <= 13,
    decreases m,
{
    if m <= 1 {
        0
    } else {
        days_before_month(y, m - 1) + days_in_month(y, m - 1)
    }
}

pub open spec fn valid_civil_date(y: int, m: int, d: int) -> bool {
    1970 <= y <= 9999 && 1 <= m <= 12 && 1 <= d <= days_in_month(y, m)
}

pub open spec fn valid_time(h: int, mi: int, s: int) -> bool {
    0 <= h < 24 && 0 <= mi < 60 && 0 <= s < 60
}

/// The canonical point in time for a civil date and time, as seconds since
/// 1970-01-01T00:00:00.
pub open spec fn epoch_of(y: int, m: int, d: int, h: int, mi: int, s: int) -> int {
    (days_before_year(y) + days_before_month(y, m) + d - 1) * 86400 + h * 3600 + mi * 60 + s
}

proof fn lemma_div_step(d: int, n: int)
    requires
        n >= 1,
        d >= 1,
    ensures
        d / n - (d - 1) / n == if d % n == 0 {
            1int
        } else {
            0int
        },
{
    lemma_fundamental_div_mod(d, n);
    let q = d / n;
    let r = d % n;
    if r == 0 {
        assert(d - 1 == (q - 1) * n + (n - 1)) by (nonlinear_arith)
            requires
                d == n * q + r,
                r == 0,
                n >= 1,
        ;
        lemma_fundamental_div_mod_converse_div(d - 1, n, q - 1, n - 1);
    } else {
        assert(d - 1 == q * n + (r - 1)) by (nonlinear_arith)
            requires
                d == n * q + r,
        ;
        lemma_fundamental_div_mod_converse_div(d - 1, n, q, r - 1);
    }
}

/// The leap-day count below year `y` has a closed form in `y`.
pub proof fn lemma_days_before_year_closed(y: int)
    requires
        y >= 1970,
    ensures
        days_before_year(y) == 365 * (y - 1970) + ((y - 1) / 4 - 492) - ((y - 1) / 100 - 19) + ((y
            - 1) / 400 - 4),
    decreases y,
{
    if y == 1970 {
    } else {
        lemma_days_before_year_closed(y - 1);
        lemma_div_step(y - 1, 4);
        lemma_div_step(y - 1, 100);
        lemma_div_step(y - 1, 400);
        lemma_fundamental_div_mod(y - 1, 4);
        lemma_fundamental_div_mod(y - 1, 100);
        lemma_fundamental_div_mod(y - 1, 400);
        if (y - 1) % 400 == 0 {
            assert((y - 1) % 100 == 0) by (nonlinear_arith)
                requires
                    (y - 1) % 400 == 0,
                    y >= 1971,
            ;
        }
        if (y - 1) % 100 == 0 {
            assert((y - 1) % 4 == 0) by (nonlinear_arith)
                requires
                    (y - 1) % 100 == 0,
                    y >= 1971,
            ;
        }
    }
}

pub proof fn lemma_days_before_year_bounds(y: int)
    requires
        1970 <= y <= 10000,
    ensures
        days_before_year(y) >= 365 * (y - 1970),
        y <= 9999 ==> days_before_year(y) + days_in_year(y) <= 2932897,
        days_before_year(y) <= 2932897,
{
    lemma_days_before_year_closed(y);
    if y <= 9999 {
        lemma_days_before_year_closed(y + 1);
    }
}

pub proof fn lemma_months_total(y: int)
    ensures
        days_before_month(y, 13) == days_in_year(y),
        forall|m: int|
            1 <= m <= 12 ==> #[trigger] days_before_month(y, m) + days_in_month(y, m)
                <= days_in_year(y),
{
    reveal_with_fuel(days_before_month, 14);
    assert forall|m: int| 1 <= m <= 12 implies #[trigger] days_before_month(y, m) + days_in_month(
        y,
        m,
    ) <= days_in_year(y) by {
        reveal_with_fuel(days_before_month, 14);
    }
}

/// Every valid civil date and time lies between zero and `MAX_EPOCH`.
pub proof fn lemma_epoch_range(y: int, m: int, d: int, h: int, mi: int, s: int)
    requires
        valid_civil_date(y, m, d),
        valid_time(h, mi, s),
    ensures
        0 <= epoch_of(y, m, d, h, mi, s) <= MAX_EPOCH,
{
    lemma_days_before_year_bounds(y);
    lemma_months_total(y);
    assert(days_before_month(y, m) >= 0) by {
        reveal_with_fuel(days_before_month, 14);
    }
    assert(days_before_month(y, m) + d - 1 <= days_in_year(y) - 1);
    assert(days_before_year(y) + days_before_month(y, m) + d - 1 <= 2932896);
}

fn leap_year_exec(y: u64) -> (r: bool)
    ensures
        r == is_leap_year(y as int),
{
    y % 4 == 0 && (y % 100 != 0 || y % 400 == 0)
}

fn days_in_year_exec(y: u64) -> (r: u64)
    ensures
        r == days_in_year(y as int),
{
    if leap_year_exec(y) {
        366
    } else {
        365
    }
}

fn days_in_month_exec(y: u64, m: u64) -> (r: u64)
    requires
        1 <= m <= 12,
    ensures
        r == days_in_month(y as int, m as int),
{
    if m == 1 {
        31
    } else if m == 2 {
        if leap_year_exec(y) {
            29
        } else {
            28
        }
    } else if m == 3 {
        31
    } else if m == 4 {
        30
    } else if m == 5 {
        31
    } else if m == 6 {
        30
    } else if m == 7 {
        31
    } else if m == 8 {
        31
    } else if m == 9 {
        30
    } else if m == 10 {
        31
    } else if m == 11 {
        30
    } else {
        31
    }
}

fn days_before_year_exec(y: u64) -> (r: u64)
    requires
        1970 <= y <= 10000,
    ensures
        r == days_before_year(y as int),
        r <= 2932897,
{
    let mut acc: u64 = 0;
    let mut i: u64 = 1970;
    while i < y
        invariant
            1970 <= i <= y <= 10000,
            acc == days_before_year(i as int),
            acc <= 2932897,
        decreases y - i,
    {
        proof {
            lemma_days_before_year_bounds(i as int);
            lemma_days_before_year_bounds(i + 1);
        }
        acc = acc + days_in_year_exec(i);
        i = i + 1;
    }
    acc
}

fn days_before_month_exec(y: u64, m: u64) -> (r: u64)
    requires
        1 <= m <= 13,
    ensures
        r == days_before_month(y as int, m as int),
        r <= 366,
{
    let mut acc: u64 = 0;
    let mut i: u64 = 1;
    proof {
        lemma_months_total(y as int);
        reveal_with_fuel(days_before_month, 14);
    }
    while i < m
        invariant
            1 <= i <= m <= 13,
            acc == days_before_month(y as int, i as int),
            acc <= 366,
        decreases m - i,
    {
        proof {
            reveal_with_fuel(days_before_month, 14);
            lemma_months_total(y as int);
        }
        acc = acc + days_in_month_exec(y, i);
        i = i + 1;
    }
    acc
}

/// The canonical epoch value of a valid civil date and time.
pub fn date_to_epoch(y: u64, m: u64, d: u64, h: u64, mi: u64, s: u64) -> (r: u64)
    requires
        valid_civil_date(y as int, m as int, d as int),
        valid_time(h as int, mi as int, s as int),
    ensures
        r == epoch_of(y as int, m as int, d as int, h as int, mi as int, s as int),
        r <= MAX_EPOCH,
{
    proof {
        lemma_epoch_range(y as int, m as int, d as int, h as int, mi as int, s as int);
    }
    let days = days_before_year_exec(y) + days_before_month_exec(y, m) + (d - 1);
    days * 86400 + h * 3600 + mi * 60 + s
}

/// The civil date and time of an epoch value: the unique valid tuple that
/// `epoch_of` maps back to the argument.
pub fn epoch_to_civil(e: u64) -> (r: (u64, u64, u64, u64, u64, u64))
    requires
        e <= MAX_EPOCH,
    ensures
        valid_civil_date(r.0 as int, r.1 as int, r.2 as int),
        valid_time(r.3 as int, r.4 as int, r.5 as int),
        epoch_of(r.0 as int, r.1 as int, r.2 as int, r.3 as int, r.4 as int, r.5 as int) == e,
        (r.0 as int, r.1 as int, r.2 as int, r.3 as int, r.4 as int, r.5 as int) == civil_of(
            e as int,
        ),
{
    let mut days = e / 86400;
    let rem = e % 86400;
    let h = rem / 3600;
    let mi = (rem % 3600) / 60;
    let s = rem % 60;
    proof {
        assert(e == (e / 86400) * 86400 + h * 3600 + mi * 60 + s && h < 24 && mi < 60 && s < 60)
            by (nonlinear_arith)
            requires
                e <= MAX_EPOCH,
                rem == e % 86400,
                h == rem / 3600,
                mi == (rem % 3600) / 60,
                s == rem % 60,
        ;
        assert(e / 86400 <= 2932896) by (nonlinear_arith)
            requires
                e <= MAX_EPOCH,
        ;
    }
    let ghost total_days = days as int;
    let mut y: u64 = 1970;
    while days >= days_in_year_exec(y)
        invariant
            1970 <= y <= 9999,
            days_before_year(y as int) + days == total_days,
            0 <= total_days <= 2932896,
        decreases days,
    {
        proof {
            lemma_days_before_year_bounds(y as int);
            lemma_days_before_year_bounds(y + 1);
            if y == 9999 {
                assert(days_before_year(10000int) == 2932897) by {
                    lemma_days_before_year_closed(10000int);
                }
            }
        }
        days = days - days_in_year_exec(y);
        y = y + 1;
    }
    proof {
        lemma_months_total(y as int);
        reveal_with_fuel(days_before_month, 14);
    }
    let ghost year_days = days as int;
    let mut m: u64 = 1;
    while days >= days_in_month_exec(y, m)
        invariant
            1 <= m <= 12,
            1970 <= y <= 9999,
            days_before_month(y as int, m as int) + days == year_days,
            0 <= year_days < days_in_year(y as int),
        decreases 12 - m,
    {
        days = days - days_in_month_exec(y, m);
        m = m + 1;
        proof {
            if m == 13 {
                lemma_months_total(y as int);
                assert(false);
            }
        }
    }
    let d = days + 1;
    proof {
        assert(days_before_year(y as int) + days_before_month(y as int, m as int) + d - 1
            == total_days);
        let t = (y as int, m as int, d as int, h as int, mi as int, s as int);
        assert(valid_civil_date(t.0, t.1, t.2) && valid_time(t.3, t.4, t.5) && epoch_of(
            t.0,
            t.1,
            t.2,
            t.3,
            t.4,
            t.5,
        ) == e);
        let c = civil_of(e as int);
        assert(valid_civil_date(c.0, c.1, c.2) && valid_time(c.3, c.4, c.5) && epoch_of(
            c.0,
            c.1,
            c.2,
            c.3,
            c.4,
            c.5,
        ) == e) by {
            assert(exists|t2: (int, int, int, int, int, int)|
                valid_civil_date(t2.0, t2.1, t2.2) && valid_time(t2.3, t2.4, t2.5) && epoch_of(
                    t2.0,
                    t2.1,
                    t2.2,
                    t2.3,
                    t2.4,
                    t2.5,
                ) == e) by {
                assert(valid_civil_date(t.0, t.1, t.2) && valid_time(t.3, t.4, t.5) && epoch_of(
                    t.0,
                    t.1,
                    t.2,
                    t.3,
                    t.4,
                    t.5,
                ) == e);
            }
        }
        lemma_civil_unique(t.0, t.1, t.2, t.3, t.4, t.5, c.0, c.1, c.2, c.3, c.4, c.5);
    }
    (y, m, d, h, mi, s)
}

pub open spec fn two_digits(v: int) -> Seq<char>
    recommends
        0 <= v < 100,
{
    seq![digit_char(v / 10), digit_char(v % 10)]
}

/// The date-only text encoding, `YYYY-MM-DD`.
pub open spec fn date_text(y: int, m: int, d: int) -> Seq<char> {
    dec_digits(y as nat) + seq!['-'] + two_digits(m) + seq!['-'] + two_digits(d)
}

/// The date-and-time text encoding, `YYYY-MM-DDTHH:MM:SS`.
pub open spec fn datetime_text(y: int, m: int, d: int, h: int, mi: int, s: int) -> Seq<char> {
    date_text(y, m, d) + seq!['T'] + two_digits(h) + seq![':'] + two_digits(mi) + seq![':']
        + two_digits(s)
}

pub open spec fn spec_year_of(s: Seq<char>) -> int {
    digits_val(s.subrange(0, 4))
}

pub open spec fn spec_month_of(s: Seq<char>) -> int {
    digits_val(s.subrange(5, 7))
}

pub open spec fn spec_day_of(s: Seq<char>) -> int {
    digits_val(s.subrange(8, 10))
}

/// The first ten characters spell a valid civil date, `YYYY-MM-DD`.
pub open spec fn date_part_valid(s: Seq<char>) -> bool {
    s.len() >= 10 && is_digit(s[0]) && is_digit(s[1]) && is_digit(s[2]) && is_digit(s[3]) && s[4]
        == '-' && is_digit(s[5]) && is_digit(s[6]) && s[7] == '-' && is_digit(s[8]) && is_digit(
        s[9],
    ) && valid_civil_date(spec_year_of(s), spec_month_of(s), spec_day_of(s))
}

pub open spec fn spec_hour_of(s: Seq<char>) -> int {
    digits_val(s.subrange(11, 13))
}

pub open spec fn spec_minute_of(s: Seq<char>) -> int {
    digits_val(s.subrange(14, 16))
}

pub open spec fn spec_second_of(s: Seq<char>) -> int {
    digits_val(s.subrange(17, 19))
}

/// Characters ten to nineteen spell a valid time, `THH:MM:SS`.
pub open spec fn time_part_valid(s: Seq<char>) -> bool {
    s.len() >= 19 && s[10] == 'T' && is_digit(s[11]) && is_digit(s[12]) && s[13] == ':' && is_digit(
        s[14],
    ) && is_digit(s[15]) && s[16] == ':' && is_digit(s[17]) && is_digit(s[18]) && valid_time(
        spec_hour_of(s),
        spec_minute_of(s),
        spec_second_of(s),
    )
}

/// The date normalizer: any accepted textual encoding of a point in time
/// maps to its canonical epoch-seconds value.
///
/// Accepted encodings: a plain decimal count of epoch seconds up to
/// `MAX_EPOCH`; a civil date `YYYY-MM-DD`, read as midnight; and a civil
/// date and time `YYYY-MM-DDTHH:MM:SS`, with an optional trailing `Z`.
pub open spec fn parse_date_spec(s: Seq<char>) -> Option<int> {
    if s.len() > 0 && all_digits(s) {
        if digits_val(s) <= MAX_EPOCH {
            Some(digits_val(s))
        } else {
            None
        }
    } else if s.len() == 10 {
        if date_part_valid(s) {
            Some(epoch_of(spec_year_of(s), spec_month_of(s), spec_day_of(s), 0, 0, 0))
        } else {
            None
        }
    } else if s.len() == 19 || (s.len() == 20 && s[19] == 'Z') {
        if date_part_valid(s) && time_part_valid(s) {
            Some(
                epoch_of(
                    spec_year_of(s),
                    spec_month_of(s),
                    spec_day_of(s),
                    spec_hour_of(s),
                    spec_minute_of(s),
                    spec_second_of(s),
                ),
            )
        } else {
            None
        }
    } else {
        None
    }
}

/// Reads the characters of `v` between `from` and `to` as a date in any
/// accepted encoding.
pub fn parse_date_range(v: &[char], from: usize, to: usize) -> (r: Option<u64>)
    requires
        from <= to <= v@.len(),
    ensures
        ({
            let s = v@.subrange(from as int, to as int);
            match r {
                Some(t) => parse_date_spec(s) == Some(t as int) && t <= MAX_EPOCH,
                None => parse_date_spec(s) is None,
            }
        }),
{
    let ghost s = v@.subrange(from as int, to as int);
    let n = to - from;
    let mut alldig = n > 0;
    let mut i: usize = 0;
    while i < n
        invariant
            from <= to <= v@.len(),
            n == to - from,
            s == v@.subrange(from as int, to as int),
            i <= n,
            alldig == (n > 0 && all_digits(s.take(i as int))),
        decreases n - i,
    {
        if digit_of(v[from + i]).is_none() {
            proof {
                assert(s[i as int] == v@[from + i]);
            }
            alldig = false;
        }
        i = i + 1;
        proof {
            if alldig {
                assert(all_digits(s.take(i as int))) by {
                    assert(forall|j: int|
                        0 <= j < i ==> s.take(i as int)[j] == #[trigger] s[j]);
                    assert(forall|j: int|
                        0 <= j < i - 1 ==> s.take(i - 1)[j] == #[trigger] s[j]);
                }
            } else {
                if n > 0 && all_digits(s.take(i as int)) {
                    assert(forall|j: int|
                        0 <= j < i ==> #[trigger] s[j] == s.take(i as int)[j]);
                    assert(false);
                }
            }
        }
    }
    proof {
        assert(s.take(n as int) =~= s);
    }
    if alldig {
        proof {
            lemma_digits_val_nonneg(s);
        }
        return parse_dec_range(v, from, to, MAX_EPOCH);
    }
    if n == 10 {
        match parse_civil_range(v, from, to) {
            Some((y, m, d)) => Some(date_to_epoch(y, m, d, 0, 0, 0)),
            None => None,
        }
    } else if n == 19 || (n == 20 && v[from + 19] == 'Z') {
        proof {
            if n == 20 {
                assert(s[19] == v@[from + 19]);
            }
        }
        match parse_civil_range(v, from, to) {
            Some((y, m, d)) => {
                match parse_time_range(v, from, to) {
                    Some((h, mi, sec)) => Some(date_to_epoch(y, m, d, h, mi, sec)),
                    None => None,
                }
            },
            None => None,
        }
    } else {
        if n == 20 {
            proof {
                assert(s[19] == v@[from + 19]);
            }
        }
        None
    }
}

/// Reads the `YYYY-MM-DD` part at `from`, when it is a valid civil date.
fn parse_civil_range(v: &[char], from: usize, to: usize) -> (r: Option<(u64, u64, u64)>)
    requires
        from + 10 <= to <= v@.len(),
    ensures
        ({
            let s = v@.subrange(from as int, to as int);
            match r {
                Some((y, m, d)) => date_part_valid(s) && y == spec_year_of(s) && m
                    == spec_month_of(s) && d == spec_day_of(s),
                None => !date_part_valid(s),
            }
        }),
{
    let ghost s = v@.subrange(from as int, to as int);
    proof {
        assert(s.subrange(0, 4) =~= v@.subrange(from as int, from + 4));
        assert(s.subrange(5, 7) =~= v@.subrange(from + 5, from + 7));
        assert(s.subrange(8, 10) =~= v@.subrange(from + 8, from + 10));
        assert(forall|j: int| 0 <= j < s.len() ==> s[j] == v@[from + j]);
    }
    let y = match parse_dec_range(v, from, from + 4, 9999) {
        Some(y) => y,
        None => {
            proof {
                if date_part_valid(s) {
                    assert(all_digits(s.subrange(0, 4))) by {
                        assert(forall|j: int|
                            0 <= j < 4 ==> s.subrange(0, 4)[j] == #[trigger] s[j]);
                    }
                    lemma_two_digit_bound(s.subrange(0, 4));
                    assert(false);
                }
            }
            return None;
        },
    };
    if y < 1970 {
        return None;
    }
    if v[from + 4] != '-' || v[from + 7] != '-' {
        return None;
    }
    let m = match parse_dec_range(v, from + 5, from + 7, 99) {
        Some(m) => m,
        None => {
            proof {
                if date_part_valid(s) {
                    assert(all_digits(s.subrange(5, 7))) by {
                        assert(forall|j: int|
                            0 <= j < 2 ==> s.subrange(5, 7)[j] == #[trigger] s[5 + j]);
                    }
                    lemma_two_digit_bound(s.subrange(5, 7));
                    assert(false);
                }
            }
            return None;
        },
    };
    if m < 1 || m > 12 {
        return None;
    }
    let dmax = days_in_month_exec(y, m);
    let d = match parse_dec_range(v, from + 8, from + 10, 99) {
        Some(d) => d,
        None => {
            proof {
                if date_part_valid(s) {
                    assert(all_digits(s.subrange(8, 10))) by {
                        assert(forall|j: int|
                            0 <= j < 2 ==> s.subrange(8, 10)[j] == #[trigger] s[8 + j]);
                    }
                    lemma_two_digit_bound(s.subrange(8, 10));
                    assert(false);
                }
            }
            return None;
        },
    };
    if d < 1 || d > dmax {
        return None;
    }
    proof {
        assert(all_digits(s.subrange(0, 4)) && all_digits(s.subrange(5, 7)) && all_digits(
            s.subrange(8, 10),
        ));
        assert(is_digit(s.subrange(0, 4)[0]) && is_digit(s.subrange(0, 4)[1]) && is_digit(
            s.subrange(0, 4)[2],
        ) && is_digit(s.subrange(0, 4)[3]));
        assert(is_digit(s.subrange(5, 7)[0]) && is_digit(s.subrange(5, 7)[1]));
        assert(is_digit(s.subrange(8, 10)[0]) && is_digit(s.subrange(8, 10)[1]));
        assert(s.subrange(0, 4)[0] == s[0] && s.subrange(0, 4)[1] == s[1] && s.subrange(0, 4)[2]
            == s[2] && s.subrange(0, 4)[3] == s[3]);
        assert(s.subrange(5, 7)[0] == s[5] && s.subrange(5, 7)[1] == s[6]);
        assert(s.subrange(8, 10)[0] == s[8] && s.subrange(8, 10)[1] == s[9]);
        assert(s[4] == v@[from + 4] && s[7] == v@[from + 7]);
        lemma_digits_val_nonneg(s.subrange(0, 4));
        lemma_digits_val_nonneg(s.subrange(5, 7));
        lemma_digits_val_nonneg(s.subrange(8, 10));
    }
    Some((y, m, d))
}

/// Reads the `THH:MM:SS` part at `from + 10`, when it is a valid time.
fn parse_time_range(v: &[char], from: usize, to: usize) -> (r: Option<(u64, u64, u64)>)
    requires
        from + 19 <= to <= v@.len(),
    ensures
        ({
            let s = v@.subrange(from as int, to as int);
            match r {
                Some((h, mi, sec)) => time_part_valid(s) && h == spec_hour_of(s) && mi
                    == spec_minute_of(s) && sec == spec_second_of(s),
                None => !time_part_valid(s),
            }
        }),
{
    let ghost s = v@.subrange(from as int, to as int);
    proof {
        assert(s.subrange(11, 13) =~= v@.subrange(from + 11, from + 13));
        assert(s.subrange(14, 16) =~= v@.subrange(from + 14, from + 16));
        assert(s.subrange(17, 19) =~= v@.subrange(from + 17, from + 19));
        assert(forall|j: int| 0 <= j < s.len() ==> s[j] == v@[from + j]);
    }
    if v[from + 10] != 'T' || v[from + 13] != ':' || v[from + 16] != ':' {
        return None;
    }
    let h = match parse_dec_range(v, from + 11, from + 13, 99) {
        Some(h) => h,
        None => {
            proof {
                if time_part_valid(s) {
                    assert(all_digits(s.subrange(11, 13))) by {
                        assert(forall|j: int|
                            0 <= j < 2 ==> s.subrange(11, 13)[j] == #[trigger] s[11 + j]);
                    }
                    lemma_two_digit_bound(s.subrange(11, 13));
                    assert(false);
                }
            }
            return None;
        },
    };
    let mi = match parse_dec_range(v, from + 14, from + 16, 99) {
        Some(mi) => mi,
        None => {
            proof {
                if time_part_valid(s) {
                    assert(all_digits(s.subrange(14, 16))) by {
                        assert(forall|j: int|
                            0 <= j < 2 ==> s.subrange(14, 16)[j] == #[trigger] s[14 + j]);
                    }
                    lemma_two_digit_bound(s.subrange(14, 16));
                    assert(false);
                }
            }
            return None;
        },
    };
    let sec = match parse_dec_range(v, from + 17, from + 19, 99) {
        Some(sec) => sec,
        None => {
            proof {
                if time_part_valid(s) {
                    assert(all_digits(s.subrange(17, 19))) by {
                        assert(forall|j: int|
                            0 <= j < 2 ==> s.subrange(17, 19)[j] == #[trigger] s[17 + j]);
                    }
                    lemma_two_digit_bound(s.subrange(17, 19));
                    assert(false);
                }
            }
            return None;
        },
    };
    if h > 23 || mi > 59 || sec > 59 {
        return None;
    }
    proof {
        assert(all_digits(s.subrange(11, 13)) && all_digits(s.subrange(14, 16)) && all_digits(
            s.subrange(17, 19),
        ));
        assert(is_digit(s.subrange(11, 13)[0]) && is_digit(s.subrange(11, 13)[1]));
        assert(is_digit(s.subrange(14, 16)[0]) && is_digit(s.subrange(14, 16)[1]));
        assert(is_digit(s.subrange(17, 19)[0]) && is_digit(s.subrange(17, 19)[1]));
        assert(s.subrange(11, 13)[0] == s[11] && s.subrange(11, 13)[1] == s[12]);
        assert(s.subrange(14, 16)[0] == s[14] && s.subrange(14, 16)[1] == s[15]);
        assert(s.subrange(17, 19)[0] == s[17] && s.subrange(17, 19)[1] == s[18]);
        assert(s[10] == v@[from + 10] && s[13] == v@[from + 13] && s[16] == v@[from + 16]);
        lemma_digits_val_nonneg(s.subrange(11, 13));
        lemma_digits_val_nonneg(s.subrange(14, 16));
        lemma_digits_val_nonneg(s.subrange(17, 19));
    }
    Some((h, mi, sec))
}

/// A two-character digit string has value below one hundred; a four-character
/// one below ten thousand.
proof fn lemma_two_digit_bound(s: Seq<char>)
    requires
        all_digits(s),
        s.len() == 2 || s.len() == 4,
    ensures
        s.len() == 2 ==> 0 <= digits_val(s) <= 99,
        s.len() == 4 ==> 0 <= digits_val(s) <= 9999,
{
    lemma_digits_val_nonneg(s);
    if s.len() == 2 {
        let s1 = s.drop_last();
        assert(is_digit(s[0]) && is_digit(s[1]));
        assert(s1.last() == s[0] && s.last() == s[1]);
        assert(s1.drop_last() =~= Seq::<char>::empty());
        assert(digits_val(Seq::<char>::empty()) == 0);
        assert(digits_val(s1) == digit_val(s[0]));
        assert(digits_val(s) == digit_val(s[0]) * 10 + digit_val(s[1]));
    } else {
        let s3 = s.drop_last();
        let s2 = s3.drop_last();
        let s1 = s2.drop_last();
        assert(is_digit(s[0]) && is_digit(s[1]) && is_digit(s[2]) && is_digit(s[3]));
        assert(s1.last() == s[0] && s2.last() == s[1] && s3.last() == s[2] && s.last() == s[3]);
        assert(s1.drop_last() =~= Seq::<char>::empty());
        assert(digits_val(Seq::<char>::empty()) == 0);
        assert(digits_val(s1) == digit_val(s[0]));
        assert(digits_val(s2) == digit_val(s[0]) * 10 + digit_val(s[1]));
        assert(digits_val(s3) == digits_val(s2) * 10 + digit_val(s[2]));
        assert(digits_val(s) == digits_val(s3) * 10 + digit_val(s[3]));
    }
}

/// The value spelled by a two-digit rendering is the number itself.
proof fn lemma_two_digits_val(v: int)
    requires
        0 <= v < 100,
    ensures
        two_digits(v).len() == 2,
        all_digits(two_digits(v)),
        digits_val(two_digits(v)) == v,
{
    let t = two_digits(v);
    assert(t[0] == digit_char(v / 10) && t[1] == digit_char(v % 10));
    assert(is_digit(t[0]) && is_digit(t[1]));
    assert(t.drop_last() =~= seq![digit_char(v / 10)]);
    assert(t.drop_last().drop_last() =~= Seq::<char>::empty());
    assert(digits_val(Seq::<char>::empty()) == 0);
    assert(digits_val(t.drop_last()) == digit_val(digit_char(v / 10)));
    assert(digits_val(t) == digit_val(digit_char(v / 10)) * 10 + digit_val(digit_char(v % 10)));
}

/// A year between 1970 and 9999 renders as exactly four digits.
proof fn lemma_dec_digits_len4(n: nat)
    requires
        1970 <= n <= 9999,
    ensures
        dec_digits(n).len() == 4,
        digits_val(dec_digits(n)) == n,
        all_digits(dec_digits(n)),
{
    lemma_dec_digits_wf(n);
    lemma_dec_roundtrip(n);
    let n1 = n / 10;
    let n2 = n1 / 10;
    let n3 = n2 / 10;
    assert(197 <= n1 <= 999 && 19 <= n2 <= 99 && 1 <= n3 <= 9);
    assert(dec_digits(n3).len() == 1);
    assert(dec_digits(n2) == dec_digits(n3).push(digit_char((n2 % 10) as int)));
    assert(dec_digits(n1) == dec_digits(n2).push(digit_char((n1 % 10) as int)));
    assert(dec_digits(n) == dec_digits(n1).push(digit_char((n % 10) as int)));
}

/// All accepted textual encodings of one instant normalize to the same
/// canonical value: the civil date alone reads as midnight, the civil date
/// and time reads the same with or without a trailing `Z`, and the decimal
/// form of the canonical value reads back as itself.
pub proof fn lemma_date_encodings_agree(y: int, m: int, d: int, h: int, mi: int, sec: int)
    ensures
        valid_civil_date(y, m, d) ==> parse_date_spec(date_text(y, m, d)) == Some(
            epoch_of(y, m, d, 0, 0, 0),
        ),
        valid_civil_date(y, m, d) && valid_time(h, mi, sec) ==> parse_date_spec(
            datetime_text(y, m, d, h, mi, sec),
        ) == Some(epoch_of(y, m, d, h, mi, sec)),
        valid_civil_date(y, m, d) && valid_time(h, mi, sec) ==> parse_date_spec(
            datetime_text(y, m, d, h, mi, sec) + seq!['Z'],
        ) == Some(epoch_of(y, m, d, h, mi, sec)),
        valid_civil_date(y, m, d) && valid_time(h, mi, sec) ==> parse_date_spec(
            dec_digits(epoch_of(y, m, d, h, mi, sec) as nat),
        ) == Some(epoch_of(y, m, d, h, mi, sec)),
{
    if valid_civil_date(y, m, d) {
        lemma_date_text_facts(y, m, d);
        if valid_time(h, mi, sec) {
            lemma_epoch_range(y, m, d, h, mi, sec);
            let e = epoch_of(y, m, d, h, mi, sec);
            lemma_dec_roundtrip(e as nat);
            lemma_dec_digits_wf(e as nat);
            lemma_digits_val_nonneg(dec_digits(e as nat));
            let t0 = datetime_text(y, m, d, h, mi, sec);
            let t1 = t0 + seq!['Z'];
            lemma_two_digits_val(h);
            lemma_two_digits_val(mi);
            lemma_two_digits_val(sec);
            lemma_dec_digits_len4(y as nat);
            assert(t0.len() == 19 && t1.len() == 20);
            assert(t1[19] == 'Z');
            lemma_datetime_positions(y, m, d, h, mi, sec, t0);
            lemma_datetime_positions(y, m, d, h, mi, sec, t1);
        }
    }
}

/// Positional facts shared by the 19- and 20-character datetime forms.
proof fn lemma_datetime_positions(y: int, m: int, d: int, h: int, mi: int, sec: int, t: Seq<char>)
    requires
        valid_civil_date(y, m, d),
        valid_time(h, mi, sec),
        t == datetime_text(y, m, d, h, mi, sec) || t == datetime_text(y, m, d, h, mi, sec)
            + seq!['Z'],
    ensures
        date_part_valid(t),
        time_part_valid(t),
        spec_year_of(t) == y,
        spec_month_of(t) == m,
        spec_day_of(t) == d,
        spec_hour_of(t) == h,
        spec_minute_of(t) == mi,
        spec_second_of(t) == sec,
        !all_digits(t),
        parse_date_spec(t) == Some(epoch_of(y, m, d, h, mi, sec)),
{
    lemma_dec_digits_len4(y as nat);
    lemma_two_digits_val(m);
    lemma_two_digits_val(d);
    lemma_two_digits_val(h);
    lemma_two_digits_val(mi);
    lemma_two_digits_val(sec);
    assert(t.subrange(0, 4) =~= dec_digits(y as nat));
    assert(t.subrange(5, 7) =~= two_digits(m));
    assert(t.subrange(8, 10) =~= two_digits(d));
    assert(t.subrange(11, 13) =~= two_digits(h));
    assert(t.subrange(14, 16) =~= two_digits(mi));
    assert(t.subrange(17, 19) =~= two_digits(sec));
    assert(t[4] == '-' && t[7] == '-' && t[10] == 'T' && t[13] == ':' && t[16] == ':');
    assert(is_digit(t[0]) && is_digit(t[1]) && is_digit(t[2]) && is_digit(t[3])) by {
        assert(t.subrange(0, 4)[0] == t[0] && t.subrange(0, 4)[1] == t[1] && t.subrange(0, 4)[2]
            == t[2] && t.subrange(0, 4)[3] == t[3]);
        assert(is_digit(dec_digits(y as nat)[0]) && is_digit(dec_digits(y as nat)[1]) && is_digit(
            dec_digits(y as nat)[2],
        ) && is_digit(dec_digits(y as nat)[3]));
    }
    assert(is_digit(t[5]) && is_digit(t[6])) by {
        assert(t.subrange(5, 7)[0] == t[5] && t.subrange(5, 7)[1] == t[6]);
    }
    assert(is_digit(t[8]) && is_digit(t[9])) by {
        assert(t.subrange(8, 10)[0] == t[8] && t.subrange(8, 10)[1] == t[9]);
    }
    assert(is_digit(t[11]) && is_digit(t[12])) by {
        assert(t.subrange(11, 13)[0] == t[11] && t.subrange(11, 13)[1] == t[12]);
    }
    assert(is_digit(t[14]) && is_digit(t[15])) by {
        assert(t.subrange(14, 16)[0] == t[14] && t.subrange(14, 16)[1] == t[15]);
    }
    assert(is_digit(t[17]) && is_digit(t[18])) by {
        assert(t.subrange(17, 19)[0] == t[17] && t.subrange(17, 19)[1] == t[18]);
    }
    assert(!is_digit(t[4]));
    assert(t.len() == 19 || (t.len() == 20 && t[19] == 'Z'));
}

/// Positional facts for the date-only form.
proof fn lemma_date_text_facts(y: int, m: int, d: int)
    requires
        valid_civil_date(y, m, d),
    ensures
        date_text(y, m, d).len() == 10,
        parse_date_spec(date_text(y, m, d)) == Some(epoch_of(y, m, d, 0, 0, 0)),
{
    let t = date_text(y, m, d);
    lemma_dec_digits_len4(y as nat);
    lemma_two_digits_val(m);
    lemma_two_digits_val(d);
    assert(t.subrange(0, 4) =~= dec_digits(y as nat));
    assert(t.subrange(5, 7) =~= two_digits(m));
    assert(t.subrange(8, 10) =~= two_digits(d));
    assert(t[4] == '-' && t[7] == '-');
    assert(is_digit(t[0]) && is_digit(t[1]) && is_digit(t[2]) && is_digit(t[3])) by {
        assert(t.subrange(0, 4)[0] == t[0] && t.subrange(0, 4)[1] == t[1] && t.subrange(0, 4)[2]
            == t[2] && t.subrange(0, 4)[3] == t[3]);
        assert(is_digit(dec_digits(y as nat)[0]) && is_digit(dec_digits(y as nat)[1]) && is_digit(
            dec_digits(y as nat)[2],
        ) && is_digit(dec_digits(y as nat)[3]));
    }
    assert(is_digit(t[5]) && is_digit(t[6])) by {
        assert(t.subrange(5, 7)[0] == t[5] && t.subrange(5, 7)[1] == t[6]);
    }
    assert(is_digit(t[8]) && is_digit(t[9])) by {
        assert(t.subrange(8, 10)[0] == t[8] && t.subrange(8, 10)[1] == t[9]);
    }
    assert(!is_digit(t[4]));
    assert(t.len() == 10);
}

fn push_2d(out: &mut String, v: u64)
    requires
        v < 100,
    ensures
        final(out)@ == old(out)@ + two_digits(v as int),
{
    push_char(out, digit_to_char(v / 10));
    push_char(out, digit_to_char(v % 10));
    proof {
        assert(old(out)@.push(digit_char((v / 10) as int)).push(
            digit_char((v % 10) as int),
        ) =~= old(out)@ + two_digits(v as int));
    }
}

/// Renders an epoch value as `YYYY-MM-DDTHH:MM:SSZ`; the result is itself
/// an accepted date encoding and reads back as the same canonical value.
#[verifier::rlimit(60)]
pub fn format_date(e: u64) -> (r: String)
    requires
        e <= MAX_EPOCH,
    ensures
        r@.len() == 20,
        r@ == disk_date_text(e as int),
        parse_date_spec(r@) == Some(e as int),
        forall|i: int| 0 <= i < r@.len() ==> #[trigger] r@[i] != '\n',
{
    let (y, m, d, h, mi, s) = epoch_to_civil(e);
    let mut out = String::new();
    push_dec(&mut out, y);
    push_char(&mut out, '-');
    push_2d(&mut out, m);
    push_char(&mut out, '-');
    push_2d(&mut out, d);
    push_char(&mut out, 'T');
    push_2d(&mut out, h);
    push_char(&mut out, ':');
    push_2d(&mut out, mi);
    push_char(&mut out, ':');
    push_2d(&mut out, s);
    push_char(&mut out, 'Z');
    proof {
        let t = datetime_text(y as int, m as int, d as int, h as int, mi as int, s as int)
            + seq!['Z'];
        assert(out@ =~= t);
        lemma_date_encodings_agree(y as int, m as int, d as int, h as int, mi as int, s as int);
        lemma_datetime_positions(y as int, m as int, d as int, h as int, mi as int, s as int, t);
        assert forall|i: int| 0 <= i < t.len() implies #[trigger] t[i] != '\n' by {
            if i == 4 || i == 7 || i == 10 || i == 13 || i == 16 || i == 19 {
            } else {
                assert(is_digit(t[i]));
            }
        }
    }
    out
}

pub proof fn lemma_days_before_year_mono(y1: int, y2: int)
    requires
        1970 <= y1 <= y2,
    ensures
        days_before_year(y1) <= days_before_year(y2),
        y1 < y2 ==> days_before_year(y1) + days_in_year(y1) <= days_before_year(y2),
    decreases y2 - y1,
{
    if y1 < y2 {
        lemma_days_before_year_mono(y1, y2 - 1);
    }
}

pub proof fn lemma_days_before_month_mono(y: int, m1: int, m2: int)
    requires
        1 <= m1 <= m2 <= 13,
    ensures
        days_before_month(y, m1) <= days_before_month(y, m2),
        m1 < m2 ==> days_before_month(y, m1) + days_in_month(y, m1) <= days_before_month(y, m2),
    decreases m2 - m1,
{
    if m1 < m2 {
        lemma_days_before_month_mono(y, m1, m2 - 1);
    }
}

/// No two valid civil dates and times share a canonical value.
pub proof fn lemma_civil_unique(
    y1: int,
    m1: int,
    d1: int,
    h1: int,
    mi1: int,
    s1: int,
    y2: int,
    m2: int,
    d2: int,
    h2: int,
    mi2: int,
    s2: int,
)
    requires
        valid_civil_date(y1, m1, d1),
        valid_time(h1, mi1, s1),
        valid_civil_date(y2, m2, d2),
        valid_time(h2, mi2, s2),
        epoch_of(y1, m1, d1, h1, mi1, s1) == epoch_of(y2, m2, d2, h2, mi2, s2),
    ensures
        y1 == y2 && m1 == m2 && d1 == d2 && h1 == h2 && mi1 == mi2 && s1 == s2,
{
    let dd1 = days_before_year(y1) + days_before_month(y1, m1) + d1 - 1;
    let dd2 = days_before_year(y2) + days_before_month(y2, m2) + d2 - 1;
    let t1 = h1 * 3600 + mi1 * 60 + s1;
    let t2 = h2 * 3600 + mi2 * 60 + s2;
    lemma_days_before_year_bounds(y1);
    lemma_days_before_year_bounds(y2);
    lemma_months_total(y1);
    lemma_months_total(y2);
    lemma_days_before_month_mono(y1, 1, m1);
    lemma_days_before_month_mono(y2, 1, m2);
    assert(0 <= t1 < 86400 && 0 <= t2 < 86400);
    assert(dd1 >= 0 && dd2 >= 0);
    let e = epoch_of(y1, m1, d1, h1, mi1, s1);
    lemma_fundamental_div_mod_converse_div(e, 86400, dd1, t1);
    lemma_fundamental_div_mod_converse_div(e, 86400, dd2, t2);
    assert(dd1 == dd2);
    assert(t1 == t2);
    lemma_fundamental_div_mod_converse_div(t1, 3600, h1, mi1 * 60 + s1);
    lemma_fundamental_div_mod_converse_div(t2, 3600, h2, mi2 * 60 + s2);
    assert(h1 == h2);
    lemma_fundamental_div_mod_converse_div(mi1 * 60 + s1, 60, mi1, s1);
    lemma_fundamental_div_mod_converse_div(mi2 * 60 + s2, 60, mi2, s2);
    assert(mi1 == mi2 && s1 == s2);
    if y1 < y2 {
        lemma_days_before_year_mono(y1, y2);
        lemma_days_before_month_mono(y1, m1, 13);
        assert(false);
    }
    if y2 < y1 {
        lemma_days_before_year_mono(y2, y1);
        lemma_days_before_month_mono(y2, m2, 13);
        assert(false);
    }
    if m1 < m2 {
        lemma_days_before_month_mono(y1, m1, m2);
        assert(false);
    }
    if m2 < m1 {
        lemma_days_before_month_mono(y1, m2, m1);
        assert(false);
    }
}

/// The civil decomposition of an epoch value: the one valid civil date and
/// time that `epoch_of` maps to it.
pub open spec fn civil_of(e: int) -> (int, int, int, int, int, int) {
    choose|t: (int, int, int, int, int, int)|
        valid_civil_date(t.0, t.1, t.2) && valid_time(t.3, t.4, t.5) && epoch_of(
            t.0,
            t.1,
            t.2,
            t.3,
            t.4,
            t.5,
        ) == e
}

/// The disk rendering of an epoch value: its civil decomposition as
/// `YYYY-MM-DDTHH:MM:SSZ`.
pub open spec fn disk_date_text(e: int) -> Seq<char> {
    datetime_text(
        civil_of(e).0,
        civil_of(e).1,
        civil_of(e).2,
        civil_of(e).3,
        civil_of(e).4,
        civil_of(e).5,
    ) + seq!['Z']
}

/// Reads a date in any accepted encoding from a string.
pub fn parse_date(s: &str) -> (r: Option<i64>)
    ensures
        match r {
            Some(t) => parse_date_spec(s@) == Some(t as int) && 0 <= t <= MAX_EPOCH,
            None => parse_date_spec(s@) is None,
        },
{
    let v = crate::chars::to_chars(s);
    proof {
        assert(v@.subrange(0, v@.len() as int) =~= s@);
    }
    match parse_date_range(v.as_slice(), 0, v.len()) {
        Some(t) => Some(t as i64),
        None => None,
    }
}

} // verus!
