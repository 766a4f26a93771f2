//! Points in time.

use crate::text;
use vstd::prelude::*;

verus! {

/// Whether `c` is a decimal digit.
pub open spec fn is_digit(c: char) -> bool {
    '0' <= c && c <= '9'
}

/// The number that the digits of `s` write.
pub open spec fn number(s: Seq<char>) -> nat
    decreases s.len(),
{
    if s.len() == 0 {
        0
    } else {
        number(s.drop_last()) * 10 + (s.last() as int - 48) as nat
    }
}

/// Whether `s` holds digits from `lo` up to `hi`.
pub open spec fn digits(s: Seq<char>, lo: int, hi: int) -> bool {
    &&& 0 <= lo <= hi <= s.len()
    &&& forall|i: int| lo <= i < hi ==> is_digit(#[trigger] s[i])
}

/// The end of the digits that start at `i`.
pub open spec fn digits_end(s: Seq<char>, i: int) -> int
    decreases s.len() - i,
{
    if 0 <= i < s.len() && is_digit(s[i]) {
        digits_end(s, i + 1)
    } else {
        i
    }
}

/// Whether the year has a leap day.
pub open spec fn is_leap(y: int) -> bool {
    y % 4 == 0 && (y % 100 != 0 || y % 400 == 0)
}

/// Number of days of month `m`.
pub open spec fn month_len(y: int, m: int) -> int {
    if m == 2 {
        if is_leap(y) {
            29
        } else {
            28
        }
    } else if m == 4 || m == 6 || m == 9 || m == 11 {
        30
    } else {
        31
    }
}

/// Number of days of the year before month `m`.
pub open spec fn days_before_month(y: int, m: int) -> int
    decreases m,
{
    if m <= 1 {
        0
    } else {
        days_before_month(y, m - 1) + month_len(y, m - 1)
    }
}

/// Number of days of the years from 0 up to `y`.
pub open spec fn days_before_year(y: int) -> int
    decreases y,
{
    if y <= 0 {
        0
    } else {
        days_before_year(y - 1) + if is_leap(y - 1) {
            366int
        } else {
            365int
        }
    }
}

/// Number of days from the year 0 to the start of 1970.
pub const EPOCH_DAYS: i64 = 719528;

/// Milliseconds of the fraction of a second that the digits of `s` write.
pub open spec fn millis(s: Seq<char>) -> nat {
    if s.len() == 0 {
        0
    } else if s.len() == 1 {
        number(s) * 100
    } else if s.len() == 2 {
        number(s) * 10
    } else {
        number(s.take(3))
    }
}

/// Minutes that the zone at `k` is ahead of UTC, where `s` ends with a zone
/// there.
pub open spec fn zone(s: Seq<char>, k: int) -> Option<int> {
    if s.len() == k + 1 && s[k] == 'Z' {
        Some(0)
    } else if s.len() == k + 6 && (s[k] == '+' || s[k] == '-') && digits(s, k + 1, k + 3) && s[k
        + 3] == ':' && digits(s, k + 4, k + 6) && number(s.subrange(k + 1, k + 3)) < 24 && number(
        s.subrange(k + 4, k + 6),
    ) < 60 {
        let m = number(s.subrange(k + 1, k + 3)) * 60 + number(s.subrange(k + 4, k + 6));
        Some(
            if s[k] == '+' {
                m as int
            } else {
                -(m as int)
            },
        )
    } else {
        None
    }
}

/// Whether `s` starts with a date and a time of day, such as
/// `2026-04-20T00:00:03`.
pub open spec fn starts_with_clock(s: Seq<char>) -> bool {
    &&& s.len() >= 19
    &&& digits(s, 0, 4) && s[4] == '-' && digits(s, 5, 7) && s[7] == '-' && digits(s, 8, 10)
    &&& s[10] == 'T'
    &&& digits(s, 11, 13) && s[13] == ':' && digits(s, 14, 16) && s[16] == ':' && digits(s, 17, 19)
}

/// Whether the date and the time of day are ones that there are.
pub open spec fn is_clock(s: Seq<char>) -> bool {
    let y = number(s.subrange(0, 4)) as int;
    let m = number(s.subrange(5, 7)) as int;
    let d = number(s.subrange(8, 10)) as int;
    &&& 1 <= m <= 12
    &&& 1 <= d <= month_len(y, m)
    &&& number(s.subrange(11, 13)) < 24
    &&& number(s.subrange(14, 16)) < 60
    &&& number(s.subrange(17, 19)) < 60
}

/// Minutes from 1970 to the minute that `s` starts with, as if it were UTC.
pub open spec fn clock_minutes(s: Seq<char>) -> int {
    let y = number(s.subrange(0, 4)) as int;
    let m = number(s.subrange(5, 7)) as int;
    let d = number(s.subrange(8, 10)) as int;
    let days = days_before_year(y) + days_before_month(y, m) + d - 1 - EPOCH_DAYS;
    (days * 24 + number(s.subrange(11, 13))) * 60 + number(s.subrange(14, 16))
}

/// Where the zone starts: behind the seconds and their fraction. `None` where a
/// fraction is begun without a digit.
pub open spec fn zone_start(s: Seq<char>) -> Option<int> {
    if s.len() > 19 && s[19] == '.' {
        if digits_end(s, 20) > 20 {
            Some(digits_end(s, 20))
        } else {
            None
        }
    } else {
        Some(19)
    }
}

/// Milliseconds since 1970 of the point in time that `s` writes, where it
/// writes one: a date, a time of day, an optional fraction and a zone.
pub open spec fn iso_ms(s: Seq<char>) -> Option<int> {
    if starts_with_clock(s) && is_clock(s) {
        match zone_start(s) {
            Some(k) => match zone(s, k) {
                Some(off) => Some(
                    ((clock_minutes(s) - off) * 60 + number(s.subrange(17, 19))) * 1000 + millis(
                        if k > 20 {
                            s.subrange(20, k)
                        } else {
                            Seq::empty()
                        },
                    ),
                ),
                None => None,
            },
            None => None,
        }
    } else {
        None
    }
}

proof fn lemma_digits_end(s: Seq<char>, i: int)
    requires
        0 <= i <= s.len(),
    ensures
        i <= digits_end(s, i) <= s.len(),
        digits(s, i, digits_end(s, i)),
    decreases s.len() - i,
{
    if i < s.len() && is_digit(s[i]) {
        lemma_digits_end(s, i + 1);
    }
}

fn check_digits(s: &Vec<char>, lo: usize, hi: usize) -> (r: bool)
    requires
        lo <= hi,
    ensures
        r == digits(s@, lo as int, hi as int),
{
    if hi > s.len() {
        return false;
    }
    let mut i: usize = lo;
    while i < hi
        invariant
            lo <= i <= hi <= s@.len(),
            digits(s@, lo as int, i as int),
        decreases hi - i,
    {
        let c = s[i];
        if !('0' <= c && c <= '9') {
            return false;
        }
        i = i + 1;
    }
    true
}

proof fn lemma_number_bound(s: Seq<char>)
    requires
        s.len() <= 4,
        digits(s, 0, s.len() as int),
    ensures
        number(s) <= 9999,
        s.len() <= 3 ==> number(s) <= 999,
        s.len() <= 2 ==> number(s) <= 99,
        s.len() <= 1 ==> number(s) <= 9,
    decreases s.len(),
{
    if s.len() > 0 {
        let d = s.drop_last();
        assert forall|i: int| 0 <= i < d.len() implies is_digit(#[trigger] d[i]) by {
            assert(d[i] == s[i]);
        }
        lemma_number_bound(d);
        assert(is_digit(s[s.len() - 1]));
        if s.len() == 1 {
            assert(d.len() == 0);
            assert(number(d) == 0);
        }
    }
}

fn read_number(s: &Vec<char>, lo: usize, hi: usize) -> (r: i64)
    requires
        lo <= hi <= lo + 4,
        digits(s@, lo as int, hi as int),
    ensures
        r == number(s@.subrange(lo as int, hi as int)),
        0 <= r <= 9999,
        hi <= lo + 2 ==> r <= 99,
        hi <= lo + 3 ==> r <= 999,
        hi <= lo + 1 ==> r <= 9,
{
    let mut r: i64 = 0;
    let mut i: usize = lo;
    assert(s@.subrange(lo as int, lo as int) =~= Seq::<char>::empty());
    while i < hi
        invariant
            lo <= i <= hi <= lo + 4,
            hi <= s@.len(),
            digits(s@, lo as int, hi as int),
            r == number(s@.subrange(lo as int, i as int)),
            0 <= r <= 9999,
        decreases hi - i,
    {
        let c = s[i];
        assert(is_digit(s@[i as int]));
        proof {
            let p = s@.subrange(lo as int, i + 1);
            assert(p.drop_last() =~= s@.subrange(lo as int, i as int));
            assert(p.last() == c);
            assert forall|k: int| 0 <= k < p.len() implies is_digit(#[trigger] p[k]) by {
                assert(p[k] == s@[lo + k]);
            }
            lemma_number_bound(p);
        }
        r = r * 10 + (c as u32 as i64 - 48);
        i = i + 1;
    }
    proof {
        let p = s@.subrange(lo as int, hi as int);
        assert forall|k: int| 0 <= k < p.len() implies is_digit(#[trigger] p[k]) by {
            assert(p[k] == s@[lo + k]);
        }
        lemma_number_bound(p);
    }
    r
}

fn check_leap(y: i64) -> (r: bool)
    requires
        0 <= y <= 9999,
    ensures
        r == is_leap(y as int),
{
    y % 4 == 0 && (y % 100 != 0 || y % 400 == 0)
}

fn find_month_len(y: i64, m: i64) -> (r: i64)
    requires
        0 <= y <= 9999,
    ensures
        r == month_len(y as int, m as int),
{
    if m == 2 {
        if check_leap(y) {
            29
        } else {
            28
        }
    } else if m == 4 || m == 6 || m == 9 || m == 11 {
        30
    } else {
        31
    }
}

fn count_days(y: i64, m: i64) -> (r: i64)
    requires
        0 <= y <= 9999,
        1 <= m <= 12,
    ensures
        r == days_before_year(y as int) + days_before_month(y as int, m as int),
        0 <= r <= 366 * 10000 + 31 * 12,
{
    let mut r: i64 = 0;
    let mut k: i64 = 0;
    while k < y
        invariant
            0 <= k <= y <= 9999,
            r == days_before_year(k as int),
            0 <= r <= 366 * k,
        decreases y - k,
    {
        r = r + if check_leap(k) {
            366
        } else {
            365
        };
        k = k + 1;
    }
    let mut n: i64 = 1;
    assert(days_before_month(y as int, 1) == 0);
    while n < m
        invariant
            1 <= n <= m <= 12,
            0 <= y <= 9999,
            r == days_before_year(y as int) + days_before_month(y as int, n as int),
            0 <= r <= 366 * y + 31 * (n - 1),
        decreases m - n,
    {
        r = r + find_month_len(y, n);
        n = n + 1;
    }
    r
}

fn find_digits_end(s: &Vec<char>, i: usize) -> (r: usize)
    requires
        i <= s@.len(),
    ensures
        r == digits_end(s@, i as int),
        i <= r <= s@.len(),
{
    let mut k: usize = i;
    while k < s.len() && '0' <= s[k] && s[k] <= '9'
        invariant
            i <= k <= s@.len(),
            digits_end(s@, i as int) == digits_end(s@, k as int),
        decreases s@.len() - k,
    {
        k = k + 1;
    }
    k
}

fn read_zone(s: &Vec<char>, k: usize) -> (r: Option<i64>)
    requires
        k <= s@.len(),
    ensures
        match r {
            Some(off) => zone(s@, k as int) == Some(off as int) && -1440 < off < 1440,
            None => zone(s@, k as int) is None,
        },
{
    let n: usize = s.len();
    if n - k == 1 && s[k] == 'Z' {
        return Some(0);
    }
    if n - k != 6 || !(s[k] == '+' || s[k] == '-') || !check_digits(s, k + 1, k + 3) || s[k + 3]
        != ':' || !check_digits(s, k + 4, k + 6) {
        return None;
    }
    let h: i64 = read_number(s, k + 1, k + 3);
    let m: i64 = read_number(s, k + 4, k + 6);
    if h >= 24 || m >= 60 {
        return None;
    }
    if s[k] == '+' {
        Some(h * 60 + m)
    } else {
        Some(-(h * 60 + m))
    }
}

fn read_millis(s: &Vec<char>, lo: usize, hi: usize) -> (r: i64)
    requires
        lo <= hi,
        digits(s@, lo as int, hi as int),
    ensures
        r == millis(s@.subrange(lo as int, hi as int)),
        0 <= r <= 999,
{
    let n: usize = hi - lo;
    let ghost f = s@.subrange(lo as int, hi as int);
    if n == 0 {
        0
    } else if n == 1 {
        read_number(s, lo, hi) * 100
    } else if n == 2 {
        read_number(s, lo, hi) * 10
    } else {
        assert(f.take(3) =~= s@.subrange(lo as int, lo + 3));
        assert(digits(s@, lo as int, lo + 3));
        read_number(s, lo, lo + 3)
    }
}

fn check_clock_shape(s: &Vec<char>) -> (r: bool)
    ensures
        r == starts_with_clock(s@),
{
    s.len() >= 19 && check_digits(s, 0, 4) && s[4] == '-' && check_digits(s, 5, 7) && s[7] == '-'
        && check_digits(s, 8, 10) && s[10] == 'T' && check_digits(s, 11, 13) && s[13] == ':'
        && check_digits(s, 14, 16) && s[16] == ':' && check_digits(s, 17, 19)
}

/// Milliseconds since 1970 of a point in time such as
/// `2026-04-20T00:00:03.000Z`; `None` where the text writes none.
pub fn parse_iso_ms(ts: &str) -> (r: Option<i64>)
    ensures
        match r {
            Some(ms) => iso_ms(ts@) == Some(ms as int),
            None => iso_ms(ts@) is None,
        },
{
    let s = text::chars_of(ts);
    if !check_clock_shape(&s) {
        return None;
    }
    let y: i64 = read_number(&s, 0, 4);
    let m: i64 = read_number(&s, 5, 7);
    let d: i64 = read_number(&s, 8, 10);
    let h: i64 = read_number(&s, 11, 13);
    let min: i64 = read_number(&s, 14, 16);
    let sec: i64 = read_number(&s, 17, 19);
    if m < 1 || m > 12 || d < 1 || d > find_month_len(y, m) || h >= 24 || min >= 60 || sec >= 60 {
        return None;
    }
    let mut k: usize = 19;
    let mut ms: i64 = 0;
    if s.len() > 19 && s[19] == '.' {
        k = find_digits_end(&s, 20);
        if k == 20 {
            return None;
        }
        proof {
            lemma_digits_end(s@, 20);
        }
        ms = read_millis(&s, 20, k);
    }
    match read_zone(&s, k) {
        Some(off) => {
            let days: i64 = count_days(y, m) + d - 1 - EPOCH_DAYS;
            Some((((days * 24 + h) * 60 + min - off) * 60 + sec) * 1000 + ms)
        },
        None => None,
    }
}

} // verus!
