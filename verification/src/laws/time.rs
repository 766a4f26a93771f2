//! Points in time.

use crate::laws;
use crate::time;
use vstd::prelude::*;

verus! {

/// Whether the year has a leap day: every fourth has, but of the full hundreds
/// only every fourth.
pub open spec fn leaps(y: int) -> bool {
    if y % 100 == 0 {
        y % 400 == 0
    } else {
        y % 4 == 0
    }
}

/// Number of days before the month in a year without a leap day.
pub open spec fn days_ahead_of(m: int) -> int {
    if m == 1 {
        0
    } else if m == 2 {
        31
    } else if m == 3 {
        59
    } else if m == 4 {
        90
    } else if m == 5 {
        120
    } else if m == 6 {
        151
    } else if m == 7 {
        181
    } else if m == 8 {
        212
    } else if m == 9 {
        243
    } else if m == 10 {
        273
    } else if m == 11 {
        304
    } else {
        334
    }
}

/// Number of days from 1970 to a date.
pub open spec fn day_number(y: int, m: int, d: int) -> int {
    365 * y + (y + 3) / 4 - (y + 99) / 100 + (y + 399) / 400 + days_ahead_of(m) + (if m > 2
        && leaps(y) {
        1int
    } else {
        0int
    }) + d - 1 - 719528
}

/// Number of days of a month.
pub open spec fn last_day(y: int, m: int) -> int {
    if m == 12 {
        31
    } else {
        days_ahead_of(m + 1) - days_ahead_of(m) + if m == 2 && leaps(y) {
            1int
        } else {
            0int
        }
    }
}

proof fn lemma_years(y: int)
    requires
        y >= 0,
    ensures
        time::days_before_year(y) == 365 * y + (y + 3) / 4 - (y + 99) / 100 + (y + 399) / 400,
    decreases y,
{
    if y > 0 {
        lemma_years(y - 1);
    }
}

proof fn lemma_date(y: int, m: int, d: int)
    requires
        y >= 0,
        1 <= m <= 12,
    ensures
        time::days_before_year(y) + time::days_before_month(y, m) + d - 1 - time::EPOCH_DAYS
            == day_number(y, m, d),
        time::month_len(y, m) == last_day(y, m),
{
    lemma_years(y);
    reveal_with_fuel(time::days_before_month, 13);
}

/// The number that the digits of the text from `lo` up to `hi` write.
pub open spec fn part(s: Seq<char>, lo: int, hi: int) -> int {
    laws::text::value_of(s.subrange(lo, hi))
}

/// Whether the text has digits from `lo` up to `hi`.
pub open spec fn has_digits(s: Seq<char>, lo: int, hi: int) -> bool {
    forall|i: int| lo <= i < hi ==> '0' <= #[trigger] s[i] && s[i] <= '9'
}

proof fn lemma_number(s: Seq<char>)
    requires
        forall|i: int| 0 <= i < s.len() ==> '0' <= #[trigger] s[i] && s[i] <= '9',
    ensures
        time::number(s) == laws::text::value_of(s),
    decreases s.len(),
{
    if s.len() > 0 {
        let d = s.drop_last();
        assert forall|i: int| 0 <= i < d.len() implies '0' <= #[trigger] d[i] && d[i] <= '9' by {
            assert(d[i] == s[i]);
        }
        lemma_number(d);
        assert('0' <= s[s.len() - 1]);
    }
}

proof fn lemma_part(s: Seq<char>, lo: int, hi: int)
    requires
        0 <= lo <= hi <= s.len(),
        has_digits(s, lo, hi),
    ensures
        time::number(s.subrange(lo, hi)) == part(s, lo, hi),
        time::digits(s, lo, hi),
{
    let p = s.subrange(lo, hi);
    assert forall|i: int| 0 <= i < p.len() implies '0' <= #[trigger] p[i] && p[i] <= '9' by {
        assert(p[i] == s[lo + i]);
    }
    lemma_number(p);
}

/// Whether the text begins with a date and a time of day, in digits.
pub open spec fn shows_clock(s: Seq<char>) -> bool {
    &&& s.len() >= 19
    &&& has_digits(s, 0, 4) && s[4] == '-' && has_digits(s, 5, 7) && s[7] == '-' && has_digits(
        s,
        8,
        10,
    )
    &&& s[10] == 'T'
    &&& has_digits(s, 11, 13) && s[13] == ':' && has_digits(s, 14, 16) && s[16] == ':'
        && has_digits(s, 17, 19)
}

/// Whether there is such a date and such a time of day.
pub open spec fn is_true_clock(s: Seq<char>) -> bool {
    &&& 1 <= part(s, 5, 7) <= 12
    &&& 1 <= part(s, 8, 10) <= last_day(part(s, 0, 4), part(s, 5, 7))
    &&& part(s, 11, 13) <= 23
    &&& part(s, 14, 16) <= 59
    &&& part(s, 17, 19) <= 59
}

proof fn lemma_parts(s: Seq<char>)
    requires
        shows_clock(s),
    ensures
        time::starts_with_clock(s),
        time::is_clock(s) == is_true_clock(s),
        time::is_clock(s) ==> time::clock_minutes(s) == (day_number(
            part(s, 0, 4),
            part(s, 5, 7),
            part(s, 8, 10),
        ) * 24 + part(s, 11, 13)) * 60 + part(s, 14, 16),
        time::number(s.subrange(17, 19)) == part(s, 17, 19),
{
    lemma_part(s, 0, 4);
    lemma_part(s, 5, 7);
    lemma_part(s, 8, 10);
    lemma_part(s, 11, 13);
    lemma_part(s, 14, 16);
    lemma_part(s, 17, 19);
    let m = part(s, 5, 7);
    if 1 <= m <= 12 {
        lemma_date(part(s, 0, 4), m, part(s, 8, 10));
    }
}

/// A date and a time of day in UTC are that many milliseconds from 1970 on, and
/// nothing where there are none such.
pub proof fn lemma_instant(s: Seq<char>)
    requires
        shows_clock(s),
        s.len() == 20,
        s[19] == 'Z',
    ensures
        time::iso_ms(s) is Some <==> is_true_clock(s),
        time::iso_ms(s) is Some ==> time::iso_ms(s)->Some_0 == (((day_number(
            part(s, 0, 4),
            part(s, 5, 7),
            part(s, 8, 10),
        ) * 24 + part(s, 11, 13)) * 60 + part(s, 14, 16)) * 60 + part(s, 17, 19)) * 1000,
{
    lemma_parts(s);
}

proof fn lemma_same_clock(a: Seq<char>, b: Seq<char>)
    requires
        a.len() >= 19,
        b.len() >= 19,
        a.take(19) == b.take(19),
    ensures
        time::starts_with_clock(a) == time::starts_with_clock(b),
        time::is_clock(a) == time::is_clock(b),
        time::clock_minutes(a) == time::clock_minutes(b),
        a.subrange(17, 19) == b.subrange(17, 19),
{
    assert forall|i: int|
        #![trigger a[i]]
        #![trigger b[i]]
        0 <= i < 19 implies a[i] == b[i] by {
        assert(a.take(19)[i] == a[i]);
        assert(b.take(19)[i] == b[i]);
    }
    assert(time::digits(a, 0, 4) == time::digits(b, 0, 4));
    assert(time::digits(a, 5, 7) == time::digits(b, 5, 7));
    assert(time::digits(a, 8, 10) == time::digits(b, 8, 10));
    assert(time::digits(a, 11, 13) == time::digits(b, 11, 13));
    assert(time::digits(a, 14, 16) == time::digits(b, 14, 16));
    assert(time::digits(a, 17, 19) == time::digits(b, 17, 19));
    assert(a.subrange(0, 4) =~= b.subrange(0, 4));
    assert(a.subrange(5, 7) =~= b.subrange(5, 7));
    assert(a.subrange(8, 10) =~= b.subrange(8, 10));
    assert(a.subrange(11, 13) =~= b.subrange(11, 13));
    assert(a.subrange(14, 16) =~= b.subrange(14, 16));
    assert(a.subrange(17, 19) =~= b.subrange(17, 19));
}

/// A zone ahead of UTC makes the instant earlier by as much, and one behind it
/// later.
pub proof fn lemma_zones(clock: Seq<char>, sign: char, zone: Seq<char>)
    requires
        clock.len() == 19,
        sign == '+' || sign == '-',
        zone.len() == 5,
        has_digits(zone, 0, 2),
        zone[2] == ':',
        has_digits(zone, 3, 5),
        part(zone, 0, 2) <= 23,
        part(zone, 3, 5) <= 59,
    ensures
        ({
            let local = time::iso_ms(clock + seq![sign] + zone);
            let utc = time::iso_ms(clock + seq!['Z']);
            let ahead = (part(zone, 0, 2) * 60 + part(zone, 3, 5)) * 60000;
            &&& local is Some == utc is Some
            &&& utc is Some && sign == '+' ==> local->Some_0 == utc->Some_0 - ahead
            &&& utc is Some && sign == '-' ==> local->Some_0 == utc->Some_0 + ahead
        }),
{
    let a = clock + seq![sign] + zone;
    let b = clock + seq!['Z'];
    assert(a.take(19) =~= b.take(19));
    lemma_same_clock(a, b);
    lemma_part(zone, 0, 2);
    lemma_part(zone, 3, 5);
    assert(a.subrange(20, 22) =~= zone.subrange(0, 2));
    assert(a.subrange(23, 25) =~= zone.subrange(3, 5));
    assert(a[19] == sign);
    assert(a[22] == ':');
    assert(time::digits(a, 20, 22)) by {
        assert(a[20] == zone[0] && a[21] == zone[1]);
    }
    assert(time::digits(a, 23, 25)) by {
        assert(a[23] == zone[3] && a[24] == zone[4]);
    }
    assert(b[19] == 'Z');
}

proof fn lemma_digits_end(s: Seq<char>, i: int, k: int)
    requires
        0 <= i <= k <= s.len(),
        has_digits(s, i, k),
        k < s.len() ==> !('0' <= s[k] && s[k] <= '9'),
    ensures
        time::digits_end(s, i) == k,
    decreases k - i,
{
    if i < k {
        assert('0' <= s[i]);
        lemma_digits_end(s, i + 1, k);
    }
}

/// A fraction of a second counts to its third digit.
pub proof fn lemma_fractions(clock: Seq<char>, fraction: Seq<char>)
    requires
        clock.len() == 19,
        fraction.len() > 0,
        has_digits(fraction, 0, fraction.len() as int),
    ensures
        ({
            let exact = time::iso_ms(clock + seq!['.'] + fraction + seq!['Z']);
            let whole = time::iso_ms(clock + seq!['Z']);
            let n = fraction.len();
            &&& exact is Some == whole is Some
            &&& whole is Some && n >= 3 ==> exact->Some_0 == whole->Some_0 + part(fraction, 0, 3)
            &&& whole is Some && n == 2 ==> exact->Some_0 == whole->Some_0 + 10 * part(
                fraction,
                0,
                2,
            )
            &&& whole is Some && n == 1 ==> exact->Some_0 == whole->Some_0 + 100 * part(
                fraction,
                0,
                1,
            )
        }),
{
    let a = clock + seq!['.'] + fraction + seq!['Z'];
    let b = clock + seq!['Z'];
    let n = fraction.len() as int;
    assert(a.take(19) =~= b.take(19));
    lemma_same_clock(a, b);
    assert(a[19] == '.');
    assert(b[19] == 'Z');
    assert forall|i: int| 20 <= i < 20 + n implies '0' <= #[trigger] a[i] && a[i] <= '9' by {
        assert(a[i] == fraction[i - 20]);
    }
    assert(a[20 + n] == 'Z');
    lemma_digits_end(a, 20, 20 + n);
    assert(a.subrange(20, 20 + n) =~= fraction);
    lemma_part(fraction, 0, if n >= 3 { 3int } else { n });
    assert(n >= 3 ==> fraction.take(3) =~= fraction.subrange(0, 3));
    assert(n < 3 ==> fraction =~= fraction.subrange(0, n));
}

} // verus!
