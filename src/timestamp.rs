use vstd::prelude::*;

use crate::text::{digit_char, push_char};
use crate::validation::{digit_value, is_digit};

verus! {

/// The last second that RFC 3339, with its four-digit years, can write: 9999-12-31T23:59:59Z.
pub const MAX_TIMESTAMP: u64 = 253402300799;

pub open spec fn is_leap(y: int) -> bool {
    (y % 4 == 0 && y % 100 != 0) || y % 400 == 0
}

pub open spec fn year_days(y: int) -> int {
    if is_leap(y) {
        366
    } else {
        365
    }
}

pub open spec fn month_days(y: int, m: int) -> int {
    if m == 2 {
        if is_leap(y) {
            29
        } else {
            28
        }
    } else if m == 4 || m == 6 || m == 9 || m == 11 {
        30
    } else {
        31
    }
}

/// Leap years from year 1 through `x`.
pub open spec fn leaps_through(x: int) -> int {
    x / 4 - x / 100 + x / 400
}

/// Days from 1970-01-01 to January 1st of year `y`.
pub open spec fn days_before_year(y: int) -> int {
    365 * (y - 1970) + leaps_through(y - 1) - leaps_through(1969)
}

/// Days from January 1st to the first of month `m` (1 to 12) of year `y`.
pub open spec fn days_before_month(y: int, m: int) -> int {
    seq![0int, 31, 59, 90, 120, 151, 181, 212, 243, 273, 304, 334][m - 1] + if m > 2 && is_leap(y) {
        1int
    } else {
        0
    }
}

/// Seconds since the epoch of a UTC date and time.
pub open spec fn epoch_seconds(y: int, mo: int, d: int, h: int, mi: int, s: int) -> int {
    (days_before_year(y) + days_before_month(y, mo) + d - 1) * 86400 + h * 3600 + mi * 60 + s
}

/// The year that day `days` (counted from January 1st of year `y`) falls in, and its day in
/// that year.
pub open spec fn year_of(days: int, y: int) -> (int, int)
    decreases days,
{
    if days < year_days(y) || days < 0 {
        (y, days)
    } else {
        year_of(days - year_days(y), y + 1)
    }
}

/// The month that day `doy` (counted from the first of month `m`) falls in, and its day in
/// that month.
pub open spec fn month_of(doy: int, y: int, m: int) -> (int, int)
    decreases 13 - m,
{
    if m >= 12 || doy < month_days(y, m) {
        (m, doy)
    } else {
        month_of(doy - month_days(y, m), y, m + 1)
    }
}

/// The 20 characters `YYYY-MM-DDTHH:MM:SSZ` of a date and time.
pub open spec fn time_chars(y: int, mo: int, d: int, h: int, mi: int, s: int) -> Seq<char> {
    seq![
        digit_char((y / 1000) as nat), digit_char((y / 100 % 10) as nat), digit_char((y / 10 % 10) as nat),
        digit_char((y % 10) as nat), '-', digit_char((mo / 10) as nat), digit_char((mo % 10) as nat), '-',
        digit_char((d / 10) as nat), digit_char((d % 10) as nat), 'T', digit_char((h / 10) as nat),
        digit_char((h % 10) as nat), ':', digit_char((mi / 10) as nat), digit_char((mi % 10) as nat), ':',
        digit_char((s / 10) as nat), digit_char((s % 10) as nat), 'Z',
    ]
}

/// The RFC 3339 text (UTC, whole seconds) of a time in seconds since the epoch.
pub open spec fn rfc3339(n: nat) -> Seq<char> {
    let yd = year_of(n as int / 86400, 1970);
    let md = month_of(yd.1, yd.0, 1);
    let r = n as int % 86400;
    time_chars(yd.0, md.0, md.1 + 1, r / 3600, r % 3600 / 60, r % 60)
}

pub open spec fn two(w: Seq<char>, i: int) -> int {
    digit_value(w[i]) * 10 + digit_value(w[i + 1])
}

/// Whether 20 characters are an RFC 3339 UTC time from 1970 on, in whole seconds.
pub open spec fn is_time_text(w: Seq<char>) -> bool {
    &&& w.len() == 20
    &&& forall|i: int|
        0 <= i < 20 && i != 4 && i != 7 && i != 10 && i != 13 && i != 16 && i != 19 ==> is_digit(
            #[trigger] w[i],
        )
    &&& w[4] == '-' && w[7] == '-' && w[10] == 'T' && w[13] == ':' && w[16] == ':' && w[19] == 'Z'
    &&& 1970 <= two(w, 0) * 100 + two(w, 2)
    &&& 1 <= two(w, 5) <= 12
    &&& 1 <= two(w, 8) <= month_days(two(w, 0) * 100 + two(w, 2), two(w, 5))
    &&& two(w, 11) < 24 && two(w, 14) < 60 && two(w, 17) < 60
}

/// The seconds since the epoch that RFC 3339 text stands for.
pub open spec fn time_value(w: Seq<char>) -> int {
    epoch_seconds(two(w, 0) * 100 + two(w, 2), two(w, 5), two(w, 8), two(w, 11), two(w, 14), two(w, 17))
}

// ---------------------------------------------------------------------------
proof fn lemma_year_step(y: int)
    ensures
        days_before_year(y + 1) == days_before_year(y) + year_days(y),
{
    assert(leaps_through(y) - leaps_through(y - 1) == if is_leap(y) { 1int } else { 0 }) by {
        assert(y / 4 - (y - 1) / 4 == if y % 4 == 0 { 1int } else { 0 });
        assert(y / 100 - (y - 1) / 100 == if y % 100 == 0 { 1int } else { 0 });
        assert(y / 400 - (y - 1) / 400 == if y % 400 == 0 { 1int } else { 0 });
        if y % 400 == 0 {
            assert(y % 100 == 0 && y % 4 == 0);
        } else if y % 100 == 0 {
            assert(y % 4 == 0);
        }
    }
}

proof fn lemma_years_grow(a: int, b: int)
    requires
        a <= b,
    ensures
        days_before_year(a) <= days_before_year(b),
    decreases b - a,
{
    if a < b {
        lemma_years_grow(a, b - 1);
        lemma_year_step(b - 1);
    }
}

proof fn lemma_year_of(days: int, y: int)
    requires
        days >= 0,
    ensures
        year_of(days, y).0 >= y,
        0 <= year_of(days, y).1 < year_days(year_of(days, y).0),
        days_before_year(year_of(days, y).0) + year_of(days, y).1 == days_before_year(y) + days,
    decreases days,
{
    if days >= year_days(y) {
        lemma_year_step(y);
        lemma_year_of(days - year_days(y), y + 1);
    }
}

proof fn lemma_month_step(y: int, m: int)
    requires
        1 <= m <= 11,
    ensures
        days_before_month(y, m + 1) == days_before_month(y, m) + month_days(y, m),
{
}

proof fn lemma_month_of(doy: int, y: int, m: int)
    requires
        1 <= m <= 12,
        0 <= doy,
        doy + days_before_month(y, m) < year_days(y),
    ensures
        m <= month_of(doy, y, m).0 <= 12,
        0 <= month_of(doy, y, m).1 < month_days(y, month_of(doy, y, m).0),
        days_before_month(y, month_of(doy, y, m).0) + month_of(doy, y, m).1 == days_before_month(y, m)
            + doy,
    decreases 13 - m,
{
    if m < 12 && doy >= month_days(y, m) {
        lemma_month_step(y, m);
        lemma_month_of(doy - month_days(y, m), y, m + 1);
    }
}

proof fn lemma_digit(k: int)
    requires
        0 <= k < 10,
    ensures
        is_digit(digit_char(k as nat)),
        digit_value(digit_char(k as nat)) == k,
{
}

proof fn lemma_two(k: int)
    requires
        0 <= k < 100,
    ensures
        digit_value(digit_char((k / 10) as nat)) * 10 + digit_value(digit_char((k % 10) as nat)) == k,
        is_digit(digit_char((k / 10) as nat)),
        is_digit(digit_char((k % 10) as nat)),
{
    lemma_digit(k / 10);
    lemma_digit(k % 10);
}

#[verifier::rlimit(50)]
proof fn lemma_time_chars(y: int, mo: int, d: int, h: int, mi: int, s: int)
    requires
        1970 <= y < 10000,
        1 <= mo <= 12,
        1 <= d <= month_days(y, mo),
        0 <= h < 24,
        0 <= mi < 60,
        0 <= s < 60,
    ensures
        is_time_text(time_chars(y, mo, d, h, mi, s)),
        time_value(time_chars(y, mo, d, h, mi, s)) == epoch_seconds(y, mo, d, h, mi, s),
{
    let w = time_chars(y, mo, d, h, mi, s);
    lemma_two(y / 100);
    lemma_two(y % 100);
    assert(y / 100 / 10 == y / 1000 && y / 100 % 10 == y / 100 % 10);
    assert(y % 100 / 10 == y / 10 % 10 && y % 100 % 10 == y % 10);
    lemma_two(mo);
    lemma_two(d);
    lemma_two(h);
    lemma_two(mi);
    lemma_two(s);
    assert(two(w, 0) == y / 100);
    assert(two(w, 2) == y % 100);
    assert(two(w, 0) * 100 + two(w, 2) == y);
    assert(two(w, 5) == mo);
    assert(two(w, 8) == d);
    assert(two(w, 11) == h);
    assert(two(w, 14) == mi);
    assert(two(w, 17) == s);
}

/// RFC 3339 text reads back as the time it was written for.
#[verifier::rlimit(100)]
pub proof fn lemma_rfc3339_round_trip(n: nat)
    requires
        n <= MAX_TIMESTAMP,
    ensures
        is_time_text(rfc3339(n)),
        time_value(rfc3339(n)) == n,
{
    let days = n as int / 86400;
    lemma_year_of(days, 1970);
    let yd = year_of(days, 1970);
    let y = yd.0;
    assert(days_before_year(1970) == 0);
    assert(days_before_year(10000) == 2932897);
    if y >= 10000 {
        lemma_years_grow(10000, y);
    }
    assert(days_before_month(y, 1) == 0);
    lemma_month_of(yd.1, y, 1);
    let md = month_of(yd.1, y, 1);
    let r = n as int % 86400;
    lemma_time_chars(y, md.0, md.1 + 1, r / 3600, r % 3600 / 60, r % 60);
    assert((r / 3600) * 3600 + (r % 3600 / 60) * 60 + r % 60 == r);
    assert(days * 86400 + r == n);
}

// ---------------------------------------------------------------------------
fn push_digit(out: &mut String, k: u64)
    requires
        k < 10,
    ensures
        final(out)@ == old(out)@.push(digit_char(k as nat)),
{
    let digits = "0123456789";
    proof {
        reveal_strlit("0123456789");
    }
    let c = digits.get_char(k as usize);
    push_char(out, c);
}

/// Appends the RFC 3339 text of `n` seconds since the epoch.
pub fn push_rfc3339(out: &mut String, n: u64)
    requires
        n <= MAX_TIMESTAMP,
    ensures
        final(out)@ == old(out)@ + rfc3339(n as nat),
{
    let mut days: u64 = n / 86400;
    let mut y: u64 = 1970;
    while days >= year_len(y)
        invariant
            1970 <= y <= 1970 + n / 86400 - days,
            days <= n / 86400,
            year_of((n / 86400) as int, 1970) == year_of(days as int, y as int),
        decreases days,
    {
        days = days - year_len(y);
        y = y + 1;
    }
    let mut doy = days;
    let mut m: u64 = 1;
    while m < 12 && doy >= month_len(y, m)
        invariant
            1 <= m <= 12,
            y <= 1970 + n / 86400,
            year_of((n / 86400) as int, 1970) == (y as int, days as int),
            month_of(days as int, y as int, 1) == month_of(doy as int, y as int, m as int),
        decreases 13 - m,
    {
        doy = doy - month_len(y, m);
        m = m + 1;
    }
    proof {
        lemma_year_of((n / 86400) as int, 1970);
        assert(days_before_year(1970) == 0);
        assert(days_before_year(10000) == 2932897);
        if y >= 10000 {
            lemma_years_grow(10000, y as int);
        }
        assert(days_before_month(y as int, 1) == 0);
        assert(month_of(days as int, y as int, 1) == (m as int, doy as int));
        lemma_month_of(days as int, y as int, 1);
    }
    let d = doy + 1;
    let r = n % 86400;
    let (h, mi, s) = (r / 3600, r % 3600 / 60, r % 60);
    push_digit(out, y / 1000);
    push_digit(out, y / 100 % 10);
    push_digit(out, y / 10 % 10);
    push_digit(out, y % 10);
    push_char(out, '-');
    push_digit(out, m / 10);
    push_digit(out, m % 10);
    push_char(out, '-');
    push_digit(out, d / 10);
    push_digit(out, d % 10);
    push_char(out, 'T');
    push_digit(out, h / 10);
    push_digit(out, h % 10);
    push_char(out, ':');
    push_digit(out, mi / 10);
    push_digit(out, mi % 10);
    push_char(out, ':');
    push_digit(out, s / 10);
    push_digit(out, s % 10);
    push_char(out, 'Z');
    assert(final(out)@ =~= old(out)@ + rfc3339(n as nat));
}

fn year_len(y: u64) -> (r: u64)
    ensures
        r == year_days(y as int),
{
    if (y % 4 == 0 && y % 100 != 0) || y % 400 == 0 {
        366
    } else {
        365
    }
}

fn month_len(y: u64, m: u64) -> (r: u64)
    ensures
        r == month_days(y as int, m as int),
{
    if m == 2 {
        if (y % 4 == 0 && y % 100 != 0) || y % 400 == 0 {
            29
        } else {
            28
        }
    } else if m == 4 || m == 6 || m == 9 || m == 11 {
        30
    } else {
        31
    }
}

/// An RFC 3339 time followed by a newline at `p`: the seconds since the epoch and the position
/// after the newline.
pub open spec fn parse_time_line(t: Seq<char>, p: int) -> Option<(nat, int)> {
    if 0 <= p && p + 21 <= t.len() && is_time_text(t.subrange(p, p + 20)) && t[p + 20] == '\n' && 0
        <= time_value(t.subrange(p, p + 20)) <= u64::MAX {
        Some((time_value(t.subrange(p, p + 20)) as nat, p + 21))
    } else {
        None
    }
}

/// The time written at `p`, followed by a newline, reads back.
pub proof fn lemma_parse_time_line(t: Seq<char>, p: int, n: nat)
    requires
        0 <= p,
        n <= MAX_TIMESTAMP,
        p + 21 <= t.len(),
        t.subrange(p, p + 21) == rfc3339(n) + seq!['\n'],
    ensures
        parse_time_line(t, p) == Some((n, p + 21)),
{
    lemma_rfc3339_round_trip(n);
    assert(t.subrange(p, p + 20) =~= rfc3339(n));
    assert(t[p + 20] == t.subrange(p, p + 21)[20]);
}

fn two_at(t: &Vec<char>, q: usize) -> (r: Option<u64>)
    requires
        q + 1 < t.len(),
    ensures
        r is Some <==> is_digit(t@[q as int]) && is_digit(t@[q + 1]),
        r is Some ==> r->0 == digit_value(t@[q as int]) * 10 + digit_value(t@[q + 1]),
{
    let a = t[q];
    let b = t[q + 1];
    if '0' <= a && a <= '9' && '0' <= b && b <= '9' {
        Some(((a as u32 - '0' as u32) * 10 + (b as u32 - '0' as u32)) as u64)
    } else {
        None
    }
}

fn days_before_month_exec(y: u64, m: u64) -> (r: u64)
    requires
        1 <= m <= 12,
    ensures
        r == days_before_month(y as int, m as int),
{
    let base: u64 = if m == 1 {
        0
    } else if m == 2 {
        31
    } else if m == 3 {
        59
    } else if m == 4 {
        90
    } else if m == 5 {
        120
    } else if m == 6 {
        151
    } else if m == 7 {
        181
    } else if m == 8 {
        212
    } else if m == 9 {
        243
    } else if m == 10 {
        273
    } else if m == 11 {
        304
    } else {
        334
    };
    if m > 2 && ((y % 4 == 0 && y % 100 != 0) || y % 400 == 0) {
        base + 1
    } else {
        base
    }
}

/// Reads an RFC 3339 time and its newline at `p`.
#[verifier::rlimit(100)]
pub fn time_line_at(t: &Vec<char>, p: usize) -> (r: Option<(u64, usize)>)
    ensures
        match r {
            Some((v, q)) => parse_time_line(t@, p as int) == Some((v as nat, q as int)),
            None => parse_time_line(t@, p as int) is None,
        },
{
    if t.len() < 21 || p > t.len() - 21 {
        return None;
    }
    let ghost w = t@.subrange(p as int, p + 20);
    assert(forall|i: int| 0 <= i < 20 ==> w[i] == t@[p + i]);
    if t[p + 4] != '-' || t[p + 7] != '-' || t[p + 10] != 'T' || t[p + 13] != ':' || t[p + 16] != ':'
        || t[p + 19] != 'Z' || t[p + 20] != '\n' {
        return None;
    }
    let y1 = two_at(t, p);
    let y2 = two_at(t, p + 2);
    let mo = two_at(t, p + 5);
    let d = two_at(t, p + 8);
    let h = two_at(t, p + 11);
    let mi = two_at(t, p + 14);
    let s = two_at(t, p + 17);
    if y1.is_none() || y2.is_none() || mo.is_none() || d.is_none() || h.is_none() || mi.is_none()
        || s.is_none() {
        proof {
            if is_time_text(w) {
                assert(is_digit(w[0]) && is_digit(w[1]) && is_digit(w[2]) && is_digit(w[3]));
                assert(is_digit(w[5]) && is_digit(w[6]) && is_digit(w[8]) && is_digit(w[9]));
                assert(is_digit(w[11]) && is_digit(w[12]) && is_digit(w[14]) && is_digit(w[15]));
                assert(is_digit(w[17]) && is_digit(w[18]));
            }
        }
        return None;
    }
    let (y1, y2, mo, d, h, mi, s) = (
        y1.unwrap(),
        y2.unwrap(),
        mo.unwrap(),
        d.unwrap(),
        h.unwrap(),
        mi.unwrap(),
        s.unwrap(),
    );
    assert(forall|i: int|
        0 <= i < 20 && i != 4 && i != 7 && i != 10 && i != 13 && i != 16 && i != 19 ==> is_digit(
            #[trigger] w[i],
        )) by {
        assert forall|i: int|
            0 <= i < 20 && i != 4 && i != 7 && i != 10 && i != 13 && i != 16 && i != 19 implies is_digit(
            #[trigger] w[i],
        ) by {
            assert(w[i] == t@[p + i]);
        }
    }
    let y = y1 * 100 + y2;
    assert(y == two(w, 0) * 100 + two(w, 2));
    if y < 1970 || mo < 1 || mo > 12 || h >= 24 || mi >= 60 || s >= 60 {
        return None;
    }
    if d < 1 || d > month_len(y, mo) {
        return None;
    }
    let a = 365 * (y - 1970) + (y - 1) / 4 + (y - 1) / 400;
    let b = (y - 1) / 100 + 477;
    if a < b {
        return None;
    }
    let days = a - b + days_before_month_exec(y, mo) + d - 1;
    assert(days == days_before_year(y as int) + days_before_month(y as int, mo as int) + d - 1);
    let v = days * 86400 + h * 3600 + mi * 60 + s;
    Some((v, p + 21))
}

} // verus!
