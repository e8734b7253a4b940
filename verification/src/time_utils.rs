use vstd::prelude::*;

verus! {

/// A year divisible by 4 is a leap year, unless it starts a century that is
/// not divisible by 400.
pub open spec fn spec_is_leap_year(year: int) -> bool {
    (year % 4 == 0 && year % 100 != 0) || year % 400 == 0
}

/// Check if a year is a leap year.
pub fn is_leap_year(year: u64) -> (r: bool)
    ensures
        r == spec_is_leap_year(year as int),
{
    (year % 4 == 0 && year % 100 != 0) || year % 400 == 0
}

/// The number of days of a year.
pub open spec fn spec_days_in_year(year: int) -> int {
    if spec_is_leap_year(year) {
        366
    } else {
        365
    }
}

/// Days from the Unix epoch to the first day of `year`.
pub open spec fn spec_year_start(year: int) -> int
    decreases year - 1970 when year >= 1970
{
    if year <= 1970 {
        0int
    } else {
        spec_year_start(year - 1) + spec_days_in_year(year - 1)
    }
}

/// The number of days of month `m` (1-based) of `year`.
pub open spec fn spec_days_in_month(year: int, m: int) -> int {
    if m == 2 {
        if spec_is_leap_year(year) {
            29
        } else {
            28
        }
    } else if m == 4 || m == 6 || m == 9 || m == 11 {
        30
    } else {
        31
    }
}

/// Days from the first day of the year to the first day of month `m`.
pub open spec fn spec_month_start(year: int, m: int) -> int
    decreases m when m >= 1
{
    if m <= 1 {
        0int
    } else {
        spec_month_start(year, m - 1) + spec_days_in_month(year, m - 1)
    }
}

proof fn lemma_month_start_nonneg(year: int, m: int)
    requires
        1 <= m <= 13,
    ensures
        0 <= spec_month_start(year, m),
    decreases m,
{
    if m > 1 {
        lemma_month_start_nonneg(year, m - 1);
    }
}

proof fn lemma_year_start_lower(year: int)
    requires
        year >= 1970,
    ensures
        spec_year_start(year) >= 365 * (year - 1970),
    decreases year - 1970,
{
    if year > 1970 {
        lemma_year_start_lower(year - 1);
    }
}

/// The number of days of each month of `year`, in order.
fn days_in_month(year: u64, m: u64) -> (d: u64)
    requires
        1 <= m <= 12,
    ensures
        d as int == spec_days_in_month(year as int, m as int),
        28 <= d <= 31,
{
    if m == 2 {
        if is_leap_year(year) {
            29
        } else {
            28
        }
    } else if m == 4 || m == 6 || m == 9 || m == 11 {
        30
    } else {
        31
    }
}

/// Convert days since the Unix epoch to a `(year, month, day)` calendar
/// date: the unique date whose year start, month start and day offset sum
/// to the given day count.
pub fn convert_days_to_date(days_since_epoch: u64) -> (r: (u32, u32, u32))
    requires
        days_since_epoch < 100_000_000_000,
    ensures
        ({
            let (y, m, d) = r;
            &&& 1970 <= y
            &&& 1 <= m <= 12
            &&& 1 <= d <= spec_days_in_month(y as int, m as int)
            &&& spec_year_start(y as int) + spec_month_start(y as int, m as int) + (d - 1)
                == days_since_epoch
        }),
{
    let mut year: u64 = 1970;
    let mut days_remaining: u64 = days_since_epoch;
    loop
        invariant
            year >= 1970,
            spec_year_start(year as int) + days_remaining == days_since_epoch,
            days_since_epoch < 100_000_000_000,
        ensures
            year >= 1970,
            spec_year_start(year as int) + days_remaining == days_since_epoch,
            days_remaining < spec_days_in_year(year as int),
        decreases days_remaining,
    {
        proof {
            lemma_year_start_lower(year as int);
        }
        let days_in_this_year: u64 = if is_leap_year(year) {
            366
        } else {
            365
        };
        if days_remaining < days_in_this_year {
            break ;
        }
        days_remaining = days_remaining - days_in_this_year;
        year = year + 1;
    }
    let mut month: u64 = 1;
    while month < 12
        invariant
            1 <= month <= 12,
            spec_year_start(year as int) + spec_month_start(year as int, month as int)
                + days_remaining == days_since_epoch,
            days_remaining < spec_days_in_year(year as int) - spec_month_start(
                year as int,
                month as int,
            ),
            month == 12 ==> days_remaining < spec_days_in_month(year as int, 12),
            year >= 1970,
        ensures
            1 <= month <= 12,
            spec_year_start(year as int) + spec_month_start(year as int, month as int)
                + days_remaining == days_since_epoch,
            days_remaining < spec_days_in_month(year as int, month as int),
        decreases 12 - month,
    {
        let dim: u64 = days_in_month(year, month);
        if days_remaining < dim {
            proof {
                assert(days_remaining < spec_days_in_month(year as int, month as int));
            }
            break ;
        }
        days_remaining = days_remaining - dim;
        month = month + 1;
        proof {
            lemma_month_span(year as int, month as int);
        }
    }
    proof {
        if month == 12 {
            lemma_month_span(year as int, 13);
        }
        lemma_year_start_lower(year as int);
    }
    let day: u64 = days_remaining + 1;
    ((year as u32), (month as u32), (day as u32))
}

/// The months of a year cover exactly its days.
proof fn lemma_month_span(year: int, m: int)
    requires
        1 <= m <= 13,
    ensures
        spec_month_start(year, m) <= spec_month_start(year, 13),
        spec_month_start(year, 13) == spec_days_in_year(year),
    decreases 13 - m,
{
    if m < 13 {
        lemma_month_span(year, m + 1);
    } else {
        reveal_with_fuel(spec_month_start, 14);
        assert(spec_month_start(year, 2) == 31);
        assert(spec_month_start(year, 3) == 31 + spec_days_in_month(year, 2));
        assert(spec_month_start(year, 4) == spec_month_start(year, 3) + 31);
        assert(spec_month_start(year, 5) == spec_month_start(year, 4) + 30);
        assert(spec_month_start(year, 6) == spec_month_start(year, 5) + 31);
        assert(spec_month_start(year, 7) == spec_month_start(year, 6) + 30);
        assert(spec_month_start(year, 8) == spec_month_start(year, 7) + 31);
        assert(spec_month_start(year, 9) == spec_month_start(year, 8) + 31);
        assert(spec_month_start(year, 10) == spec_month_start(year, 9) + 30);
        assert(spec_month_start(year, 11) == spec_month_start(year, 10) + 31);
        assert(spec_month_start(year, 12) == spec_month_start(year, 11) + 30);
        assert(spec_month_start(year, 13) == spec_month_start(year, 12) + 31);
    }
}

/// The ASCII digit character for `d`.
pub open spec fn spec_digit(d: int) -> char {
    ((48 + d) as u8) as char
}

/// `(y, m, d)` is the calendar date `days` days after the Unix epoch.
pub open spec fn spec_date_rel(days: int, y: int, m: int, d: int) -> bool {
    &&& 1970 <= y
    &&& 1 <= m <= 12
    &&& 1 <= d <= spec_days_in_month(y, m)
    &&& spec_year_start(y) + spec_month_start(y, m) + (d - 1) == days
}

/// The twenty characters of a date and time written the ISO 8601 way.
pub open spec fn spec_iso_chars(y: int, m: int, d: int, hh: int, mi: int, ss: int) -> Seq<char> {
    seq![
        spec_digit(y / 1000 % 10),
        spec_digit(y / 100 % 10),
        spec_digit(y / 10 % 10),
        spec_digit(y % 10),
        '-',
        spec_digit(m / 10),
        spec_digit(m % 10),
        '-',
        spec_digit(d / 10),
        spec_digit(d % 10),
        'T',
        spec_digit(hh / 10),
        spec_digit(hh % 10),
        ':',
        spec_digit(mi / 10),
        spec_digit(mi % 10),
        ':',
        spec_digit(ss / 10),
        spec_digit(ss % 10),
        'Z',
    ]
}

/// Push the two decimal digits of `n` as ASCII bytes.
fn push_2d(v: &mut Vec<u8>, n: u64)
    requires
        n < 100,
    ensures
        final(v)@ =~= old(v)@ + seq![(48 + n as int / 10) as u8, (48 + n as int % 10) as u8],
{
    v.push(48 + (n / 10) as u8);
    v.push(48 + (n % 10) as u8);
}

/// Relies on String::from_utf8: ASCII bytes decode to exactly one character
/// per byte, each the character with that code.
#[verifier::external_body]
fn ascii_to_string(bytes: Vec<u8>) -> (r: String)
    requires
        forall|i: int| 0 <= i < bytes@.len() ==> bytes@[i] < 128,
    ensures
        r@.len() == bytes@.len(),
        forall|i: int| 0 <= i < bytes@.len() ==> r@[i] == bytes@[i] as char,
{
    String::from_utf8(bytes).unwrap_or_default()
}

/// Relies on std::time::SystemTime::now and duration_since: the seconds of
/// the current time since the Unix epoch, or zero if the clock reads
/// earlier than the epoch. Nothing can be promised of the value.
#[verifier::external_body]
fn now_unix_secs() -> u64 {
    std::time::SystemTime::now().duration_since(std::time::UNIX_EPOCH).map(|d| d.as_secs()).unwrap_or(0)
}

/// Write a count of seconds since the Unix epoch as an ISO 8601 timestamp,
/// `yyyy-mm-ddThh:mm:ssZ`.
pub fn format_unix_timestamp(secs: u64) -> (r: String)
    requires
        secs < 252_000_000_000,
    ensures
        vstd::utf8::is_ascii_chars(r@),
        exists|y: int, m: int, d: int|
            #![trigger spec_date_rel(secs as int / 86400, y, m, d)]
            spec_date_rel(secs as int / 86400, y, m, d) && y < 10000 && r@ =~= spec_iso_chars(
                y,
                m,
                d,
                secs as int % 86400 / 3600,
                secs as int % 3600 / 60,
                secs as int % 60,
            ),
{
    let days: u64 = secs / 86400;
    let seconds_in_day: u64 = secs % 86400;
    let hours: u64 = seconds_in_day / 3600;
    let minutes: u64 = (secs % 3600) / 60;
    let seconds: u64 = secs % 60;
    let (year, month, day): (u32, u32, u32) = convert_days_to_date(days);
    proof {
        lemma_year_start_lower(year as int);
        lemma_month_start_nonneg(year as int, month as int);
        assert(spec_year_start(year as int) <= days);
        assert(365 * (year as int - 1970) <= 2916666);
        assert(year < 10000);
    }
    let mut bytes: Vec<u8> = Vec::new();
    let y: u64 = year as u64;
    bytes.push(48 + ((y / 1000) % 10) as u8);
    bytes.push(48 + ((y / 100) % 10) as u8);
    bytes.push(48 + ((y / 10) % 10) as u8);
    bytes.push(48 + (y % 10) as u8);
    bytes.push(45);
    push_2d(&mut bytes, month as u64);
    bytes.push(45);
    push_2d(&mut bytes, day as u64);
    bytes.push(84);
    push_2d(&mut bytes, hours);
    bytes.push(58);
    push_2d(&mut bytes, minutes);
    bytes.push(58);
    push_2d(&mut bytes, seconds);
    bytes.push(90);
    let r: String = ascii_to_string(bytes);
    proof {
        assert forall|i: int| 0 <= i < r@.len() implies '\0' <= #[trigger] r@[i] <= '\u{7f}' by {
            assert(r@[i] == bytes@[i] as char);
        }
        assert(r@ =~= spec_iso_chars(
            year as int,
            month as int,
            day as int,
            hours as int,
            minutes as int,
            seconds as int,
        ));
        assert(spec_date_rel(secs as int / 86400, year as int, month as int, day as int));
    }
    r
}

/// Returns the current timestamp in ISO 8601 format. Times beyond the year
/// 9950 are clamped so the year always has four digits.
pub fn get_iso8601_timestamp() -> (r: String)
    ensures
        r@.len() == 20,
        vstd::utf8::is_ascii_chars(r@),
        r@[4] == '-' && r@[7] == '-' && r@[10] == 'T' && r@[13] == ':' && r@[16] == ':' && r@[19]
            == 'Z',
{
    let secs: u64 = now_unix_secs();
    let clamped: u64 = if secs < 251_999_999_999 {
        secs
    } else {
        251_999_999_999
    };
    format_unix_timestamp(clamped)
}

/// The first index in `[i, end)` where `s` holds `ch`, or `end`.
pub open spec fn find_in(s: Seq<char>, ch: char, i: int, end: int) -> int
    decreases end - i when i <= end
{
    if i < 0 || i >= end {
        end
    } else if s[i] == ch {
        i
    } else {
        find_in(s, ch, i + 1, end)
    }
}

/// The end of `[from, end)` after trailing `Z` characters are dropped.
pub open spec fn trim_z_end(s: Seq<char>, from: int, end: int) -> int
    decreases end - from when from <= end
{
    if end > from && s[end - 1] == 'Z' {
        trim_z_end(s, from, end - 1)
    } else {
        end
    }
}

/// What `format_timestamp` produces: a timestamp without a `T` is returned
/// unchanged; otherwise the date part, the word `at`, and the time part up
/// to its second colon, with trailing `Z` characters dropped.
pub open spec fn spec_format_timestamp(s: Seq<char>) -> Seq<char> {
    let n = s.len() as int;
    let t1 = find_in(s, 'T', 0, n);
    if t1 == n {
        s
    } else {
        let t2 = find_in(s, 'T', t1 + 1, n);
        let ze = trim_z_end(s, t1 + 1, t2);
        let c1 = find_in(s, ':', t1 + 1, ze);
        let cut = if c1 == ze {
            ze
        } else {
            find_in(s, ':', c1 + 1, ze)
        };
        s.take(t1) + seq![' ', 'a', 't', ' '] + s.subrange(t1 + 1, cut)
    }
}

/// Format an ISO 8601 timestamp as a human-readable `date at hh:mm`; text
/// without a `T` separator is returned unchanged.
pub fn format_timestamp(iso_timestamp: &str) -> (r: String)
    ensures
        r@ == spec_format_timestamp(iso_timestamp@),
{
    let n: usize = iso_timestamp.unicode_len();
    let ghost s = iso_timestamp@;
    // the date/time separator
    let mut t1: usize = 0;
    while t1 < n && iso_timestamp.get_char(t1) != 'T'
        invariant
            s == iso_timestamp@,
            n == s.len(),
            0 <= t1 <= n,
            find_in(s, 'T', 0, n as int) == find_in(s, 'T', t1 as int, n as int),
        decreases n - t1,
    {
        t1 = t1 + 1;
    }
    if t1 == n {
        return iso_timestamp.to_owned();
    }
    // a second separator would end the time part
    let mut t2: usize = t1 + 1;
    while t2 < n && iso_timestamp.get_char(t2) != 'T'
        invariant
            s == iso_timestamp@,
            n == s.len(),
            t1 < n,
            t1 + 1 <= t2 <= n,
            find_in(s, 'T', t1 as int + 1, n as int) == find_in(s, 'T', t2 as int, n as int),
        decreases n - t2,
    {
        t2 = t2 + 1;
    }
    // drop trailing Z characters
    let mut ze: usize = t2;
    while ze > t1 + 1 && iso_timestamp.get_char(ze - 1) == 'Z'
        invariant
            s == iso_timestamp@,
            n == s.len(),
            t1 + 1 <= ze <= t2 <= n,
            trim_z_end(s, t1 as int + 1, t2 as int) == trim_z_end(s, t1 as int + 1, ze as int),
        decreases ze,
    {
        ze = ze - 1;
    }
    // keep the time only up to its second colon
    let mut c1: usize = t1 + 1;
    while c1 < ze && iso_timestamp.get_char(c1) != ':'
        invariant
            s == iso_timestamp@,
            n == s.len(),
            t1 + 1 <= c1 <= ze <= n,
            find_in(s, ':', t1 as int + 1, ze as int) == find_in(s, ':', c1 as int, ze as int),
        decreases ze - c1,
    {
        c1 = c1 + 1;
    }
    let cut: usize = if c1 == ze {
        ze
    } else {
        let mut c2: usize = c1 + 1;
        while c2 < ze && iso_timestamp.get_char(c2) != ':'
            invariant
                s == iso_timestamp@,
                n == s.len(),
                t1 + 1 <= c1 < ze <= n,
                c1 + 1 <= c2 <= ze,
                find_in(s, ':', c1 as int + 1, ze as int) == find_in(s, ':', c2 as int, ze as int),
            decreases ze - c2,
        {
            c2 = c2 + 1;
        }
        c2
    };
    let date_part: &str = iso_timestamp.substring_char(0, t1);
    let hm_part: &str = iso_timestamp.substring_char(t1 + 1, cut);
    let mut r: String = date_part.to_owned();
    r.append(" at ");
    r.append(hm_part);
    proof {
        reveal_strlit(" at ");
        assert(" at "@ =~= seq![' ', 'a', 't', ' ']);
        assert(r@ =~= spec_format_timestamp(s));
    }
    r
}

} // verus!
