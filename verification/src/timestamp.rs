use vstd::prelude::*;
use vstd::string::StringExecFns;
use crate::text::{zero_padded, push_zero_padded};

verus! {

/// Year of era (0..=399, years starting on 1 March) of day `doe` of a
/// 400-year era.
pub open spec fn year_of_era(doe: int) -> int {
    (doe - doe / 1_460 + doe / 36_524 - doe / 146_096) / 365
}

/// Day of that year (0 = 1 March) of day `doe` of an era.
pub open spec fn day_of_year(doe: int) -> int {
    let yoe = year_of_era(doe);
    doe - (365 * yoe + yoe / 4 - yoe / 100)
}

/// The proleptic Gregorian date `(year, month, day)` of the day `days` after
/// 1970-01-01, computed era by era (400-year cycles of 146097 days, with
/// years starting on 1 March).
pub open spec fn civil_spec(days: int) -> (int, int, int) {
    let z = days + 719_468;
    let era = z / 146_097;
    let doe = z - era * 146_097;
    let y = year_of_era(doe) + era * 400;
    let doy = day_of_year(doe);
    let mp = (5 * doy + 2) / 153;
    let day = doy - (153 * mp + 2) / 5 + 1;
    let month = mp + if mp < 10 { 3int } else { -9int };
    let year = y + if month <= 2 { 1int } else { 0int };
    (year, month, day)
}

/// Within an era the year index stays below 400 and the day of the year
/// below 366: an era is four centuries of 36524 days (the last one day
/// longer), a century 25 four-year cycles of 1461 days (the last one day
/// shorter), and a cycle four years of 365 days (the last one day longer).
proof fn lemma_era_day_bounds(doe: int)
    requires
        0 <= doe <= 146_096,
    ensures
        0 <= year_of_era(doe) <= 399,
        0 <= day_of_year(doe) <= 365,
{
    if doe == 146_096 {
        assert(year_of_era(doe) == 399);
        assert(day_of_year(doe) == 365);
    } else {
        let b = doe / 36_524;
        let r = doe - 36_524 * b;
        vstd::arithmetic::div_mod::lemma_fundamental_div_mod(doe, 36_524);
        assert(0 <= b <= 3) by (nonlinear_arith) requires 0 <= doe < 146_096, b == doe / 36_524;
        assert(0 <= r < 36_524);
        let a = r / 1_461;
        let s = r - 1_461 * a;
        vstd::arithmetic::div_mod::lemma_fundamental_div_mod(r, 1_461);
        assert(0 <= a <= 24);
        assert(0 <= s < 1_461);
        let delta: int = if 24 * b + a + s >= 1_460 { 1 } else { 0 };
        assert(doe == 1_460 * (25 * b + a + delta) + (24 * b + a + s - 1_460 * delta));
        vstd::arithmetic::div_mod::lemma_fundamental_div_mod_converse(doe, 1_460, 25 * b + a + delta, 24 * b + a + s - 1_460 * delta);
        vstd::arithmetic::div_mod::lemma_fundamental_div_mod_converse(doe, 146_096, 0, doe);
        let n = doe - doe / 1_460 + doe / 36_524 - doe / 146_096;
        assert(n == 365 * (100 * b + 4 * a) + s - delta);
        assert(s - delta >= 0);
        let j = (s - delta) / 365;
        vstd::arithmetic::div_mod::lemma_fundamental_div_mod(s - delta, 365);
        assert(0 <= j <= 3);
        vstd::arithmetic::div_mod::lemma_fundamental_div_mod_converse(n, 365, 100 * b + 4 * a + j, s - delta - 365 * j);
        let yoe = 100 * b + 4 * a + j;
        assert(year_of_era(doe) == yoe);
        vstd::arithmetic::div_mod::lemma_fundamental_div_mod_converse(yoe, 4, 25 * b + a, j);
        vstd::arithmetic::div_mod::lemma_fundamental_div_mod_converse(yoe, 100, b, 4 * a + j);
        assert(day_of_year(doe) == s - 365 * j);
    }
}

/// The calendar date of a count of days since 1970-01-01 (negative counts
/// are earlier days); the year is kept modulo 2^32 as a signed value.
pub fn civil_from_unix_days(days: i64) -> (r: (i32, u32, u32))
    requires
        days <= i64::MAX - 719_468,
    ensures
        r.0 == civil_spec(days as int).0 as i32,
        r.1 == civil_spec(days as int).1,
        r.2 == civil_spec(days as int).2,
        1 <= r.1 <= 12,
        1 <= r.2 <= 31,
{
    let z: i64 = days + 719_468;
    let era: i64 = if z >= 0 {
        z / 146_097
    } else {
        let m: u64 = ((-(z + 1)) as u64) / 146_097;
        -(m as i64) - 1
    };
    proof {
        let e = z as int / 146_097;
        if z >= 0 {
            assert(era == e);
        } else {
            let q = (-(z as int + 1)) / 146_097;
            assert(0 <= -(z as int + 1));
            vstd::arithmetic::div_mod::lemma_fundamental_div_mod(-(z as int + 1), 146_097);
            vstd::arithmetic::div_mod::lemma_fundamental_div_mod_converse(z as int, 146_097, -q - 1, 146_096 - (-(z as int + 1)) % 146_097);
            assert(era == e);
        }
        vstd::arithmetic::div_mod::lemma_fundamental_div_mod(z as int, 146_097);
    }
    let doe: i64 = z - era * 146_097;
    proof {
        lemma_era_day_bounds(doe as int);
    }
    let yoe: i64 = (doe - doe / 1_460 + doe / 36_524 - doe / 146_096) / 365;
    let y: i64 = yoe + era * 400;
    let doy: i64 = doe - (365 * yoe + yoe / 4 - yoe / 100);
    let mp: i64 = (5 * doy + 2) / 153;
    let day: i64 = doy - (153 * mp + 2) / 5 + 1;
    let month: i64 = mp + if mp < 10 { 3 } else { -9 };
    let year: i64 = y + if month <= 2 { 1 } else { 0 };
    (year as i32, month as u32, day as u32)
}

/// `v` in decimal with at least `width` characters, zero-padded after the
/// sign, as the `{:0width$}` format writes integers.
pub open spec fn signed_zero_padded(v: int, width: nat) -> Seq<char> {
    if v < 0 {
        seq!['-'] + zero_padded((-v) as nat, if width >= 1 { (width - 1) as nat } else { 0 })
    } else {
        zero_padded(v as nat, width)
    }
}

/// The compact local timestamp text `YYYYMMDDhhmmss`.
pub open spec fn timestamp_text(year: int, month: nat, day: nat, hour: nat, minute: nat, second: nat) -> Seq<char> {
    signed_zero_padded(year, 4) + zero_padded(month, 2) + zero_padded(day, 2)
        + zero_padded(hour, 2) + zero_padded(minute, 2) + zero_padded(second, 2)
}

/// Formats a date and time as `YYYYMMDDhhmmss`, each field zero-padded.
pub fn format_export_timestamp(year: i32, month: u32, day: u32, hour: u32, minute: u32, second: u32) -> (s: String)
    ensures
        s@ == timestamp_text(year as int, month as nat, day as nat, hour as nat, minute as nat, second as nat),
{
    let mut s = String::new();
    if year < 0 {
        s.append("-");
        let magnitude: u64 = if year == i32::MIN { 2_147_483_648 } else { (-year) as u64 };
        push_zero_padded(&mut s, magnitude, 3);
        proof {
            reveal_strlit("-");
        }
    } else {
        push_zero_padded(&mut s, year as u64, 4);
    }
    push_zero_padded(&mut s, month as u64, 2);
    push_zero_padded(&mut s, day as u64, 2);
    push_zero_padded(&mut s, hour as u64, 2);
    push_zero_padded(&mut s, minute as u64, 2);
    push_zero_padded(&mut s, second as u64, 2);
    proof {
        assert(s@ =~= timestamp_text(year as int, month as nat, day as nat, hour as nat, minute as nat, second as nat));
    }
    s
}

/// The `YYYYMMDDhhmmss` text of a count of seconds since 1970-01-01 00:00:00 UTC.
pub open spec fn unix_timestamp_text(seconds: nat) -> Seq<char> {
    let date = civil_spec((seconds / 86_400) as int);
    let rest = seconds % 86_400;
    timestamp_text((date.0 as i32) as int, date.1 as nat, date.2 as nat, rest / 3_600, (rest % 3_600) / 60, rest % 60)
}

/// The `YYYYMMDDhhmmss` text of a count of seconds since the Unix epoch.
pub fn timestamp_from_unix_seconds(seconds: u64) -> (s: String)
    ensures
        s@ == unix_timestamp_text(seconds as nat),
{
    let days = (seconds / 86_400) as i64;
    let seconds_of_day = seconds % 86_400;
    let (year, month, day) = civil_from_unix_days(days);
    format_export_timestamp(
        year,
        month,
        day,
        (seconds_of_day / 3_600) as u32,
        ((seconds_of_day % 3_600) / 60) as u32,
        (seconds_of_day % 60) as u32,
    )
}

/// The file name offered for an SVG export made at `seconds` after the Unix
/// epoch: the timestamp followed by `.svg`.
pub fn export_svg_file_name(seconds: u64) -> (s: String)
    ensures
        s@ == unix_timestamp_text(seconds as nat) + ".svg"@,
{
    let mut s = timestamp_from_unix_seconds(seconds);
    s.append(".svg");
    s
}

} // verus!
