use vstd::prelude::*;
use crate::text::{chars_of, char_is_digit, is_digit};

verus! {

/// The seconds from the start of 1970 to the given civil date and time of
/// day in UTC; none where there is no such date or time.
pub uninterp spec fn utc_seconds(y: int, m: int, d: int, hh: int, mm: int, ss: int) -> Option<i64>;

/// chrono's `NaiveDate::from_ymd_opt`, `NaiveTime::from_hms_opt`,
/// `NaiveDate::and_time`, `NaiveDateTime::and_utc` and `DateTime::timestamp`,
/// one after the other: the timestamp of a date and time that exist. The
/// contract only gives the result its name.
#[verifier::external_body]
fn utc_timestamp(y: i32, m: u32, d: u32, hh: u32, mm: u32, ss: u32) -> (r: Option<i64>)
    ensures
        r == utc_seconds(y as int, m as int, d as int, hh as int, mm as int, ss as int),
{
    let date = chrono::NaiveDate::from_ymd_opt(y, m, d)?;
    let time = chrono::NaiveTime::from_hms_opt(hh, mm, ss)?;
    Some(date.and_time(time).and_utc().timestamp())
}

/// What the digits of `s` between `a` and `b` say in decimal.
pub open spec fn decimal(s: Seq<char>, a: int, b: int) -> int
    decreases b - a,
{
    if b <= a {
        0
    } else {
        decimal(s, a, b - 1) * 10 + (s[b - 1] as int - '0' as int)
    }
}

pub open spec fn all_digits(s: Seq<char>, a: int, b: int) -> bool {
    forall|i: int| a <= i < b ==> is_digit(#[trigger] s[i])
}

/// The number written in `s` between `a` and `b`: digits, which a `+` may
/// precede, or a `-` where `signed`.
pub open spec fn number_at(s: Seq<char>, a: int, b: int, signed: bool) -> Option<int> {
    if a < b && s[a] == '+' {
        if a + 1 < b && all_digits(s, a + 1, b) {
            Some(decimal(s, a + 1, b))
        } else {
            None
        }
    } else if a < b && s[a] == '-' && signed {
        if a + 1 < b && all_digits(s, a + 1, b) {
            Some(-decimal(s, a + 1, b))
        } else {
            None
        }
    } else if a < b && all_digits(s, a, b) {
        Some(decimal(s, a, b))
    } else {
        None
    }
}

/// The first position from `from` on that holds `c`, or the length of `s`.
pub open spec fn next_of(s: Seq<char>, c: char, from: int, end: int) -> int
    decreases end - from,
{
    if from >= end || s[from] == c {
        from
    } else {
        next_of(s, c, from + 1, end)
    }
}

/// The six numbers in the name of a photo that is named by the time at which
/// it was taken: eight characters for the day, `_`, six for the time of day,
/// and whatever follows a further `_` or the first `.`.
pub open spec fn stamp_fields(name: Seq<char>) -> Option<(int, int, int, int, int, int)> {
    let stem = next_of(name, '.', 0, name.len() as int);
    let d_end = next_of(name, '_', 0, stem);
    let t_end = next_of(name, '_', d_end + 1, stem);
    if d_end < stem && d_end == 8 && t_end - (d_end + 1) == 6 && number_at(name, 0, 4, true)
        is Some && number_at(name, 4, 6, false) is Some && number_at(name, 6, 8, false) is Some
        && number_at(name, 9, 11, false) is Some && number_at(name, 11, 13, false) is Some
        && number_at(name, 13, 15, false) is Some {
        Some(
            (
                number_at(name, 0, 4, true)->0,
                number_at(name, 4, 6, false)->0,
                number_at(name, 6, 8, false)->0,
                number_at(name, 9, 11, false)->0,
                number_at(name, 11, 13, false)->0,
                number_at(name, 13, 15, false)->0,
            ),
        )
    } else {
        None
    }
}

/// When the photo of this name was taken, by its name.
pub open spec fn stamp_of(name: Seq<char>) -> Option<i64> {
    match stamp_fields(name) {
        Some(f) => utc_seconds(f.0, f.1, f.2, f.3, f.4, f.5),
        None => None,
    }
}

fn find_next(s: &Vec<char>, c: char, from: usize, end: usize) -> (r: usize)
    requires
        end <= s.len(),
    ensures
        r == next_of(s@, c, from as int, end as int),
        from <= end ==> from <= r <= end,
{
    let mut i: usize = from;
    while i < end && s[i] != c
        invariant
            end <= s.len(),
            from <= end ==> from <= i <= end,
            next_of(s@, c, from as int, end as int) == next_of(s@, c, i as int, end as int),
        decreases end - i,
    {
        i += 1;
    }
    i
}

fn digits_value(s: &Vec<char>, a: usize, b: usize) -> (r: Option<u32>)
    requires
        a <= b <= s.len(),
        b - a <= 4,
    ensures
        match r {
            Some(v) => all_digits(s@, a as int, b as int) && v == decimal(s@, a as int, b as int)
                && v <= 9999,
            None => !all_digits(s@, a as int, b as int),
        },
{
    let mut v: u32 = 0;
    let mut i: usize = a;
    while i < b
        invariant
            a <= i <= b <= s.len(),
            b - a <= 4,
            all_digits(s@, a as int, i as int),
            v == decimal(s@, a as int, i as int),
            i - a == 0 ==> v == 0,
            i - a == 1 ==> v <= 9,
            i - a == 2 ==> v <= 99,
            i - a == 3 ==> v <= 999,
            v <= 9999,
        decreases b - i,
    {
        if !char_is_digit(s[i]) {
            return None;
        }
        v = v * 10 + (s[i] as u32 - '0' as u32);
        i += 1;
    }
    Some(v)
}

/// The number written in `s` between `a` and `b`, which has no sign but `+`.
pub fn read_unsigned(s: &Vec<char>, a: usize, b: usize) -> (r: Option<u32>)
    requires
        a <= b <= s.len(),
        b - a <= 4,
    ensures
        match r {
            Some(v) => number_at(s@, a as int, b as int, false) == Some(v as int) && v <= 9999,
            None => number_at(s@, a as int, b as int, false) is None,
        },
{
    if a < b && s[a] == '+' {
        if a + 1 < b {
            digits_value(s, a + 1, b)
        } else {
            None
        }
    } else if a < b {
        digits_value(s, a, b)
    } else {
        None
    }
}

/// The number written in `s` between `a` and `b`, which may have a sign.
pub fn read_signed(s: &Vec<char>, a: usize, b: usize) -> (r: Option<i32>)
    requires
        a <= b <= s.len(),
        b - a <= 4,
    ensures
        match r {
            Some(v) => number_at(s@, a as int, b as int, true) == Some(v as int),
            None => number_at(s@, a as int, b as int, true) is None,
        },
{
    if a < b && s[a] == '-' {
        if a + 1 < b {
            match digits_value(s, a + 1, b) {
                Some(v) => Some(-(v as i32)),
                None => None,
            }
        } else {
            None
        }
    } else {
        match read_unsigned(s, a, b) {
            Some(v) => Some(v as i32),
            None => None,
        }
    }
}

/// The six numbers in the name of a photo, if it is named by its time.
pub fn read_stamp_fields(name: &str) -> (r: Option<(i32, u32, u32, u32, u32, u32)>)
    ensures
        match r {
            Some(f) => stamp_fields(name@) == Some(
                (f.0 as int, f.1 as int, f.2 as int, f.3 as int, f.4 as int, f.5 as int),
            ),
            None => stamp_fields(name@) is None,
        },
{
    let s = chars_of(name);
    let stem = find_next(&s, '.', 0, s.len());
    let d_end = find_next(&s, '_', 0, stem);
    if d_end >= stem || d_end != 8 {
        return None;
    }
    let t_end = find_next(&s, '_', d_end + 1, stem);
    if t_end - (d_end + 1) != 6 {
        return None;
    }
    let y = read_signed(&s, 0, 4);
    let m = read_unsigned(&s, 4, 6);
    let d = read_unsigned(&s, 6, 8);
    let hh = read_unsigned(&s, 9, 11);
    let mm = read_unsigned(&s, 11, 13);
    let ss = read_unsigned(&s, 13, 15);
    match (y, m, d, hh, mm, ss) {
        (Some(y), Some(m), Some(d), Some(hh), Some(mm), Some(ss)) => Some((y, m, d, hh, mm, ss)),
        _ => None,
    }
}

/// When the photo of this name was taken, by its name.
pub fn parse_photo_timestamp(name: &str) -> (r: Option<i64>)
    ensures
        r == stamp_of(name@),
{
    match read_stamp_fields(name) {
        Some(f) => utc_timestamp(f.0, f.1, f.2, f.3, f.4, f.5),
        None => None,
    }
}

} // verus!
