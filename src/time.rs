//! Date and time strings: which formats a string may follow is decided here;
//! reading a string by a format is chrono's work.
use crate::error::DecodeError;
use vstd::prelude::*;
use vstd::string::StringSliceAdditionalSpecFns;

verus! {

/// An instant: seconds since the Unix epoch, nanoseconds within the second,
/// and the offset east of UTC, in seconds, that the string carried.
#[derive(Debug, Clone, Copy, PartialEq, Eq, Hash)]
pub struct GeneralizedTime {
    pub timestamp: i64,
    pub nanos: u32,
    pub offset_seconds: i32,
}

/// An instant in UTC; the offset is always zero.
pub type UtcTime = GeneralizedTime;

/// A calendar date.
#[derive(Debug, Clone, Copy, PartialEq, Eq, Hash)]
pub struct Date {
    pub year: i32,
    pub month: u32,
    pub day: u32,
}

/// What chrono's `NaiveDateTime::parse_from_str` reads from `s` by `fmt`,
/// taken as UTC: seconds since the epoch and nanoseconds.
pub uninterp spec fn naive_datetime_of(s: Seq<u8>, fmt: Seq<char>) -> Option<(i64, u32)>;

/// What chrono's `DateTime::parse_from_str` reads from `s` by `fmt`: seconds
/// since the epoch, nanoseconds, and the offset in seconds.
pub uninterp spec fn offset_datetime_of(s: Seq<u8>, fmt: Seq<char>) -> Option<(i64, u32, i32)>;

/// What chrono's `NaiveDate::parse_from_str` reads from `s` by `fmt`: year,
/// month and day.
pub uninterp spec fn date_of(s: Seq<u8>, fmt: Seq<char>) -> Option<(i32, u32, u32)>;

/// Relies on chrono's `NaiveDateTime::parse_from_str`, whose result depends on
/// the text and the format alone; bytes that are not UTF-8 parse as nothing.
#[verifier::external_body]
fn parse_naive(s: &[u8], fmt: &str) -> (r: Option<(i64, u32)>)
    ensures
        r == naive_datetime_of(s@, fmt@),
{
    let text = std::str::from_utf8(s).ok()?;
    let dt = chrono::NaiveDateTime::parse_from_str(text, fmt).ok()?.and_utc();
    Some((dt.timestamp(), dt.timestamp_subsec_nanos()))
}

/// Relies on chrono's `DateTime::parse_from_str`, whose result depends on the
/// text and the format alone; bytes that are not UTF-8 parse as nothing.
#[verifier::external_body]
fn parse_with_offset(s: &[u8], fmt: &str) -> (r: Option<(i64, u32, i32)>)
    ensures
        r == offset_datetime_of(s@, fmt@),
{
    let text = std::str::from_utf8(s).ok()?;
    let dt = chrono::DateTime::parse_from_str(text, fmt).ok()?;
    Some((dt.timestamp(), dt.timestamp_subsec_nanos(), dt.offset().local_minus_utc()))
}

/// Relies on chrono's `NaiveDate::parse_from_str`, whose result depends on the
/// text and the format alone; bytes that are not UTF-8 parse as nothing.
#[verifier::external_body]
fn parse_date(s: &[u8], fmt: &str) -> (r: Option<(i32, u32, u32)>)
    ensures
        r == date_of(s@, fmt@),
{
    let text = std::str::from_utf8(s).ok()?;
    let d = chrono::NaiveDate::parse_from_str(text, fmt).ok()?;
    Some((chrono::Datelike::year(&d), chrono::Datelike::month(&d), chrono::Datelike::day(&d)))
}

pub open spec fn contains_byte(s: Seq<u8>, b: u8) -> bool {
    exists|i: int| 0 <= i < s.len() && s[i] == b
}

/// Commas become dots, and one trailing `Z` goes.
pub open spec fn normalized_generalized(s: Seq<u8>) -> Seq<u8> {
    let t = s.map_values(
        |b: u8|
            if b == 44 {
                46u8
            } else {
                b
            },
    );
    if t.len() > 0 && t.last() == 90 {
        t.drop_last()
    } else {
        t
    }
}

/// A `+HHMM` or `-HHMM` offset closes the string.
pub open spec fn has_offset(s: Seq<u8>) -> bool {
    s.len() >= 5 && (s[s.len() - 5] == 43 || s[s.len() - 5] == 45)
}

/// The formats a generalized time may follow under the basic rules, tried in order.
pub open spec fn any_generalized_formats(s: Seq<u8>) -> Seq<Seq<char>> {
    if contains_byte(s, 46) {
        if has_offset(s) {
            seq!["%Y%m%d%H%M%S%.f%z"@, "%Y%m%d%H%M%.f%z"@, "%Y%m%d%H%.f%z"@]
        } else {
            seq!["%Y%m%d%H%M%S%.f"@, "%Y%m%d%H%M%.f"@, "%Y%m%d%H%.f"@]
        }
    } else if has_offset(s) {
        if s.len() == 19 {
            seq!["%Y%m%d%H%M%S%z"@]
        } else if s.len() == 17 {
            seq!["%Y%m%d%H%M%z"@]
        } else if s.len() == 15 {
            seq!["%Y%m%d%H%z"@]
        } else {
            seq!["%Y%m%d%H%M%S%z"@, "%Y%m%d%H%M%z"@, "%Y%m%d%H%z"@]
        }
    } else if s.len() == 8 {
        seq!["%Y%m%d"@]
    } else if s.len() == 10 {
        seq!["%Y%m%d%H"@]
    } else if s.len() == 12 {
        seq!["%Y%m%d%H%M"@]
    } else if s.len() == 14 {
        seq!["%Y%m%d%H%M%S"@]
    } else {
        Seq::empty()
    }
}

/// The first of `fmts` by which `s` reads, with its offset where `offset`, else as UTC.
pub open spec fn first_datetime(s: Seq<u8>, fmts: Seq<Seq<char>>, offset: bool) -> Option<
    GeneralizedTime,
>
    decreases fmts.len(),
{
    if fmts.len() == 0 {
        None
    } else {
        let here: Option<GeneralizedTime> = if offset {
            match offset_datetime_of(s, fmts[0]) {
                Some((t, n, o)) => Some(GeneralizedTime { timestamp: t, nanos: n, offset_seconds: o }),
                None => None,
            }
        } else {
            match naive_datetime_of(s, fmts[0]) {
                Some((t, n)) => Some(GeneralizedTime { timestamp: t, nanos: n, offset_seconds: 0 }),
                None => None,
            }
        };
        if here is Some {
            here
        } else {
            first_datetime(s, fmts.drop_first(), offset)
        }
    }
}

/// A generalized time under the basic rules.
pub open spec fn any_generalized_spec(s: Seq<u8>) -> Option<GeneralizedTime> {
    let t = normalized_generalized(s);
    first_datetime(t, any_generalized_formats(t), has_offset(t))
}

/// A generalized time under the canonical rules: UTC marked by `Z`, seconds
/// present, a dot before any fraction, no offset.
pub open spec fn canonical_generalized_spec(s: Seq<u8>) -> Option<GeneralizedTime> {
    if s.len() > 0 && s.last() == 90 {
        let t = s.drop_last();
        if contains_byte(t, 46) {
            first_datetime(t, seq!["%Y%m%d%H%M%S%.f"@], false)
        } else if t.len() == 14 {
            first_datetime(t, seq!["%Y%m%d%H%M%S"@], false)
        } else {
            None
        }
    } else {
        None
    }
}

/// A UTC time under the basic rules: two-digit year, seconds optional, `Z`
/// or an offset; the result is in UTC.
pub open spec fn any_utc_spec(s: Seq<u8>) -> Option<GeneralizedTime> {
    let fmt = if contains_byte(s, 90) {
        if s.len() == 11 {
            "%y%m%d%H%MZ"@
        } else {
            "%y%m%d%H%M%SZ"@
        }
    } else if s.len() == 15 {
        "%y%m%d%H%M%z"@
    } else {
        "%y%m%d%H%M%S%z"@
    };
    if s.len() == 11 || s.len() == 13 {
        first_datetime(s, seq![fmt], false)
    } else if s.len() == 15 || s.len() == 17 {
        match offset_datetime_of(s, fmt) {
            Some((t, n, _)) => Some(GeneralizedTime { timestamp: t, nanos: n, offset_seconds: 0 }),
            None => None,
        }
    } else {
        None
    }
}

/// A UTC time under the canonical rules: exactly `YYMMDDhhmmssZ`.
pub open spec fn canonical_utc_spec(s: Seq<u8>) -> Option<GeneralizedTime> {
    if s.len() == 13 && s.last() == 90 {
        first_datetime(s, seq!["%y%m%d%H%M%SZ"@], false)
    } else {
        None
    }
}

/// A generalized time by the basic rules' formats or by the canonical one.
pub open spec fn generalized_by_rules(s: Seq<u8>, basic: bool) -> Option<GeneralizedTime> {
    if basic {
        any_generalized_spec(s)
    } else {
        canonical_generalized_spec(s)
    }
}

/// A UTC time by the basic rules' formats or by the canonical one.
pub open spec fn utc_by_rules(s: Seq<u8>, basic: bool) -> Option<GeneralizedTime> {
    if basic {
        any_utc_spec(s)
    } else {
        canonical_utc_spec(s)
    }
}

fn contains(s: &[u8], b: u8) -> (r: bool)
    ensures
        r == contains_byte(s@, b),
{
    let mut i: usize = 0;
    while i < s.len()
        invariant
            i <= s@.len(),
            forall|j: int| 0 <= j < i ==> s@[j] != b,
        decreases s@.len() - i,
    {
        if s[i] == b {
            return true;
        }
        i = i + 1;
    }
    false
}

fn offset_at_end(s: &[u8]) -> (r: bool)
    ensures
        r == has_offset(s@),
{
    s.len() >= 5 && (s[s.len() - 5] == 43 || s[s.len() - 5] == 45)
}

fn normalize_generalized(s: &[u8]) -> (r: Vec<u8>)
    ensures
        r@ == normalized_generalized(s@),
{
    let mut out: Vec<u8> = Vec::new();
    let mut i: usize = 0;
    while i < s.len()
        invariant
            i <= s@.len(),
            out@ =~= s@.subrange(0, i as int).map_values(
                |b: u8|
                    if b == 44 {
                        46u8
                    } else {
                        b
                    },
            ),
        decreases s@.len() - i,
    {
        out.push(
            if s[i] == 44 {
                46
            } else {
                s[i]
            },
        );
        i = i + 1;
    }
    proof {
        assert(s@.subrange(0, s@.len() as int) =~= s@);
    }
    if out.len() > 0 && out[out.len() - 1] == 90 {
        out.pop();
    }
    out
}

/// The formats `any_generalized_formats` lists, in order.
fn generalized_formats(s: &[u8]) -> (r: Vec<&'static str>)
    ensures
        r@.len() == any_generalized_formats(s@).len(),
        forall|i: int| 0 <= i < r@.len() ==> #[trigger] r@[i]@ == any_generalized_formats(s@)[i],
{
    let mut v: Vec<&'static str> = Vec::new();
    let n = s.len();
    if contains(s, 46) {
        if offset_at_end(s) {
            v.push("%Y%m%d%H%M%S%.f%z");
            v.push("%Y%m%d%H%M%.f%z");
            v.push("%Y%m%d%H%.f%z");
        } else {
            v.push("%Y%m%d%H%M%S%.f");
            v.push("%Y%m%d%H%M%.f");
            v.push("%Y%m%d%H%.f");
        }
    } else if offset_at_end(s) {
        if n == 19 {
            v.push("%Y%m%d%H%M%S%z");
        } else if n == 17 {
            v.push("%Y%m%d%H%M%z");
        } else if n == 15 {
            v.push("%Y%m%d%H%z");
        } else {
            v.push("%Y%m%d%H%M%S%z");
            v.push("%Y%m%d%H%M%z");
            v.push("%Y%m%d%H%z");
        }
    } else if n == 8 {
        v.push("%Y%m%d");
    } else if n == 10 {
        v.push("%Y%m%d%H");
    } else if n == 12 {
        v.push("%Y%m%d%H%M");
    } else if n == 14 {
        v.push("%Y%m%d%H%M%S");
    }
    v
}

/// The first of `fmts` by which `s` reads.
fn first_parse(s: &[u8], fmts: &Vec<&'static str>, offset: bool, ghost_fmts: Ghost<Seq<Seq<char>>>) -> (r:
    Option<GeneralizedTime>)
    requires
        fmts@.len() == ghost_fmts@.len(),
        forall|i: int| 0 <= i < fmts@.len() ==> #[trigger] fmts@[i]@ == ghost_fmts@[i],
    ensures
        r == first_datetime(s@, ghost_fmts@, offset),
{
    let mut i: usize = 0;
    proof {
        assert(ghost_fmts@.subrange(0, ghost_fmts@.len() as int) =~= ghost_fmts@);
    }
    while i < fmts.len()
        invariant
            i <= fmts@.len() == ghost_fmts@.len(),
            forall|j: int| 0 <= j < fmts@.len() ==> #[trigger] fmts@[j]@ == ghost_fmts@[j],
            first_datetime(s@, ghost_fmts@, offset) == first_datetime(
                s@,
                ghost_fmts@.subrange(i as int, ghost_fmts@.len() as int),
                offset,
            ),
        decreases fmts@.len() - i,
    {
        let f = fmts[i];
        let ghost rest = ghost_fmts@.subrange(i as int, ghost_fmts@.len() as int);
        proof {
            assert(rest[0] == f@);
            assert(rest.drop_first() =~= ghost_fmts@.subrange(i + 1, ghost_fmts@.len() as int));
        }
        if offset {
            match parse_with_offset(s, f) {
                Some((t, n, o)) => {
                    return Some(GeneralizedTime { timestamp: t, nanos: n, offset_seconds: o });
                },
                None => {},
            }
        } else {
            match parse_naive(s, f) {
                Some((t, n)) => {
                    return Some(GeneralizedTime { timestamp: t, nanos: n, offset_seconds: 0 });
                },
                None => {},
            }
        }
        i = i + 1;
    }
    proof {
        assert(ghost_fmts@.subrange(i as int, ghost_fmts@.len() as int).len() == 0);
    }
    None
}

/// Reads a generalized time by any format the basic rules allow: fractions
/// after a dot or a comma, an optional `Z`, an explicit offset, or local time
/// taken as UTC.
pub fn parse_any_generalized_time_string(string: &str) -> (r: Result<GeneralizedTime, DecodeError>)
    ensures
        r.is_ok() == any_generalized_spec(string.spec_bytes()).is_some(),
        r matches Ok(t) ==> t == any_generalized_spec(string.spec_bytes()).unwrap(),
{
    let s = normalize_generalized(string.as_bytes());
    let fmts = generalized_formats(s.as_slice());
    let offset = offset_at_end(s.as_slice());
    let ghost g = any_generalized_formats(s@);
    match first_parse(s.as_slice(), &fmts, offset, Ghost(g)) {
        Some(t) => Ok(t),
        None => Err(DecodeError::InvalidDate { msg: string.to_owned() }),
    }
}

/// Reads a generalized time as the canonical rules require: `Z`, seconds, and
/// a dot before any fraction.
pub fn parse_canonical_generalized_time_string(string: &str) -> (r: Result<
    GeneralizedTime,
    DecodeError,
>)
    ensures
        r.is_ok() == canonical_generalized_spec(string.spec_bytes()).is_some(),
        r matches Ok(t) ==> t == canonical_generalized_spec(string.spec_bytes()).unwrap(),
{
    let bytes = string.as_bytes();
    let n = bytes.len();
    if n == 0 || bytes[n - 1] != 90 {
        return Err(DecodeError::InvalidDate { msg: string.to_owned() });
    }
    let t = crate::bytes::copy_range(bytes, 0, n - 1);
    proof {
        assert(t@ =~= bytes@.drop_last());
    }
    let mut fmts: Vec<&'static str> = Vec::new();
    if contains(t.as_slice(), 46) {
        fmts.push("%Y%m%d%H%M%S%.f");
    } else if t.len() == 14 {
        fmts.push("%Y%m%d%H%M%S");
    } else {
        return Err(DecodeError::InvalidDate { msg: string.to_owned() });
    }
    let ghost g = if contains_byte(t@, 46) {
        seq!["%Y%m%d%H%M%S%.f"@]
    } else {
        seq!["%Y%m%d%H%M%S"@]
    };
    match first_parse(t.as_slice(), &fmts, false, Ghost(g)) {
        Some(v) => Ok(v),
        None => Err(DecodeError::InvalidDate { msg: string.to_owned() }),
    }
}

/// Reads a UTC time by any format the basic rules allow; an offset is applied
/// and the result given in UTC.
pub fn parse_any_utc_time_string(string: &str) -> (r: Result<UtcTime, DecodeError>)
    ensures
        r.is_ok() == any_utc_spec(string.spec_bytes()).is_some(),
        r matches Ok(t) ==> t == any_utc_spec(string.spec_bytes()).unwrap(),
{
    let s = string.as_bytes();
    let n = s.len();
    if n > 17 {
        return Err(DecodeError::InvalidDate { msg: string.to_owned() });
    }
    let fmt: &'static str = if contains(s, 90) {
        if n == 11 {
            "%y%m%d%H%MZ"
        } else {
            "%y%m%d%H%M%SZ"
        }
    } else if n == 15 {
        "%y%m%d%H%M%z"
    } else {
        "%y%m%d%H%M%S%z"
    };
    if n == 11 || n == 13 {
        let mut fmts: Vec<&'static str> = Vec::new();
        fmts.push(fmt);
        let ghost g = seq![fmt@];
        match first_parse(s, &fmts, false, Ghost(g)) {
            Some(v) => Ok(v),
            None => Err(DecodeError::InvalidDate { msg: string.to_owned() }),
        }
    } else if n == 15 || n == 17 {
        match parse_with_offset(s, fmt) {
            Some((t, nanos, _)) => Ok(GeneralizedTime { timestamp: t, nanos, offset_seconds: 0 }),
            None => Err(DecodeError::InvalidDate { msg: string.to_owned() }),
        }
    } else {
        Err(DecodeError::InvalidDate { msg: string.to_owned() })
    }
}

/// Reads a UTC time as the canonical rules require: exactly `YYMMDDhhmmssZ`.
pub fn parse_canonical_utc_time_string(string: &str) -> (r: Result<UtcTime, DecodeError>)
    ensures
        r.is_ok() == canonical_utc_spec(string.spec_bytes()).is_some(),
        r matches Ok(t) ==> t == canonical_utc_spec(string.spec_bytes()).unwrap(),
{
    let s = string.as_bytes();
    let n = s.len();
    if n != 13 || s[n - 1] != 90 {
        return Err(DecodeError::InvalidDate { msg: string.to_owned() });
    }
    let mut fmts: Vec<&'static str> = Vec::new();
    fmts.push("%y%m%d%H%M%SZ");
    let ghost g = seq!["%y%m%d%H%M%SZ"@];
    match first_parse(s, &fmts, false, Ghost(g)) {
        Some(v) => Ok(v),
        None => Err(DecodeError::InvalidDate { msg: string.to_owned() }),
    }
}

/// Reads a date written `YYYYMMDD`.
pub fn parse_date_string(string: &str) -> (r: Result<Date, DecodeError>)
    ensures
        r.is_ok() == date_of(string.spec_bytes(), "%Y%m%d"@).is_some(),
        r matches Ok(d) ==> date_of(string.spec_bytes(), "%Y%m%d"@) == Some((d.year, d.month, d.day)),
{
    match parse_date(string.as_bytes(), "%Y%m%d") {
        Some((year, month, day)) => Ok(Date { year, month, day }),
        None => Err(DecodeError::InvalidDate { msg: string.to_owned() }),
    }
}

} // verus!
