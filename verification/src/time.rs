//! Storage timestamp format: RFC 3339 UTC with milliseconds and a literal Z.
//!
//! Parsing and printing of times is `chrono`'s; what this module decides is
//! which form of input is tried first and what counts as a timestamp.

use vstd::prelude::*;

use crate::text::{is_digit, trim, trim_str};

verus! {

/// `chrono`'s reading of an RFC 3339 text, converted to UTC and printed in
/// storage form; `None` when it is not RFC 3339.
pub uninterp spec fn rfc3339_storage(text: Seq<char>) -> Option<Seq<char>>;

/// `chrono`'s reading of a `YYYY-MM-DD` text as UTC midnight, printed in
/// storage form; `None` when it is not such a date.
pub uninterp spec fn date_storage(text: Seq<char>) -> Option<Seq<char>>;

/// `chrono`'s `%Y-W%W` label (year, Monday-based week) of a stored timestamp;
/// `None` when the text is not RFC 3339.
pub uninterp spec fn week_label_of(ts: Seq<char>) -> Option<Seq<char>>;

/// A printed timestamp that starts with a digit, ends with `Z`, and that the
/// RFC 3339 reading gives back unchanged.
pub open spec fn reads_back(s: Seq<char>) -> bool {
    &&& s.len() >= 1
    &&& is_digit(s[0])
    &&& s.last() == 'Z'
    &&& rfc3339_storage(s) == Some(s)
}

/// Parses `text` with `DateTime::parse_from_rfc3339`, converts it with
/// `with_timezone(&Utc)` and prints it with
/// `to_rfc3339_opts(SecondsFormat::Millis, true)`. The result is named, a
/// function of the text alone. Stated besides, of a printed result of 24
/// characters (a year from 0 to 9999, four digits; `write_rfc3339` writes
/// any other year with a sign and more characters): it starts with a digit,
/// ends with the `Z` of the zero offset, and parsing it again gives it back,
/// as `parse_rfc3339` reads exactly the fields that were printed.
#[verifier::external_body]
fn storage_from_rfc3339(text: &str) -> (r: Option<String>)
    ensures
        match r {
            Some(s) => rfc3339_storage(text@) == Some(s@),
            None => rfc3339_storage(text@) is None,
        },
        r matches Some(s) ==> (s@.len() == 24 ==> reads_back(s@)),
{
    match chrono::DateTime::parse_from_rfc3339(text) {
        Ok(dt) => Some(
            dt.with_timezone(&chrono::Utc).to_rfc3339_opts(chrono::SecondsFormat::Millis, true),
        ),
        Err(_) => None,
    }
}

/// Parses `text` with `NaiveDate::parse_from_str(text, "%Y-%m-%d")`, takes
/// `and_hms_opt(0, 0, 0)` and `and_utc()`, and prints it with
/// `to_rfc3339_opts(SecondsFormat::Millis, true)`. The result is named, a
/// function of the text alone. Stated besides, as for
/// `storage_from_rfc3339`: a printed result of 24 characters starts with a
/// digit, ends with `Z`, and parses back to itself.
#[verifier::external_body]
fn storage_from_date(text: &str) -> (r: Option<String>)
    ensures
        match r {
            Some(s) => date_storage(text@) == Some(s@),
            None => date_storage(text@) is None,
        },
        r matches Some(s) ==> (s@.len() == 24 ==> reads_back(s@)),
{
    match chrono::NaiveDate::parse_from_str(text, "%Y-%m-%d") {
        Ok(date) => match date.and_hms_opt(0, 0, 0) {
            Some(dt) => Some(
                dt.and_utc().to_rfc3339_opts(chrono::SecondsFormat::Millis, true),
            ),
            None => None,
        },
        Err(_) => None,
    }
}

/// The year part of a storage timestamp: four digits, or (past year 9999) a
/// `+` and five or more digits.
pub open spec fn year_shape(y: Seq<char>) -> bool {
    ||| y.len() == 4 && forall|i: int| 0 <= i < 4 ==> is_digit(#[trigger] y[i])
    ||| y.len() >= 6 && y[0] == '+' && forall|i: int| 1 <= i < y.len() ==> is_digit(#[trigger] y[i])
}

/// Whether position `i` of `t` is a digit.
pub open spec fn digit_at(t: Seq<char>, i: int) -> bool {
    is_digit(t[i])
}

/// The form every storage timestamp has: a year, then
/// `-MM-DDTHH:MM:SS.mmmZ` with each letter a digit.
pub open spec fn storage_shape(s: Seq<char>) -> bool {
    let n = s.len() as int;
    let t = s.subrange(n - 20, n);
    &&& n >= 24
    &&& year_shape(s.take(n - 20))
    &&& t[0] == '-' && digit_at(t, 1) && digit_at(t, 2)
    &&& t[3] == '-' && digit_at(t, 4) && digit_at(t, 5)
    &&& t[6] == 'T' && digit_at(t, 7) && digit_at(t, 8)
    &&& t[9] == ':' && digit_at(t, 10) && digit_at(t, 11)
    &&& t[12] == ':' && digit_at(t, 13) && digit_at(t, 14)
    &&& t[15] == '.' && digit_at(t, 16) && digit_at(t, 17) && digit_at(t, 18)
    &&& t[19] == 'Z'
}

/// `Utc::now()` printed with `to_rfc3339_opts(SecondsFormat::Millis, true)`.
/// Stated: the storage form, which `write_rfc3339` writes for every time
/// (two-digit fields, three-digit milliseconds, `Z` for the zero offset of
/// `Utc`, a signed year past 9999; `Utc::now` gives no year before 1970).
/// Which time it is, is the clock's. A result of 24 characters (a four-digit
/// year) parses back to itself with `parse_from_rfc3339`. `Utc::now` panics
/// when the system clock reads before 1970.
#[verifier::external_body]
fn clock_now() -> (r: String)
    ensures
        storage_shape(r@),
        r@.len() == 24 ==> rfc3339_storage(r@) == Some(r@),
{
    chrono::Utc::now().to_rfc3339_opts(chrono::SecondsFormat::Millis, true)
}

/// Parses a stored timestamp with `DateTime::parse_from_rfc3339` and prints it
/// with `format("%Y-W%W")`, the label of its Monday-based week. The result is
/// named, a function of the text alone.
#[verifier::external_body]
pub(crate) fn week_label(ts: &str) -> (r: Option<String>)
    ensures
        match r {
            Some(s) => week_label_of(ts@) == Some(s@),
            None => week_label_of(ts@) is None,
        },
{
    match chrono::DateTime::parse_from_rfc3339(ts) {
        Ok(dt) => Some(dt.format("%Y-W%W").to_string()),
        Err(_) => None,
    }
}

/// The current time in storage form.
pub fn now() -> (r: String)
    ensures
        storage_shape(r@),
        r@.len() == 24 ==> normalize_spec(r@) == Some(r@),
{
    let r = clock_now();
    proof {
        if r@.len() == 24 {
            assert(r@.subrange(4, 24)[0] == r@[4]);
            assert(r@.take(4)[0] == r@[0]);
            assert(r@.subrange(4, 24)[19] == r@.last());
            lemma_reads_back(r@);
        }
    }
    r
}

/// What `normalize` returns: RFC 3339 with any offset first, else a bare
/// `YYYY-MM-DD` as UTC midnight, both after trimming.
pub open spec fn normalize_spec(text: Seq<char>) -> Option<Seq<char>> {
    let t = trim(text);
    match rfc3339_storage(t) {
        Some(s) => Some(s),
        None => date_storage(t),
    }
}

/// Accepts RFC 3339 with any offset, or a bare `YYYY-MM-DD` (UTC midnight).
/// A result of 24 characters normalizes to itself again.
pub fn normalize(text: &str) -> (r: Option<String>)
    ensures
        match r {
            Some(s) => normalize_spec(text@) == Some(s@),
            None => normalize_spec(text@) is None,
        },
        r matches Some(s) ==> (s@.len() == 24 ==> normalize_spec(s@) == Some(s@)),
{
    let t = trim_str(text);
    let r = match storage_from_rfc3339(t.as_str()) {
        Some(s) => Some(s),
        None => storage_from_date(t.as_str()),
    };
    proof {
        if r is Some && r->Some_0@.len() == 24 {
            lemma_reads_back(r->Some_0@);
        }
    }
    r
}

/// A timestamp that reads back as itself, with no spaces at its ends,
/// normalizes to itself.
proof fn lemma_reads_back(s: Seq<char>)
    requires
        s.len() >= 1,
        is_digit(s[0]),
        s.last() == 'Z',
        rfc3339_storage(s) == Some(s),
    ensures
        normalize_spec(s) == Some(s),
{
    crate::money::lemma_no_ws_trim(s);
}

} // verus!
