//! The date line of a response.
use vstd::prelude::*;

use crate::text::is_line_text;

verus! {

/// How a date is written in HTTP.
pub const HTTP_DATE: &'static str = "%a, %d %b %Y %H:%M:%S GMT";

/// The last second that the calendar of `chrono` covers, counted from the beginning of 1970.
pub const LAST_SECOND: i64 = 8_210_266_876_799;

/// The text that `chrono` writes for a second since the beginning of 1970, in universal
/// time, in a given format.
pub uninterp spec fn formatted_utc(seconds: i64, format: Seq<char>) -> Seq<char>;

/// Calls `chrono::Utc::now` and gives its second since the beginning of 1970. Which second
/// that is depends on the machine's clock and is left open. `now` panics where the clock is
/// set before 1970 or past the end of the calendar, so that a second it gives lies between.
#[verifier::external_body]
fn utc_second() -> (seconds: i64)
    ensures
        0 <= seconds <= LAST_SECOND,
{
    chrono::Utc::now().timestamp()
}

/// Calls `chrono::DateTime::format` on the given second in universal time. The result is a
/// function of the second and of the format; in the one format admitted here every item
/// writes letters, digits and signs of one line.
#[verifier::external_body]
fn format_utc(seconds: i64, format: &str) -> (r: String)
    requires
        0 <= seconds <= LAST_SECOND,
        format@ == HTTP_DATE@,
    ensures
        r@ == formatted_utc(seconds, format@),
        is_line_text(r@),
{
    chrono::DateTime::<chrono::Utc>::from_timestamp(seconds, 0).unwrap().format(format).to_string()
}

/// The date of a second since the beginning of 1970, as HTTP writes it.
pub open spec fn http_date(seconds: i64) -> Seq<char> {
    formatted_utc(seconds, HTTP_DATE@)
}

/// Writes the date of a second.
pub fn date_at(seconds: i64) -> (r: String)
    requires
        0 <= seconds <= LAST_SECOND,
    ensures
        r@ == http_date(seconds),
        is_line_text(r@),
{
    format_utc(seconds, HTTP_DATE)
}

/// Writes the current date.
pub fn current_date() -> (r: String)
    ensures
        exists|seconds: i64| 0 <= seconds <= LAST_SECOND && r@ == #[trigger] http_date(seconds),
        is_line_text(r@),
{
    let seconds: i64 = utc_second();
    date_at(seconds)
}

} // verus!
