//! Filling the replay templates of sources.

use vstd::prelude::*;

use crate::failure::{AppError, Status};
use crate::text::{
    chars_of, contains_chars, has_text, push_chars, replace_chars, replaced, signed_decimal,
    signed_decimal_chars, string_of,
};
use crate::weburl::{web_address, web_scheme, Url};
use crate::zone::local_time;

verus! {

/// A time as `chrono` writes it in UTC after a `strftime` pattern.
pub uninterp spec fn utc_stamp(timestamp: i64, pattern: Seq<char>) -> Seq<char>;

/// The pattern of the times in a replay address.
pub open spec fn stamp_pattern() -> Seq<char> {
    "%Y%m%d%H%M%S"@
}

/// The seconds since 1970 that lie in a year that `chrono` represents, from
/// -262143 to 262142.
pub open spec fn representable(timestamp: i64) -> bool {
    -8_334_601_228_800 <= timestamp <= 8_210_266_876_799
}

/// The shape of a written time: digits, and a sign if the year has more than
/// four or is negative.
pub open spec fn stamp_like(s: Seq<char>) -> bool {
    &&& s.len() > 0
    &&& forall|i: int|
        0 <= i < s.len() ==> ('0' <= #[trigger] s[i] <= '9' || s[i] == '+' || s[i] == '-')
}

/// Calls `Utc.timestamp_opt`, and on success `format` of the time.
///
/// There is a time exactly for the seconds in the years that `chrono`
/// represents. It is written as `utc_stamp` names it, with the pattern's four
/// digits or more for the year and two for each other part.
#[verifier::external_body]
fn format_utc(timestamp: i64, pattern: &str) -> (r: Option<String>)
    requires
        pattern@ == stamp_pattern(),
    ensures
        match r {
            Some(s) => representable(timestamp) && s@ == utc_stamp(timestamp, pattern@)
                && stamp_like(s@),
            None => !representable(timestamp),
        },
{
    match chrono::TimeZone::timestamp_opt(&chrono::Utc, timestamp, 0).single() {
        Some(utc) => Some(utc.format(pattern).to_string()),
        None => None,
    }
}

/// A time as written in some time zone: as UTC would be written that is earlier or
/// later by the offset of the zone, which is less than a day.
pub open spec fn zoned_stamp(timestamp: i64, pattern: Seq<char>, s: Seq<char>) -> bool {
    exists|offset: int|
        -86_400 < offset < 86_400 && s == #[trigger] utc_stamp(
            (timestamp + offset) as i64,
            pattern,
        )
}

/// Calls `Utc.timestamp_opt`, and on success `with_timezone` with `Local` and
/// `format` of the time.
///
/// There is a time exactly for the seconds in the years that `chrono`
/// represents. It is written as a time in UTC that is shifted by the offset of
/// the local time zone, which `chrono` keeps below a day, and is a local time in
/// this sense. The offset itself depends on the machine and is left unsaid.
#[verifier::external_body]
fn format_local(timestamp: i64, pattern: &str) -> (r: Option<String>)
    requires
        pattern@ == stamp_pattern(),
    ensures
        match r {
            Some(s) => representable(timestamp) && zoned_stamp(timestamp, pattern@, s@)
                && local_time(timestamp, pattern@, s@) && stamp_like(s@),
            None => !representable(timestamp),
        },
{
    match chrono::TimeZone::timestamp_opt(&chrono::Utc, timestamp, 0).single() {
        Some(utc) => Some(utc.with_timezone(&chrono::Local).format(pattern).to_string()),
        None => None,
    }
}

/// The two ends of a replay, each as written in UTC and in local time.
pub struct Stamps {
    pub start_utc: String,
    pub start_local: String,
    pub end_utc: String,
    pub end_local: String,
}

/// The contents of `Stamps`.
pub struct StampsView {
    pub start_utc: Seq<char>,
    pub start_local: Seq<char>,
    pub end_utc: Seq<char>,
    pub end_local: Seq<char>,
}

impl View for Stamps {
    type V = StampsView;

    open spec fn view(&self) -> StampsView {
        StampsView {
            start_utc: self.start_utc@,
            start_local: self.start_local@,
            end_utc: self.end_utc@,
            end_local: self.end_local@,
        }
    }
}

/// A placeholder `${..}` for one end of the replay.
pub open spec fn placeholder(end: Seq<char>, form: Seq<char>) -> Seq<char> {
    "${"@ + end + form + "}"@
}

/// The placeholders of one end filled: seconds first, then UTC, then local time.
pub open spec fn filled_end(
    text: Seq<char>,
    end: Seq<char>,
    timestamp: int,
    utc: Seq<char>,
    local: Seq<char>,
) -> Seq<char> {
    let seconds = replaced(text, placeholder(end, "timestamp"@), signed_decimal(timestamp));
    let universal = replaced(seconds, placeholder(end, "yyyyMMddHHmmss:utc"@), utc);
    replaced(universal, placeholder(end, "yyyyMMddHHmmss"@), local)
}

/// A template with every known placeholder filled.
pub open spec fn filled(
    template: Seq<char>,
    start: int,
    end: int,
    stamps: StampsView,
) -> Seq<char> {
    let begun = filled_end(template, "(b)"@, start, stamps.start_utc, stamps.start_local);
    let ended = filled_end(begun, "(e)"@, end, stamps.end_utc, stamps.end_local);
    replaced(
        replaced(ended, "{utc:YmdHMS}"@, stamps.start_utc),
        "{utcend:YmdHMS}"@,
        stamps.end_utc,
    )
}

/// A filled template in which a placeholder is left.
pub open spec fn unfilled(text: Seq<char>) -> bool {
    has_text(text, "${"@) || has_text(text, "{utc:"@) || has_text(text, "{utcend:"@)
}

/// `r` is what comes of a filled template: an address without placeholders that
/// can be fetched is the result, and any other text is refused.
pub open spec fn settles(text: Seq<char>, r: Result<String, AppError>) -> bool {
    match r {
        Ok(url) => !unfilled(text) && web_address(text) && url@ == text,
        Err(e) => if unfilled(text) {
            e.says(Status::BadRequest, "unsupported replay template"@)
        } else {
            !web_address(text) && e.says(Status::BadRequest, "invalid replay URL"@)
        },
    }
}

fn placeholder_chars(end: &str, form: &str) -> (r: Vec<char>)
    ensures
        r@ == placeholder(end@, form@),
        r@.len() > 0,
{
    let mut r = chars_of("${");
    push_chars(&mut r, &chars_of(end));
    push_chars(&mut r, &chars_of(form));
    push_chars(&mut r, &chars_of("}"));
    proof {
        reveal_strlit("}");
    }
    r
}

fn fill_end(text: &[char], end: &str, timestamp: i64, utc: &[char], local: &[char]) -> (r: Vec<
    char,
>)
    ensures
        r@ == filled_end(text@, end@, timestamp as int, utc@, local@),
{
    let seconds = replace_chars(
        text,
        &placeholder_chars(end, "timestamp"),
        &signed_decimal_chars(timestamp),
    );
    let universal = replace_chars(&seconds, &placeholder_chars(end, "yyyyMMddHHmmss:utc"), utc);
    replace_chars(&universal, &placeholder_chars(end, "yyyyMMddHHmmss"), local)
}

/// Fills the known placeholders of a replay template.
pub fn fill_template(template: &str, start: i64, end: i64, stamps: &Stamps) -> (r: String)
    ensures
        r@ == filled(template@, start as int, end as int, stamps@),
{
    let start_utc = chars_of(stamps.start_utc.as_str());
    let start_local = chars_of(stamps.start_local.as_str());
    let end_utc = chars_of(stamps.end_utc.as_str());
    let end_local = chars_of(stamps.end_local.as_str());
    proof {
        reveal_strlit("{utc:YmdHMS}");
        reveal_strlit("{utcend:YmdHMS}");
    }
    let begun = fill_end(&chars_of(template), "(b)", start, &start_utc, &start_local);
    let ended = fill_end(&begun, "(e)", end, &end_utc, &end_local);
    let first = replace_chars(&ended, &chars_of("{utc:YmdHMS}"), &start_utc);
    let second = replace_chars(&first, &chars_of("{utcend:YmdHMS}"), &end_utc);
    string_of(&second)
}

/// What comes of a filled template, given the address that it reads as.
pub fn settle_replay(text: String, parsed: Option<Url>) -> (r: Result<String, AppError>)
    ensures
        match r {
            Ok(url) => {
                &&& !unfilled(text@)
                &&& parsed matches Some(found) && web_scheme(found.scheme@)
                &&& url@ == text@
            },
            Err(e) => if unfilled(text@) {
                e.says(Status::BadRequest, "unsupported replay template"@)
            } else {
                &&& parsed matches Some(found) ==> !web_scheme(found.scheme@)
                &&& e.says(Status::BadRequest, "invalid replay URL"@)
            },
        },
{
    let chars = chars_of(text.as_str());
    if contains_chars(&chars, &chars_of("${")) || contains_chars(&chars, &chars_of("{utc:"))
        || contains_chars(&chars, &chars_of("{utcend:")) {
        return Err(AppError(Status::BadRequest, "unsupported replay template"));
    }
    match parsed {
        Some(found) => {
            if found.is_web() {
                Ok(text)
            } else {
                Err(AppError(Status::BadRequest, "invalid replay URL"))
            }
        },
        None => Err(AppError(Status::BadRequest, "invalid replay URL")),
    }
}

/// The times of a replay as they are written, if both can be written.
fn replay_stamps(start: i64, end: i64) -> (r: Option<Stamps>)
    ensures
        match r {
            Some(stamps) => {
                &&& representable(start) && representable(end)
                &&& stamps_of(stamps@, start, end)
            },
            None => !representable(start) || !representable(end),
        },
{
    let pattern = "%Y%m%d%H%M%S";
    match (
        format_utc(start, pattern),
        format_local(start, pattern),
        format_utc(end, pattern),
        format_local(end, pattern),
    ) {
        (Some(start_utc), Some(start_local), Some(end_utc), Some(end_local)) => Some(
            Stamps { start_utc, start_local, end_utc, end_local },
        ),
        _ => None,
    }
}

/// All four times have the shape of a written time.
pub open spec fn written(stamps: StampsView) -> bool {
    &&& stamp_like(stamps.start_utc)
    &&& stamp_like(stamps.start_local)
    &&& stamp_like(stamps.end_utc)
    &&& stamp_like(stamps.end_local)
}

/// The two ends of a replay as written: in UTC, and in the time zone of the
/// machine.
pub open spec fn stamps_of(stamps: StampsView, start: i64, end: i64) -> bool {
    &&& stamps.start_utc == utc_stamp(start, stamp_pattern())
    &&& stamps.end_utc == utc_stamp(end, stamp_pattern())
    &&& zoned_stamp(start, stamp_pattern(), stamps.start_local)
    &&& zoned_stamp(end, stamp_pattern(), stamps.end_local)
    &&& local_time(start, stamp_pattern(), stamps.start_local)
    &&& local_time(end, stamp_pattern(), stamps.end_local)
    &&& written(stamps)
}

/// `r` is what comes of a replay template for the given times: with the local
/// times written as the machine does, the filled template is settled; times that
/// cannot be written are refused.
pub open spec fn expands(
    template: Seq<char>,
    start: i64,
    end: i64,
    r: Result<String, AppError>,
) -> bool {
    if representable(start) && representable(end) {
        exists|stamps: StampsView|
            {
                &&& #[trigger] stamps_of(stamps, start, end)
                &&& settles(filled(template, start as int, end as int, stamps), r)
            }
    } else {
        r matches Err(e) && e.says(Status::BadRequest, "invalid replay time"@)
    }
}

/// The address of a replay.
///
/// The local times in it are the given ones in the time zone of the machine.
pub fn expand_catchup(template: &str, start: i64, end: i64) -> (r: Result<String, AppError>)
    ensures
        expands(template@, start, end, r),
{
    match replay_stamps(start, end) {
        None => Err(AppError(Status::BadRequest, "invalid replay time")),
        Some(stamps) => {
            let text = fill_template(template, start, end, &stamps);
            let parsed = Url::parse(text.as_str());
            let r = settle_replay(text, parsed);
            assert(stamps_of(stamps@, start, end) && settles(
                filled(template@, start as int, end as int, stamps@),
                r,
            ));
            r
        },
    }
}

} // verus!
