//! Commit times as text.

use vstd::prelude::*;

verus! {

/// The text that chrono writes for a moment, `secs` seconds after the beginning of 1970, on the
/// clock of a place `offset` seconds east of Greenwich; `None` where the calendar does not reach.
pub uninterp spec fn clock_text(secs: i64, offset: i32, fmt: Seq<char>) -> Option<Seq<char>>;

/// The form of a time, with seconds or without.
pub open spec fn time_form(with_seconds: bool) -> Seq<char> {
    if with_seconds {
        "%Y-%m-%d %H:%M:%S"@
    } else {
        "%Y-%m-%d %H:%M"@
    }
}

/// `chrono::DateTime::format` writes the moment that `from_timestamp` gives for `secs`, moved to the
/// offset that `FixedOffset::east_opt` gives; `from_timestamp` gives none out of the calendar's
/// range. The forms hold hyphens, which are written as they are, so that no text is empty. The text
/// itself is left unsaid.
#[verifier::external_body]
fn clock(secs: i64, offset: i32, fmt: &str) -> (s: Option<String>)
    requires
        -86_400 < offset < 86_400,
        fmt@ == time_form(true) || fmt@ == time_form(false),
    ensures
        match s {
            Some(s) => clock_text(secs, offset, fmt@) == Some(s@) && s@.len() > 0,
            None => clock_text(secs, offset, fmt@) is None,
        },
{
    let place = chrono::FixedOffset::east_opt(offset)?;
    let moment = chrono::DateTime::from_timestamp(secs, 0)?;
    Some(moment.with_timezone(&place).format(fmt).to_string())
}

/// The text of a commit's time on the clock of the place where it was made, `tz_offset_min` minutes
/// east of Greenwich; empty where the offset reaches a day or the calendar does not reach.
pub open spec fn commit_time(secs: i64, tz_offset_min: int, with_seconds: bool) -> Seq<char> {
    if -86_400 < tz_offset_min * 60 < 86_400 {
        match clock_text(secs, (tz_offset_min * 60) as i32, time_form(with_seconds)) {
            Some(s) => s,
            None => Seq::empty(),
        }
    } else {
        Seq::empty()
    }
}

/// The text of a commit's time, such as `2024-05-06 07:08`, with seconds where asked for; empty where
/// there is none.
pub fn format_commit_time(secs: i64, tz_offset_min: i32, with_seconds: bool) -> (s: String)
    ensures
        s@ == commit_time(secs, tz_offset_min as int, with_seconds),
        s@.len() == 0 <==> !(-1440 < tz_offset_min < 1440) || clock_text(
            secs,
            (tz_offset_min * 60) as i32,
            time_form(with_seconds),
        ) is None,
{
    let fmt = if with_seconds {
        "%Y-%m-%d %H:%M:%S"
    } else {
        "%Y-%m-%d %H:%M"
    };
    if tz_offset_min <= -1440 || tz_offset_min >= 1440 {
        return String::new();
    }
    let offset: i32 = tz_offset_min * 60;
    match clock(secs, offset, fmt) {
        Some(s) => s,
        None => String::new(),
    }
}

/// `chrono::Local::now` tells how far the clock of this machine is ahead of Greenwich; an offset is
/// less than a day. Nothing more holds of it on every machine and at every time.
#[verifier::external_body]
fn local_offset() -> (secs: i32)
    ensures
        -86_400 < secs < 86_400,
{
    chrono::Local::now().offset().local_minus_utc()
}

/// Whole minutes, rounded towards zero.
pub fn whole_minutes(secs: i32) -> (min: i32)
    ensures
        secs >= 0 ==> min == secs as int / 60,
        secs < 0 ==> min == -(-(secs as int) / 60),
{
    secs / 60
}

/// How many minutes the clock of this machine is ahead of Greenwich.
pub fn local_tz_offset_min() -> (min: i32)
    ensures
        -1440 < min < 1440,
{
    whole_minutes(local_offset())
}

/// A commit's time is the text of its moment on the clock where it was made, whose offset is given in
/// minutes, to the minute or to the second; and nothing where the offset reaches a day, or the calendar
/// does not reach the moment.
pub proof fn law_commit_time_is_the_local_clock(secs: i64, min: i32, with_seconds: bool)
    ensures
        min <= -1440 || min >= 1440 ==> commit_time(secs, min as int, with_seconds).len() == 0,
        -1440 < min < 1440 ==> {
            let text = clock_text(
                secs,
                (60 * min) as i32,
                if with_seconds {
                    "%Y-%m-%d %H:%M:%S"@
                } else {
                    "%Y-%m-%d %H:%M"@
                },
            );
            &&& text is Some ==> commit_time(secs, min as int, with_seconds) == text->0
            &&& text is None ==> commit_time(secs, min as int, with_seconds).len() == 0
        },
{
}

} // verus!
