//! Points in time: how they are written, and how they are shown.

use vstd::prelude::*;

use crate::text::{lemma_added, lemma_kept, occurs, starts_with, trim_str, trimmed};

verus! {

/// The first second that the calendar reaches, counted from 1970.
pub const FIRST_SECOND: i64 = -8_334_601_228_800;

/// The last second that the calendar reaches, counted from 1970.
pub const LAST_SECOND: i64 = 8_210_266_876_799;

/// Whether the calendar reaches a second, counted from 1970.
pub open spec fn in_calendar(secs: int) -> bool {
    FIRST_SECOND <= secs <= LAST_SECOND
}

// ---------------------------------------------------------------------------
// Reading
// ---------------------------------------------------------------------------

/// The point in time that a text in the notation of RFC 3339 stands for, in
/// seconds since 1970, and the hour of the day as the text gives it.
pub uninterp spec fn rfc3339(s: Seq<char>) -> Option<(i64, u32)>;

/// `chrono::DateTime::parse_from_rfc3339`, with the timestamp of its result and
/// the hour at the offset that the text names: what is read depends on the text
/// alone and is called [`rfc3339`]. The notation has four digits for the year, so
/// that the calendar reaches all that it can say.
#[verifier::external_body]
pub(crate) fn parse_rfc3339(s: &str) -> (r: Option<(i64, u32)>)
    ensures
        r == rfc3339(s@),
        r matches Some(t) ==> in_calendar(t.0 as int) && t.1 < 24,
{
    let t = chrono::DateTime::parse_from_rfc3339(s).ok()?;
    Some((t.timestamp(), chrono::Timelike::hour(&t)))
}

/// The point in time that a text in the notation of RFC 3339 stands for, in
/// seconds since 1970.
pub open spec fn rfc3339_second(s: Seq<char>) -> Option<i64> {
    match rfc3339(s) {
        Some(t) => Some(t.0),
        None => None,
    }
}

/// The point in time that a text in the notation of RFC 2822 stands for, in
/// seconds since 1970.
pub uninterp spec fn rfc2822(s: Seq<char>) -> Option<i64>;

/// `chrono::DateTime::parse_from_rfc2822` and the timestamp of its result: what
/// is read depends on the text alone and is called [`rfc2822`].
#[verifier::external_body]
fn parse_rfc2822(s: &str) -> (r: Option<i64>)
    ensures
        r == rfc2822(s@),
{
    chrono::DateTime::parse_from_rfc2822(s).ok().map(|t| t.timestamp())
}

/// The date of an item, in either notation.
pub open spec fn feed_date(s: Seq<char>) -> Option<i64> {
    let t = trimmed(s);
    if t.len() == 0 {
        None
    } else if rfc3339(t) is Some {
        rfc3339_second(t)
    } else {
        rfc2822(t)
    }
}

/// Reads the date of an item, in the notation of Atom or of RSS. `None` where
/// it is neither.
pub fn parse_feed_date(s: &str) -> (r: Option<i64>)
    ensures
        r == feed_date(s@),
{
    let t = trim_str(s);
    if t.as_str().is_empty() {
        return None;
    }
    match parse_rfc3339(t.as_str()) {
        Some(time) => Some(time.0),
        None => parse_rfc2822(t.as_str()),
    }
}

// ---------------------------------------------------------------------------
// Writing
// ---------------------------------------------------------------------------

/// Whether a clock can be ahead of the one in Greenwich by an offset in seconds:
/// it is less than a day.
pub open spec fn is_offset(offset: int) -> bool {
    -86_400 < offset < 86_400
}

/// Whether points in time are written with a pattern.
pub open spec fn is_pattern(pattern: Seq<char>) -> bool {
    pattern == "%Y-%m-%dT%H:%M:%SZ"@ || pattern == "%Y-%m-%d"@ || pattern == "%a, %d %b %H:%M"@
        || pattern == "%H:%M"@
}

/// A point in time, written with a pattern, on a clock that is ahead of the one
/// in Greenwich by an offset in seconds.
pub uninterp spec fn clock_notation(secs: int, offset: int, pattern: Seq<char>) -> Seq<char>;

/// `chrono::DateTime::format`, of a point in time that is taken to a fixed offset:
/// what is written depends on the point in time, the offset and the pattern alone
/// and is called [`clock_notation`].
#[verifier::external_body]
fn clock_text(secs: i64, offset: i32, pattern: &str) -> (r: String)
    requires
        in_calendar(secs as int),
        is_offset(offset as int),
        is_pattern(pattern@),
    ensures
        r@ == clock_notation(secs as int, offset as int, pattern@),
{
    let zone = chrono::FixedOffset::east_opt(offset).unwrap();
    let time = chrono::DateTime::from_timestamp(secs, 0).unwrap();
    time.with_timezone(&zone).format(pattern).to_string()
}

/// The point in time some hours ago, in universal time, such as
/// `2024-01-15T10:30:00Z`.
pub fn since_iso8601(now: i64, hours: u64) -> (r: String)
    requires
        in_calendar(now as int),
        in_calendar(now - hours * 3600),
    ensures
        r@ == clock_notation(now - hours * 3600, 0, "%Y-%m-%dT%H:%M:%SZ"@),
{
    let ago: i64 = (hours * 3600) as i64;
    clock_text(now - ago, 0, "%Y-%m-%dT%H:%M:%SZ")
}

/// A point in time on a clock.
pub struct LocalStamp {
    /// The date.
    pub date: String,
    /// The weekday, the day, the month and the time.
    pub long: String,
    /// The time.
    pub short: String,
}

/// What a clock shows, in contracts.
pub struct Shown {
    /// The date.
    pub date: Seq<char>,
    /// The weekday, the day, the month and the time.
    pub long: Seq<char>,
    /// The time.
    pub short: Seq<char>,
}

impl View for LocalStamp {
    type V = Shown;

    open spec fn view(&self) -> Shown {
        Shown { date: self.date@, long: self.long@, short: self.short@ }
    }
}

/// What a stamp shows, if there is one.
pub open spec fn stamp_view(stamp: Option<LocalStamp>) -> Option<Shown> {
    match stamp {
        Some(s) => Some(s@),
        None => None,
    }
}

/// What a clock shows that is ahead of the one in Greenwich by an offset in
/// seconds.
pub open spec fn shown(secs: int, offset: int) -> Shown {
    Shown {
        date: clock_notation(secs, offset, "%Y-%m-%d"@),
        long: clock_notation(secs, offset, "%a, %d %b %H:%M"@),
        short: clock_notation(secs, offset, "%H:%M"@),
    }
}

/// What a clock shows that is ahead of the one in Greenwich by an offset in
/// seconds.
pub fn stamp_at(secs: i64, offset: i32) -> (r: LocalStamp)
    requires
        in_calendar(secs as int),
        is_offset(offset as int),
    ensures
        r@ == shown(secs as int, offset as int),
{
    LocalStamp {
        date: clock_text(secs, offset, "%Y-%m-%d"),
        long: clock_text(secs, offset, "%a, %d %b %H:%M"),
        short: clock_text(secs, offset, "%H:%M"),
    }
}

/// The offset of `chrono::Local` at a point in time, in seconds: less than a day,
/// as `chrono::FixedOffset` holds no more. Which one it is depends on the time
/// zone of the machine, and nothing else is claimed of it.
#[verifier::external_body]
fn local_offset(secs: i64) -> (r: i32)
    requires
        in_calendar(secs as int),
    ensures
        is_offset(r as int),
{
    let time = chrono::DateTime::from_timestamp(secs, 0).unwrap();
    time.with_timezone(&chrono::Local).offset().local_minus_utc()
}

/// Whether a stamp is what the clock of some machine shows at a point in time.
/// There is one exactly for what the calendar reaches.
pub open spec fn is_stamp(stamp: Option<Shown>, secs: Option<int>) -> bool {
    match stamp {
        Some(s) => secs matches Some(t) && in_calendar(t) && exists|offset: int|
            is_offset(offset) && s == #[trigger] shown(t, offset),
        None => !(secs matches Some(t) && in_calendar(t)),
    }
}

/// What the clock of the machine shows at a point in time.
pub(crate) fn local_stamp(secs: i64) -> (r: Option<LocalStamp>)
    ensures
        is_stamp(stamp_view(r), Some(secs as int)),
{
    if secs < FIRST_SECOND || secs > LAST_SECOND {
        return None;
    }
    let offset: i32 = local_offset(secs);
    Some(stamp_at(secs, offset))
}

/// The second that a millisecond is in.
pub open spec fn second_of(millis: int) -> int {
    millis / 1000
}

/// What the clock of the machine shows at a millisecond, counted from 1970.
pub(crate) fn local_stamp_of_millis(millis: i64) -> (r: Option<LocalStamp>)
    ensures
        is_stamp(stamp_view(r), Some(second_of(millis as int))),
{
    let secs: i64 = if millis >= 0 {
        millis / 1000
    } else {
        -((999 - (millis as i128)) / 1000) as i64
    };
    assert(secs == second_of(millis as int));
    local_stamp(secs)
}

/// A time span as it is shown: the second date is left out where it is the
/// first one, and what is missing is not named.
pub open spec fn span_text(start: Option<Shown>, end: Option<Shown>) -> Option<Seq<char>> {
    match (start, end) {
        (Some(a), Some(b)) => if a.date == b.date {
            Some(a.long + "-"@ + b.short)
        } else {
            Some(a.long + " - "@ + b.long)
        },
        (Some(a), None) => Some("from "@ + a.long),
        (None, Some(b)) => Some("until "@ + b.long),
        (None, None) => None,
    }
}

/// A time span as it is shown.
pub fn show_span(start: &Option<LocalStamp>, end: &Option<LocalStamp>) -> (r: Option<String>)
    ensures
        r.deep_view() == span_text(stamp_view(*start), stamp_view(*end)),
{
    match (start, end) {
        (Some(a), Some(b)) => {
            let mut out = a.long.clone();
            if a.date == b.date {
                out.append("-");
                out.append(b.short.as_str());
            } else {
                out.append(" - ");
                out.append(b.long.as_str());
            }
            Some(out)
        },
        (Some(a), None) => {
            let mut out = "from ".to_owned();
            out.append(a.long.as_str());
            Some(out)
        },
        (None, Some(b)) => {
            let mut out = "until ".to_owned();
            out.append(b.long.as_str());
            Some(out)
        },
        (None, None) => None,
    }
}

// ---------------------------------------------------------------------------
// Laws
// ---------------------------------------------------------------------------

/// A date is read in the notation of Atom if it is in that one, and else in that of RSS; white
/// space around it does not matter, and there is none in a blank text.
pub proof fn law_dates_are_read(s: Seq<char>)
    ensures
        trimmed(s).len() == 0 ==> feed_date(s) is None,
        trimmed(s).len() > 0 ==> {
            &&& rfc3339(trimmed(s)) matches Some(t) ==> feed_date(s) == Some(t.0)
            &&& rfc3339(trimmed(s)) is None ==> feed_date(s) == rfc2822(trimmed(s))
        },
{
}

/// A time span shows both of its ends, the second one without its date where that is the same
/// day; an end that is not known is not shown, and with neither there is nothing to show.
pub proof fn law_spans_show_both_ends(a: Shown, b: Shown)
    ensures
        span_text(Some(a), Some(b)) matches Some(t) && occurs(t, a.long) && (if a.date == b.date {
            occurs(t, b.short)
        } else {
            occurs(t, b.long)
        }),
        span_text(Some(a), None) matches Some(t) && occurs(t, a.long) && starts_with(t, "from "@),
        span_text(None, Some(b)) matches Some(t) && occurs(t, b.long) && starts_with(t, "until "@),
        span_text(None, None) is None,
{
    let none = Seq::<char>::empty();
    lemma_added(none, a.long);
    assert(none + a.long == a.long);
    lemma_kept(a.long, "-"@, a.long);
    lemma_kept(a.long + "-"@, b.short, a.long);
    lemma_added(a.long + "-"@, b.short);
    lemma_kept(a.long, " - "@, a.long);
    lemma_kept(a.long + " - "@, b.long, a.long);
    lemma_added(a.long + " - "@, b.long);
    lemma_added("from "@, a.long);
    lemma_added("until "@, b.long);
    let from = "from "@ + a.long;
    let until = "until "@ + b.long;
    assert(from.subrange(0, "from "@.len() as int) == "from "@);
    assert(until.subrange(0, "until "@.len() as int) == "until "@);
}

/// A millisecond is in the second that it follows by less than one, before 1970 as well.
pub proof fn law_milliseconds_are_in_their_second(millis: int)
    ensures
        second_of(millis) * 1000 <= millis < (second_of(millis) + 1) * 1000,
{
}

/// A moment is shown by its date, by its weekday, day and time, and by its time alone, all of
/// them at the same distance from Greenwich; what is not in the calendar is not shown.
pub proof fn law_moments_are_shown(stamp: Option<Shown>, secs: int)
    requires
        is_stamp(stamp, Some(secs)),
    ensures
        stamp is Some <==> FIRST_SECOND <= secs <= LAST_SECOND,
        stamp matches Some(s) ==> exists|offset: int|
            -86_400 < offset < 86_400 && s.date == #[trigger] clock_notation(
                secs,
                offset,
                "%Y-%m-%d"@,
            ) && s.long == clock_notation(secs, offset, "%a, %d %b %H:%M"@) && s.short
                == clock_notation(secs, offset, "%H:%M"@),
{
    if let Some(s) = stamp {
        let offset = choose|offset: int|
            is_offset(offset) && s == #[trigger] shown(secs, offset);
        assert(s.date == clock_notation(secs, offset, "%Y-%m-%d"@));
    }
}

} // verus!
