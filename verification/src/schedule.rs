//! Times of day, and how long it is until them.

use vstd::prelude::*;

use crate::config::ScheduleConfig;
use crate::num::{decimal, law_numbers_are_read_back, parse_unsigned, parse_unsigned_of};
use crate::text::{chars_of, copy_range, find, lemma_find_from, occurs_at};
use crate::url::index_of_char;

verus! {

/// The seconds of a day.
pub const DAY: u64 = 86_400;

/// A time of day in whole minutes.
#[derive(Clone, Copy, PartialEq, Eq, Structural)]
pub struct TimeOfDay {
    /// The hour.
    pub hour: u32,
    /// The minute.
    pub minute: u32,
}

impl TimeOfDay {
    /// Whether there is such a time.
    pub open spec fn valid(self) -> bool {
        self.hour < 24 && self.minute < 60
    }

    /// The seconds since midnight.
    pub open spec fn seconds(self) -> int {
        self.hour * 3600 + self.minute * 60
    }

    /// The seconds since midnight.
    pub fn as_seconds(self) -> (r: u64)
        requires
            self.valid(),
        ensures
            r == self.seconds(),
            r < DAY,
    {
        self.hour as u64 * 3600 + self.minute as u64 * 60
    }
}

/// The hour and the minute of a time as it is written, each if it is a number:
/// what is before the first colon, and what is behind it.
pub open spec fn time_parts(s: Seq<char>) -> (Option<int>, Option<int>) {
    match find(s, seq![':']) {
        Some(i) => (
            parse_unsigned(s.take(i), 10, 0xffff_ffff),
            parse_unsigned(s.skip(i + 1), 10, 0xffff_ffff),
        ),
        None => (parse_unsigned(s, 10, 0xffff_ffff), None),
    }
}

/// The time of day with an hour and a minute, if there is one.
pub open spec fn time_at(hour: int, minute: int) -> Option<TimeOfDay> {
    if 0 <= hour < 24 && 0 <= minute < 60 {
        Some(TimeOfDay { hour: hour as u32, minute: minute as u32 })
    } else {
        None
    }
}

/// The time of day as it is written, if it is one.
pub open spec fn time_of(s: Seq<char>) -> Option<TimeOfDay> {
    match time_parts(s) {
        (Some(h), Some(m)) => time_at(h, m),
        _ => None,
    }
}

fn time_parts_of(s: &str) -> (r: (Option<u32>, Option<u32>))
    ensures
        match r.0 {
            Some(h) => time_parts(s@).0 == Some(h as int),
            None => time_parts(s@).0 is None,
        },
        match r.1 {
            Some(m) => time_parts(s@).1 == Some(m as int),
            None => time_parts(s@).1 is None,
        },
{
    let c = chars_of(s);
    match index_of_char(c.as_slice(), ':') {
        Some(i) => {
            let hour = copy_range(c.as_slice(), 0, i);
            let minute = copy_range(c.as_slice(), i + 1, c.len());
            assert(hour@ == s@.take(i as int));
            assert(minute@ == s@.skip(i + 1));
            (
                parse_unsigned_of(hour.as_slice(), 10, 0xffff_ffff),
                parse_unsigned_of(minute.as_slice(), 10, 0xffff_ffff),
            )
        },
        None => (parse_unsigned_of(c.as_slice(), 10, 0xffff_ffff), None),
    }
}

/// Reads a time of day.
pub fn parse_time(s: &str) -> (r: Option<TimeOfDay>)
    ensures
        r == time_of(s@),
        r matches Some(t) ==> t.valid(),
{
    match time_parts_of(s) {
        (Some(hour), Some(minute)) => if hour < 24 && minute < 60 {
            Some(TimeOfDay { hour, minute })
        } else {
            None
        },
        _ => None,
    }
}

/// Those of the texts that are times of day.
pub open spec fn times_in(texts: Seq<Seq<char>>) -> Seq<TimeOfDay>
    decreases texts.len(),
{
    if texts.len() == 0 {
        seq![]
    } else {
        let before = times_in(texts.drop_last());
        match time_of(texts.last()) {
            Some(t) => before.push(t),
            None => before,
        }
    }
}

/// The times of day at which digests are posted; what is no time is passed over.
pub fn digest_targets(digest_times: &[String]) -> (r: Vec<TimeOfDay>)
    ensures
        r@ == times_in(digest_times.deep_view()),
        forall|i: int| 0 <= i < r@.len() ==> (#[trigger] r@[i]).valid(),
{
    let n: usize = digest_times.len();
    let ghost all = digest_times.deep_view();
    let mut out: Vec<TimeOfDay> = Vec::new();
    let mut i: usize = 0;
    assert(all.take(0) == Seq::<Seq<char>>::empty());
    while i < n
        invariant
            0 <= i <= n,
            n == digest_times@.len(),
            all == digest_times.deep_view(),
            out@ == times_in(all.take(i as int)),
            forall|k: int| 0 <= k < out@.len() ==> (#[trigger] out@[k]).valid(),
        decreases n - i,
    {
        assert(all.take(i + 1).drop_last() == all.take(i as int));
        assert(all.take(i + 1).last() == digest_times@[i as int]@);
        if let Some(t) = parse_time(digest_times[i].as_str()) {
            out.push(t);
        }
        i += 1;
    }
    assert(all.take(n as int) == all);
    out
}

/// How many seconds it is from a time of day to the next time that it is `t`:
/// today if that is still to come, and else tomorrow. A fraction of a second
/// that has passed counts as a whole one.
pub open spec fn until_time(now_secs: int, now_nanos: int, t: TimeOfDay) -> int {
    let ahead = if now_secs < t.seconds() {
        t.seconds() - now_secs
    } else {
        t.seconds() + DAY - now_secs
    };
    if now_nanos > 0 {
        ahead - 1
    } else {
        ahead
    }
}

/// How many seconds it is until the first of the times.
pub open spec fn until_first(now_secs: int, now_nanos: int, times: Seq<TimeOfDay>) -> int
    decreases times.len(),
{
    if times.len() <= 1 {
        until_time(now_secs, now_nanos, times[0])
    } else {
        let before = until_first(now_secs, now_nanos, times.drop_last());
        let last = until_time(now_secs, now_nanos, times.last());
        if last < before {
            last
        } else {
            before
        }
    }
}

/// How many seconds it is until the next time that it is `t`.
pub fn seconds_until(now_secs: u64, now_nanos: u32, t: TimeOfDay) -> (r: u64)
    requires
        now_secs < DAY,
        now_nanos < 1_000_000_000,
        t.valid(),
    ensures
        r == until_time(now_secs as int, now_nanos as int, t),
        r <= DAY,
{
    let target: u64 = t.as_seconds();
    let ahead: u64 = if now_secs < target {
        target - now_secs
    } else {
        target + DAY - now_secs
    };
    if now_nanos > 0 {
        ahead - 1
    } else {
        ahead
    }
}

/// How many seconds it is until the next digest.
pub fn seconds_until_digest(now_secs: u64, now_nanos: u32, times: &[TimeOfDay]) -> (r: u64)
    requires
        now_secs < DAY,
        now_nanos < 1_000_000_000,
        times@.len() > 0,
        forall|i: int| 0 <= i < times@.len() ==> (#[trigger] times@[i]).valid(),
    ensures
        r == until_first(now_secs as int, now_nanos as int, times@),
{
    let n: usize = times.len();
    let mut best: u64 = seconds_until(now_secs, now_nanos, times[0]);
    let mut i: usize = 1;
    assert(times@.take(1)[0] == times@[0]);
    while i < n
        invariant
            1 <= i <= n,
            n == times@.len(),
            now_secs < DAY,
            now_nanos < 1_000_000_000,
            forall|k: int| 0 <= k < times@.len() ==> (#[trigger] times@[k]).valid(),
            best == until_first(now_secs as int, now_nanos as int, times@.take(i as int)),
        decreases n - i,
    {
        assert(times@.take(i + 1).drop_last() == times@.take(i as int));
        let here: u64 = seconds_until(now_secs, now_nanos, times[i]);
        if here < best {
            best = here;
        }
        i += 1;
    }
    assert(times@.take(n as int) == times@);
    best
}

// ---------------------------------------------------------------------------
// The time of the forecast
// ---------------------------------------------------------------------------

/// When the forecast is posted, as it is written: at its own time, or else with
/// the first digest, or else at eight.
pub open spec fn forecast_text(post_time: Option<Seq<char>>, digest_times: Seq<Seq<char>>) -> Seq<
    char,
> {
    match post_time {
        Some(t) => t,
        None => if digest_times.len() > 0 {
            digest_times[0]
        } else {
            "08:00"@
        },
    }
}

/// The time of day as it is written, with 8 for an hour and 0 for a minute that
/// is no number; eight where there is no such time.
pub open spec fn lenient_time(s: Seq<char>) -> TimeOfDay {
    let hour = match time_parts(s).0 {
        Some(h) => h,
        None => 8,
    };
    let minute = match time_parts(s).1 {
        Some(m) => m,
        None => 0,
    };
    match time_at(hour, minute) {
        Some(t) => t,
        None => TimeOfDay { hour: 8, minute: 0 },
    }
}

/// When the forecast is posted.
pub fn forecast_time(post_time: &Option<String>, schedule: &ScheduleConfig) -> (r: TimeOfDay)
    ensures
        r == lenient_time(
            forecast_text(post_time.deep_view(), schedule.digest_times.deep_view()),
        ),
        r.valid(),
{
    let text = match post_time {
        Some(t) => t.as_str(),
        None => if schedule.digest_times.len() > 0 {
            schedule.digest_times[0].as_str()
        } else {
            "08:00"
        },
    };
    assert(schedule.digest_times.deep_view().len() == schedule.digest_times@.len());
    assert(text@ == forecast_text(post_time.deep_view(), schedule.digest_times.deep_view()));
    let (h, m) = time_parts_of(text);
    let hour: u32 = match h {
        Some(x) => x,
        None => 8,
    };
    let minute: u32 = match m {
        Some(x) => x,
        None => 0,
    };
    if hour < 24 && minute < 60 {
        TimeOfDay { hour, minute }
    } else {
        TimeOfDay { hour: 8, minute: 0 }
    }
}

// ---------------------------------------------------------------------------
// Laws
// ---------------------------------------------------------------------------

/// A digest is never more than a day away, and at the end of the wait it is the
/// time of a digest: `now` and the wait, with the fraction that has passed, add
/// up to it.
pub proof fn law_wait_ends_at_a_target(now_secs: int, now_nanos: int, times: Seq<TimeOfDay>)
    requires
        0 <= now_secs < DAY,
        0 <= now_nanos < 1_000_000_000,
        times.len() > 0,
        forall|i: int| 0 <= i < times.len() ==> (#[trigger] times[i]).valid(),
    ensures
        0 <= until_first(now_secs, now_nanos, times) <= DAY,
        exists|i: int|
            0 <= i < times.len() && {
                let end = now_secs + until_first(now_secs, now_nanos, times) + (if now_nanos > 0 {
                    1int
                } else {
                    0
                });
                end == (#[trigger] times[i]).seconds() || end == times[i].seconds() + DAY
            },
        forall|i: int|
            0 <= i < times.len() ==> until_first(now_secs, now_nanos, times) <= until_time(
                now_secs,
                now_nanos,
                #[trigger] times[i],
            ),
    decreases times.len(),
{
    if times.len() == 1 {
        assert(times[0].valid());
        let end = now_secs + until_first(now_secs, now_nanos, times) + (if now_nanos > 0 {
            1int
        } else {
            0
        });
        assert(end == times[0].seconds() || end == times[0].seconds() + DAY);
    } else {
        let t = times.drop_last();
        assert forall|i: int| 0 <= i < t.len() implies (#[trigger] t[i]).valid() by {
            assert(t[i] == times[i]);
        }
        law_wait_ends_at_a_target(now_secs, now_nanos, t);
        let last = times[times.len() - 1];
        assert(last.valid());
        assert(forall|i: int| 0 <= i < t.len() ==> t[i] == #[trigger] times[i]);
        let r = until_first(now_secs, now_nanos, times);
        let b = until_first(now_secs, now_nanos, t);
        let frac = if now_nanos > 0 {
            1int
        } else {
            0
        };
        if until_time(now_secs, now_nanos, last) < b {
            let end = now_secs + r + frac;
            assert(end == times[times.len() - 1].seconds() || end == times[times.len()
                - 1].seconds() + DAY);
        } else {
            let i = choose|i: int|
                0 <= i < t.len() && {
                    let end = now_secs + b + frac;
                    end == (#[trigger] t[i]).seconds() || end == t[i].seconds() + DAY
                };
            assert(times[i] == t[i]);
        }
    }
}

/// A time of day as it is usually written is read as that time, and what is written with an
/// hour or a minute that no day has is none.
pub proof fn law_times_are_read(hour: nat, minute: nat)
    requires
        hour <= 0xffff_ffff,
        minute <= 0xffff_ffff,
    ensures
        hour < 24 && minute < 60 ==> time_of(decimal(hour) + ":"@ + decimal(minute)) == Some(
            TimeOfDay { hour: hour as u32, minute: minute as u32 },
        ),
        hour >= 24 || minute >= 60 ==> time_of(decimal(hour) + ":"@ + decimal(minute)) is None,
{
    let h = decimal(hour);
    let m = decimal(minute);
    let s = h + ":"@ + m;
    reveal_strlit(":");
    law_numbers_are_read_back(hour, 0xffff_ffff, hour);
    law_numbers_are_read_back(minute, 0xffff_ffff, minute);
    lemma_find_from(s, seq![':'], 0);
    let n = h.len() as int;
    assert(s.subrange(n, n + 1) == seq![':']);
    assert(occurs_at(s, seq![':'], n));
    if let Some(i) = find(s, seq![':']) {
        if i < n {
            assert(s.subrange(i, i + 1)[0] == h[i]);
        }
        assert(i == n);
        assert(s.take(n) == h);
        assert(s.skip(n + 1) == m);
    }
}

/// The times of two lists make those of both, in their order, and each text that is a time is
/// one of them.
pub proof fn law_every_time_counts(a: Seq<Seq<char>>, b: Seq<Seq<char>>, text: Seq<char>)
    ensures
        times_in(a + b) == times_in(a) + times_in(b),
        time_of(text) matches Some(t) ==> times_in(seq![text]) == seq![t],
        time_of(text) is None ==> times_in(seq![text]).len() == 0,
    decreases b.len(),
{
    let none = Seq::<Seq<char>>::empty();
    assert(seq![text].drop_last() == none);
    assert(times_in(none) == Seq::<TimeOfDay>::empty());
    if b.len() == 0 {
        assert(a + b == a);
        assert(times_in(a) + times_in(b) == times_in(a));
    } else {
        law_every_time_counts(a, b.drop_last(), text);
        assert((a + b).drop_last() == a + b.drop_last());
        assert((a + b).last() == b.last());
        if let Some(t) = time_of(b.last()) {
            assert((times_in(a) + times_in(b.drop_last())).push(t) == times_in(a) + times_in(
                b.drop_last(),
            ).push(t));
        }
    }
}

/// The wait for a time is the shortest that ends at it: later today where it is still to come,
/// and tomorrow where it is past, or just now.
pub proof fn law_waits_are_short(now_secs: int, t: TimeOfDay)
    requires
        0 <= now_secs < 86_400,
        t.valid(),
    ensures
        now_secs < t.hour * 3600 + t.minute * 60 ==> now_secs + until_time(now_secs, 0, t) == t.hour
            * 3600 + t.minute * 60,
        now_secs >= t.hour * 3600 + t.minute * 60 ==> now_secs + until_time(now_secs, 0, t)
            == t.hour * 3600 + t.minute * 60 + 86_400,
        0 < until_time(now_secs, 0, t) <= 86_400,
        forall|nanos: int|
            nanos > 0 ==> #[trigger] until_time(now_secs, nanos, t) == until_time(now_secs, 0, t) - 1,
{
}

/// The forecast is posted at its own time if that is given, else with the first digest, and
/// else at eight; a time that can be read is taken as it is.
pub proof fn law_forecasts_have_their_time(
    own: Seq<char>,
    digest_times: Seq<Seq<char>>,
    text: Seq<char>,
)
    ensures
        forecast_text(Some(own), digest_times) == own,
        digest_times.len() > 0 ==> forecast_text(None, digest_times) == digest_times[0],
        digest_times.len() == 0 ==> forecast_text(None, digest_times) == "08:00"@,
        time_of(text) matches Some(t) ==> lenient_time(text) == t,
        lenient_time(text).valid(),
        time_parts(text) == (None::<int>, None::<int>) ==> lenient_time(text) == (TimeOfDay {
            hour: 8,
            minute: 0,
        }),
{
}

} // verus!
