//! What a poll brought, source by source.

use vstd::prelude::*;

use crate::config::SourceConfig;
use crate::num::{decimal, decimal_of};
use crate::pipeline::ProcessOutcome;
use crate::text::{
    append, append_str, join, join_of, law_joined_parts_are_kept, occurs, occurs_at, string_of,
};

verus! {

/// What a poll of a source brought.
pub struct SourcePollStat {
    /// The name of the source.
    pub source_name: String,
    /// How many items the source had.
    pub total: usize,
    /// How many of the new ones were queued.
    pub queued: usize,
    /// How many were kept as candidates.
    pub candidate: usize,
    /// How many were dropped.
    pub dropped: usize,
    /// How many are looked at again.
    pub retry_later: usize,
}

/// What can become of an item.
#[derive(Clone, Copy, PartialEq, Eq, Structural)]
pub enum Fate {
    /// It waits for the next digest.
    Queued,
    /// It is kept for a while.
    Candidate,
    /// It is dropped.
    Dropped,
    /// It is looked at again.
    Retry,
}

/// What became of an item.
pub open spec fn fate(r: ProcessOutcome) -> Fate {
    match r {
        ProcessOutcome::Queued(_) => Fate::Queued,
        ProcessOutcome::Candidate { .. } => Fate::Candidate,
        ProcessOutcome::Dropped { .. } => Fate::Dropped,
        ProcessOutcome::Retry { .. } => Fate::Retry,
    }
}

/// What became of an item.
pub fn fate_of(r: &ProcessOutcome) -> (f: Fate)
    ensures
        f == fate(*r),
{
    match r {
        ProcessOutcome::Queued(_) => Fate::Queued,
        ProcessOutcome::Candidate { .. } => Fate::Candidate,
        ProcessOutcome::Dropped { .. } => Fate::Dropped,
        ProcessOutcome::Retry { .. } => Fate::Retry,
    }
}

/// How many items the fetches of a source brought.
pub open spec fn fetched(fetches: Seq<(String, usize)>, name: Seq<char>) -> nat
    decreases fetches.len(),
{
    if fetches.len() == 0 {
        0
    } else {
        fetched(fetches.drop_last(), name) + (if fetches.last().0@ == name {
            fetches.last().1 as nat
        } else {
            0
        })
    }
}

/// How many items of a source had a fate.
pub open spec fn count(outcomes: Seq<(String, Fate)>, name: Seq<char>, f: Fate) -> nat
    decreases outcomes.len(),
{
    if outcomes.len() == 0 {
        0
    } else {
        count(outcomes.drop_last(), name, f) + (if outcomes.last().0@ == name && outcomes.last().1
            == f {
            1nat
        } else {
            0
        })
    }
}

/// Whether a line says what a poll of a source brought.
pub open spec fn is_stat(
    s: SourcePollStat,
    source: SourceConfig,
    fetches: Seq<(String, usize)>,
    outcomes: Seq<(String, Fate)>,
) -> bool {
    &&& s.source_name@ == source.name@
    &&& s.total == fetched(fetches, source.name@)
    &&& s.queued == count(outcomes, source.name@, Fate::Queued)
    &&& s.candidate == count(outcomes, source.name@, Fate::Candidate)
    &&& s.dropped == count(outcomes, source.name@, Fate::Dropped)
    &&& s.retry_later == count(outcomes, source.name@, Fate::Retry)
}

proof fn lemma_fetched_grows(fetches: Seq<(String, usize)>, name: Seq<char>, i: int)
    requires
        0 <= i <= fetches.len(),
    ensures
        fetched(fetches.take(i), name) <= fetched(fetches, name),
    decreases fetches.len(),
{
    if i < fetches.len() {
        lemma_fetched_grows(fetches.drop_last(), name, i);
        assert(fetches.drop_last().take(i) == fetches.take(i));
    } else {
        assert(fetches.take(i) == fetches);
    }
}

fn fetched_of(fetches: &[(String, usize)], name: &String) -> (r: usize)
    requires
        fetched(fetches@, name@) <= usize::MAX,
    ensures
        r == fetched(fetches@, name@),
{
    let n: usize = fetches.len();
    let mut total: usize = 0;
    let mut i: usize = 0;
    while i < n
        invariant
            0 <= i <= n,
            n == fetches@.len(),
            fetched(fetches@, name@) <= usize::MAX,
            total == fetched(fetches@.take(i as int), name@),
        decreases n - i,
    {
        assert(fetches@.take(i + 1).drop_last() == fetches@.take(i as int));
        proof {
            lemma_fetched_grows(fetches@, name@, i + 1);
        }
        if fetches[i].0 == *name {
            total += fetches[i].1;
        }
        i += 1;
    }
    assert(fetches@.take(n as int) == fetches@);
    total
}

fn count_of(outcomes: &[(String, Fate)], name: &String, f: Fate) -> (r: usize)
    ensures
        r == count(outcomes@, name@, f),
{
    let n: usize = outcomes.len();
    let mut total: usize = 0;
    let mut i: usize = 0;
    while i < n
        invariant
            0 <= i <= n,
            n == outcomes@.len(),
            total <= i,
            total == count(outcomes@.take(i as int), name@, f),
        decreases n - i,
    {
        assert(outcomes@.take(i + 1).drop_last() == outcomes@.take(i as int));
        if outcomes[i].0 == *name && outcomes[i].1 == f {
            total += 1;
        }
        i += 1;
    }
    assert(outcomes@.take(n as int) == outcomes@);
    total
}

/// What a poll brought, source by source, given how many items each fetch
/// brought and what became of each new item.
pub fn source_stats(
    sources: &[SourceConfig],
    fetches: &[(String, usize)],
    outcomes: &[(String, Fate)],
) -> (r: Vec<SourcePollStat>)
    requires
        forall|i: int|
            0 <= i < sources@.len() ==> fetched(fetches@, (#[trigger] sources@[i]).name@)
                <= usize::MAX,
    ensures
        r@.len() == sources@.len(),
        forall|i: int|
            0 <= i < r@.len() ==> is_stat(#[trigger] r@[i], sources@[i], fetches@, outcomes@),
{
    let n: usize = sources.len();
    let mut out: Vec<SourcePollStat> = Vec::new();
    let mut i: usize = 0;
    while i < n
        invariant
            0 <= i <= n,
            n == sources@.len(),
            out@.len() == i,
            forall|k: int|
                0 <= k < sources@.len() ==> fetched(fetches@, (#[trigger] sources@[k]).name@)
                    <= usize::MAX,
            forall|k: int|
                0 <= k < i ==> is_stat(#[trigger] out@[k], sources@[k], fetches@, outcomes@),
        decreases n - i,
    {
        let name = &sources[i].name;
        let stat = SourcePollStat {
            source_name: name.clone(),
            total: fetched_of(fetches, name),
            queued: count_of(outcomes, name, Fate::Queued),
            candidate: count_of(outcomes, name, Fate::Candidate),
            dropped: count_of(outcomes, name, Fate::Dropped),
            retry_later: count_of(outcomes, name, Fate::Retry),
        };
        out.push(stat);
        i += 1;
    }
    out
}

// ---------------------------------------------------------------------------
// Replies
// ---------------------------------------------------------------------------

/// The line for a source.
pub open spec fn stat_line(s: SourcePollStat) -> Seq<char> {
    s.source_name@ + ": "@ + decimal(s.total as nat) + " total, "@ + decimal(s.queued as nat)
        + " queued, "@ + decimal(s.candidate as nat) + " candidate, "@ + decimal(s.dropped as nat)
        + " dropped, "@ + decimal(s.retry_later as nat) + " retry"@
}

/// What is said of what the last hours brought.
pub open spec fn stats_text(hours: nat, stats: Seq<SourcePollStat>) -> Seq<char> {
    if stats.len() == 0 {
        "No source stats recorded in the last "@ + decimal(hours) + "h."@
    } else {
        join(
            seq!["Source stats, last "@ + decimal(hours) + "h:"@] + stats.map_values(
                |s: SourcePollStat| stat_line(s),
            ),
            "\n"@,
        )
    }
}

fn stat_line_of(s: &SourcePollStat) -> (r: Vec<char>)
    ensures
        r@ == stat_line(*s),
{
    let mut out: Vec<char> = Vec::new();
    append_str(&mut out, s.source_name.as_str());
    append_str(&mut out, ": ");
    append(&mut out, decimal_of(s.total as u64).as_slice());
    append_str(&mut out, " total, ");
    append(&mut out, decimal_of(s.queued as u64).as_slice());
    append_str(&mut out, " queued, ");
    append(&mut out, decimal_of(s.candidate as u64).as_slice());
    append_str(&mut out, " candidate, ");
    append(&mut out, decimal_of(s.dropped as u64).as_slice());
    append_str(&mut out, " dropped, ");
    append(&mut out, decimal_of(s.retry_later as u64).as_slice());
    append_str(&mut out, " retry");
    assert(out@ =~= stat_line(*s));
    out
}

/// The reply to a question after what the last hours brought.
pub fn stats_reply(hours: u32, stats: &[SourcePollStat]) -> (r: String)
    ensures
        r@ == stats_text(hours as nat, stats@),
{
    let digits = decimal_of(hours as u64);
    let n: usize = stats.len();
    if n == 0 {
        let mut out: Vec<char> = Vec::new();
        append_str(&mut out, "No source stats recorded in the last ");
        append(&mut out, digits.as_slice());
        append_str(&mut out, "h.");
        assert(out@ =~= stats_text(hours as nat, stats@));
        return string_of(out.as_slice());
    }
    let mut head: Vec<char> = Vec::new();
    append_str(&mut head, "Source stats, last ");
    append(&mut head, digits.as_slice());
    append_str(&mut head, "h:");
    let ghost first = "Source stats, last "@ + decimal(hours as nat) + "h:"@;
    let ghost all = seq![first] + stats@.map_values(|s: SourcePollStat| stat_line(s));
    assert(head@ =~= first);
    let mut lines: Vec<Vec<char>> = Vec::new();
    lines.push(head);
    assert(lines.deep_view() =~= all.take(1)) by {
        assert(head.deep_view() == head@);
    }
    let mut i: usize = 0;
    while i < n
        invariant
            0 <= i <= n,
            n == stats@.len(),
            all == seq![first] + stats@.map_values(|s: SourcePollStat| stat_line(s)),
            lines.deep_view() == all.take(i + 1),
        decreases n - i,
    {
        let ghost before = lines.deep_view();
        let line = stat_line_of(&stats[i]);
        lines.push(line);
        assert(lines.deep_view() == before.push(line@)) by {
            assert(line.deep_view() == line@);
        }
        assert(all[i + 1] == line@);
        assert(all.take(i + 2) == all.take(i + 1).push(line@));
        i += 1;
    }
    assert(all.take(n + 1) == all);
    let out = join_of(&lines, "\n");
    string_of(out.as_slice())
}

// ---------------------------------------------------------------------------
// Laws
// ---------------------------------------------------------------------------

/// How many items of a source there were.
pub open spec fn count_all(outcomes: Seq<(String, Fate)>, name: Seq<char>) -> nat
    decreases outcomes.len(),
{
    if outcomes.len() == 0 {
        0
    } else {
        count_all(outcomes.drop_last(), name) + (if outcomes.last().0@ == name {
            1nat
        } else {
            0
        })
    }
}

/// Every item of a source that was looked at is counted once: what was queued,
/// kept, dropped and put off adds up to what was looked at.
pub proof fn law_every_outcome_is_counted(outcomes: Seq<(String, Fate)>, name: Seq<char>)
    ensures
        count(outcomes, name, Fate::Queued) + count(outcomes, name, Fate::Candidate) + count(
            outcomes,
            name,
            Fate::Dropped,
        ) + count(outcomes, name, Fate::Retry) == count_all(outcomes, name),
    decreases outcomes.len(),
{
    if outcomes.len() > 0 {
        law_every_outcome_is_counted(outcomes.drop_last(), name);
    }
}

/// As many items of a source are counted for each fate as had it.
pub proof fn law_fates_are_counted(outcomes: Seq<(String, Fate)>, name: Seq<char>, f: Fate)
    ensures
        count(outcomes, name, f) == outcomes.filter(
            |o: (String, Fate)| o.0@ == name && o.1 == f,
        ).len(),
    decreases outcomes.len(),
{
    reveal(Seq::filter);
    if outcomes.len() > 0 {
        law_fates_are_counted(outcomes.drop_last(), name, f);
    }
}

/// What two polls bring of a source adds up, and a fetch counts for its own source alone, with
/// all its items.
pub proof fn law_fetches_add_up(
    a: Seq<(String, usize)>,
    b: Seq<(String, usize)>,
    fetch: (String, usize),
    name: Seq<char>,
)
    ensures
        fetched(a + b, name) == fetched(a, name) + fetched(b, name),
        fetch.0@ == name ==> fetched(seq![fetch], name) == fetch.1,
        fetch.0@ != name ==> fetched(seq![fetch], name) == 0,
    decreases b.len(),
{
    assert(seq![fetch].drop_last() == Seq::<(String, usize)>::empty());
    assert(fetched(seq![fetch].drop_last(), name) == 0);
    if b.len() == 0 {
        assert(a + b == a);
    } else {
        law_fetches_add_up(a, b.drop_last(), fetch, name);
        assert((a + b).drop_last() == a + b.drop_last());
        assert((a + b).last() == b.last());
    }
}

/// The reply on what the last hours brought says so for how many hours, and has a line for each
/// source, which starts with its name and holds its numbers in their order.
pub proof fn law_replies_have_a_line_for_each_source(
    hours: nat,
    stats: Seq<SourcePollStat>,
    k: int,
)
    requires
        0 <= k < stats.len(),
    ensures
        occurs(stats_text(hours, stats), decimal(hours) + "h:"@),
        occurs(
            stats_text(hours, stats),
            stats[k].source_name@ + ": "@ + decimal(stats[k].total as nat) + " total, "@ + decimal(
                stats[k].queued as nat,
            ) + " queued, "@ + decimal(stats[k].candidate as nat) + " candidate, "@ + decimal(
                stats[k].dropped as nat,
            ) + " dropped, "@ + decimal(stats[k].retry_later as nat) + " retry"@,
        ),
{
    let first = "Source stats, last "@ + decimal(hours) + "h:"@;
    let parts = seq![first] + stats.map_values(|s: SourcePollStat| stat_line(s));
    assert(parts[0] == first);
    assert(parts[k + 1] == stat_line(stats[k]));
    law_joined_parts_are_kept(parts, "\n"@, 0);
    law_joined_parts_are_kept(parts, "\n"@, k + 1);
    let all = stats_text(hours, stats);
    let said = decimal(hours) + "h:"@;
    let n = "Source stats, last "@.len() as int;
    let i = choose|i: int| occurs_at(all, first, i);
    assert(first.subrange(n, n + said.len()) == said);
    assert(all.subrange(i + n, i + n + said.len()) == all.subrange(i, i + first.len()).subrange(
        n,
        n + said.len(),
    ));
    assert(occurs_at(all, said, i + n));
}

/// What became of an item tells the outcomes apart: each outcome has a fate of its own.
pub proof fn law_fates_tell_outcomes_apart(r: ProcessOutcome)
    ensures
        fate(r) == Fate::Queued <==> r is Queued,
        fate(r) == Fate::Candidate <==> r is Candidate,
        fate(r) == Fate::Dropped <==> r is Dropped,
        fate(r) == Fate::Retry <==> r is Retry,
{
}

/// What is said of a source is counted from what became of its items, fate by fate.
pub proof fn law_stats_count_each_fate(
    s: SourcePollStat,
    source: SourceConfig,
    fetches: Seq<(String, usize)>,
    outcomes: Seq<(String, Fate)>,
    f: Fate,
)
    requires
        is_stat(s, source, fetches, outcomes),
    ensures
        s.source_name@ == source.name@,
        outcomes.filter(|o: (String, Fate)| o.0@ == source.name@ && o.1 == f).len() == match f {
            Fate::Queued => s.queued as nat,
            Fate::Candidate => s.candidate as nat,
            Fate::Dropped => s.dropped as nat,
            Fate::Retry => s.retry_later as nat,
        },
{
    let name = source.name@;
    law_fates_are_counted(outcomes, name, f);
    let a = |o: (String, Fate)| o.0@ == name && o.1 == f;
    let b = |o: (String, Fate)| o.0@ == source.name@ && o.1 == f;
    assert(a =~= b);
}

} // verus!
