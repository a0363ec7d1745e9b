//! What became of each item: the ledger that keeps items from being processed
//! twice, and from being lost before they are posted.

use vstd::prelude::*;

use crate::candidates::{candidates_to_promote, promoted, retention_seconds, PendingItem};
use crate::cluster::{
    all_guids, by_score, digest_of, guids_of, law_sorting_by_score, models, sort_by_score,
};
use crate::digest::{
    are_messages, chunked, is_message, law_messages_name_every_item, message_guids, part_header,
    DigestMessage,
};
use crate::item::{DbItem, Entry, FeedItem};
use crate::pipeline::{item_of, ProcessOutcome};
use crate::text::str_same;

verus! {

// ---------------------------------------------------------------------------
// States
// ---------------------------------------------------------------------------

/// The states of an item.
#[derive(Clone, Copy, PartialEq, Eq, Structural)]
pub enum ItemState {
    /// It waits for the next digest.
    Queued,
    /// It waits for other sources to report it too.
    Candidate,
    /// It is in a digest that is being posted.
    Processing,
    /// It was posted.
    Posted,
    /// It is not posted.
    Dropped,
}

impl ItemState {
    /// What the state is called.
    pub open spec fn name(self) -> Seq<char> {
        match self {
            ItemState::Queued => "queued"@,
            ItemState::Candidate => "candidate"@,
            ItemState::Processing => "processing"@,
            ItemState::Posted => "posted"@,
            ItemState::Dropped => "dropped"@,
        }
    }

    /// What the state is called.
    pub fn label(self) -> (r: &'static str)
        ensures
            r@ == self.name(),
    {
        match self {
            ItemState::Queued => "queued",
            ItemState::Candidate => "candidate",
            ItemState::Processing => "processing",
            ItemState::Posted => "posted",
            ItemState::Dropped => "dropped",
        }
    }

    /// The state with a name.
    pub fn named(name: &str) -> (r: Option<ItemState>)
        ensures
            match r {
                Some(s) => name@ == s.name(),
                None => forall|s: ItemState| name@ != #[trigger] s.name(),
            },
    {
        if str_same(name, "queued") {
            Some(ItemState::Queued)
        } else if str_same(name, "candidate") {
            Some(ItemState::Candidate)
        } else if str_same(name, "processing") {
            Some(ItemState::Processing)
        } else if str_same(name, "posted") {
            Some(ItemState::Posted)
        } else if str_same(name, "dropped") {
            Some(ItemState::Dropped)
        } else {
            None
        }
    }
}

/// An item in the ledger.
pub struct StoredItem {
    /// The item.
    pub item: DbItem,
    /// The state that it is in.
    pub state: ItemState,
    /// When it was recorded, in seconds since 1970.
    pub discovered_at: i64,
}

/// What happens to items.
#[derive(Clone, Copy)]
pub enum Step {
    /// A digest is made of those that score enough.
    Taken { min_score: i32 },
    /// They were posted.
    Delivered,
    /// They could not be posted.
    Failed,
    /// The bot was started again.
    Restarted,
    /// Other sources report them too.
    Promoted { min_score: i32 },
    /// Those that were recorded before a time have waited long enough for other
    /// sources.
    Expired { cutoff: i64 },
}

/// The state of an item after a step.
pub open spec fn state_after(row: StoredItem, step: Step) -> ItemState {
    match step {
        Step::Taken { min_score } => if row.state != ItemState::Queued {
            row.state
        } else if row.item.score < min_score {
            ItemState::Dropped
        } else {
            ItemState::Processing
        },
        Step::Delivered => if row.state == ItemState::Processing {
            ItemState::Posted
        } else {
            row.state
        },
        Step::Failed | Step::Restarted => if row.state == ItemState::Processing {
            ItemState::Queued
        } else {
            row.state
        },
        Step::Promoted { .. } => if row.state == ItemState::Candidate {
            ItemState::Queued
        } else {
            row.state
        },
        Step::Expired { cutoff } => if row.state == ItemState::Candidate && row.discovered_at
            < cutoff {
            ItemState::Dropped
        } else {
            row.state
        },
    }
}

/// The score of an item after a step: what other sources report too scores
/// enough for a digest.
pub open spec fn score_after(row: StoredItem, step: Step) -> i32 {
    match step {
        Step::Promoted { min_score } => if row.state == ItemState::Candidate && row.item.score
            < min_score {
            min_score
        } else {
            row.item.score
        },
        _ => row.item.score,
    }
}

/// An item after a step.
pub open spec fn after(row: StoredItem, step: Step) -> StoredItem {
    StoredItem {
        item: DbItem { score: score_after(row, step), ..row.item },
        state: state_after(row, step),
        discovered_at: row.discovered_at,
    }
}

fn next_state(row: &StoredItem, step: Step) -> (r: ItemState)
    ensures
        r == state_after(*row, step),
{
    match step {
        Step::Taken { min_score } => if row.state != ItemState::Queued {
            row.state
        } else if row.item.score < min_score {
            ItemState::Dropped
        } else {
            ItemState::Processing
        },
        Step::Delivered => if row.state == ItemState::Processing {
            ItemState::Posted
        } else {
            row.state
        },
        Step::Failed | Step::Restarted => if row.state == ItemState::Processing {
            ItemState::Queued
        } else {
            row.state
        },
        Step::Promoted { .. } => if row.state == ItemState::Candidate {
            ItemState::Queued
        } else {
            row.state
        },
        Step::Expired { cutoff } => if row.state == ItemState::Candidate && row.discovered_at
            < cutoff {
            ItemState::Dropped
        } else {
            row.state
        },
    }
}

fn next_score(row: &StoredItem, step: Step) -> (r: i32)
    ensures
        r == score_after(*row, step),
{
    match step {
        Step::Promoted { min_score } => if row.state == ItemState::Candidate && row.item.score
            < min_score {
            min_score
        } else {
            row.item.score
        },
        _ => row.item.score,
    }
}

// ---------------------------------------------------------------------------
// The ledger
// ---------------------------------------------------------------------------

/// The items that were seen, each of them once.
pub struct Ledger {
    /// The items.
    pub rows: Vec<StoredItem>,
}

/// Whether an item with a guid is recorded.
pub open spec fn is_known(rows: Seq<StoredItem>, guid: Seq<char>) -> bool {
    exists|i: int| 0 <= i < rows.len() && (#[trigger] rows[i]).item.guid@ == guid
}

/// Whether an item is one of those with some guids.
pub open spec fn is_named(guids: Seq<Seq<char>>, row: StoredItem) -> bool {
    guids.contains(row.item.guid@)
}

/// All items after a step.
pub open spec fn stepped(rows: Seq<StoredItem>, step: Step) -> Seq<StoredItem> {
    rows.map_values(|r: StoredItem| after(r, step))
}

/// The items after a step of those with some guids.
pub open spec fn stepped_for(
    rows: Seq<StoredItem>,
    guids: Seq<Seq<char>>,
    step: Step,
) -> Seq<StoredItem> {
    rows.map_values(
        |r: StoredItem|
            if is_named(guids, r) {
                after(r, step)
            } else {
                r
            },
    )
}

/// How many items change their state in a step of those with some guids.
pub open spec fn moved(rows: Seq<StoredItem>, guids: Seq<Seq<char>>, step: Step) -> nat
    decreases rows.len(),
{
    if rows.len() == 0 {
        0
    } else {
        moved(rows.drop_last(), guids, step) + (if is_named(guids, rows.last()) && state_after(
            rows.last(),
            step,
        ) != rows.last().state {
            1nat
        } else {
            0
        })
    }
}

/// How many items change their state in a step of all.
pub open spec fn all_moved(rows: Seq<StoredItem>, step: Step) -> nat
    decreases rows.len(),
{
    if rows.len() == 0 {
        0
    } else {
        all_moved(rows.drop_last(), step) + (if state_after(rows.last(), step)
            != rows.last().state {
            1nat
        } else {
            0
        })
    }
}

/// The items in the digest that is being posted.
pub open spec fn in_flight(rows: Seq<StoredItem>) -> Seq<DbItem>
    decreases rows.len(),
{
    if rows.len() == 0 {
        seq![]
    } else if rows.last().state == ItemState::Processing {
        in_flight(rows.drop_last()).push(rows.last().item)
    } else {
        in_flight(rows.drop_last())
    }
}

/// Whether an item is taken for a digest.
pub open spec fn is_taken(row: StoredItem, min_score: i32) -> bool {
    row.state == ItemState::Queued && row.item.score >= min_score
}

/// The items that are taken for a digest.
pub open spec fn taken(rows: Seq<StoredItem>, min_score: i32) -> Seq<DbItem>
    decreases rows.len(),
{
    if rows.len() == 0 {
        seq![]
    } else if is_taken(rows.last(), min_score) {
        taken(rows.drop_last(), min_score).push(rows.last().item)
    } else {
        taken(rows.drop_last(), min_score)
    }
}

/// What happens to the items of a message that was posted, or could not be.
pub open spec fn outcome_of(posted: bool) -> Step {
    if posted {
        Step::Delivered
    } else {
        Step::Failed
    }
}

/// The items after the first `n` messages of a digest were posted, or could not be.
pub open spec fn settled(
    rows: Seq<StoredItem>,
    messages: Seq<DigestMessage>,
    posted: Seq<bool>,
    n: int,
) -> Seq<StoredItem>
    decreases n,
{
    if n <= 0 {
        rows
    } else {
        stepped_for(
            settled(rows, messages, posted, n - 1),
            messages[n - 1].guids.deep_view(),
            outcome_of(posted[n - 1]),
        )
    }
}

/// The first of the first `n` messages that an item is in.
pub open spec fn first_naming(messages: Seq<DigestMessage>, guid: Seq<char>, n: int) -> Option<int>
    decreases n,
{
    if n <= 0 {
        None
    } else {
        match first_naming(messages, guid, n - 1) {
            Some(k) => Some(k),
            None => if messages[n - 1].guids.deep_view().contains(guid) {
                Some(n - 1)
            } else {
                None
            },
        }
    }
}

/// Whether an item can still be posted, and was not recorded before a time.
pub open spec fn is_pending(row: StoredItem, cutoff: i64) -> bool {
    (row.state == ItemState::Queued || row.state == ItemState::Candidate) && row.discovered_at
        >= cutoff
}

/// The items that can still be posted, and were not recorded before a time.
pub open spec fn pending_rows(rows: Seq<StoredItem>, cutoff: i64) -> Seq<StoredItem>
    decreases rows.len(),
{
    if rows.len() == 0 {
        seq![]
    } else if is_pending(rows.last(), cutoff) {
        pending_rows(rows.drop_last(), cutoff).push(rows.last())
    } else {
        pending_rows(rows.drop_last(), cutoff)
    }
}

/// Whether pending items are those of the ledger, with their states by name.
pub open spec fn are_pending(r: Seq<PendingItem>, rows: Seq<StoredItem>) -> bool {
    &&& r.len() == rows.len()
    &&& forall|i: int|
        0 <= i < r.len() ==> (#[trigger] r[i]).item == rows[i].item && r[i].state@
            == rows[i].state.name()
}

/// Whether nothing more happens to an item, and it was recorded before a time.
pub open spec fn is_outdated(row: StoredItem, cutoff: int) -> bool {
    (row.state == ItemState::Posted || row.state == ItemState::Dropped) && row.discovered_at
        < cutoff
}

/// The items without those that are outdated.
pub open spec fn without_outdated(rows: Seq<StoredItem>, cutoff: int) -> Seq<StoredItem>
    decreases rows.len(),
{
    if rows.len() == 0 {
        rows
    } else if is_outdated(rows.last(), cutoff) {
        without_outdated(rows.drop_last(), cutoff)
    } else {
        without_outdated(rows.drop_last(), cutoff).push(rows.last())
    }
}

/// What is recorded of an item.
pub open spec fn recorded(outcome: ProcessOutcome, now: i64) -> Option<StoredItem> {
    match outcome {
        ProcessOutcome::Queued(item) => Some(
            StoredItem {
                item: DbItem {
                    guid: item.guid,
                    source_name: item.source_name,
                    title: item.title,
                    link: item.link,
                    link_note: item.link_note,
                    score: item.score,
                    max_score: item.max_score,
                    distance_meters: item.distance_meters,
                    location_label: item.location_label,
                },
                state: ItemState::Queued,
                discovered_at: now,
            },
        ),
        ProcessOutcome::Candidate { item, .. } => Some(
            StoredItem {
                item: DbItem {
                    guid: item.guid,
                    source_name: item.source_name,
                    title: item.title,
                    link: item.link,
                    link_note: item.link_note,
                    score: item.score,
                    max_score: item.max_score,
                    distance_meters: item.distance_meters,
                    location_label: item.location_label,
                },
                state: ItemState::Candidate,
                discovered_at: now,
            },
        ),
        ProcessOutcome::Dropped { item, .. } => Some(
            StoredItem {
                item: DbItem {
                    guid: item.guid,
                    source_name: item.source_name,
                    title: item.title,
                    link: item.link,
                    link_note: None,
                    score: 0,
                    max_score: 0,
                    distance_meters: None,
                    location_label: None,
                },
                state: ItemState::Dropped,
                discovered_at: now,
            },
        ),
        ProcessOutcome::Retry { .. } => None,
    }
}

fn stored_form(item: FeedItem, state: ItemState, now: i64) -> (r: StoredItem)
    ensures
        r.item.guid == item.guid,
        r.item.source_name == item.source_name,
        r.item.title == item.title,
        r.item.link == item.link,
        r.item.link_note == item.link_note,
        r.item.score == item.score,
        r.item.max_score == item.max_score,
        r.item.distance_meters == item.distance_meters,
        r.item.location_label == item.location_label,
        r.state == state,
        r.discovered_at == now,
{
    StoredItem {
        item: DbItem {
            guid: item.guid,
            source_name: item.source_name,
            title: item.title,
            link: item.link,
            link_note: item.link_note,
            score: item.score,
            max_score: item.max_score,
            distance_meters: item.distance_meters,
            location_label: item.location_label,
        },
        state,
        discovered_at: now,
    }
}

/// What is recorded of an item; nothing where it is looked at again.
pub fn record_of(outcome: ProcessOutcome, now: i64) -> (r: Option<StoredItem>)
    ensures
        r == recorded(outcome, now),
{
    match outcome {
        ProcessOutcome::Queued(item) => Some(stored_form(item, ItemState::Queued, now)),
        ProcessOutcome::Candidate { item, .. } => Some(
            stored_form(item, ItemState::Candidate, now),
        ),
        ProcessOutcome::Dropped { item, .. } => Some(
            StoredItem {
                item: DbItem {
                    guid: item.guid,
                    source_name: item.source_name,
                    title: item.title,
                    link: item.link,
                    link_note: None,
                    score: 0,
                    max_score: 0,
                    distance_meters: None,
                    location_label: None,
                },
                state: ItemState::Dropped,
                discovered_at: now,
            },
        ),
        ProcessOutcome::Retry { .. } => None,
    }
}

fn is_among(guids: &[String], guid: &String) -> (r: bool)
    ensures
        r == guids.deep_view().contains(guid@),
{
    let n: usize = guids.len();
    let mut i: usize = 0;
    while i < n
        invariant
            0 <= i <= n,
            n == guids@.len(),
            forall|k: int| 0 <= k < i ==> guids.deep_view()[k] != guid@,
        decreases n - i,
    {
        assert(guids.deep_view()[i as int] == guids@[i as int]@);
        if guids[i] == *guid {
            return true;
        }
        i += 1;
    }
    assert(guids.deep_view().len() == n);
    false
}

impl Ledger {
    /// Whether no item is recorded twice.
    pub open spec fn wf(self) -> bool {
        forall|i: int, j: int|
            0 <= i < j < self.rows@.len() ==> (#[trigger] self.rows@[i]).item.guid@ != (
            #[trigger] self.rows@[j]).item.guid@
    }

    /// The ledger of a bot that has seen nothing.
    pub fn new() -> (r: Ledger)
        ensures
            r.wf(),
            r.rows@.len() == 0,
    {
        Ledger { rows: Vec::new() }
    }

    /// Whether an item was never seen.
    pub fn is_new(&self, guid: &str) -> (r: bool)
        ensures
            r == !is_known(self.rows@, guid@),
    {
        let n: usize = self.rows.len();
        let mut i: usize = 0;
        while i < n
            invariant
                0 <= i <= n,
                n == self.rows@.len(),
                forall|k: int| 0 <= k < i ==> (#[trigger] self.rows@[k]).item.guid@ != guid@,
            decreases n - i,
        {
            if str_same(self.rows[i].item.guid.as_str(), guid) {
                return false;
            }
            i += 1;
        }
        true
    }

    /// Records what became of an item, unless it is recorded already or looked
    /// at again.
    pub fn record(&mut self, outcome: ProcessOutcome, now: i64)
        requires
            old(self).wf(),
        ensures
            final(self).wf(),
            final(self).rows@ == (match recorded(outcome, now) {
                Some(row) => if is_known(old(self).rows@, row.item.guid@) {
                    old(self).rows@
                } else {
                    old(self).rows@.push(row)
                },
                None => old(self).rows@,
            }),
    {
        if let Some(row) = record_of(outcome, now) {
            if self.is_new(row.item.guid.as_str()) {
                self.rows.push(row);
            }
        }
    }

    fn step_all(&mut self, step: Step) -> (r: usize)
        ensures
            final(self).rows@ == stepped(old(self).rows@, step),
            r == all_moved(old(self).rows@, step),
            r <= old(self).rows@.len(),
    {
        let ghost before = self.rows@;
        let n: usize = self.rows.len();
        let mut count: usize = 0;
        let mut i: usize = 0;
        assert(before.take(0) == Seq::<StoredItem>::empty());
        while i < n
            invariant
                0 <= i <= n,
                n == before.len(),
                self.rows@.len() == n,
                count <= i,
                count == all_moved(before.take(i as int), step),
                forall|k: int| 0 <= k < i ==> self.rows@[k] == after(#[trigger] before[k], step),
                forall|k: int| i <= k < n ==> self.rows@[k] == #[trigger] before[k],
            decreases n - i,
        {
            assert(before.take(i + 1).drop_last() == before.take(i as int));
            assert(self.rows@[i as int] == before[i as int]);
            let state = next_state(&self.rows[i], step);
            let score: i32 = next_score(&self.rows[i], step);
            if state != self.rows[i].state {
                count += 1;
            }
            self.rows[i].state = state;
            self.rows[i].item.score = score;
            i += 1;
        }
        assert(before.take(n as int) == before);
        assert(self.rows@ =~= stepped(before, step));
        count
    }

    fn step_for(&mut self, guids: &[String], step: Step) -> (r: usize)
        ensures
            final(self).rows@ == stepped_for(old(self).rows@, guids.deep_view(), step),
            r == moved(old(self).rows@, guids.deep_view(), step),
            r <= old(self).rows@.len(),
    {
        let ghost before = self.rows@;
        let ghost names = guids.deep_view();
        let n: usize = self.rows.len();
        let mut count: usize = 0;
        let mut i: usize = 0;
        assert(before.take(0) == Seq::<StoredItem>::empty());
        while i < n
            invariant
                0 <= i <= n,
                n == before.len(),
                self.rows@.len() == n,
                names == guids.deep_view(),
                count <= i,
                count == moved(before.take(i as int), names, step),
                forall|k: int|
                    0 <= k < i ==> self.rows@[k] == (if is_named(names, #[trigger] before[k]) {
                        after(before[k], step)
                    } else {
                        before[k]
                    }),
                forall|k: int| i <= k < n ==> self.rows@[k] == #[trigger] before[k],
            decreases n - i,
        {
            assert(before.take(i + 1).drop_last() == before.take(i as int));
            assert(self.rows@[i as int] == before[i as int]);
            if is_among(guids, &self.rows[i].item.guid) {
                let state = next_state(&self.rows[i], step);
                let score: i32 = next_score(&self.rows[i], step);
                if state != self.rows[i].state {
                    count += 1;
                }
                self.rows[i].state = state;
                self.rows[i].item.score = score;
            }
            i += 1;
        }
        assert(before.take(n as int) == before);
        assert(self.rows@ =~= stepped_for(before, names, step));
        count
    }

    /// Makes a digest: the queued items that score too little are dropped, the
    /// others are on their way. Gives those, by their scores; what was on its way
    /// before is in another digest.
    pub fn take_for_digest(&mut self, min_score: i32) -> (r: Vec<DbItem>)
        requires
            old(self).wf(),
        ensures
            final(self).wf(),
            final(self).rows@ == stepped(old(self).rows@, Step::Taken { min_score }),
            r@ == by_score::<DbItem>(taken(old(self).rows@, min_score)),
    {
        let n: usize = self.rows.len();
        let mut out: Vec<DbItem> = Vec::new();
        let mut i: usize = 0;
        assert(self.rows@.take(0) == Seq::<StoredItem>::empty());
        while i < n
            invariant
                0 <= i <= n,
                n == self.rows@.len(),
                self.rows@ == old(self).rows@,
                out@ == taken(self.rows@.take(i as int), min_score),
            decreases n - i,
        {
            assert(self.rows@.take(i + 1).drop_last() == self.rows@.take(i as int));
            if self.rows[i].state == ItemState::Queued && self.rows[i].item.score >= min_score {
                out.push(self.rows[i].item.clone());
            }
            i += 1;
        }
        assert(self.rows@.take(n as int) == self.rows@);
        let _moved: usize = self.step_all(Step::Taken { min_score });
        let ghost all = out@;
        let sorted = sort_by_score(out);
        assert(models(all) =~= all);
        assert(models(sorted@) =~= sorted@);
        sorted
    }

    /// Marks items as posted.
    pub fn mark_posted(&mut self, guids: &[String])
        requires
            old(self).wf(),
        ensures
            final(self).wf(),
            final(self).rows@ == stepped_for(old(self).rows@, guids.deep_view(), Step::Delivered),
    {
        let _moved: usize = self.step_for(guids, Step::Delivered);
    }

    /// Puts items that could not be posted back into the queue.
    pub fn requeue_failed(&mut self, guids: &[String])
        requires
            old(self).wf(),
        ensures
            final(self).wf(),
            final(self).rows@ == stepped_for(old(self).rows@, guids.deep_view(), Step::Failed),
    {
        let _moved: usize = self.step_for(guids, Step::Failed);
    }

    /// Notes what became of a message of a digest: its items are posted, or go back
    /// into the queue.
    pub fn settle(&mut self, message: &DigestMessage, posted: bool)
        requires
            old(self).wf(),
        ensures
            final(self).wf(),
            final(self).rows@ == stepped_for(
                old(self).rows@,
                message.guids.deep_view(),
                outcome_of(posted),
            ),
    {
        let guids = message.guids.as_slice();
        assert(guids.deep_view() =~= message.guids.deep_view());
        if posted {
            self.mark_posted(guids);
        } else {
            self.requeue_failed(guids);
        }
    }

    /// Puts the items that were on their way when the bot stopped back into the
    /// queue, and says how many there were.
    pub fn recover_processing(&mut self) -> (r: usize)
        requires
            old(self).wf(),
        ensures
            final(self).wf(),
            final(self).rows@ == stepped(old(self).rows@, Step::Restarted),
            r == all_moved(old(self).rows@, Step::Restarted),
    {
        self.step_all(Step::Restarted)
    }

    /// Puts candidates into the queue, with a score that is enough for a digest,
    /// and says how many there were.
    pub fn promote_candidates(&mut self, guids: &[String], min_score: i32) -> (r: usize)
        requires
            old(self).wf(),
        ensures
            final(self).wf(),
            final(self).rows@ == stepped_for(
                old(self).rows@,
                guids.deep_view(),
                Step::Promoted { min_score },
            ),
            r == moved(old(self).rows@, guids.deep_view(), Step::Promoted { min_score }),
    {
        self.step_for(guids, Step::Promoted { min_score })
    }

    /// Drops the candidates that were recorded before a time, and says how many
    /// there were.
    pub fn expire_candidates(&mut self, cutoff: i64) -> (r: usize)
        requires
            old(self).wf(),
        ensures
            final(self).wf(),
            final(self).rows@ == stepped(old(self).rows@, Step::Expired { cutoff }),
            r == all_moved(old(self).rows@, Step::Expired { cutoff }),
    {
        self.step_all(Step::Expired { cutoff })
    }

    /// The items that can still be posted, and were not recorded before a time.
    pub fn pending(&self, cutoff: i64) -> (r: Vec<PendingItem>)
        ensures
            are_pending(r@, pending_rows(self.rows@, cutoff)),
    {
        let n: usize = self.rows.len();
        let mut out: Vec<PendingItem> = Vec::new();
        let mut i: usize = 0;
        assert(self.rows@.take(0) == Seq::<StoredItem>::empty());
        while i < n
            invariant
                0 <= i <= n,
                n == self.rows@.len(),
                are_pending(out@, pending_rows(self.rows@.take(i as int), cutoff)),
            decreases n - i,
        {
            let row = &self.rows[i];
            assert(self.rows@.take(i + 1).drop_last() == self.rows@.take(i as int));
            if (row.state == ItemState::Queued || row.state == ItemState::Candidate)
                && row.discovered_at >= cutoff {
                out.push(
                    PendingItem { item: row.item.clone(), state: row.state.label().to_owned() },
                );
            }
            i += 1;
        }
        assert(self.rows@.take(n as int) == self.rows@);
        out
    }

    /// Puts the candidates that enough other sources report too into the queue,
    /// and says how many there were; candidates that have waited too long are
    /// dropped before.
    pub fn promote_candidate_clusters(
        &mut self,
        min_score: i32,
        candidate_min_sources: usize,
        candidate_retention_hours: u64,
        now: i64,
    ) -> (r: usize)
        requires
            old(self).wf(),
            candidate_retention_hours * 3600 <= i64::MAX,
            cutoff_of(now as int, candidate_retention_hours as int) >= i64::MIN,
        ensures
            final(self).wf(),
            exists|pending: Seq<PendingItem>| #[trigger]
                is_round(
                    old(self).rows@,
                    final(self).rows@,
                    r as int,
                    pending,
                    min_score,
                    candidate_min_sources as int,
                    cutoff_of(now as int, candidate_retention_hours as int),
                ),
    {
        let kept: i64 = retention_seconds(candidate_retention_hours);
        let cutoff: i64 = now - kept;
        assert(cutoff == cutoff_of(now as int, candidate_retention_hours as int));
        let _dropped: usize = self.expire_candidates(cutoff);
        let ghost fresh = self.rows@;
        let pending = self.pending(cutoff);
        let guids = candidates_to_promote(&pending, min_score, candidate_min_sources);
        let slice = guids.as_slice();
        assert(slice.deep_view() =~= guids.deep_view());
        let r: usize = self.promote_candidates(slice, min_score);
        assert(is_round(
            old(self).rows@,
            self.rows@,
            r as int,
            pending@,
            min_score,
            candidate_min_sources as int,
            cutoff as int,
        ));
        r
    }

    /// Forgets the items that nothing more happens to and that were recorded more
    /// than some days ago, and says how many there were.
    pub fn prune_old(&mut self, keep_days: u32, now: i64) -> (r: usize)
        requires
            old(self).wf(),
            now - keep_days * 86_400 >= i64::MIN,
        ensures
            final(self).wf(),
            final(self).rows@ == without_outdated(old(self).rows@, now - keep_days * 86_400),
            r == old(self).rows@.len() - final(self).rows@.len(),
    {
        let cutoff: i64 = now - keep_days as i64 * 86_400;
        let ghost all = self.rows@;
        let mut rest: Vec<StoredItem> = Vec::new();
        std::mem::swap(&mut rest, &mut self.rows);
        let n: usize = rest.len();
        let ghost mut done: int = 0;
        assert(all.take(0) == Seq::<StoredItem>::empty());
        assert(all.skip(0) == all);
        while rest.len() > 0
            invariant
                0 <= done <= all.len(),
                n == all.len(),
                rest@ == all.skip(done),
                cutoff == now - keep_days * 86_400,
                self.rows@ == without_outdated(all.take(done), cutoff as int),
                self.rows@.len() <= done,
            decreases rest@.len(),
        {
            let row = rest.remove(0);
            assert(row == all[done]);
            assert(all.take(done + 1).drop_last() == all.take(done));
            let outdated = (row.state == ItemState::Posted || row.state == ItemState::Dropped)
                && row.discovered_at < cutoff;
            if !outdated {
                self.rows.push(row);
            }
            proof {
                done = done + 1;
            }
        }
        assert(all.take(done) == all);
        proof {
            lemma_kept_are_distinct(all, cutoff as int);
        }
        n - self.rows.len()
    }
}

/// The time before which candidates have waited too long.
pub open spec fn cutoff_of(now: int, hours: int) -> int {
    now - (if hours < 1 {
        1
    } else {
        hours
    }) * 3600
}

/// Whether items are those after a round of promotions, in which some were
/// pending: old candidates are dropped, and of those that are pending the ones
/// that are corroborated are queued.
pub open spec fn is_round(
    before: Seq<StoredItem>,
    rows: Seq<StoredItem>,
    count: int,
    pending: Seq<PendingItem>,
    min_score: i32,
    min_sources: int,
    cutoff: int,
) -> bool {
    let fresh = stepped(before, Step::Expired { cutoff: cutoff as i64 });
    let guids = promoted(pending, min_score as int, min_sources);
    &&& are_pending(pending, pending_rows(fresh, cutoff as i64))
    &&& rows == stepped_for(fresh, guids, Step::Promoted { min_score })
    &&& count == moved(fresh, guids, Step::Promoted { min_score })
}

proof fn lemma_kept(rows: Seq<StoredItem>, cutoff: int)
    ensures
        without_outdated(rows, cutoff).len() <= rows.len(),
        forall|i: int|
            0 <= i < without_outdated(rows, cutoff).len() ==> rows.contains(
                #[trigger] without_outdated(rows, cutoff)[i],
            ),
    decreases rows.len(),
{
    if rows.len() > 0 {
        lemma_kept(rows.drop_last(), cutoff);
        let before = without_outdated(rows.drop_last(), cutoff);
        let all = without_outdated(rows, cutoff);
        assert forall|i: int| 0 <= i < all.len() implies rows.contains(#[trigger] all[i]) by {
            if i < before.len() {
                assert(all[i] == before[i]);
                assert(rows.drop_last().contains(before[i]));
                let k = choose|k: int|
                    0 <= k < rows.drop_last().len() && rows.drop_last()[k] == before[i];
                assert(rows[k] == all[i]);
            } else {
                assert(all[i] == rows[rows.len() - 1]);
            }
        }
    }
}

proof fn lemma_kept_are_distinct(rows: Seq<StoredItem>, cutoff: int)
    requires
        forall|i: int, j: int|
            0 <= i < j < rows.len() ==> (#[trigger] rows[i]).item.guid@ != (
            #[trigger] rows[j]).item.guid@,
    ensures
        forall|i: int, j: int|
            0 <= i < j < without_outdated(rows, cutoff).len() ==> (
            #[trigger] without_outdated(rows, cutoff)[i]).item.guid@ != (
            #[trigger] without_outdated(rows, cutoff)[j]).item.guid@,
    decreases rows.len(),
{
    if rows.len() > 0 {
        let rest = rows.drop_last();
        lemma_kept_are_distinct(rest, cutoff);
        lemma_kept(rest, cutoff);
        let before = without_outdated(rest, cutoff);
        let all = without_outdated(rows, cutoff);
        assert forall|i: int, j: int| 0 <= i < j < all.len() implies (
        #[trigger] all[i]).item.guid@ != (#[trigger] all[j]).item.guid@ by {
            assert(all[i] == before[i]);
            if j < before.len() {
                assert(all[j] == before[j]);
            } else {
                assert(all[j] == rows[rows.len() - 1]);
                let k = choose|k: int| 0 <= k < rest.len() && rest[k] == before[i];
                assert(rows[k] == all[i]);
            }
        }
    }
}

// ---------------------------------------------------------------------------
// Laws
// ---------------------------------------------------------------------------

/// Nothing more happens to an item that was posted or dropped: it is posted once
/// at most.
pub proof fn law_posted_and_dropped_items_stay(row: StoredItem, step: Step)
    requires
        row.state == ItemState::Posted || row.state == ItemState::Dropped,
    ensures
        after(row, step) == row,
{
}

/// An item that could not be posted, or that was on its way when the bot stopped,
/// is as it was before the digest: the next one takes it again.
pub proof fn law_failed_posts_are_retried(row: StoredItem, min_score: i32)
    requires
        row.state == ItemState::Queued,
        row.item.score >= min_score,
    ensures
        after(row, Step::Taken { min_score }).state == ItemState::Processing,
        after(after(row, Step::Taken { min_score }), Step::Failed) == row,
        after(after(row, Step::Taken { min_score }), Step::Restarted) == row,
{
}

/// What other sources report too is in the next digest, whatever its score was.
pub proof fn law_promoted_candidates_are_taken(row: StoredItem, min_score: i32)
    requires
        row.state == ItemState::Candidate,
    ensures
        ({
            let taken = after(after(row, Step::Promoted { min_score }), Step::Taken { min_score });
            taken.state == ItemState::Processing && taken.item.score >= min_score
        }),
{
}

proof fn lemma_none_in_flight(rows: Seq<StoredItem>)
    requires
        forall|i: int| 0 <= i < rows.len() ==> (#[trigger] rows[i]).state != ItemState::Processing,
    ensures
        in_flight(rows).len() == 0,
    decreases rows.len(),
{
    if rows.len() > 0 {
        lemma_none_in_flight(rows.drop_last());
    }
}

proof fn lemma_taken(rows: Seq<StoredItem>, min_score: i32, i: int)
    requires
        0 <= i < rows.len(),
        is_taken(rows[i], min_score),
    ensures
        taken(rows, min_score).contains(rows[i].item),
    decreases rows.len(),
{
    let all = taken(rows, min_score);
    if i == rows.len() - 1 {
        assert(all[all.len() - 1] == rows[i].item);
    } else {
        lemma_taken(rows.drop_last(), min_score, i);
        let before = taken(rows.drop_last(), min_score);
        let k = choose|k: int| 0 <= k < before.len() && before[k] == rows[i].item;
        assert(all[k] == rows[i].item);
    }
}

/// An item after some steps.
pub open spec fn after_all(row: StoredItem, steps: Seq<Step>) -> StoredItem
    decreases steps.len(),
{
    if steps.len() == 0 {
        row
    } else {
        after(after_all(row, steps.drop_last()), steps.last())
    }
}

/// An item that was posted is never taken for another digest, whatever happens.
pub proof fn law_nothing_is_posted_twice(
    row: StoredItem,
    min_score: i32,
    steps: Seq<Step>,
    other_score: i32,
)
    requires
        is_taken(row, min_score),
    ensures
        ({
            let posted = after(after(row, Step::Taken { min_score }), Step::Delivered);
            &&& posted.state == ItemState::Posted
            &&& after_all(posted, steps) == posted
            &&& !is_taken(after_all(posted, steps), other_score)
        }),
    decreases steps.len(),
{
    if steps.len() > 0 {
        law_nothing_is_posted_twice(row, min_score, steps.drop_last(), other_score);
    }
}

/// A digest drains the queue: until something is queued again, the next one is empty.
pub proof fn law_digests_drain_the_queue(
    rows: Seq<StoredItem>,
    min_score: i32,
    other_score: i32,
)
    ensures
        taken(stepped(rows, Step::Taken { min_score }), other_score).len() == 0,
    decreases rows.len(),
{
    if rows.len() > 0 {
        law_digests_drain_the_queue(rows.drop_last(), min_score, other_score);
        assert(stepped(rows, Step::Taken { min_score }).drop_last() == stepped(
            rows.drop_last(),
            Step::Taken { min_score },
        ));
    }
}

/// What is on its way stays on its way when the next digest is made, and is not in it.
pub proof fn law_digests_do_not_overlap(row: StoredItem, min_score: i32)
    requires
        row.state == ItemState::Processing,
    ensures
        !is_taken(row, min_score),
        after(row, Step::Taken { min_score }) == row,
{
}

proof fn lemma_named(cs: Seq<Seq<Entry>>, messages: Seq<DigestMessage>, guid: Seq<char>)
    requires
        messages.len() == cs.len(),
        forall|i: int|
            0 <= i < cs.len() ==> (#[trigger] messages[i]).guids.deep_view() == all_guids(cs[i]),
        message_guids(cs).contains(guid),
    ensures
        first_naming(messages, guid, messages.len() as int) is Some,
    decreases cs.len(),
{
    let n = cs.len() as int;
    if n > 0 {
        let before = message_guids(cs.drop_last());
        let last = all_guids(cs.last());
        let all = message_guids(cs);
        let k = choose|k: int| 0 <= k < all.len() && all[k] == guid;
        if k < before.len() {
            assert(before[k] == guid);
            assert(before.contains(guid));
            lemma_named(cs.drop_last(), messages.drop_last(), guid);
            lemma_first_naming_prefix(messages, guid, n - 1);
        } else {
            assert(last[k - before.len()] == guid);
            assert(messages[n - 1].guids.deep_view().contains(guid));
        }
    }
}

proof fn lemma_first_naming_prefix(messages: Seq<DigestMessage>, guid: Seq<char>, n: int)
    requires
        n < messages.len(),
    ensures
        first_naming(messages.drop_last(), guid, n) == first_naming(messages, guid, n),
    decreases n,
{
    if n > 0 {
        lemma_first_naming_prefix(messages, guid, n - 1);
    }
}

/// Every item of a digest is in one of its messages.
proof fn lemma_taken_are_named(
    rows: Seq<StoredItem>,
    min_score: i32,
    messages: Seq<DigestMessage>,
    header: Seq<char>,
    i: int,
)
    requires
        0 <= i < rows.len(),
        is_taken(rows[i], min_score),
        are_messages(messages, by_score::<DbItem>(taken(rows, min_score)), header),
    ensures
        first_naming(messages, rows[i].item.guid@, messages.len() as int) is Some,
{
    broadcast use vstd::seq_lib::group_to_multiset_ensures;

    let item = rows[i].item;
    let all = taken(rows, min_score);
    let items = by_score::<DbItem>(all);
    let cs = chunked(digest_of(items));
    let guids = message_guids(cs);
    law_sorting_by_score::<DbItem>(all);
    law_messages_name_every_item(items);
    lemma_taken(rows, min_score, i);
    assert(all.to_multiset().contains(item));
    assert(items.to_multiset().contains(item));
    assert(items.contains(item));
    let k = choose|k: int| 0 <= k < items.len() && items[k] == item;
    let names = guids_of(items);
    assert(names[k] == item.guid@);
    assert(names.contains(item.guid@));
    assert(names.to_multiset().contains(item.guid@));
    assert(guids.to_multiset().contains(item.guid@));
    assert(guids.contains(item.guid@));
    assert forall|j: int| 0 <= j < cs.len() implies (#[trigger] messages[j]).guids.deep_view()
        == all_guids(cs[j]) by {
        assert(is_message(messages[j], cs[j], part_header(header, j, cs.len() as int)));
    }
    lemma_named(cs, messages, item.guid@);
}

proof fn lemma_settled(
    rows: Seq<StoredItem>,
    messages: Seq<DigestMessage>,
    posted: Seq<bool>,
    n: int,
    i: int,
)
    requires
        0 <= i < rows.len(),
        n <= messages.len(),
        n <= posted.len(),
    ensures
        settled(rows, messages, posted, n).len() == rows.len(),
        settled(rows, messages, posted, n)[i].item.guid == rows[i].item.guid,
        rows[i].state != ItemState::Processing ==> settled(rows, messages, posted, n)[i] == rows[i],
        rows[i].state == ItemState::Processing ==> match first_naming(
            messages,
            rows[i].item.guid@,
            n,
        ) {
            Some(k) => 0 <= k < n && settled(rows, messages, posted, n)[i].state == (if posted[k] {
                ItemState::Posted
            } else {
                ItemState::Queued
            }),
            None => settled(rows, messages, posted, n)[i] == rows[i],
        },
    decreases n,
{
    if n > 0 {
        lemma_settled(rows, messages, posted, n - 1, i);
    }
}

/// Nothing gets lost on its way: once every message of a digest was posted, or could not
/// be, each of its items is posted or back in the queue, as the first message that it is
/// in says, and no other item has changed.
pub proof fn law_settled_digests_leave_nothing_behind(
    rows: Seq<StoredItem>,
    min_score: i32,
    messages: Seq<DigestMessage>,
    header: Seq<char>,
    posted: Seq<bool>,
)
    requires
        are_messages(messages, by_score::<DbItem>(taken(rows, min_score)), header),
        posted.len() == messages.len(),
    ensures
        ({
            let n = messages.len() as int;
            let moved = stepped(rows, Step::Taken { min_score });
            let end = settled(moved, messages, posted, n);
            &&& end.len() == rows.len()
            &&& forall|i: int|
                0 <= i < rows.len() && is_taken(#[trigger] rows[i], min_score) ==> (
                first_naming(messages, rows[i].item.guid@, n) matches Some(k) && 0 <= k < n
                    && end[i].state == (if posted[k] {
                    ItemState::Posted
                } else {
                    ItemState::Queued
                }))
            &&& forall|i: int|
                0 <= i < rows.len() && (#[trigger] moved[i]).state != ItemState::Processing
                    ==> end[i] == moved[i]
        }),
{
    let n = messages.len() as int;
    let moved = stepped(rows, Step::Taken { min_score });
    let end = settled(moved, messages, posted, n);
    if rows.len() > 0 {
        lemma_settled(moved, messages, posted, n, 0);
    } else {
        lemma_settled_empty(moved, messages, posted, n);
    }
    assert forall|i: int| 0 <= i < rows.len() && is_taken(#[trigger] rows[i], min_score) implies (
    first_naming(messages, rows[i].item.guid@, n) matches Some(k) && 0 <= k < n && end[i].state == (
    if posted[k] {
        ItemState::Posted
    } else {
        ItemState::Queued
    })) by {
        lemma_taken_are_named(rows, min_score, messages, header, i);
        assert(moved[i] == after(rows[i], Step::Taken { min_score }));
        lemma_settled(moved, messages, posted, n, i);
    }
    assert forall|i: int|
        0 <= i < rows.len() && (#[trigger] moved[i]).state != ItemState::Processing implies end[i]
        == moved[i] by {
        lemma_settled(moved, messages, posted, n, i);
    }
}

proof fn lemma_settled_empty(
    rows: Seq<StoredItem>,
    messages: Seq<DigestMessage>,
    posted: Seq<bool>,
    n: int,
)
    requires
        rows.len() == 0,
    ensures
        settled(rows, messages, posted, n).len() == 0,
    decreases n,
{
    if n > 0 {
        lemma_settled_empty(rows, messages, posted, n - 1);
    }
}

/// Once every message of a digest was posted, or could not be, nothing is on its way, as
/// long as nothing was before the digest was made.
pub proof fn law_nothing_is_in_flight_once_settled(
    rows: Seq<StoredItem>,
    min_score: i32,
    messages: Seq<DigestMessage>,
    header: Seq<char>,
    posted: Seq<bool>,
)
    requires
        forall|i: int| 0 <= i < rows.len() ==> (#[trigger] rows[i]).state != ItemState::Processing,
        are_messages(messages, by_score::<DbItem>(taken(rows, min_score)), header),
        posted.len() == messages.len(),
    ensures
        in_flight(
            settled(
                stepped(rows, Step::Taken { min_score }),
                messages,
                posted,
                messages.len() as int,
            ),
        ).len() == 0,
{
    let n = messages.len() as int;
    let moved = stepped(rows, Step::Taken { min_score });
    let end = settled(moved, messages, posted, n);
    law_settled_digests_leave_nothing_behind(rows, min_score, messages, header, posted);
    assert forall|i: int| 0 <= i < end.len() implies (#[trigger] end[i]).state
        != ItemState::Processing by {
        assert(moved[i] == after(rows[i], Step::Taken { min_score }));
        if moved[i].state == ItemState::Processing {
            assert(is_taken(rows[i], min_score));
        }
    }
    lemma_none_in_flight(end);
}

/// After a restart nothing is on its way.
pub proof fn law_restart_leaves_nothing_in_flight(rows: Seq<StoredItem>)
    ensures
        in_flight(stepped(rows, Step::Restarted)).len() == 0,
{
    lemma_none_in_flight(stepped(rows, Step::Restarted));
}

/// An item that was recorded is known after every step, so that it is not looked
/// at again.
pub proof fn law_recorded_items_stay_known(
    rows: Seq<StoredItem>,
    guids: Seq<Seq<char>>,
    step: Step,
    guid: Seq<char>,
)
    ensures
        is_known(stepped(rows, step), guid) == is_known(rows, guid),
        is_known(stepped_for(rows, guids, step), guid) == is_known(rows, guid),
{
    let all = stepped(rows, step);
    let some = stepped_for(rows, guids, step);
    assert(forall|i: int|
        0 <= i < rows.len() ==> all[i].item.guid == (#[trigger] rows[i]).item.guid);
    assert(forall|i: int|
        0 <= i < rows.len() ==> some[i].item.guid == (#[trigger] rows[i]).item.guid);
    if is_known(rows, guid) {
        let k = choose|k: int| 0 <= k < rows.len() && (#[trigger] rows[k]).item.guid@ == guid;
        assert(all[k].item.guid@ == guid);
        assert(some[k].item.guid@ == guid);
    }
    if is_known(all, guid) {
        let k = choose|k: int| 0 <= k < all.len() && (#[trigger] all[k]).item.guid@ == guid;
        assert(rows[k].item.guid@ == guid);
    }
    if is_known(some, guid) {
        let k = choose|k: int| 0 <= k < some.len() && (#[trigger] some[k]).item.guid@ == guid;
        assert(rows[k].item.guid@ == guid);
    }
}

/// What a digest takes: a queued item is on its way if it scores enough for it and dropped if
/// it does not, and no item in another state is touched. Those that are on their way are given
/// out, each once and no other.
pub proof fn law_digests_take_what_scores_enough(rows: Seq<StoredItem>, min_score: i32, i: int)
    requires
        0 <= i < rows.len(),
    ensures
        rows[i].state == ItemState::Queued && rows[i].item.score >= min_score ==> after(
            rows[i],
            Step::Taken { min_score },
        ).state == ItemState::Processing,
        rows[i].state == ItemState::Queued && rows[i].item.score < min_score ==> after(
            rows[i],
            Step::Taken { min_score },
        ).state == ItemState::Dropped,
        rows[i].state != ItemState::Queued ==> after(rows[i], Step::Taken { min_score }) == rows[i],
        taken(rows, min_score) == rows.filter(
            |r: StoredItem| r.state == ItemState::Queued && r.item.score >= min_score,
        ).map_values(|r: StoredItem| r.item),
{
    lemma_taken_filter(rows, min_score);
}

proof fn lemma_taken_filter(rows: Seq<StoredItem>, min_score: i32)
    ensures
        taken(rows, min_score) == rows.filter(
            |r: StoredItem| r.state == ItemState::Queued && r.item.score >= min_score,
        ).map_values(|r: StoredItem| r.item),
    decreases rows.len(),
{
    reveal(Seq::filter);
    let p = |r: StoredItem| r.state == ItemState::Queued && r.item.score >= min_score;
    let f = |r: StoredItem| r.item;
    if rows.len() > 0 {
        lemma_taken_filter(rows.drop_last(), min_score);
        let before = rows.drop_last().filter(p);
        assert(before.push(rows.last()).map_values(f) == before.map_values(f).push(rows.last().item));
    }
    assert(taken(rows, min_score) == rows.filter(p).map_values(f));
}

/// A candidate is dropped by age exactly if it was recorded before the time, and nothing else
/// is. A candidate that is promoted is queued with a score that is no lower than it was and
/// enough for a digest, and nothing but candidates is promoted.
pub proof fn law_candidates_wait_their_time(row: StoredItem, cutoff: i64, min_score: i32)
    ensures
        row.state == ItemState::Candidate && row.discovered_at < cutoff ==> after(
            row,
            Step::Expired { cutoff },
        ).state == ItemState::Dropped,
        row.state != ItemState::Candidate || row.discovered_at >= cutoff ==> after(
            row,
            Step::Expired { cutoff },
        ) == row,
        row.state == ItemState::Candidate ==> ({
            let up = after(row, Step::Promoted { min_score });
            &&& up.state == ItemState::Queued
            &&& up.item.score >= min_score
            &&& up.item.score >= row.item.score
            &&& up.item.score == min_score || up.item.score == row.item.score
        }),
        row.state != ItemState::Candidate ==> after(row, Step::Promoted { min_score }) == row,
{
}

/// Whatever happens to an item, it stays the same item: only its state changes, and its score
/// where it is promoted. Posting and failing concern only what is on its way.
pub proof fn law_items_stay_the_same(row: StoredItem, step: Step)
    ensures
        after(row, step).item.guid == row.item.guid,
        after(row, step).item.title == row.item.title,
        after(row, step).item.link == row.item.link,
        after(row, step).item.link_note == row.item.link_note,
        after(row, step).item.source_name == row.item.source_name,
        after(row, step).item.max_score == row.item.max_score,
        after(row, step).item.distance_meters == row.item.distance_meters,
        after(row, step).item.location_label == row.item.location_label,
        after(row, step).discovered_at == row.discovered_at,
        !(step is Promoted) ==> after(row, step).item.score == row.item.score,
        (step is Delivered || step is Failed || step is Restarted) && row.state
            != ItemState::Processing ==> after(row, step) == row,
        step is Delivered && row.state == ItemState::Processing ==> after(row, step).state
            == ItemState::Posted,
{
}

/// A step of some items changes those and no others, a step of all changes each, and as many
/// are counted as have another state than before.
pub proof fn law_steps_concern_the_named(
    rows: Seq<StoredItem>,
    guids: Seq<Seq<char>>,
    step: Step,
    i: int,
)
    requires
        0 <= i < rows.len(),
    ensures
        stepped(rows, step).len() == rows.len(),
        stepped_for(rows, guids, step).len() == rows.len(),
        stepped(rows, step)[i] == after(rows[i], step),
        guids.contains(rows[i].item.guid@) ==> stepped_for(rows, guids, step)[i] == after(
            rows[i],
            step,
        ),
        !guids.contains(rows[i].item.guid@) ==> stepped_for(rows, guids, step)[i] == rows[i],
        all_moved(rows, step) == rows.filter(
            |r: StoredItem| after(r, step).state != r.state,
        ).len(),
        moved(rows, guids, step) == rows.filter(
            |r: StoredItem| guids.contains(r.item.guid@) && after(r, step).state != r.state,
        ).len(),
{
    lemma_moved_filter(rows, guids, step);
}

proof fn lemma_moved_filter(rows: Seq<StoredItem>, guids: Seq<Seq<char>>, step: Step)
    ensures
        all_moved(rows, step) == rows.filter(
            |r: StoredItem| after(r, step).state != r.state,
        ).len(),
        moved(rows, guids, step) == rows.filter(
            |r: StoredItem| guids.contains(r.item.guid@) && after(r, step).state != r.state,
        ).len(),
    decreases rows.len(),
{
    reveal(Seq::filter);
    if rows.len() > 0 {
        lemma_moved_filter(rows.drop_last(), guids, step);
    }
}

/// Pending are the items that are queued or candidates and not too old, all of them in their
/// order; forgotten are those that were posted or dropped long enough ago, and no others.
pub proof fn law_only_settled_items_are_forgotten(rows: Seq<StoredItem>, cutoff: i64)
    ensures
        pending_rows(rows, cutoff) == rows.filter(
            |r: StoredItem|
                (r.state == ItemState::Queued || r.state == ItemState::Candidate) && r.discovered_at
                    >= cutoff,
        ),
        without_outdated(rows, cutoff as int) == rows.filter(
            |r: StoredItem|
                r.state == ItemState::Queued || r.state == ItemState::Candidate || r.state
                    == ItemState::Processing || r.discovered_at >= cutoff,
        ),
    decreases rows.len(),
{
    reveal(Seq::filter);
    if rows.len() > 0 {
        law_only_settled_items_are_forgotten(rows.drop_last(), cutoff);
    }
}

/// What becomes of an item is recorded with what it says: queued, candidate or dropped, as it
/// was decided, with score and place unless it is dropped, and nothing of an item that is
/// looked at again.
pub proof fn law_decisions_are_recorded(outcome: ProcessOutcome, now: i64)
    ensures
        recorded(outcome, now) is None <==> outcome is Retry,
        recorded(outcome, now) matches Some(row) ==> {
            &&& row.discovered_at == now
            &&& row.state == ItemState::Queued <==> outcome is Queued
            &&& row.state == ItemState::Candidate <==> outcome is Candidate
            &&& row.state == ItemState::Dropped <==> outcome is Dropped
            &&& row.item.guid == item_of(outcome).guid
            &&& row.item.title == item_of(outcome).title
            &&& row.item.link == item_of(outcome).link
            &&& row.item.source_name == item_of(outcome).source_name
            &&& !(outcome is Dropped) ==> row.item.score == item_of(outcome).score
                && row.item.max_score == item_of(outcome).max_score && row.item.link_note
                == item_of(outcome).link_note && row.item.distance_meters == item_of(
                outcome,
            ).distance_meters && row.item.location_label == item_of(outcome).location_label
        },
{
}

/// Candidates wait as many hours as they are given, one at least.
pub proof fn law_candidates_wait_for_hours(now: int, hours: int)
    ensures
        hours >= 1 ==> now - cutoff_of(now, hours) == hours * 3600,
        hours < 1 ==> now - cutoff_of(now, hours) == 3600,
{
}

/// No two states have the same name.
pub proof fn law_states_have_their_names(a: ItemState, b: ItemState)
    ensures
        a.name() == b.name() ==> a == b,
{
    reveal_strlit("queued");
    reveal_strlit("candidate");
    reveal_strlit("processing");
    reveal_strlit("posted");
    reveal_strlit("dropped");
    assert("queued"@[0] == 'q' && "candidate"@[0] == 'c' && "processing"@[1] == 'r' && "posted"@[1]
        == 'o' && "dropped"@[0] == 'd');
    assert("processing"@[0] == 'p' && "posted"@[0] == 'p');
}

/// A round of promotions concerns candidates only: those that have waited too long are dropped,
/// those that enough other sources report are queued with a score that is enough for a digest,
/// and the others wait on.
pub proof fn law_rounds_concern_candidates(
    before: Seq<StoredItem>,
    rows: Seq<StoredItem>,
    count: int,
    pending: Seq<PendingItem>,
    min_score: i32,
    min_sources: int,
    cutoff: i64,
    i: int,
)
    requires
        is_round(before, rows, count, pending, min_score, min_sources, cutoff as int),
        0 <= i < before.len(),
    ensures
        rows.len() == before.len(),
        before[i].state != ItemState::Candidate ==> rows[i] == before[i],
        before[i].state == ItemState::Candidate && before[i].discovered_at < cutoff ==> rows[i].state
            == ItemState::Dropped,
        before[i].state == ItemState::Candidate && before[i].discovered_at >= cutoff ==> {
            let found = promoted(pending, min_score as int, min_sources).contains(
                before[i].item.guid@,
            );
            &&& found ==> rows[i].state == ItemState::Queued && rows[i].item.score >= min_score
            &&& !found ==> rows[i] == before[i]
        },
{
    let fresh = stepped(before, Step::Expired { cutoff });
    assert(fresh[i] == after(before[i], Step::Expired { cutoff }));
}

/// What is pending in a round of promotions are the candidates and queued items that have not
/// waited too long, with the names of their states.
pub proof fn law_fresh_items_are_pending(
    before: Seq<StoredItem>,
    rows: Seq<StoredItem>,
    count: int,
    pending: Seq<PendingItem>,
    min_score: i32,
    min_sources: int,
    cutoff: i64,
    i: int,
)
    requires
        is_round(before, rows, count, pending, min_score, min_sources, cutoff as int),
        0 <= i < before.len(),
        before[i].state == ItemState::Queued || before[i].state == ItemState::Candidate,
        before[i].discovered_at >= cutoff,
    ensures
        exists|k: int|
            0 <= k < pending.len() && (#[trigger] pending[k]).item == before[i].item
                && pending[k].state@ == before[i].state.name(),
{
    let fresh = stepped(before, Step::Expired { cutoff });
    assert(fresh[i] == after(before[i], Step::Expired { cutoff }));
    assert(fresh[i] == before[i]);
    lemma_pending_contains(fresh, cutoff, i);
    let all = pending_rows(fresh, cutoff);
    let k = choose|k: int| 0 <= k < all.len() && all[k] == fresh[i];
    assert(pending[k].item == all[k].item);
}

proof fn lemma_pending_contains(rows: Seq<StoredItem>, cutoff: i64, i: int)
    requires
        0 <= i < rows.len(),
        is_pending(rows[i], cutoff),
    ensures
        pending_rows(rows, cutoff).contains(rows[i]),
    decreases rows.len(),
{
    let all = pending_rows(rows, cutoff);
    let before = pending_rows(rows.drop_last(), cutoff);
    if i == rows.len() - 1 {
        assert(all[before.len() as int] == rows[i]);
    } else {
        lemma_pending_contains(rows.drop_last(), cutoff, i);
        let k = choose|k: int| 0 <= k < before.len() && before[k] == rows[i];
        assert(all[k] == rows[i]);
    }
}

} // verus!
