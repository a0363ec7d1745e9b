//! Items that are too weak for a digest until other sources report them too.

use vstd::prelude::*;

use crate::cluster::{
    boosted, cluster_db_items, cluster_seqs, clusters_of, different_sources, guids_of,
    law_entries_say_what_the_best_item_says, law_every_item_is_in_a_cluster,
    law_sources_are_counted_once, leader, leader_of, leads, lemma_leader, source_names,
    source_names_of, unique_names, unique_source_names,
};
use crate::item::DbItem;
use crate::text::str_same;

verus! {

/// A stored item that is not posted yet.
pub struct PendingItem {
    /// The item.
    pub item: DbItem,
    /// The state that it is in.
    pub state: String,
}

/// The items that are pending.
pub open spec fn pending_items(pending: Seq<PendingItem>) -> Seq<DbItem> {
    pending.map_values(|p: PendingItem| p.item)
}

/// Whether a guid is that of a candidate.
pub open spec fn is_candidate(pending: Seq<PendingItem>, guid: Seq<char>) -> bool {
    exists|i: int|
        0 <= i < pending.len() && (#[trigger] pending[i]).state@ == "candidate"@
            && pending[i].item.guid@ == guid
}

/// Whether a cluster is strong enough for a digest: enough sources report it,
/// two at least, and with what they add its best score is high enough.
pub open spec fn is_corroborated(cluster: Seq<DbItem>, min_score: int, min_sources: int) -> bool {
    let sources = unique_names(source_names(cluster)).len() as int;
    &&& sources >= (if min_sources < 2 {
        2
    } else {
        min_sources
    })
    &&& boosted(leader(cluster).score as int, sources) >= min_score
}

/// The guids of the candidates in a cluster.
pub open spec fn candidates_in(pending: Seq<PendingItem>, cluster: Seq<DbItem>) -> Seq<Seq<char>>
    decreases cluster.len(),
{
    if cluster.len() == 0 {
        seq![]
    } else {
        let before = candidates_in(pending, cluster.drop_last());
        if is_candidate(pending, cluster.last().guid@) {
            before.push(cluster.last().guid@)
        } else {
            before
        }
    }
}

/// The guids of the candidates in those of the clusters that are strong enough.
pub open spec fn promoted_from(
    pending: Seq<PendingItem>,
    clusters: Seq<Seq<DbItem>>,
    min_score: int,
    min_sources: int,
) -> Seq<Seq<char>>
    decreases clusters.len(),
{
    if clusters.len() == 0 {
        seq![]
    } else {
        let before = promoted_from(pending, clusters.drop_last(), min_score, min_sources);
        if is_corroborated(clusters.last(), min_score, min_sources) {
            before + candidates_in(pending, clusters.last())
        } else {
            before
        }
    }
}

/// The guids of the candidates that other items corroborate.
pub open spec fn promoted(pending: Seq<PendingItem>, min_score: int, min_sources: int) -> Seq<
    Seq<char>,
> {
    promoted_from(pending, clusters_of(pending_items(pending)), min_score, min_sources)
}

fn candidate(pending: &Vec<PendingItem>, guid: &String) -> (r: bool)
    ensures
        r == is_candidate(pending@, guid@),
{
    let n: usize = pending.len();
    let mut i: usize = 0;
    while i < n
        invariant
            0 <= i <= n,
            n == pending@.len(),
            forall|j: int|
                0 <= j < i ==> !((#[trigger] pending@[j]).state@ == "candidate"@
                    && pending@[j].item.guid@ == guid@),
        decreases n - i,
    {
        if str_same(pending[i].state.as_str(), "candidate") && pending[i].item.guid == *guid {
            return true;
        }
        i += 1;
    }
    false
}

fn items_of(pending: &Vec<PendingItem>) -> (r: Vec<DbItem>)
    ensures
        r@ == pending_items(pending@),
{
    let n: usize = pending.len();
    let mut out: Vec<DbItem> = Vec::new();
    let mut i: usize = 0;
    while i < n
        invariant
            0 <= i <= n,
            n == pending@.len(),
            out@ == pending_items(pending@).take(i as int),
        decreases n - i,
    {
        out.push(pending[i].item.clone());
        assert(pending_items(pending@).take(i + 1) == pending_items(pending@).take(i as int).push(
            pending@[i as int].item,
        ));
        i += 1;
    }
    assert(pending_items(pending@).take(n as int) == pending_items(pending@));
    out
}

/// The guids of the candidates that other items corroborate: those in clusters
/// that are strong enough for a digest.
pub fn candidates_to_promote(
    pending: &Vec<PendingItem>,
    min_score: i32,
    candidate_min_sources: usize,
) -> (r: Vec<String>)
    ensures
        r.deep_view() == promoted(pending@, min_score as int, candidate_min_sources as int),
{
    let items = items_of(pending);
    let clusters = cluster_db_items(items);
    let ghost all = cluster_seqs(clusters@);
    let least: usize = if candidate_min_sources < 2 {
        2
    } else {
        candidate_min_sources
    };
    let n: usize = clusters.len();
    let mut out: Vec<String> = Vec::new();
    let mut i: usize = 0;
    proof {
        law_every_item_is_in_a_cluster(items@);
        assert(out.deep_view() == Seq::<Seq<char>>::empty());
        assert(all.take(0) == Seq::<Seq<DbItem>>::empty());
    }
    while i < n
        invariant
            0 <= i <= n,
            n == clusters@.len(),
            all == cluster_seqs(clusters@),
            least == (if candidate_min_sources < 2 {
                2
            } else {
                candidate_min_sources
            }),
            forall|k: int| 0 <= k < all.len() ==> (#[trigger] all[k]).len() > 0,
            out.deep_view() == promoted_from(
                pending@,
                all.take(i as int),
                min_score as int,
                candidate_min_sources as int,
            ),
        decreases n - i,
    {
        let cluster = &clusters[i];
        assert(all[i as int] == cluster@);
        assert(all.take(i + 1).drop_last() == all.take(i as int));
        assert(all.take(i + 1).last() == cluster@);
        let best: i32 = cluster[leader_of(cluster)].score;
        let names = source_names_of(cluster);
        let sources = unique_source_names(names.as_slice());
        assert(sources.deep_view().len() == sources@.len());
        let strong = crate::cluster::boost(best, sources.len()) >= min_score;
        if sources.len() >= least && strong {
            let ghost before = out.deep_view();
            let m: usize = cluster.len();
            let mut k: usize = 0;
            assert(cluster@.take(0) == Seq::<DbItem>::empty());
            assert(before + Seq::<Seq<char>>::empty() == before);
            while k < m
                invariant
                    0 <= k <= m,
                    m == cluster@.len(),
                    out.deep_view() == before + candidates_in(pending@, cluster@.take(k as int)),
                decreases m - k,
            {
                let ghost so_far = out.deep_view();
                assert(cluster@.take(k + 1).drop_last() == cluster@.take(k as int));
                if candidate(pending, &cluster[k].guid) {
                    let guid = cluster[k].guid.clone();
                    out.push(guid);
                    assert(out.deep_view() == so_far.push(guid@)) by {
                        assert(guid.deep_view() == guid@);
                    }
                    assert((before + candidates_in(pending@, cluster@.take(k as int))).push(guid@)
                        == before + candidates_in(pending@, cluster@.take(k as int)).push(guid@));
                }
                k += 1;
            }
            assert(cluster@.take(m as int) == cluster@);
        }
        i += 1;
    }
    assert(all.take(n as int) == all);
    out
}

/// For how many seconds candidates are kept: an hour at least.
pub fn retention_seconds(candidate_retention_hours: u64) -> (r: i64)
    requires
        candidate_retention_hours * 3600 <= i64::MAX,
    ensures
        r == (if candidate_retention_hours < 1 {
            1
        } else {
            candidate_retention_hours as int
        }) * 3600,
{
    let hours: u64 = if candidate_retention_hours < 1 {
        1
    } else {
        candidate_retention_hours
    };
    (hours * 3600) as i64
}

// ---------------------------------------------------------------------------
// Laws
// ---------------------------------------------------------------------------

proof fn lemma_candidates_in(pending: Seq<PendingItem>, cluster: Seq<DbItem>)
    ensures
        forall|i: int|
            0 <= i < candidates_in(pending, cluster).len() ==> is_candidate(
                pending,
                #[trigger] candidates_in(pending, cluster)[i],
            ),
    decreases cluster.len(),
{
    if cluster.len() > 0 {
        lemma_candidates_in(pending, cluster.drop_last());
        let before = candidates_in(pending, cluster.drop_last());
        let all = candidates_in(pending, cluster);
        assert forall|i: int| 0 <= i < all.len() implies is_candidate(
            pending,
            #[trigger] all[i],
        ) by {
            if i < before.len() {
                assert(all[i] == before[i]);
            }
        }
    }
}

proof fn lemma_promoted_from(
    pending: Seq<PendingItem>,
    clusters: Seq<Seq<DbItem>>,
    min_score: int,
    min_sources: int,
)
    ensures
        forall|i: int|
            0 <= i < promoted_from(pending, clusters, min_score, min_sources).len()
                ==> is_candidate(
                pending,
                #[trigger] promoted_from(pending, clusters, min_score, min_sources)[i],
            ),
    decreases clusters.len(),
{
    if clusters.len() > 0 {
        lemma_promoted_from(pending, clusters.drop_last(), min_score, min_sources);
        lemma_candidates_in(pending, clusters.last());
        let before = promoted_from(pending, clusters.drop_last(), min_score, min_sources);
        let more = candidates_in(pending, clusters.last());
        let all = promoted_from(pending, clusters, min_score, min_sources);
        assert forall|i: int| 0 <= i < all.len() implies is_candidate(
            pending,
            #[trigger] all[i],
        ) by {
            if i >= before.len() && is_corroborated(clusters.last(), min_score, min_sources) {
                assert(all[i] == more[i - before.len()]);
            }
        }
    }
}

/// Only candidates are promoted.
pub proof fn law_only_candidates_are_promoted(
    pending: Seq<PendingItem>,
    min_score: int,
    min_sources: int,
)
    ensures
        forall|i: int|
            0 <= i < promoted(pending, min_score, min_sources).len() ==> is_candidate(
                pending,
                #[trigger] promoted(pending, min_score, min_sources)[i],
            ),
{
    lemma_promoted_from(
        pending,
        clusters_of(pending_items(pending)),
        min_score,
        min_sources,
    );
}

/// What a single source reports is never promoted, however it scores.
pub proof fn law_one_source_is_not_enough(cluster: Seq<DbItem>, min_score: int, min_sources: int)
    requires
        unique_names(source_names(cluster)).len() < 2,
    ensures
        !is_corroborated(cluster, min_score, min_sources),
{
}

proof fn lemma_promoted_clusters(
    pending: Seq<PendingItem>,
    clusters: Seq<Seq<DbItem>>,
    min_score: int,
    min_sources: int,
    k: int,
    i: int,
)
    requires
        0 <= k < clusters.len(),
        0 <= i < clusters[k].len(),
        is_corroborated(clusters[k], min_score, min_sources),
        is_candidate(pending, clusters[k][i].guid@),
    ensures
        promoted_from(pending, clusters, min_score, min_sources).contains(clusters[k][i].guid@),
    decreases clusters.len(),
{
    let t = clusters.drop_last();
    let guid = clusters[k][i].guid@;
    let before = promoted_from(pending, t, min_score, min_sources);
    let all = promoted_from(pending, clusters, min_score, min_sources);
    if k == clusters.len() - 1 {
        lemma_candidate_is_in(pending, clusters[k], i);
        let more = candidates_in(pending, clusters[k]);
        let j = choose|j: int| 0 <= j < more.len() && more[j] == guid;
        assert(all[before.len() + j] == guid);
    } else {
        lemma_promoted_clusters(pending, t, min_score, min_sources, k, i);
        let j = choose|j: int| 0 <= j < before.len() && before[j] == guid;
        assert(all[j] == guid);
    }
}

proof fn lemma_candidate_is_in(pending: Seq<PendingItem>, cluster: Seq<DbItem>, i: int)
    requires
        0 <= i < cluster.len(),
        is_candidate(pending, cluster[i].guid@),
    ensures
        candidates_in(pending, cluster).contains(cluster[i].guid@),
    decreases cluster.len(),
{
    let all = candidates_in(pending, cluster);
    let before = candidates_in(pending, cluster.drop_last());
    if i == cluster.len() - 1 {
        assert(all[before.len() as int] == cluster[i].guid@);
    } else {
        lemma_candidate_is_in(pending, cluster.drop_last(), i);
        let j = choose|j: int| 0 <= j < before.len() && before[j] == cluster[i].guid@;
        assert(all[j] == cluster[i].guid@);
    }
}

proof fn lemma_promoted_source(
    pending: Seq<PendingItem>,
    clusters: Seq<Seq<DbItem>>,
    min_score: int,
    min_sources: int,
    guid: Seq<char>,
)
    requires
        promoted_from(pending, clusters, min_score, min_sources).contains(guid),
    ensures
        exists|k: int|
            0 <= k < clusters.len() && is_corroborated(
                #[trigger] clusters[k],
                min_score,
                min_sources,
            ) && guids_of(clusters[k]).contains(guid),
    decreases clusters.len(),
{
    if clusters.len() > 0 {
        let t = clusters.drop_last();
        let before = promoted_from(pending, t, min_score, min_sources);
        let all = promoted_from(pending, clusters, min_score, min_sources);
        let j = choose|j: int| 0 <= j < all.len() && all[j] == guid;
        if j < before.len() {
            assert(before[j] == guid);
            lemma_promoted_source(pending, t, min_score, min_sources, guid);
            let k = choose|k: int|
                0 <= k < t.len() && is_corroborated(#[trigger] t[k], min_score, min_sources)
                    && guids_of(t[k]).contains(guid);
            assert(clusters[k] == t[k]);
        } else {
            let more = candidates_in(pending, clusters.last());
            assert(more[j - before.len()] == guid);
            lemma_candidates_are_of(pending, clusters.last(), guid);
            assert(clusters[clusters.len() - 1] == clusters.last());
        }
    }
}

proof fn lemma_candidates_are_of(pending: Seq<PendingItem>, cluster: Seq<DbItem>, guid: Seq<char>)
    requires
        candidates_in(pending, cluster).contains(guid),
    ensures
        guids_of(cluster).contains(guid),
    decreases cluster.len(),
{
    if cluster.len() > 0 {
        let t = cluster.drop_last();
        let before = candidates_in(pending, t);
        let all = candidates_in(pending, cluster);
        let j = choose|j: int| 0 <= j < all.len() && all[j] == guid;
        if j < before.len() {
            assert(before[j] == guid);
            lemma_candidates_are_of(pending, t, guid);
            let i = choose|i: int| 0 <= i < guids_of(t).len() && guids_of(t)[i] == guid;
            assert(guids_of(cluster)[i] == guid);
        } else {
            assert(guids_of(cluster)[cluster.len() - 1] == guid);
        }
    }
}

/// Whether enough different sources report an incident, two at least, and one of the reports
/// scores high enough for a digest, or one less, which the other sources make up for.
pub open spec fn is_reported_enough(
    cluster: Seq<DbItem>,
    min_score: int,
    min_sources: int,
) -> bool {
    &&& different_sources(cluster).len() >= 2
    &&& different_sources(cluster).len() >= min_sources
    &&& min_score <= 5
    &&& exists|j: int| 0 <= j < cluster.len() && (#[trigger] cluster[j]).score + 1 >= min_score
}

/// A candidate is promoted exactly if the incident that it is about is reported by enough
/// different sources and scores high enough with what they add: each candidate of such a
/// cluster is promoted, wherever it stands, and no other item is.
pub proof fn law_corroborated_candidates_are_promoted(
    pending: Seq<PendingItem>,
    min_score: int,
    min_sources: int,
    guid: Seq<char>,
)
    ensures
        promoted(pending, min_score, min_sources).contains(guid) <==> (exists|p: int|
            0 <= p < pending.len() && (#[trigger] pending[p]).state@ == "candidate"@
                && pending[p].item.guid@ == guid) && (exists|k: int|
            0 <= k < clusters_of(pending_items(pending)).len() && is_reported_enough(
                #[trigger] clusters_of(pending_items(pending))[k],
                min_score,
                min_sources,
            ) && guids_of(clusters_of(pending_items(pending))[k]).contains(guid)),
{
    let cs = clusters_of(pending_items(pending));
    law_every_item_is_in_a_cluster(pending_items(pending));
    assert forall|k: int| 0 <= k < cs.len() implies is_corroborated(
        #[trigger] cs[k],
        min_score,
        min_sources,
    ) == is_reported_enough(cs[k], min_score, min_sources) by {
        let c = cs[k];
        law_sources_are_counted_once(c);
        law_entries_say_what_the_best_item_says(c);
        lemma_leader(c);
        let i = choose|i: int| leads(c, i) && #[trigger] c[i] == leader(c);
        assert(forall|j: int| 0 <= j < c.len() ==> (#[trigger] c[j]).score <= c[i].score);
    }
    if promoted(pending, min_score, min_sources).contains(guid) {
        law_only_candidates_are_promoted(pending, min_score, min_sources);
        lemma_promoted_source(pending, cs, min_score, min_sources, guid);
        let all = promoted(pending, min_score, min_sources);
        let j = choose|j: int| 0 <= j < all.len() && all[j] == guid;
        assert(is_candidate(pending, all[j]));
    }
    if exists|k: int|
        0 <= k < cs.len() && is_reported_enough(#[trigger] cs[k], min_score, min_sources)
            && guids_of(cs[k]).contains(guid) {
        let k = choose|k: int|
            0 <= k < cs.len() && is_reported_enough(#[trigger] cs[k], min_score, min_sources)
                && guids_of(cs[k]).contains(guid);
        let i = choose|i: int| 0 <= i < guids_of(cs[k]).len() && guids_of(cs[k])[i] == guid;
        assert(cs[k][i].guid@ == guid);
        if is_candidate(pending, guid) {
            lemma_promoted_clusters(pending, cs, min_score, min_sources, k, i);
        }
    }
}

} // verus!
