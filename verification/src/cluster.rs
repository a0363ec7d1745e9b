//! Items that are about the same incident.

use vstd::prelude::*;

use vstd::arithmetic::power2::lemma_pow2_strictly_increases;

use crate::ieee::one;
use crate::item::{copy_text, entries, DbItem, DigestItem, Entry};
use crate::text::{
    join, join_strings, law_joined_parts_are_kept, lowercase, occurs, trim_str, trimmed,
};
use crate::words::{
    is_listed, key_is_listed, law_shared_words, lowered, normalize, normalized, overlap,
    title_overlap, title_words,
};

verus! {

// ---------------------------------------------------------------------------
// Sorting by score
// ---------------------------------------------------------------------------

/// What has a score.
pub trait Scored: Sized {
    /// What contracts speak of.
    type Model;

    /// What stands for a value in contracts.
    spec fn model(self) -> Self::Model;

    /// The score of what stands for a value.
    spec fn rank(m: Self::Model) -> int;

    /// The score.
    fn score(&self) -> (r: i32)
        ensures
            r == Self::rank(self.model()),
    ;
}

/// What stands for the values in contracts.
pub open spec fn models<T: Scored>(s: Seq<T>) -> Seq<T::Model> {
    s.map_values(|x: T| x.model())
}

/// A sequence with one more, behind all that score no less.
pub open spec fn with_inserted<T: Scored>(s: Seq<T::Model>, x: T::Model) -> Seq<T::Model>
    decreases s.len(),
{
    if s.len() == 0 || T::rank(s.last()) >= T::rank(x) {
        s.push(x)
    } else {
        with_inserted::<T>(s.drop_last(), x).push(s.last())
    }
}

/// A sequence in the order of the scores, highest first; what scores the same
/// stays in its order.
pub open spec fn by_score<T: Scored>(s: Seq<T::Model>) -> Seq<T::Model>
    decreases s.len(),
{
    if s.len() == 0 {
        s
    } else {
        with_inserted::<T>(by_score::<T>(s.drop_last()), s.last())
    }
}

/// Inserting puts the new element at its place and leaves the others in order.
proof fn lemma_insert_at<T: Scored>(s: Seq<T::Model>, x: T::Model, k: int)
    requires
        0 <= k <= s.len(),
        k == 0 || T::rank(s[k - 1]) >= T::rank(x),
        forall|i: int| k <= i < s.len() ==> T::rank(#[trigger] s[i]) < T::rank(x),
    ensures
        with_inserted::<T>(s, x) == s.insert(k, x),
    decreases s.len(),
{
    if k == s.len() {
        assert(s.insert(k, x) == s.push(x));
    } else {
        let t = s.drop_last();
        assert(T::rank(s[s.len() - 1]) < T::rank(x));
        lemma_insert_at::<T>(t, x, k);
        assert(t.insert(k, x).push(s.last()) == s.insert(k, x));
    }
}

/// Sorts by score, highest first; what scores the same stays in its order.
pub fn sort_by_score<T: Scored>(v: Vec<T>) -> (r: Vec<T>)
    ensures
        models(r@) == by_score::<T>(models(v@)),
{
    let ghost all = v@;
    let mut rest = v;
    let mut out: Vec<T> = Vec::new();
    assert(models(all.take(0)) == models(out@));
    assert(by_score::<T>(models(all.take(0))) == models(out@));
    assert(rest@ == all.skip(0));
    let ghost mut n: int = 0;
    while rest.len() > 0
        invariant
            0 <= n <= all.len(),
            rest@ == all.skip(n),
            models(out@) == by_score::<T>(models(all.take(n))),
        decreases rest@.len(),
    {
        let ghost before = out@;
        let x = rest.remove(0);
        let score: i32 = x.score();
        let mut k: usize = out.len();
        while k > 0 && out[k - 1].score() < score
            invariant
                0 <= k <= out@.len(),
                out@ == before,
                score == T::rank(x.model()),
                forall|i: int|
                    k <= i < out@.len() ==> T::rank((#[trigger] out@[i]).model()) < score,
            decreases k,
        {
            k -= 1;
        }
        out.insert(k, x);
        proof {
            let m = models(before);
            assert(x == all[n]);
            assert forall|i: int| k <= i < m.len() implies T::rank(#[trigger] m[i]) < T::rank(
                x.model(),
            ) by {
                assert(m[i] == before[i].model());
            }
            lemma_insert_at::<T>(m, x.model(), k as int);
            assert(models(before.insert(k as int, x)) == m.insert(k as int, x.model()));
            let t = models(all.take(n + 1));
            assert(t.drop_last() == models(all.take(n)));
            assert(t.last() == x.model());
            n = n + 1;
        }
    }
    assert(all.take(n) == all);
    out
}

impl Scored for DbItem {
    type Model = DbItem;

    open spec fn model(self) -> DbItem {
        self
    }

    open spec fn rank(m: DbItem) -> int {
        m.score as int
    }

    fn score(&self) -> (r: i32) {
        self.score
    }
}

// ---------------------------------------------------------------------------
// The same incident
// ---------------------------------------------------------------------------

/// The place of an item in normal spelling, if it is not blank.
pub open spec fn normal_label(item: DbItem) -> Option<Seq<char>> {
    match item.location_label {
        Some(label) => {
            let l = trimmed(normalized(label@));
            if l.len() == 0 {
                None
            } else {
                Some(l)
            }
        },
        None => None,
    }
}

/// The place of an item in normal spelling, if it is not blank.
pub fn normalized_location_label(item: &DbItem) -> (r: Option<String>)
    ensures
        r.deep_view() == normal_label(*item),
{
    match &item.location_label {
        Some(label) => {
            let n = normalize(label.as_str());
            let t = trim_str(n.as_str());
            if t.as_str().is_empty() {
                None
            } else {
                Some(t)
            }
        },
        None => None,
    }
}

/// Whether two items can have happened at the same place: their places have the
/// same name, or their distances differ by at most 300 metres.
pub open spec fn compatible(a: DbItem, b: DbItem) -> bool {
    ||| normal_label(a) is Some && normal_label(a) == normal_label(b)
    ||| match (a.distance_meters, b.distance_meters) {
        (Some(x), Some(y)) => x.within_300(y),
        _ => false,
    }
}

/// Whether two items can have happened at the same place.
pub fn locations_compatible(a: &DbItem, b: &DbItem) -> (r: bool)
    ensures
        r == compatible(*a, *b),
{
    let la = normalized_location_label(a);
    let lb = normalized_location_label(b);
    if let (Some(x), Some(y)) = (&la, &lb) {
        if *x == *y {
            return true;
        }
    }
    match (a.distance_meters, b.distance_meters) {
        (Some(x), Some(y)) => x.near_300(y),
        _ => false,
    }
}

/// Whether two items are about the same incident: they have the same link, or
/// they can have happened at the same place and share two significant words.
pub open spec fn same_incident(a: DbItem, b: DbItem) -> bool {
    ||| a.link is Some && a.link.deep_view() == b.link.deep_view()
    ||| compatible(a, b) && overlap(a.title@, b.title@) >= 2
}

/// Whether an item belongs to a cluster: it is about the same incident as one of
/// the items in it.
pub open spec fn belongs(item: DbItem, cluster: Seq<DbItem>) -> bool {
    exists|i: int| 0 <= i < cluster.len() && same_incident(item, #[trigger] cluster[i])
}

fn same_link(a: &Option<String>, b: &Option<String>) -> (r: bool)
    ensures
        r == (a is Some && a.deep_view() == b.deep_view()),
{
    match (a, b) {
        (Some(x), Some(y)) => *x == *y,
        _ => false,
    }
}

/// Whether an item belongs to a cluster.
pub fn likely_same_incident(item: &DbItem, cluster: &[DbItem]) -> (r: bool)
    ensures
        r == belongs(*item, cluster@),
{
    let n: usize = cluster.len();
    let mut i: usize = 0;
    while i < n
        invariant
            0 <= i <= n,
            n == cluster@.len(),
            forall|j: int| 0 <= j < i ==> !same_incident(*item, #[trigger] cluster@[j]),
        decreases n - i,
    {
        let other = &cluster[i];
        if same_link(&item.link, &other.link) || (locations_compatible(item, other)
            && title_overlap(item.title.as_str(), other.title.as_str()) >= 2) {
            assert(same_incident(*item, cluster@[i as int]));
            return true;
        }
        i += 1;
    }
    false
}

// ---------------------------------------------------------------------------
// Clusters
// ---------------------------------------------------------------------------

/// The first cluster, from `from` on, that an item belongs to.
pub open spec fn home(clusters: Seq<Seq<DbItem>>, item: DbItem, from: int) -> Option<int>
    decreases clusters.len() - from,
{
    if from < 0 || from >= clusters.len() {
        None
    } else if belongs(item, clusters[from]) {
        Some(from)
    } else {
        home(clusters, item, from + 1)
    }
}

/// The clusters with one more item: in the first cluster that it belongs to, or
/// else in one of its own.
pub open spec fn with_item(clusters: Seq<Seq<DbItem>>, item: DbItem) -> Seq<Seq<DbItem>> {
    match home(clusters, item, 0) {
        Some(i) => clusters.update(i, clusters[i].push(item)),
        None => clusters.push(seq![item]),
    }
}

/// Items in clusters, one after the other.
pub open spec fn clustered(items: Seq<DbItem>) -> Seq<Seq<DbItem>>
    decreases items.len(),
{
    if items.len() == 0 {
        seq![]
    } else {
        with_item(clustered(items.drop_last()), items.last())
    }
}

/// Items in clusters, the highest scores first.
pub open spec fn clusters_of(items: Seq<DbItem>) -> Seq<Seq<DbItem>> {
    clustered(by_score::<DbItem>(items))
}

/// The items of clusters.
pub open spec fn cluster_seqs(v: Seq<Vec<DbItem>>) -> Seq<Seq<DbItem>> {
    v.map_values(|c: Vec<DbItem>| c@)
}

fn home_of(clusters: &Vec<Vec<DbItem>>, item: &DbItem) -> (r: Option<usize>)
    ensures
        match r {
            Some(i) => home(cluster_seqs(clusters@), *item, 0) == Some(i as int) && i
                < clusters@.len(),
            None => home(cluster_seqs(clusters@), *item, 0) is None,
        },
{
    let n: usize = clusters.len();
    let ghost all = cluster_seqs(clusters@);
    let mut i: usize = 0;
    while i < n
        invariant
            0 <= i <= n,
            n == clusters@.len(),
            all == cluster_seqs(clusters@),
            home(all, *item, 0) == home(all, *item, i as int),
        decreases n - i,
    {
        assert(all[i as int] == clusters@[i as int]@);
        if likely_same_incident(item, clusters[i].as_slice()) {
            return Some(i);
        }
        i += 1;
    }
    None
}

/// Puts items that are about the same incident together, the highest scores
/// first.
pub fn cluster_db_items(items: Vec<DbItem>) -> (r: Vec<Vec<DbItem>>)
    ensures
        cluster_seqs(r@) == clusters_of(items@),
{
    let mut sorted = sort_by_score(items);
    let ghost all = sorted@;
    proof {
        assert(models(items@) =~= items@);
        assert(models(sorted@) =~= sorted@);
    }
    let mut clusters: Vec<Vec<DbItem>> = Vec::new();
    let ghost mut n: int = 0;
    assert(all.take(0) == Seq::<DbItem>::empty());
    assert(cluster_seqs(clusters@) == Seq::<Seq<DbItem>>::empty());
    while sorted.len() > 0
        invariant
            0 <= n <= all.len(),
            sorted@ == all.skip(n),
            cluster_seqs(clusters@) == clustered(all.take(n)),
        decreases sorted@.len(),
    {
        let ghost before = clusters@;
        let item = sorted.remove(0);
        proof {
            assert(item == all[n]);
            assert(all.take(n + 1).drop_last() == all.take(n));
            assert(all.take(n + 1).last() == item);
        }
        match home_of(&clusters, &item) {
            Some(i) => {
                clusters[i].push(item);
                assert(cluster_seqs(clusters@) == cluster_seqs(before).update(
                    i as int,
                    cluster_seqs(before)[i as int].push(item),
                ));
            },
            None => {
                let mut own: Vec<DbItem> = Vec::new();
                own.push(item);
                clusters.push(own);
                assert(own@ == seq![item]);
                assert(cluster_seqs(clusters@) == cluster_seqs(before).push(own@));
            },
        }
        proof {
            n = n + 1;
        }
    }
    assert(all.take(n) == all);
    clusters
}

// ---------------------------------------------------------------------------
// Entries of a digest
// ---------------------------------------------------------------------------

/// Names, each once, whatever its case.
pub open spec fn unique_names(names: Seq<Seq<char>>) -> Seq<Seq<char>>
    decreases names.len(),
{
    if names.len() == 0 {
        names
    } else {
        let before = unique_names(names.drop_last());
        if is_listed(before, names.last()) {
            before
        } else {
            before.push(names.last())
        }
    }
}

/// Names, each once, whatever its case, as it was first.
pub fn unique_source_names(names: &[String]) -> (r: Vec<String>)
    ensures
        r.deep_view() == unique_names(names.deep_view()),
{
    let n: usize = names.len();
    let ghost all = names.deep_view();
    let mut keys: Vec<String> = Vec::new();
    let mut out: Vec<String> = Vec::new();
    let mut i: usize = 0;
    assert(all.take(0) == Seq::<Seq<char>>::empty());
    assert(out.deep_view() == Seq::<Seq<char>>::empty());
    assert(keys.deep_view() == lowered(out.deep_view()));
    while i < n
        invariant
            0 <= i <= n,
            n == names@.len(),
            all == names.deep_view(),
            keys.deep_view() == lowered(out.deep_view()),
            out.deep_view() == unique_names(all.take(i as int)),
        decreases n - i,
    {
        let ghost before = out.deep_view();
        let ghost keys0 = keys.deep_view();
        let ghost name = names@[i as int]@;
        assert(all.take(i + 1).drop_last() == all.take(i as int));
        assert(all.take(i + 1).last() == name);
        let key = names[i].as_str().to_lowercase();
        if !key_is_listed(&keys, &key) {
            let copy = names[i].clone();
            out.push(copy);
            keys.push(key);
            assert(out.deep_view() == before.push(name)) by {
                assert(copy.deep_view() == copy@);
            }
            assert(keys.deep_view() == keys0.push(lowercase(name))) by {
                assert(key.deep_view() == key@);
            }
            assert(lowered(before.push(name)) == lowered(before).push(lowercase(name)));
        }
        i += 1;
    }
    assert(all.take(n as int) == all);
    out
}

/// The names of the sources of items.
pub open spec fn source_names(cluster: Seq<DbItem>) -> Seq<Seq<char>> {
    cluster.map_values(|x: DbItem| x.source_name@)
}

/// What items are recognised by.
pub open spec fn guids_of(cluster: Seq<DbItem>) -> Seq<Seq<char>> {
    cluster.map_values(|x: DbItem| x.guid@)
}

/// The first of the items with the highest score.
pub open spec fn leader(cluster: Seq<DbItem>) -> DbItem
    decreases cluster.len(),
{
    if cluster.len() <= 1 {
        cluster[0]
    } else {
        let best = leader(cluster.drop_last());
        if cluster.last().score > best.score {
            cluster.last()
        } else {
            best
        }
    }
}

/// The score of an incident: one more than that of the best item, but at most
/// 5, if more than one source reports it.
pub open spec fn boosted(best: int, sources: int) -> int {
    if sources <= 1 {
        best
    } else if best + 1 < 5 {
        best + 1
    } else {
        5
    }
}

/// The entry for a cluster: what the best item says, with all sources.
pub open spec fn merged(cluster: Seq<DbItem>) -> Entry {
    let best = leader(cluster);
    let sources = unique_names(source_names(cluster));
    Entry {
        guids: guids_of(cluster),
        source_name: join(sources, " + "@),
        source_count: sources.len() as int,
        title: best.title@,
        link: best.link.deep_view(),
        link_note: best.link_note.deep_view(),
        score: boosted(best.score as int, sources.len() as int),
        max_score: best.max_score as int,
        distance_meters: best.distance_meters,
        location_label: best.location_label.deep_view(),
    }
}

/// The entries for items: one for each incident.
pub open spec fn digest_of(items: Seq<DbItem>) -> Seq<Entry> {
    clusters_of(items).map_values(|c: Seq<DbItem>| merged(c))
}

pub(crate) fn boost(best: i32, sources: usize) -> (r: i32)
    ensures
        r == boosted(best as int, sources as int),
{
    if sources <= 1 {
        best
    } else if best < 4 {
        best + 1
    } else {
        5
    }
}

pub(crate) fn source_names_of(cluster: &Vec<DbItem>) -> (r: Vec<String>)
    ensures
        r.deep_view() == source_names(cluster@),
{
    let n: usize = cluster.len();
    let mut out: Vec<String> = Vec::new();
    let mut i: usize = 0;
    while i < n
        invariant
            0 <= i <= n,
            n == cluster@.len(),
            out.deep_view() == source_names(cluster@).take(i as int),
        decreases n - i,
    {
        let ghost before = out.deep_view();
        let name = cluster[i].source_name.clone();
        out.push(name);
        assert(out.deep_view() == before.push(name@)) by {
            assert(name.deep_view() == name@);
        }
        assert(source_names(cluster@).take(i + 1) == source_names(cluster@).take(i as int).push(
            name@,
        ));
        i += 1;
    }
    assert(source_names(cluster@).take(n as int) == source_names(cluster@));
    out
}

fn guids_of_cluster(cluster: &Vec<DbItem>) -> (r: Vec<String>)
    ensures
        r.deep_view() == guids_of(cluster@),
{
    let n: usize = cluster.len();
    let mut out: Vec<String> = Vec::new();
    let mut i: usize = 0;
    while i < n
        invariant
            0 <= i <= n,
            n == cluster@.len(),
            out.deep_view() == guids_of(cluster@).take(i as int),
        decreases n - i,
    {
        let ghost before = out.deep_view();
        let guid = cluster[i].guid.clone();
        out.push(guid);
        assert(out.deep_view() == before.push(guid@)) by {
            assert(guid.deep_view() == guid@);
        }
        assert(guids_of(cluster@).take(i + 1) == guids_of(cluster@).take(i as int).push(guid@));
        i += 1;
    }
    assert(guids_of(cluster@).take(n as int) == guids_of(cluster@));
    out
}

pub(crate) fn leader_of(cluster: &Vec<DbItem>) -> (r: usize)
    requires
        cluster@.len() > 0,
    ensures
        r < cluster@.len(),
        cluster@[r as int] == leader(cluster@),
{
    let n: usize = cluster.len();
    let mut best: usize = 0;
    let mut i: usize = 1;
    while i < n
        invariant
            1 <= i <= n,
            n == cluster@.len(),
            best < n,
            cluster@[best as int] == leader(cluster@.take(i as int)),
        decreases n - i,
    {
        assert(cluster@.take(i + 1).drop_last() == cluster@.take(i as int));
        if cluster[i].score > cluster[best].score {
            best = i;
        }
        i += 1;
    }
    assert(cluster@.take(n as int) == cluster@);
    best
}

/// The entry for a cluster.
pub fn merge(cluster: &Vec<DbItem>) -> (r: DigestItem)
    requires
        cluster@.len() > 0,
    ensures
        r@ == merged(cluster@),
{
    let best = &cluster[leader_of(cluster)];
    let names = source_names_of(cluster);
    let sources = unique_source_names(names.as_slice());
    assert(sources.deep_view().len() == sources@.len());
    let guids = guids_of_cluster(cluster);
    DigestItem {
        guids,
        source_name: join_strings(&sources, " + "),
        source_count: sources.len(),
        title: best.title.clone(),
        link: copy_text(&best.link),
        link_note: copy_text(&best.link_note),
        score: boost(best.score, sources.len()),
        max_score: best.max_score,
        distance_meters: best.distance_meters,
        location_label: copy_text(&best.location_label),
    }
}

/// The entries for items: one for each incident, the highest scores first.
pub fn cluster_digest_items(items: Vec<DbItem>) -> (r: Vec<DigestItem>)
    ensures
        entries(r@) == digest_of(items@),
{
    let clusters = cluster_db_items(items);
    let ghost all = cluster_seqs(clusters@);
    let n: usize = clusters.len();
    let mut out: Vec<DigestItem> = Vec::new();
    let mut i: usize = 0;
    proof {
        law_every_item_is_in_a_cluster(items@);
    }
    while i < n
        invariant
            0 <= i <= n,
            n == clusters@.len(),
            all == cluster_seqs(clusters@),
            all == clusters_of(items@),
            forall|k: int| 0 <= k < all.len() ==> (#[trigger] all[k]).len() > 0,
            entries(out@) == digest_of(items@).take(i as int),
        decreases n - i,
    {
        let ghost before = out@;
        assert(all[i as int] == clusters@[i as int]@);
        let entry = merge(&clusters[i]);
        out.push(entry);
        assert(entries(out@) == entries(before).push(entry@));
        assert(digest_of(items@).take(i + 1) == digest_of(items@).take(i as int).push(entry@));
        i += 1;
    }
    assert(digest_of(items@).take(n as int) == digest_of(items@));
    out
}

// ---------------------------------------------------------------------------
// Laws
// ---------------------------------------------------------------------------

proof fn lemma_insert_contents<T: Scored>(s: Seq<T::Model>, x: T::Model)
    ensures
        with_inserted::<T>(s, x).to_multiset() == s.to_multiset().insert(x),
        with_inserted::<T>(s, x).len() == s.len() + 1,
    decreases s.len(),
{
    broadcast use vstd::seq_lib::group_to_multiset_ensures;

    if s.len() == 0 || T::rank(s.last()) >= T::rank(x) {
    } else {
        lemma_insert_contents::<T>(s.drop_last(), x);
        assert(s == s.drop_last().push(s.last()));
        assert(s.to_multiset() =~= s.drop_last().to_multiset().insert(s.last()));
        assert(with_inserted::<T>(s, x).to_multiset() =~= s.to_multiset().insert(x));
    }
}

/// Whether scores never rise along a sequence.
pub open spec fn falling<T: Scored>(s: Seq<T::Model>) -> bool {
    forall|i: int, j: int|
        0 <= i < j < s.len() ==> T::rank(#[trigger] s[i]) >= T::rank(#[trigger] s[j])
}

proof fn lemma_insert_falls<T: Scored>(s: Seq<T::Model>, x: T::Model)
    requires
        falling::<T>(s),
    ensures
        falling::<T>(with_inserted::<T>(s, x)),
        with_inserted::<T>(s, x).len() == s.len() + 1,
        forall|i: int|
            0 <= i < with_inserted::<T>(s, x).len() ==> T::rank(
                #[trigger] with_inserted::<T>(s, x)[i],
            ) >= T::rank(x) || (s.len() > 0 && T::rank(with_inserted::<T>(s, x)[i]) >= T::rank(
                s.last(),
            )),
    decreases s.len(),
{
    if s.len() == 0 || T::rank(s.last()) >= T::rank(x) {
    } else {
        let t = s.drop_last();
        lemma_insert_falls::<T>(t, x);
        let w = with_inserted::<T>(t, x);
        assert forall|i: int| 0 <= i < w.len() implies T::rank(#[trigger] w[i]) >= T::rank(
            s.last(),
        ) by {
            if t.len() > 0 {
                assert(t.last() == s[s.len() - 2]);
            }
        }
    }
}

/// The elements with one score.
pub open spec fn with_rank<T: Scored>(s: Seq<T::Model>, k: int) -> Seq<T::Model>
    decreases s.len(),
{
    if s.len() == 0 {
        s
    } else if T::rank(s.last()) == k {
        with_rank::<T>(s.drop_last(), k).push(s.last())
    } else {
        with_rank::<T>(s.drop_last(), k)
    }
}

proof fn lemma_insert_stable<T: Scored>(s: Seq<T::Model>, x: T::Model, k: int)
    ensures
        with_rank::<T>(with_inserted::<T>(s, x), k) == with_rank::<T>(s.push(x), k),
    decreases s.len(),
{
    if s.len() == 0 || T::rank(s.last()) >= T::rank(x) {
    } else {
        let t = s.drop_last();
        lemma_insert_stable::<T>(t, x, k);
        let w = with_inserted::<T>(t, x);
        let last = s.last();
        assert(w.push(last).drop_last() == w && w.push(last).last() == last);
        assert(t.push(x).drop_last() == t && t.push(x).last() == x);
        assert(s.push(x).drop_last() == s && s.push(x).last() == x);
        assert(with_rank::<T>(w.push(last), k) == if T::rank(last) == k {
            with_rank::<T>(w, k).push(last)
        } else {
            with_rank::<T>(w, k)
        });
        assert(with_rank::<T>(s.push(x), k) == if T::rank(x) == k {
            with_rank::<T>(s, k).push(x)
        } else {
            with_rank::<T>(s, k)
        });
    }
}

/// Sorting by score keeps every element, puts the highest scores first, and
/// leaves what scores the same in its order.
pub proof fn law_sorting_by_score<T: Scored>(s: Seq<T::Model>)
    ensures
        by_score::<T>(s).to_multiset() == s.to_multiset(),
        by_score::<T>(s).len() == s.len(),
        falling::<T>(by_score::<T>(s)),
        forall|k: int| #[trigger]
            with_rank::<T>(by_score::<T>(s), k) == with_rank::<T>(s, k),
    decreases s.len(),
{
    broadcast use vstd::seq_lib::group_to_multiset_ensures;

    if s.len() > 0 {
        let t = s.drop_last();
        law_sorting_by_score::<T>(t);
        lemma_insert_contents::<T>(by_score::<T>(t), s.last());
        lemma_insert_falls::<T>(by_score::<T>(t), s.last());
        assert(s == t.push(s.last()));
        assert(s.to_multiset() =~= t.to_multiset().insert(s.last()));
        assert forall|k: int| #[trigger] with_rank::<T>(by_score::<T>(s), k) == with_rank::<T>(
            s,
            k,
        ) by {
            let b = by_score::<T>(t);
            lemma_insert_stable::<T>(b, s.last(), k);
            assert(b.push(s.last()).drop_last() == b);
            assert(with_rank::<T>(b, k) == with_rank::<T>(t, k));
        }
    }
}

/// All items of clusters, one cluster after the other.
pub open spec fn all_items(clusters: Seq<Seq<DbItem>>) -> Seq<DbItem>
    decreases clusters.len(),
{
    if clusters.len() == 0 {
        seq![]
    } else {
        all_items(clusters.drop_last()) + clusters.last()
    }
}

proof fn lemma_home(clusters: Seq<Seq<DbItem>>, item: DbItem, from: int)
    requires
        0 <= from,
    ensures
        match home(clusters, item, from) {
            Some(i) => from <= i < clusters.len() && belongs(item, clusters[i]),
            None => forall|k: int|
                from <= k < clusters.len() ==> !belongs(item, #[trigger] clusters[k]),
        },
    decreases clusters.len() - from,
{
    if from < clusters.len() && !belongs(item, clusters[from]) {
        lemma_home(clusters, item, from + 1);
    }
}

proof fn lemma_grow(clusters: Seq<Seq<DbItem>>, i: int, item: DbItem)
    requires
        0 <= i < clusters.len(),
    ensures
        all_items(clusters.update(i, clusters[i].push(item))).to_multiset() == all_items(
            clusters,
        ).to_multiset().insert(item),
    decreases clusters.len(),
{
    broadcast use vstd::seq_lib::group_to_multiset_ensures;

    let more = clusters.update(i, clusters[i].push(item));
    let t = clusters.drop_last();
    if i == clusters.len() - 1 {
        assert(more.drop_last() == t);
        let a = all_items(t);
        let b = clusters.last();
        assert(a + b.push(item) == (a + b).push(item));
    } else {
        lemma_grow(t, i, item);
        assert(more.drop_last() == t.update(i, t[i].push(item)));
        vstd::seq_lib::lemma_multiset_commutative(all_items(more.drop_last()), more.last());
        vstd::seq_lib::lemma_multiset_commutative(all_items(t), clusters.last());
        assert(all_items(more).to_multiset() =~= all_items(clusters).to_multiset().insert(item));
    }
}

proof fn lemma_clustered(items: Seq<DbItem>)
    ensures
        all_items(clustered(items)).to_multiset() == items.to_multiset(),
        forall|k: int|
            0 <= k < clustered(items).len() ==> (#[trigger] clustered(items)[k]).len() > 0,
    decreases items.len(),
{
    broadcast use vstd::seq_lib::group_to_multiset_ensures;

    if items.len() == 0 {
        assert(all_items(clustered(items)) == items);
    } else {
        let t = items.drop_last();
        let item = items.last();
        let before = clustered(t);
        lemma_clustered(t);
        lemma_home(before, item, 0);
        assert(items == t.push(item));
        assert(items.to_multiset() =~= t.to_multiset().insert(item));
        match home(before, item, 0) {
            Some(i) => {
                lemma_grow(before, i, item);
            },
            None => {
                let more = before.push(seq![item]);
                assert(more.drop_last() == before);
                assert(all_items(before) + seq![item] == all_items(before).push(item));
            },
        }
    }
}

/// Clustering loses no item and repeats none: together the clusters hold the
/// items that were given, and none of them is empty.
pub proof fn law_every_item_is_in_a_cluster(items: Seq<DbItem>)
    ensures
        all_items(clusters_of(items)).to_multiset() == items.to_multiset(),
        forall|k: int|
            0 <= k < clusters_of(items).len() ==> (#[trigger] clusters_of(items)[k]).len() > 0,
{
    law_sorting_by_score::<DbItem>(items);
    lemma_clustered(by_score::<DbItem>(items));
}

/// All guids of the entries of a digest.
pub open spec fn all_guids(entries: Seq<Entry>) -> Seq<Seq<char>>
    decreases entries.len(),
{
    if entries.len() == 0 {
        seq![]
    } else {
        all_guids(entries.drop_last()) + entries.last().guids
    }
}

proof fn lemma_guids(clusters: Seq<Seq<DbItem>>)
    ensures
        all_guids(clusters.map_values(|c: Seq<DbItem>| merged(c))) == guids_of(
            all_items(clusters),
        ),
    decreases clusters.len(),
{
    let m = clusters.map_values(|c: Seq<DbItem>| merged(c));
    if clusters.len() > 0 {
        let t = clusters.drop_last();
        lemma_guids(t);
        assert(m.drop_last() == t.map_values(|c: Seq<DbItem>| merged(c)));
        assert(guids_of(all_items(t) + clusters.last()) == guids_of(all_items(t)) + guids_of(
            clusters.last(),
        ));
    } else {
        assert(guids_of(all_items(clusters)) == Seq::<Seq<char>>::empty());
    }
}

/// Each item that goes into a digest is named by exactly one of its entries:
/// together they name the items that were given.
pub proof fn law_digest_names_every_item(items: Seq<DbItem>)
    ensures
        all_guids(digest_of(items)).to_multiset() == guids_of(items).to_multiset(),
{
    law_every_item_is_in_a_cluster(items);
    lemma_guids(clusters_of(items));
    lemma_map_multiset(all_items(clusters_of(items)), items);
}

proof fn lemma_map_multiset(a: Seq<DbItem>, b: Seq<DbItem>)
    requires
        a.to_multiset() == b.to_multiset(),
    ensures
        guids_of(a).to_multiset() == guids_of(b).to_multiset(),
    decreases a.len(),
{
    broadcast use vstd::seq_lib::group_to_multiset_ensures;

    vstd::seq_lib::to_multiset_len(a);
    vstd::seq_lib::to_multiset_len(b);
    if a.len() > 0 {
        let x = a.last();
        assert(a.to_multiset().contains(x)) by {
            assert(a.contains(a[a.len() - 1]));
        }
        assert(b.contains(x));
        let i = b.index_of(x);
        let rest = b.remove(i);
        let t = a.drop_last();
        assert(a == t.push(x));
        assert(t.to_multiset() =~= a.to_multiset().remove(x));
        assert(rest.to_multiset() =~= b.to_multiset().remove(x));
        lemma_map_multiset(t, rest);
        assert(guids_of(a) == guids_of(t).push(x.guid@));
        assert(guids_of(rest) == guids_of(b).remove(i));
        assert(guids_of(b)[i] == x.guid@);
        assert(guids_of(b).remove(i).to_multiset() =~= guids_of(b).to_multiset().remove(x.guid@));
        assert(guids_of(b).to_multiset().contains(x.guid@)) by {
            assert(guids_of(b).contains(guids_of(b)[i]));
        }
        assert(guids_of(a).to_multiset() =~= guids_of(t).to_multiset().insert(x.guid@));
        assert(guids_of(b).to_multiset() =~= guids_of(rest).to_multiset().insert(x.guid@));
    } else {
        assert(guids_of(a) == guids_of(b));
    }
}

/// Whether two items have the same link.
pub open spec fn share_a_link(a: DbItem, b: DbItem) -> bool {
    match (a.link, b.link) {
        (Some(x), Some(y)) => x@ == y@,
        _ => false,
    }
}

/// Whether the places of two items have the same name in normal spelling.
pub open spec fn share_a_name(a: DbItem, b: DbItem) -> bool {
    match (a.location_label, b.location_label) {
        (Some(x), Some(y)) => trimmed(normalized(x@)).len() > 0 && trimmed(normalized(x@))
            == trimmed(normalized(y@)),
        _ => false,
    }
}

/// Whether the distances of two items differ by at most some metres.
pub open spec fn are_within(a: DbItem, b: DbItem, metres: int) -> bool {
    match (a.distance_meters, b.distance_meters) {
        (Some(x), Some(y)) => x.is_finite() && y.is_finite() && -(metres * one()) <= x.value()
            - y.value() <= metres * one(),
        _ => false,
    }
}

/// Whether two different significant words stand in both headlines.
pub open spec fn share_two_words(a: DbItem, b: DbItem) -> bool {
    exists|v: Seq<char>, w: Seq<char>|
        v != w && #[trigger] title_words(a.title@).contains(v) && title_words(b.title@).contains(v)
            && #[trigger] title_words(a.title@).contains(w) && title_words(b.title@).contains(w)
}

proof fn lemma_shared_words(a: DbItem, b: DbItem)
    ensures
        share_two_words(a, b) <==> overlap(a.title@, b.title@) >= 2,
{
    broadcast use vstd::seq_lib::seq_to_set_is_finite;

    let x = title_words(a.title@).to_set();
    let y = title_words(b.title@).to_set();
    let both = x.intersect(y);
    assert(both.finite());
    if share_two_words(a, b) {
        let (v, w) = choose|v: Seq<char>, w: Seq<char>|
            v != w && #[trigger] title_words(a.title@).contains(v) && title_words(
                b.title@,
            ).contains(v) && #[trigger] title_words(a.title@).contains(w) && title_words(
                b.title@,
            ).contains(w);
        assert(both.contains(v) && both.contains(w));
        let two = Set::<Seq<char>>::empty().insert(v).insert(w);
        assert(two.subset_of(both));
        vstd::set_lib::lemma_len_subset(two, both);
    } else if both.len() >= 2 {
        let v = both.choose();
        let rest = both.remove(v);
        assert(rest.len() > 0);
        let w = rest.choose();
        assert(rest.contains(w));
        assert(title_words(a.title@).contains(v) && title_words(b.title@).contains(v));
        assert(title_words(a.title@).contains(w) && title_words(b.title@).contains(w));
    }
}

/// Two items are about the same incident where they have the same link, or where their
/// headlines share two significant words and their places have the same name or are at
/// most 300 metres closer or farther. Without a link, a name or such a distance in common
/// they are not, whatever their headlines say; nor without two words in common.
pub proof fn law_incidents_share_a_link_or_a_place(a: DbItem, b: DbItem)
    ensures
        share_a_link(a, b) ==> same_incident(a, b),
        share_two_words(a, b) && (share_a_name(a, b) || are_within(a, b, 300)) ==> same_incident(
            a,
            b,
        ),
        same_incident(a, b) ==> share_a_link(a, b) || share_a_name(a, b) || are_within(a, b, 301),
        same_incident(a, b) ==> share_a_link(a, b) || share_two_words(a, b),
        same_incident(a, b) == same_incident(b, a),
{
    lemma_shared_words(a, b);
    law_shared_words(a.title@, b.title@);
    lemma_pow2_strictly_increases(1029, 1074);
    if let (Some(x), Some(y)) = (a.link, b.link) {
        assert(a.link.deep_view() == Some(x@));
        assert(b.link.deep_view() == Some(y@));
    }
}

/// An item belongs to a cluster exactly if it is about the same incident as one of its
/// items, wherever that stands; so the order of the items does not matter, and more items
/// never turn one away.
pub proof fn law_one_report_is_enough(item: DbItem, cluster: Seq<DbItem>, k: int, more: Seq<DbItem>)
    requires
        0 <= k < cluster.len(),
    ensures
        same_incident(item, cluster[k]) ==> belongs(item, cluster),
        belongs(item, cluster) ==> belongs(item, cluster + more) && belongs(item, more + cluster),
        !belongs(item, Seq::empty()),
        belongs(item, seq![cluster[k]]) == same_incident(item, cluster[k]),
{
    if belongs(item, cluster) {
        let i = choose|i: int|
            0 <= i < cluster.len() && same_incident(item, #[trigger] cluster[i]);
        assert((cluster + more)[i] == cluster[i]);
        assert((more + cluster)[more.len() + i] == cluster[i]);
    }
    assert(seq![cluster[k]][0] == cluster[k]);
}

/// Whether an item of a cluster is about the same incident as one before it.
pub open spec fn is_joined(cluster: Seq<DbItem>, j: int) -> bool {
    exists|i: int| 0 <= i < j && same_incident(cluster[j], #[trigger] cluster[i])
}

proof fn lemma_clusters_hold_together(items: Seq<DbItem>)
    requires
        falling::<DbItem>(items),
    ensures
        forall|k: int, j: int|
            0 <= k < clustered(items).len() && 0 < j < clustered(items)[k].len()
                ==> #[trigger] is_joined(clustered(items)[k], j),
        forall|k: int, l: int|
            0 <= k < l < clustered(items).len() ==> !same_incident(
                (#[trigger] clustered(items)[l])[0],
                (#[trigger] clustered(items)[k])[0],
            ),
        forall|k: int| 0 <= k < clustered(items).len() ==> (#[trigger] clustered(items)[k]).len() > 0,
        forall|k: int, j: int|
            0 <= k < clustered(items).len() && 0 <= j < clustered(items)[k].len() && items.len() > 0
                ==> #[trigger] clustered(items)[k][j].score >= items.last().score,
        forall|k: int, i: int, j: int|
            0 <= k < clustered(items).len() && 0 <= i < j < clustered(items)[k].len()
                ==> #[trigger] clustered(items)[k][i].score >= #[trigger] clustered(
                items,
            )[k][j].score,
    decreases items.len(),
{
    if items.len() > 0 {
        let t = items.drop_last();
        let item = items.last();
        let before = clustered(t);
        let now = clustered(items);
        assert forall|i: int, j: int| 0 <= i < j < t.len() implies (#[trigger] t[i]).score >= (
        #[trigger] t[j]).score by {
            assert(DbItem::rank(items[i]) >= DbItem::rank(items[j]));
        }
        lemma_clusters_hold_together(t);
        lemma_home(before, item, 0);
        if t.len() > 0 {
            assert(DbItem::rank(items[t.len() - 1]) >= DbItem::rank(items[items.len() - 1]));
        }
        match home(before, item, 0) {
            Some(h) => {
                let grown = before[h].push(item);
                assert(now[h] == grown);
                let w = choose|i: int|
                    0 <= i < before[h].len() && same_incident(item, #[trigger] before[h][i]);
                assert forall|k: int, j: int|
                    0 <= k < now.len() && 0 < j < now[k].len() implies #[trigger] is_joined(
                    now[k],
                    j,
                ) by {
                    if k == h {
                        if j < before[h].len() {
                            assert(is_joined(before[h], j));
                            let i = choose|i: int|
                                0 <= i < j && same_incident(before[h][j], #[trigger] before[h][i]);
                            assert(grown[i] == before[h][i]);
                        } else {
                            assert(grown[w] == before[h][w]);
                        }
                    } else {
                        assert(now[k] == before[k]);
                        assert(is_joined(before[k], j));
                    }
                }
                assert forall|k: int, l: int| 0 <= k < l < now.len() implies !same_incident(
                    (#[trigger] now[l])[0],
                    (#[trigger] now[k])[0],
                ) by {
                    assert(now[l][0] == before[l][0]);
                    assert(now[k][0] == before[k][0]);
                }
            },
            None => {
                assert(now == before.push(seq![item]));
                assert forall|k: int, j: int|
                    0 <= k < now.len() && 0 < j < now[k].len() implies #[trigger] is_joined(
                    now[k],
                    j,
                ) by {
                    assert(now[k] == before[k]);
                    assert(is_joined(before[k], j));
                }
                assert forall|k: int, l: int| 0 <= k < l < now.len() implies !same_incident(
                    (#[trigger] now[l])[0],
                    (#[trigger] now[k])[0],
                ) by {
                    assert(now[k] == before[k]);
                    if l < before.len() {
                        assert(now[l] == before[l]);
                    } else {
                        assert(now[l][0] == item);
                        assert(!belongs(item, before[k]));
                        assert(!same_incident(item, before[k][0]));
                    }
                }
            },
        }
    }
}

/// A cluster is one incident: it starts with an item that scores highest in it, and each
/// other item is about the same incident as one before it. Two clusters are two incidents:
/// what they start with are not about the same.
pub proof fn law_clusters_are_incidents(items: Seq<DbItem>)
    ensures
        forall|k: int, j: int|
            0 <= k < clusters_of(items).len() && 0 < j < clusters_of(items)[k].len()
                ==> #[trigger] is_joined(clusters_of(items)[k], j),
        forall|k: int, l: int|
            0 <= k < l < clusters_of(items).len() ==> !same_incident(
                (#[trigger] clusters_of(items)[l])[0],
                (#[trigger] clusters_of(items)[k])[0],
            ),
        forall|k: int, i: int, j: int|
            0 <= k < clusters_of(items).len() && 0 <= i < j < clusters_of(items)[k].len()
                ==> #[trigger] clusters_of(items)[k][i].score >= #[trigger] clusters_of(
                items,
            )[k][j].score,
{
    law_sorting_by_score::<DbItem>(items);
    lemma_clusters_hold_together(by_score::<DbItem>(items));
}

/// Two reports without a link, a name of a place or a distance in common are two entries of
/// a digest, whatever their headlines say.
pub proof fn law_two_places_are_two_entries(a: DbItem, b: DbItem)
    requires
        !share_a_link(a, b),
        !share_a_name(a, b),
        !are_within(a, b, 301),
    ensures
        clusters_of(seq![a, b]).len() == 2,
        digest_of(seq![a, b]).len() == 2,
{
    let items = seq![a, b];
    let cs = clusters_of(items);
    law_every_item_is_in_a_cluster(items);
    law_clusters_are_incidents(items);
    law_incidents_share_a_link_or_a_place(a, b);
    law_incidents_share_a_link_or_a_place(b, a);
    law_sorting_by_score::<DbItem>(items);
    let s = by_score::<DbItem>(items);
    assert(items.drop_last() == seq![a]);
    assert(seq![a].drop_last() == Seq::<DbItem>::empty());
    reveal_with_fuel(by_score, 3);
    reveal_with_fuel(with_inserted, 3);
    assert(s == seq![a, b] || s == seq![b, a]);
    let x = s[0];
    let y = s[1];
    reveal_with_fuel(clustered, 3);
    assert(s.drop_last() == seq![x]);
    assert(seq![x].drop_last() == Seq::<DbItem>::empty());
    assert(clustered(seq![x]) == seq![seq![x]]);
    let one_cluster = seq![seq![x]];
    lemma_home(one_cluster, y, 0);
    if belongs(y, one_cluster[0]) {
        assert(same_incident(y, seq![x][0]));
    }
}

/// The leader of a cluster is one of its items, and none scores more.
pub proof fn lemma_leader(cluster: Seq<DbItem>)
    requires
        cluster.len() > 0,
    ensures
        exists|i: int| leads(cluster, i) && #[trigger] cluster[i] == leader(cluster),
    decreases cluster.len(),
{
    if cluster.len() == 1 {
        assert(leads(cluster, 0) && cluster[0] == leader(cluster));
    } else {
        let t = cluster.drop_last();
        lemma_leader(t);
        let i = choose|i: int| leads(t, i) && #[trigger] t[i] == leader(t);
        let n = cluster.len() - 1;
        if cluster.last().score > leader(t).score {
            assert forall|j: int| 0 <= j < cluster.len() && j != n implies (
            #[trigger] cluster[j]).score < cluster[n].score by {
                assert(t[j].score <= t[i].score);
            }
            assert(leads(cluster, n) && cluster[n] == leader(cluster));
        } else {
            assert forall|j: int| 0 <= j < cluster.len() implies (#[trigger] cluster[j]).score
                <= cluster[i].score && (j < i ==> cluster[j].score < cluster[i].score) by {
                if j < n {
                    assert(t[j] == cluster[j]);
                }
            }
            assert(leads(cluster, i) && cluster[i] == leader(cluster));
        }
    }
}

/// Whether the item at a place is the first of those that score highest.
pub open spec fn leads(cluster: Seq<DbItem>, i: int) -> bool {
    0 <= i < cluster.len() && forall|j: int|
        0 <= j < cluster.len() ==> (#[trigger] cluster[j]).score <= cluster[i].score && (j < i
            ==> cluster[j].score < cluster[i].score)
}

/// Whether an entry says what an item says: the headline, the link and what is to be said of
/// it, the distance and the place.
pub open spec fn says_the_same(e: Entry, item: DbItem) -> bool {
    &&& e.title == item.title@
    &&& match (e.link, item.link) {
        (Some(x), Some(y)) => x == y@,
        (None, None) => true,
        _ => false,
    }
    &&& match (e.link_note, item.link_note) {
        (Some(x), Some(y)) => x == y@,
        (None, None) => true,
        _ => false,
    }
    &&& e.max_score == item.max_score
    &&& e.distance_meters == item.distance_meters
    &&& match (e.location_label, item.location_label) {
        (Some(x), Some(y)) => x == y@,
        (None, None) => true,
        _ => false,
    }
}

/// The entry for a cluster says what the first of its items with the highest score says, and
/// names all of its items in their order. It scores what that item scores, or one more, up
/// to 5, where two items come from sources with different names.
pub proof fn law_entries_say_what_the_best_item_says(cluster: Seq<DbItem>)
    requires
        cluster.len() > 0,
    ensures
        exists|i: int|
            #[trigger] leads(cluster, i) && says_the_same(merged(cluster), cluster[i]) && (
            (forall|j: int, k: int|
                0 <= j < cluster.len() && 0 <= k < cluster.len() ==> lowercase(
                    (#[trigger] cluster[j]).source_name@,
                ) == lowercase((#[trigger] cluster[k]).source_name@))
                ==> merged(cluster).score == cluster[i].score && merged(cluster).source_count == 1)
                && ((exists|j: int, k: int|
                0 <= j < cluster.len() && 0 <= k < cluster.len() && lowercase(
                    (#[trigger] cluster[j]).source_name@,
                ) != lowercase((#[trigger] cluster[k]).source_name@)) ==> merged(cluster).score
                == (if cluster[i].score < 4 {
                cluster[i].score + 1
            } else {
                5
            }) && merged(cluster).source_count >= 2),
        merged(cluster).guids.len() == cluster.len(),
        forall|j: int|
            0 <= j < cluster.len() ==> merged(cluster).guids[j] == (#[trigger] cluster[j]).guid@,
{
    lemma_leader(cluster);
    let i = choose|i: int| leads(cluster, i) && #[trigger] cluster[i] == leader(cluster);
    let names = source_names(cluster);
    let u = unique_names(names);
    law_names_are_listed_once(names);
    assert(says_the_same(merged(cluster), cluster[i]));
    if exists|j: int, k: int|
        0 <= j < cluster.len() && 0 <= k < cluster.len() && lowercase(
            (#[trigger] cluster[j]).source_name@,
        ) != lowercase((#[trigger] cluster[k]).source_name@) {
        let (j, k) = choose|j: int, k: int|
            0 <= j < cluster.len() && 0 <= k < cluster.len() && lowercase(
                (#[trigger] cluster[j]).source_name@,
            ) != lowercase((#[trigger] cluster[k]).source_name@);
        assert(names[j] == cluster[j].source_name@ && names[k] == cluster[k].source_name@);
        assert(stands_in(u, names[j]) && stands_in(u, names[k]));
        let p = choose|p: int| 0 <= p < u.len() && lowercase(#[trigger] u[p]) == lowercase(names[j]);
        let q = choose|q: int| 0 <= q < u.len() && lowercase(#[trigger] u[q]) == lowercase(names[k]);
        assert(p != q);
    }
    if forall|j: int, k: int|
        0 <= j < cluster.len() && 0 <= k < cluster.len() ==> lowercase(
            (#[trigger] cluster[j]).source_name@,
        ) == lowercase((#[trigger] cluster[k]).source_name@) {
        assert(names.len() > 0);
        assert(stands_in(u, names[0]));
        if u.len() >= 2 {
            assert(lowercase(u[0]) != lowercase(u[1]));
            assert(names.contains(u[0]) && names.contains(u[1]));
            let p = choose|p: int| 0 <= p < names.len() && names[p] == u[0];
            let q = choose|q: int| 0 <= q < names.len() && names[q] == u[1];
            assert(names[p] == cluster[p].source_name@ && names[q] == cluster[q].source_name@);
        }
    }
}

/// Whether a name stands in a list in some case.
pub open spec fn stands_in(list: Seq<Seq<char>>, name: Seq<char>) -> bool {
    exists|p: int| 0 <= p < list.len() && lowercase(#[trigger] list[p]) == lowercase(name)
}

/// In a list of names each is there once, whatever its case, spelt as it was first: none is
/// lost, none is new, and no two are the same.
pub proof fn law_names_are_listed_once(names: Seq<Seq<char>>)
    ensures
        forall|i: int| 0 <= i < names.len() ==> stands_in(unique_names(names), #[trigger] names[i]),
        forall|p: int|
            0 <= p < unique_names(names).len() ==> names.contains(#[trigger] unique_names(names)[p]),
        forall|p: int, q: int|
            0 <= p < q < unique_names(names).len() ==> lowercase(#[trigger] unique_names(names)[p])
                != lowercase(#[trigger] unique_names(names)[q]),
    decreases names.len(),
{
    if names.len() > 0 {
        let t = names.drop_last();
        let last = names.last();
        let before = unique_names(t);
        let now = unique_names(names);
        law_names_are_listed_once(t);
        assert forall|i: int| 0 <= i < names.len() implies stands_in(now, #[trigger] names[i]) by {
            if i < t.len() {
                assert(t[i] == names[i]);
                let p = choose|p: int|
                    0 <= p < before.len() && lowercase(#[trigger] before[p]) == lowercase(t[i]);
                assert(now[p] == before[p]);
            } else if is_listed(before, last) {
                let p = choose|p: int|
                    0 <= p < lowered(before).len() && lowered(before)[p] == lowercase(last);
                assert(lowercase(now[p]) == lowercase(last));
            } else {
                assert(now[before.len() as int] == last);
            }
        }
        assert forall|p: int| 0 <= p < now.len() implies names.contains(#[trigger] now[p]) by {
            if p < before.len() {
                assert(now[p] == before[p]);
                assert(t.contains(before[p]));
                let i = choose|i: int| 0 <= i < t.len() && t[i] == before[p];
                assert(names[i] == now[p]);
            } else {
                assert(names[names.len() - 1] == now[p]);
            }
        }
        assert forall|p: int, q: int| 0 <= p < q < now.len() implies lowercase(#[trigger] now[p])
            != lowercase(#[trigger] now[q]) by {
            assert(now[p] == before[p]);
            if q < before.len() {
                assert(now[q] == before[q]);
            } else {
                assert(!is_listed(before, last));
                if lowercase(now[p]) == lowercase(last) {
                    assert(lowered(before)[p] == lowercase(last));
                }
            }
        }
    }
}

/// The names of the sources of items, in lowercase.
pub open spec fn different_sources(cluster: Seq<DbItem>) -> Set<Seq<char>> {
    cluster.map_values(|x: DbItem| lowercase(x.source_name@)).to_set()
}

/// As many sources are counted as there are different names, whatever their case.
pub proof fn law_sources_are_counted_once(cluster: Seq<DbItem>)
    ensures
        unique_names(source_names(cluster)).len() == different_sources(cluster).len(),
        merged(cluster).source_count == different_sources(cluster).len(),
{
    let names = source_names(cluster);
    let u = unique_names(names);
    let low = lowered(u);
    law_names_are_listed_once(names);
    assert(low.no_duplicates()) by {
        assert forall|p: int, q: int| 0 <= p < low.len() && 0 <= q < low.len() && p != q implies
            low[p] != low[q] by {
            if p < q {
                assert(lowercase(u[p]) != lowercase(u[q]));
            } else {
                assert(lowercase(u[q]) != lowercase(u[p]));
            }
        }
    }
    low.unique_seq_to_set();
    let all = cluster.map_values(|x: DbItem| lowercase(x.source_name@));
    assert forall|w: Seq<char>| low.contains(w) == all.contains(w) by {
        if low.contains(w) {
            let p = choose|p: int| 0 <= p < low.len() && low[p] == w;
            assert(names.contains(u[p]));
            let i = choose|i: int| 0 <= i < names.len() && names[i] == u[p];
            assert(all[i] == w);
        }
        if all.contains(w) {
            let i = choose|i: int| 0 <= i < all.len() && all[i] == w;
            assert(stands_in(u, names[i]));
            let p = choose|p: int|
                0 <= p < u.len() && lowercase(#[trigger] u[p]) == lowercase(names[i]);
            assert(low[p] == w);
        }
    }
    assert(low.to_set() =~= all.to_set());
}

/// The sources of an entry are those of its items: the name of each stands in it, and the
/// name of a single source is all there is.
pub proof fn law_entries_name_their_sources(cluster: Seq<DbItem>, k: int)
    requires
        0 <= k < cluster.len(),
    ensures
        exists|name: Seq<char>|
            lowercase(name) == lowercase(cluster[k].source_name@) && #[trigger] occurs(
                merged(cluster).source_name,
                name,
            ),
        cluster.len() == 1 ==> merged(cluster).source_name == cluster[0].source_name@,
{
    let names = source_names(cluster);
    let u = unique_names(names);
    law_names_are_listed_once(names);
    assert(names[k] == cluster[k].source_name@);
    assert(stands_in(u, names[k]));
    let p = choose|p: int| 0 <= p < u.len() && lowercase(#[trigger] u[p]) == lowercase(names[k]);
    law_joined_parts_are_kept(u, " + "@, p);
    assert(occurs(merged(cluster).source_name, u[p]));
    if cluster.len() == 1 {
        assert(names.contains(u[0]));
        assert(u[0] == names[0]);
        if u.len() >= 2 {
            assert(names.contains(u[1]));
            assert(u[1] == names[0]);
            assert(lowercase(u[0]) != lowercase(u[1]));
        }
    }
}

proof fn lemma_in_all_items(clusters: Seq<Seq<DbItem>>, k: int, i: int)
    requires
        0 <= k < clusters.len(),
        0 <= i < clusters[k].len(),
    ensures
        all_items(clusters).contains(clusters[k][i]),
    decreases clusters.len(),
{
    let t = clusters.drop_last();
    let all = all_items(clusters);
    if k == clusters.len() - 1 {
        assert(all[all_items(t).len() + i] == clusters[k][i]);
    } else {
        lemma_in_all_items(t, k, i);
        let j = choose|j: int| 0 <= j < all_items(t).len() && all_items(t)[j] == clusters[k][i];
        assert(all[j] == clusters[k][i]);
    }
}

/// Each entry of a digest says what one of the given items says, one that it names, and
/// scores what that item scores or one more.
pub proof fn law_digests_say_what_items_say(items: Seq<DbItem>, k: int)
    requires
        0 <= k < digest_of(items).len(),
    ensures
        exists|item: DbItem|
            #[trigger] items.contains(item) && says_the_same(digest_of(items)[k], item)
                && digest_of(items)[k].guids.contains(item.guid@) && (item.score <= 5 ==> item.score
                <= digest_of(items)[k].score <= item.score + 1),
{
    let cs = clusters_of(items);
    let c = cs[k];
    law_every_item_is_in_a_cluster(items);
    law_entries_say_what_the_best_item_says(c);
    lemma_leader(c);
    let i = choose|i: int| leads(c, i) && #[trigger] c[i] == leader(c);
    assert(digest_of(items)[k] == merged(c));
    assert(says_the_same(merged(c), c[i]));
    lemma_in_all_items(cs, k, i);
    assert(merged(c).guids[i] == c[i].guid@);
    broadcast use vstd::seq_lib::group_to_multiset_ensures;

    assert(all_items(cs).to_multiset().contains(c[i]));
    assert(items.to_multiset().contains(c[i]));
    assert(items.contains(c[i]));
}

/// A new item joins the first cluster that it belongs to, and no other cluster changes; where
/// it belongs to none, it is a cluster of its own, behind the others.
pub proof fn law_items_join_the_first_cluster(clusters: Seq<Seq<DbItem>>, item: DbItem, k: int)
    ensures
        0 <= k < clusters.len() && belongs(item, clusters[k]) && (forall|j: int|
            0 <= j < k ==> !belongs(item, #[trigger] clusters[j])) ==> with_item(clusters, item).len()
            == clusters.len() && with_item(clusters, item)[k] == clusters[k].push(item) && (forall|
            j: int,
        |
            0 <= j < clusters.len() && j != k ==> #[trigger] with_item(clusters, item)[j]
                == clusters[j]),
        (forall|j: int| 0 <= j < clusters.len() ==> !belongs(item, #[trigger] clusters[j])) ==>
            with_item(clusters, item) == clusters.push(seq![item]),
{
    lemma_home(clusters, item, 0);
    if let Some(h) = home(clusters, item, 0) {
        if 0 <= k < clusters.len() && belongs(item, clusters[k]) && (forall|j: int|
            0 <= j < k ==> !belongs(item, #[trigger] clusters[j])) {
            lemma_home_is_first(clusters, item, 0, k);
        }
    }
}

proof fn lemma_home_is_first(clusters: Seq<Seq<DbItem>>, item: DbItem, from: int, k: int)
    requires
        0 <= from <= k < clusters.len(),
        belongs(item, clusters[k]),
        forall|j: int| from <= j < k ==> !belongs(item, #[trigger] clusters[j]),
    ensures
        home(clusters, item, from) == Some(k),
    decreases k - from,
{
    if from < k {
        assert(!belongs(item, clusters[from]));
        lemma_home_is_first(clusters, item, from + 1, k);
    }
}

} // verus!
