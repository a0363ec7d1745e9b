//! Digests: what is posted of the items that came together.

use vstd::prelude::*;
use vstd::utf8::encode_utf8;

use crate::bytes::byte_len;
use crate::cluster::{
    all_guids, by_score, cluster_digest_items, digest_of, law_digest_names_every_item,
    law_sorting_by_score, models, sort_by_score, Scored,
};
use crate::distance::{color_of, distance_text, format_distance, score_color};
use crate::html::{escape, html_escape, law_escaped_is_inert};
use crate::item::{entries, DbItem, DigestItem, Entry};
use crate::num::{decimal, decimal_int, decimal_int_of, decimal_of};
use crate::text::{
    append, append_str, chars_of, copy_range, ends_with, has_suffix, join, join_of,
    law_joined_parts_are_kept, lemma_added, lemma_between, lemma_kept, lemma_occurs_within, occurs,
    occurs_at, starts_with, string_of, trim_end, trim_end_of, trim_str, trimmed, CharClass,
};

verus! {

impl Scored for DigestItem {
    type Model = Entry;

    open spec fn model(self) -> Entry {
        self@
    }

    open spec fn rank(m: Entry) -> int {
        m.score
    }

    fn score(&self) -> (r: i32) {
        self.score
    }
}

// ---------------------------------------------------------------------------
// Chunks
// ---------------------------------------------------------------------------

/// How many bytes of entries go into one message.
pub const MAX_DIGEST_BYTES: u64 = 8_000;

/// How many entries go into one message.
pub const MAX_DIGEST_ITEMS: usize = 15;

/// The length of a text that may be missing, in bytes.
pub open spec fn link_size(link: Option<Seq<char>>) -> int {
    match link {
        Some(l) => encode_utf8(l).len() as int,
        None => 0,
    }
}

/// About how many bytes an entry takes.
pub open spec fn entry_size(e: Entry) -> int {
    encode_utf8(e.title).len() + encode_utf8(e.source_name).len() + link_size(e.link)
        + e.source_count * 8 + 50
}

/// About how many bytes entries take.
pub open spec fn total_size(es: Seq<Entry>) -> int
    decreases es.len(),
{
    if es.len() == 0 {
        0
    } else {
        total_size(es.drop_last()) + entry_size(es.last())
    }
}

/// Whether one more entry fits into a message.
pub open spec fn fits(current: Seq<Entry>, e: Entry) -> bool {
    total_size(current) + entry_size(e) <= MAX_DIGEST_BYTES && current.len() < MAX_DIGEST_ITEMS
}

/// The full messages that entries make, and the one that is begun. An entry that
/// does not fit begins a new message.
pub open spec fn packed(es: Seq<Entry>) -> (Seq<Seq<Entry>>, Seq<Entry>)
    decreases es.len(),
{
    if es.len() == 0 {
        (seq![], seq![])
    } else {
        let (done, current) = packed(es.drop_last());
        if current.len() > 0 && !fits(current, es.last()) {
            (done.push(current), seq![es.last()])
        } else {
            (done, current.push(es.last()))
        }
    }
}

/// Entries in messages.
pub open spec fn chunks(es: Seq<Entry>) -> Seq<Seq<Entry>> {
    let (done, current) = packed(es);
    if current.len() > 0 {
        done.push(current)
    } else {
        done
    }
}

/// Entries in messages, the highest scores first.
pub open spec fn chunked(es: Seq<Entry>) -> Seq<Seq<Entry>> {
    chunks(by_score::<DigestItem>(es))
}

/// What the entries in messages say.
pub open spec fn chunk_entries(v: Seq<Vec<DigestItem>>) -> Seq<Seq<Entry>> {
    v.map_values(|c: Vec<DigestItem>| entries(c@))
}

fn size_of_entry(item: &DigestItem) -> (r: u128)
    ensures
        r == entry_size(item@),
        r < 0x100_0000_0000_0000_0000,
{
    let title: usize = byte_len(item.title.as_str());
    let source: usize = byte_len(item.source_name.as_str());
    let link: usize = match &item.link {
        Some(l) => byte_len(l.as_str()),
        None => 0,
    };
    title as u128 + source as u128 + link as u128 + item.source_count as u128 * 8 + 50
}

fn copy_entries(items: &[DigestItem]) -> (r: Vec<DigestItem>)
    ensures
        entries(r@) == entries(items@),
{
    let n: usize = items.len();
    let mut out: Vec<DigestItem> = Vec::new();
    let mut i: usize = 0;
    while i < n
        invariant
            0 <= i <= n,
            n == items@.len(),
            entries(out@) == entries(items@).take(i as int),
        decreases n - i,
    {
        let ghost before = out@;
        let copy = items[i].clone();
        out.push(copy);
        assert(entries(out@) == entries(before).push(copy@));
        assert(entries(items@).take(i + 1) == entries(items@).take(i as int).push(copy@));
        i += 1;
    }
    assert(entries(items@).take(n as int) == entries(items@));
    out
}

/// Splits entries into messages, the highest scores first, so that none has too
/// many bytes or entries.
pub fn chunk_digest(items: &[DigestItem]) -> (r: Vec<Vec<DigestItem>>)
    ensures
        chunk_entries(r@) == chunked(entries(items@)),
{
    let copies = copy_entries(items);
    let mut sorted = sort_by_score(copies);
    let ghost all = sorted@;
    proof {
        assert(models(copies@) =~= entries(copies@));
        assert(models(all) =~= entries(all));
    }
    let mut out: Vec<Vec<DigestItem>> = Vec::new();
    let mut current: Vec<DigestItem> = Vec::new();
    let mut current_bytes: u128 = 0;
    let ghost mut n: int = 0;
    proof {
        assert(entries(all.take(0)) == Seq::<Entry>::empty());
        assert(entries(current@) == Seq::<Entry>::empty());
        assert(chunk_entries(out@) == Seq::<Seq<Entry>>::empty());
    }
    while sorted.len() > 0
        invariant
            0 <= n <= all.len(),
            sorted@ == all.skip(n),
            packed(entries(all.take(n))) == (chunk_entries(out@), entries(current@)),
            current_bytes == total_size(entries(current@)),
            current@.len() <= MAX_DIGEST_ITEMS,
            current_bytes <= current@.len() * 0x100_0000_0000_0000_0000,
        decreases sorted@.len(),
    {
        let ghost out0 = out@;
        let ghost cur0 = current@;
        let item = sorted.remove(0);
        let size: u128 = size_of_entry(&item);
        proof {
            assert(item == all[n]);
            let t = entries(all.take(n + 1));
            assert(t.drop_last() == entries(all.take(n)));
            assert(t.last() == item@);
            assert(entries(cur0).len() == cur0.len());
        }
        if current.len() > 0 && (current_bytes + size > MAX_DIGEST_BYTES as u128 || current.len()
            >= MAX_DIGEST_ITEMS) {
            out.push(current);
            assert(chunk_entries(out@) == chunk_entries(out0).push(entries(cur0)));
            current = Vec::new();
            current_bytes = 0;
            current.push(item);
            assert(entries(current@) == seq![item@]);
            assert(seq![item@].drop_last() == Seq::<Entry>::empty());
            assert(total_size(seq![item@]) == entry_size(item@)) by {
                assert(total_size(seq![item@].drop_last()) == 0);
            }
        } else {
            current.push(item);
            assert(entries(current@) == entries(cur0).push(item@));
            assert(entries(current@).drop_last() == entries(cur0));
        }
        current_bytes = current_bytes + size;
        proof {
            n = n + 1;
        }
    }
    assert(all.take(n) == all);
    assert(entries(current@).len() == current@.len());
    if current.len() > 0 {
        let ghost out0 = out@;
        let ghost cur0 = current@;
        out.push(current);
        assert(chunk_entries(out@) == chunk_entries(out0).push(entries(cur0)));
    }
    out
}

// ---------------------------------------------------------------------------
// Text
// ---------------------------------------------------------------------------

/// A text without the copies of a suffix at its end.
pub open spec fn without_suffix(s: Seq<char>, suffix: Seq<char>) -> Seq<char>
    decreases s.len(),
{
    if suffix.len() > 0 && ends_with(s, suffix) {
        without_suffix(s.take(s.len() - suffix.len()), suffix)
    } else {
        s
    }
}

/// The text without the copies of a suffix at its end.
pub fn strip_suffix(s: Vec<char>, suffix: &str) -> (r: Vec<char>)
    requires
        suffix@.len() > 0,
    ensures
        r@ == without_suffix(s@, suffix@),
{
    let n: usize = chars_of(suffix).len();
    let mut out = s;
    while has_suffix(out.as_slice(), suffix)
        invariant
            n == suffix@.len(),
            n > 0,
            without_suffix(s@, suffix@) == without_suffix(out@, suffix@),
        decreases out@.len(),
    {
        let m: usize = out.len() - n;
        assert(out@.take(m as int) == out@.subrange(0, m as int));
        out = copy_range(out.as_slice(), 0, m);
    }
    out
}

/// How far away an entry is, and where.
pub open spec fn where_part(d: crate::ieee::Real, label: Option<Seq<char>>) -> Seq<char> {
    match label {
        Some(l) => if trimmed(l).len() > 0 {
            distance_text(d) + " · "@ + trimmed(l)
        } else {
            distance_text(d)
        },
        None => distance_text(d),
    }
}

/// What is said of an entry in brackets: its score, its sources, and where it
/// is, as far as they are known.
pub open spec fn info_parts(e: Entry) -> Seq<Seq<char>> {
    let score = if e.max_score > 0 {
        seq![decimal_int(e.score) + "/"@ + decimal_int(e.max_score)]
    } else {
        seq![]
    };
    let sources = if e.source_count > 1 {
        seq![decimal(e.source_count as nat) + " sources"@]
    } else {
        seq![]
    };
    let place = match e.distance_meters {
        Some(d) => seq![where_part(d, e.location_label)],
        None => seq![],
    };
    score + sources + place
}

/// What is said of an entry in brackets.
pub open spec fn info(e: Entry) -> Seq<char> {
    join(info_parts(e), " "@)
}

/// The line for an entry in plain text.
pub open spec fn plain_line(e: Entry) -> Seq<char> {
    color_of(e.score) + " ["@ + e.source_name + "] "@ + e.title + (if info_parts(e).len() == 0 {
        seq![]
    } else {
        " ["@ + info(e) + "]"@
    }) + (match e.link {
        Some(l) => " — "@ + l,
        None => seq![],
    }) + (match e.link_note {
        Some(n) => " ("@ + n + ")"@,
        None => seq![],
    })
}

/// The line for an entry in HTML.
pub open spec fn html_line(e: Entry) -> Seq<char> {
    color_of(e.score) + " <em>["@ + escape(e.source_name) + "]</em> "@ + escape(e.title) + (
    if info_parts(e).len() == 0 {
        seq![]
    } else {
        " <em>["@ + escape(info(e)) + "]</em>"@
    }) + (match e.link {
        Some(l) => " — <a href=\""@ + escape(l) + "\">link</a>"@,
        None => seq![],
    }) + (match e.link_note {
        Some(n) => " <em>("@ + escape(n) + ")</em>"@,
        None => seq![],
    }) + "<br>"@
}

/// A digest in plain text.
pub open spec fn plain_digest(es: Seq<Entry>, header: Seq<char>) -> Seq<char> {
    trim_end(
        join(
            seq!["📡 "@ + header + "\n"@] + es.map_values(|e: Entry| plain_line(e)),
            "\n"@,
        ),
        CharClass::Space,
    )
}

/// A digest in HTML.
pub open spec fn html_digest(es: Seq<Entry>, header: Seq<char>) -> Seq<char> {
    without_suffix(
        join(
            seq!["📡 <strong>"@ + escape(header) + "</strong><br>"@] + es.map_values(
                |e: Entry| html_line(e),
            ),
            ""@,
        ),
        "<br>"@,
    )
}

fn where_part_of(d: crate::ieee::Real, label: &Option<String>) -> (r: Vec<char>)
    ensures
        r@ == where_part(d, label.deep_view()),
{
    let text = format_distance(d);
    let mut out = chars_of(text.as_str());
    if let Some(l) = label {
        let t = trim_str(l.as_str());
        if !t.as_str().is_empty() {
            append_str(&mut out, " · ");
            append_str(&mut out, t.as_str());
        }
    }
    out
}

fn info_parts_of(item: &DigestItem) -> (r: Vec<Vec<char>>)
    ensures
        r.deep_view() == info_parts(item@),
{
    let mut out: Vec<Vec<char>> = Vec::new();
    assert(out.deep_view() == Seq::<Seq<char>>::empty());
    if item.max_score > 0 {
        let ghost before = out.deep_view();
        let mut part = decimal_int_of(item.score as i64);
        append_str(&mut part, "/");
        let max = decimal_int_of(item.max_score as i64);
        append(&mut part, max.as_slice());
        out.push(part);
        assert(out.deep_view() == before.push(part@)) by {
            assert(part.deep_view() == part@);
        }
    }
    if item.source_count > 1 {
        let ghost before = out.deep_view();
        let mut part = decimal_of(item.source_count as u64);
        append_str(&mut part, " sources");
        out.push(part);
        assert(out.deep_view() == before.push(part@)) by {
            assert(part.deep_view() == part@);
        }
    }
    if let Some(d) = item.distance_meters {
        let ghost before = out.deep_view();
        let part = where_part_of(d, &item.location_label);
        out.push(part);
        assert(out.deep_view() == before.push(part@)) by {
            assert(part.deep_view() == part@);
        }
    }
    assert(out.deep_view() =~= info_parts(item@));
    out
}

fn plain_line_of(item: &DigestItem) -> (r: Vec<char>)
    ensures
        r@ == plain_line(item@),
{
    let parts = info_parts_of(item);
    assert(parts.deep_view().len() == parts@.len());
    let mut out: Vec<char> = Vec::new();
    append_str(&mut out, score_color(item.score));
    append_str(&mut out, " [");
    append_str(&mut out, item.source_name.as_str());
    append_str(&mut out, "] ");
    append_str(&mut out, item.title.as_str());
    if parts.len() > 0 {
        let joined = join_of(&parts, " ");
        append_str(&mut out, " [");
        append(&mut out, joined.as_slice());
        append_str(&mut out, "]");
    }
    if let Some(l) = &item.link {
        append_str(&mut out, " — ");
        append_str(&mut out, l.as_str());
    }
    if let Some(n) = &item.link_note {
        append_str(&mut out, " (");
        append_str(&mut out, n.as_str());
        append_str(&mut out, ")");
    }
    assert(out@ =~= plain_line(item@));
    out
}

fn html_line_of(item: &DigestItem) -> (r: Vec<char>)
    ensures
        r@ == html_line(item@),
{
    let parts = info_parts_of(item);
    assert(parts.deep_view().len() == parts@.len());
    let mut out: Vec<char> = Vec::new();
    append_str(&mut out, score_color(item.score));
    append_str(&mut out, " <em>[");
    append_str(&mut out, html_escape(item.source_name.as_str()).as_str());
    append_str(&mut out, "]</em> ");
    append_str(&mut out, html_escape(item.title.as_str()).as_str());
    if parts.len() > 0 {
        let joined = join_of(&parts, " ");
        let text = string_of(joined.as_slice());
        append_str(&mut out, " <em>[");
        append_str(&mut out, html_escape(text.as_str()).as_str());
        append_str(&mut out, "]</em>");
    }
    if let Some(l) = &item.link {
        append_str(&mut out, " — <a href=\"");
        append_str(&mut out, html_escape(l.as_str()).as_str());
        append_str(&mut out, "\">link</a>");
    }
    if let Some(n) = &item.link_note {
        append_str(&mut out, " <em>(");
        append_str(&mut out, html_escape(n.as_str()).as_str());
        append_str(&mut out, ")</em>");
    }
    append_str(&mut out, "<br>");
    assert(out@ =~= html_line(item@));
    out
}

/// A digest in plain text and in HTML.
pub fn format_digest(items: &[DigestItem], header: &str) -> (r: (String, String))
    ensures
        r.0@ == plain_digest(entries(items@), header@),
        r.1@ == html_digest(entries(items@), header@),
{
    let ghost es = entries(items@);
    let mut plain: Vec<Vec<char>> = Vec::new();
    let mut html: Vec<Vec<char>> = Vec::new();
    let mut first: Vec<char> = Vec::new();
    append_str(&mut first, "📡 ");
    append_str(&mut first, header);
    append_str(&mut first, "\n");
    let mut first_html: Vec<char> = Vec::new();
    append_str(&mut first_html, "📡 <strong>");
    append_str(&mut first_html, html_escape(header).as_str());
    append_str(&mut first_html, "</strong><br>");
    let ghost p = seq!["📡 "@ + header@ + "\n"@] + es.map_values(|e: Entry| plain_line(e));
    let ghost h = seq!["📡 <strong>"@ + escape(header@) + "</strong><br>"@] + es.map_values(
        |e: Entry| html_line(e),
    );
    proof {
        assert(first@ =~= "📡 "@ + header@ + "\n"@);
        assert(first_html@ =~= "📡 <strong>"@ + escape(header@) + "</strong><br>"@);
    }
    plain.push(first);
    html.push(first_html);
    assert(plain.deep_view() =~= p.take(1)) by {
        assert(first.deep_view() == first@);
    }
    assert(html.deep_view() =~= h.take(1)) by {
        assert(first_html.deep_view() == first_html@);
    }
    let n: usize = items.len();
    let mut i: usize = 0;
    while i < n
        invariant
            0 <= i <= n,
            n == items@.len(),
            es == entries(items@),
            p == seq!["📡 "@ + header@ + "\n"@] + es.map_values(|e: Entry| plain_line(e)),
            h == seq!["📡 <strong>"@ + escape(header@) + "</strong><br>"@] + es.map_values(
                |e: Entry| html_line(e),
            ),
            plain.deep_view() == p.take(i + 1),
            html.deep_view() == h.take(i + 1),
        decreases n - i,
    {
        let ghost plain0 = plain.deep_view();
        let ghost html0 = html.deep_view();
        let a = plain_line_of(&items[i]);
        let b = html_line_of(&items[i]);
        assert(es[i as int] == items@[i as int]@);
        plain.push(a);
        html.push(b);
        assert(plain.deep_view() == plain0.push(a@)) by {
            assert(a.deep_view() == a@);
        }
        assert(html.deep_view() == html0.push(b@)) by {
            assert(b.deep_view() == b@);
        }
        assert(p[i + 1] == a@);
        assert(h[i + 1] == b@);
        assert(p.take(i + 2) == p.take(i + 1).push(a@));
        assert(h.take(i + 2) == h.take(i + 1).push(b@));
        i += 1;
    }
    assert(p.take(n + 1) == p);
    assert(h.take(n + 1) == h);
    let plain_joined = join_of(&plain, "\n");
    let plain_text = trim_end_of(plain_joined.as_slice(), CharClass::Space);
    let html_joined = join_of(&html, "");
    proof {
        reveal_strlit("<br>");
    }
    let html_text = strip_suffix(html_joined, "<br>");
    (string_of(plain_text.as_slice()), string_of(html_text.as_slice()))
}

// ---------------------------------------------------------------------------
// Messages
// ---------------------------------------------------------------------------

/// One message of a digest.
pub struct DigestMessage {
    /// The message in plain text.
    pub plain: String,
    /// The message in HTML.
    pub html: String,
    /// The items that are in it.
    pub guids: Vec<String>,
}

/// What is above message `i` of `total`: the part is named where there is more
/// than one.
pub open spec fn part_header(header: Seq<char>, i: int, total: int) -> Seq<char> {
    if total > 1 {
        header + " ("@ + decimal((i + 1) as nat) + "/"@ + decimal(total as nat) + ")"@
    } else {
        header
    }
}

/// What is above message `i` of `total`.
pub fn part_header_of(header: &str, i: usize, total: usize) -> (r: String)
    requires
        i < total,
    ensures
        r@ == part_header(header@, i as int, total as int),
{
    let mut out = chars_of(header);
    if total > 1 {
        append_str(&mut out, " (");
        let a = decimal_of((i + 1) as u64);
        append(&mut out, a.as_slice());
        append_str(&mut out, "/");
        let b = decimal_of(total as u64);
        append(&mut out, b.as_slice());
        append_str(&mut out, ")");
        assert(out@ =~= part_header(header@, i as int, total as int));
    }
    string_of(out.as_slice())
}

/// Whether a message is the one for a chunk.
pub open spec fn is_message(m: DigestMessage, chunk: Seq<Entry>, header: Seq<char>) -> bool {
    &&& m.plain@ == plain_digest(chunk, header)
    &&& m.html@ == html_digest(chunk, header)
    &&& m.guids.deep_view() == all_guids(chunk)
}

/// The guids of the entries in a message.
pub fn guids_in(chunk: &[DigestItem]) -> (r: Vec<String>)
    ensures
        r.deep_view() == all_guids(entries(chunk@)),
{
    let ghost es = entries(chunk@);
    let n: usize = chunk.len();
    let mut out: Vec<String> = Vec::new();
    let mut i: usize = 0;
    assert(es.take(0) == Seq::<Entry>::empty());
    assert(out.deep_view() == Seq::<Seq<char>>::empty());
    while i < n
        invariant
            0 <= i <= n,
            n == chunk@.len(),
            es == entries(chunk@),
            out.deep_view() == all_guids(es.take(i as int)),
        decreases n - i,
    {
        let ghost before = out.deep_view();
        let guids = &chunk[i].guids;
        let m: usize = guids.len();
        let mut k: usize = 0;
        assert(before + guids.deep_view().take(0) == before);
        while k < m
            invariant
                0 <= k <= m,
                m == guids@.len(),
                out.deep_view() == before + guids.deep_view().take(k as int),
            decreases m - k,
        {
            let ghost so_far = out.deep_view();
            let guid = guids[k].clone();
            out.push(guid);
            assert(out.deep_view() == so_far.push(guid@)) by {
                assert(guid.deep_view() == guid@);
            }
            assert(guids.deep_view()[k as int] == guid@);
            assert(before + guids.deep_view().take(k + 1) == (before + guids.deep_view().take(
                k as int,
            )).push(guid@));
            k += 1;
        }
        proof {
            assert(guids.deep_view().take(m as int) == guids.deep_view());
            assert(es.take(i + 1).drop_last() == es.take(i as int));
            assert(es.take(i + 1).last() == chunk@[i as int]@);
        }
        i += 1;
    }
    assert(es.take(n as int) == es);
    out
}

/// Whether messages are those of a digest of stored items.
pub open spec fn are_messages(
    ms: Seq<DigestMessage>,
    items: Seq<DbItem>,
    header: Seq<char>,
) -> bool {
    let cs = chunked(digest_of(items));
    &&& ms.len() == cs.len()
    &&& forall|i: int|
        0 <= i < ms.len() ==> is_message(
            #[trigger] ms[i],
            cs[i],
            part_header(header, i, cs.len() as int),
        )
}

/// The messages of a digest of stored items.
pub fn digest_messages(items: Vec<DbItem>, header: &str) -> (r: Vec<DigestMessage>)
    ensures
        are_messages(r@, items@, header@),
{
    let entries_of_items = cluster_digest_items(items);
    let parts = chunk_digest(entries_of_items.as_slice());
    let ghost cs = chunk_entries(parts@);
    let total: usize = parts.len();
    let mut out: Vec<DigestMessage> = Vec::new();
    let mut i: usize = 0;
    while i < total
        invariant
            0 <= i <= total,
            total == parts@.len(),
            cs == chunk_entries(parts@),
            out@.len() == i,
            forall|k: int|
                0 <= k < i ==> is_message(
                    #[trigger] out@[k],
                    cs[k],
                    part_header(header@, k, cs.len() as int),
                ),
        decreases total - i,
    {
        assert(cs[i as int] == entries(parts@[i as int]@));
        let part = part_header_of(header, i, total);
        let (plain, html) = format_digest(parts[i].as_slice(), part.as_str());
        let guids = guids_in(parts[i].as_slice());
        out.push(DigestMessage { plain, html, guids });
        i += 1;
    }
    out
}

// ---------------------------------------------------------------------------
// Laws
// ---------------------------------------------------------------------------

/// All entries of messages, one message after the other.
pub open spec fn all_entries(cs: Seq<Seq<Entry>>) -> Seq<Entry>
    decreases cs.len(),
{
    if cs.len() == 0 {
        seq![]
    } else {
        all_entries(cs.drop_last()) + cs.last()
    }
}

/// Whether a message is within its limits: it has an entry, at most fifteen, and
/// more than one only within the bytes that a message may have.
pub open spec fn within_limits(chunk: Seq<Entry>) -> bool {
    &&& 0 < chunk.len() <= MAX_DIGEST_ITEMS
    &&& chunk.len() > 1 ==> total_size(chunk) <= MAX_DIGEST_BYTES
}

proof fn lemma_packed(es: Seq<Entry>)
    ensures
        all_entries(packed(es).0) + packed(es).1 == es,
        es.len() > 0 ==> within_limits(packed(es).1),
        forall|i: int|
            0 <= i < packed(es).0.len() ==> within_limits(#[trigger] packed(es).0[i]),
    decreases es.len(),
{
    if es.len() > 0 {
        let t = es.drop_last();
        let (done, current) = packed(t);
        lemma_packed(t);
        if t.len() == 0 {
            assert(current.len() == 0);
        }
        if current.len() > 0 && !fits(current, es.last()) {
            assert(done.push(current).drop_last() == done);
            assert(all_entries(done.push(current)) == all_entries(done) + current);
            assert((all_entries(done) + current) + seq![es.last()] == es);
        } else {
            let more = current.push(es.last());
            assert(more.drop_last() == current);
            assert(all_entries(done) + more == (all_entries(done) + current).push(es.last()));
            assert(t.push(es.last()) == es);
        }
    }
}

/// Messages hold the entries in the order of their scores, all of them and each
/// once, and every message is within its limits.
pub proof fn law_messages_hold_every_entry(es: Seq<Entry>)
    ensures
        all_entries(chunked(es)) == by_score::<DigestItem>(es),
        all_entries(chunked(es)).to_multiset() == es.to_multiset(),
        forall|i: int| 0 <= i < chunked(es).len() ==> within_limits(#[trigger] chunked(es)[i]),
{
    let sorted = by_score::<DigestItem>(es);
    lemma_packed(sorted);
    law_sorting_by_score::<DigestItem>(es);
    let (done, current) = packed(sorted);
    if current.len() > 0 {
        assert(done.push(current).drop_last() == done);
    } else {
        assert(sorted.len() == 0);
        assert(all_entries(done) + current == all_entries(done));
    }
}

/// All guids of messages, one message after the other.
pub open spec fn message_guids(cs: Seq<Seq<Entry>>) -> Seq<Seq<char>>
    decreases cs.len(),
{
    if cs.len() == 0 {
        seq![]
    } else {
        message_guids(cs.drop_last()) + all_guids(cs.last())
    }
}

proof fn lemma_guids_concat(a: Seq<Entry>, b: Seq<Entry>)
    ensures
        all_guids(a + b) == all_guids(a) + all_guids(b),
    decreases b.len(),
{
    if b.len() == 0 {
        assert(a + b == a);
        assert(all_guids(a) + all_guids(b) == all_guids(a));
    } else {
        lemma_guids_concat(a, b.drop_last());
        assert((a + b).drop_last() == a + b.drop_last());
        assert((a + b).last() == b.last());
    }
}

proof fn lemma_message_guids(cs: Seq<Seq<Entry>>)
    ensures
        message_guids(cs) == all_guids(all_entries(cs)),
    decreases cs.len(),
{
    if cs.len() > 0 {
        lemma_message_guids(cs.drop_last());
        lemma_guids_concat(all_entries(cs.drop_last()), cs.last());
    }
}

proof fn lemma_guids_insert(s: Seq<Entry>, x: Entry)
    ensures
        all_guids(crate::cluster::with_inserted::<DigestItem>(s, x)).to_multiset() == all_guids(
            s,
        ).to_multiset().add(x.guids.to_multiset()),
    decreases s.len(),
{
    let w = crate::cluster::with_inserted::<DigestItem>(s, x);
    if s.len() == 0 || s.last().score >= x.score {
        assert(w.drop_last() == s);
        vstd::seq_lib::lemma_multiset_commutative(all_guids(s), x.guids);
    } else {
        let t = s.drop_last();
        let v = crate::cluster::with_inserted::<DigestItem>(t, x);
        lemma_guids_insert(t, x);
        assert(w.drop_last() == v);
        vstd::seq_lib::lemma_multiset_commutative(all_guids(v), s.last().guids);
        vstd::seq_lib::lemma_multiset_commutative(all_guids(t), s.last().guids);
        assert(all_guids(w).to_multiset() =~= all_guids(s).to_multiset().add(
            x.guids.to_multiset(),
        ));
    }
}

proof fn lemma_guids_sorted(s: Seq<Entry>)
    ensures
        all_guids(by_score::<DigestItem>(s)).to_multiset() == all_guids(s).to_multiset(),
    decreases s.len(),
{
    if s.len() > 0 {
        lemma_guids_sorted(s.drop_last());
        lemma_guids_insert(by_score::<DigestItem>(s.drop_last()), s.last());
        vstd::seq_lib::lemma_multiset_commutative(all_guids(s.drop_last()), s.last().guids);
    }
}

/// Every item that is taken for a digest is in exactly one of its messages:
/// together they name the items that were given.
pub proof fn law_messages_name_every_item(items: Seq<DbItem>)
    ensures
        message_guids(chunked(digest_of(items))).to_multiset() == crate::cluster::guids_of(
            items,
        ).to_multiset(),
{
    let es = digest_of(items);
    law_digest_names_every_item(items);
    law_messages_hold_every_entry(es);
    lemma_message_guids(chunked(es));
    lemma_guids_sorted(es);
}

/// No message is left before it is full: the first entry of the next one would exceed the
/// bytes or the entries that it may have.
pub proof fn law_messages_are_filled(es: Seq<Entry>, i: int)
    requires
        0 <= i,
        i + 1 < chunked(es).len(),
    ensures
        chunked(es)[i].len() >= 15 || total_size(chunked(es)[i]) + entry_size(chunked(es)[i + 1][0])
            > 8_000,
{
    lemma_filled(by_score::<DigestItem>(es));
    let (done, current) = packed(by_score::<DigestItem>(es));
    lemma_packed(by_score::<DigestItem>(es));
    if i + 1 < done.len() {
        assert(is_full(done[i], done[i + 1][0]));
    } else {
        assert(chunked(es) == done.push(current));
        assert(is_full(done[i], current[0]));
    }
}

spec fn is_full(chunk: Seq<Entry>, next: Entry) -> bool {
    chunk.len() >= 15 || total_size(chunk) + entry_size(next) > 8_000
}

proof fn lemma_filled(es: Seq<Entry>)
    ensures
        forall|i: int|
            0 <= i && i + 1 < packed(es).0.len() ==> is_full(
                #[trigger] packed(es).0[i],
                packed(es).0[i + 1][0],
            ),
        packed(es).0.len() > 0 ==> packed(es).1.len() > 0 && is_full(
            packed(es).0.last(),
            packed(es).1[0],
        ),
    decreases es.len(),
{
    if es.len() > 0 {
        let (done, current) = packed(es.drop_last());
        lemma_filled(es.drop_last());
        if current.len() > 0 && !fits(current, es.last()) {
            let all = done.push(current);
            assert forall|i: int| 0 <= i && i + 1 < all.len() implies is_full(
                #[trigger] all[i],
                all[i + 1][0],
            ) by {
                if i + 1 < done.len() {
                    assert(is_full(done[i], done[i + 1][0]));
                }
            }
        } else if current.len() > 0 {
            assert(current.push(es.last())[0] == current[0]);
        }
    }
}

/// A message is never empty, has at most fifteen entries, and more than one only within 8000
/// bytes, which count at least the headlines, the sources and the links.
pub proof fn law_messages_are_small(es: Seq<Entry>, i: int)
    requires
        0 <= i < chunked(es).len(),
    ensures
        0 < chunked(es)[i].len() <= 15,
        chunked(es)[i].len() > 1 ==> total_size(chunked(es)[i]) <= 8_000,
        forall|e: Entry|
            e.source_count >= 0 ==> #[trigger] entry_size(e) >= encode_utf8(e.title).len()
                + encode_utf8(e.source_name).len() + (match e.link {
                Some(l) => encode_utf8(l).len() as int,
                None => 0,
            }),
        total_size(chunked(es)[i]) == chunked(es)[i].fold_left(
            0int,
            |n: int, e: Entry| n + entry_size(e),
        ),
{
    law_messages_hold_every_entry(es);
    lemma_total_size(chunked(es)[i]);
}

proof fn lemma_total_size(es: Seq<Entry>)
    ensures
        total_size(es) == es.fold_left(0int, |n: int, e: Entry| n + entry_size(e)),
    decreases es.len(),
{
    if es.len() > 0 {
        lemma_total_size(es.drop_last());
    }
}

/// What stands in the first of three texts stands in all of them together.
proof fn lemma_kept_thrice(a: Seq<char>, b: Seq<char>, c: Seq<char>, d: Seq<char>, x: Seq<char>)
    requires
        occurs(a, x),
    ensures
        occurs(a + b + c + d, x),
{
    lemma_kept(a, b, x);
    lemma_kept(a + b, c, x);
    lemma_kept(a + b + c, d, x);
}

/// What is said of an entry in brackets behind its headline.
spec fn said(e: Entry) -> Seq<char> {
    if info_parts(e).len() == 0 {
        seq![]
    } else {
        " ["@ + info(e) + "]"@
    }
}

/// The link of an entry, behind a dash.
spec fn linked(e: Entry) -> Seq<char> {
    match e.link {
        Some(l) => " — "@ + l,
        None => seq![],
    }
}

/// The note on the link of an entry, in brackets.
spec fn noted(e: Entry) -> Seq<char> {
    match e.link_note {
        Some(n) => " ("@ + n + ")"@,
        None => seq![],
    }
}

/// The line for an entry shows its sources, its headline, its link and the note on it, in plain
/// text as they are.
pub proof fn law_plain_lines_say_it_all(e: Entry)
    ensures
        occurs(plain_line(e), color_of(e.score)),
        occurs(plain_line(e), e.source_name),
        occurs(plain_line(e), e.title),
        info_parts(e).len() > 0 ==> occurs(plain_line(e), info(e)),
        e.link matches Some(l) ==> occurs(plain_line(e), l),
        e.link_note matches Some(n) ==> occurs(plain_line(e), n),
{
    let none = Seq::<char>::empty();
    let a = color_of(e.score);
    let b = a + " ["@ + e.source_name + "] "@;
    let c = b + e.title;
    assert(plain_line(e) == c + said(e) + linked(e) + noted(e));
    lemma_added(none, a);
    assert(none + a == a);
    lemma_kept_thrice(a, " ["@, e.source_name, "] "@, a);
    lemma_kept(b, e.title, a);
    lemma_kept_thrice(c, said(e), linked(e), noted(e), a);
    lemma_added(a + " ["@, e.source_name);
    lemma_kept(a + " ["@ + e.source_name, "] "@, e.source_name);
    lemma_kept(b, e.title, e.source_name);
    lemma_kept_thrice(c, said(e), linked(e), noted(e), e.source_name);
    lemma_added(b, e.title);
    lemma_kept_thrice(c, said(e), linked(e), noted(e), e.title);
    if info_parts(e).len() > 0 {
        lemma_added(" ["@, info(e));
        lemma_kept(" ["@ + info(e), "]"@, info(e));
        lemma_added(c, said(e));
        lemma_kept(c + said(e), linked(e), said(e));
        lemma_kept(c + said(e) + linked(e), noted(e), said(e));
        lemma_occurs_within(plain_line(e), said(e), info(e));
    }
    if let Some(l) = e.link {
        lemma_added(" — "@, l);
        lemma_added(c + said(e), linked(e));
        lemma_kept(c + said(e) + linked(e), noted(e), linked(e));
        lemma_occurs_within(plain_line(e), linked(e), l);
    }
    if let Some(n) = e.link_note {
        lemma_added(" ("@, n);
        lemma_kept(" ("@ + n, ")"@, n);
        lemma_added(c + said(e) + linked(e), noted(e));
        lemma_occurs_within(plain_line(e), noted(e), n);
    }
}

/// What is said of an entry in brackets behind its headline, in HTML.
spec fn html_said(e: Entry) -> Seq<char> {
    if info_parts(e).len() == 0 {
        seq![]
    } else {
        " <em>["@ + escape(info(e)) + "]</em>"@
    }
}

/// The link of an entry, behind a dash, in HTML.
spec fn html_linked(e: Entry) -> Seq<char> {
    match e.link {
        Some(l) => " — <a href=\""@ + escape(l) + "\">link</a>"@,
        None => seq![],
    }
}

/// The note on the link of an entry, in brackets, in HTML.
spec fn html_noted(e: Entry) -> Seq<char> {
    match e.link_note {
        Some(n) => " <em>("@ + escape(n) + ")</em>"@,
        None => seq![],
    }
}

/// What stands before the headline of an entry in HTML.
spec fn html_head(e: Entry) -> Seq<char> {
    color_of(e.score) + " <em>["@ + escape(e.source_name) + "]</em> "@
}

proof fn lemma_html_line(e: Entry, x: Seq<char>)
    ensures
        html_line(e) == html_head(e) + escape(e.title) + html_said(e) + html_linked(e) + html_noted(
            e,
        ) + "<br>"@,
        occurs(html_head(e), x) ==> occurs(html_line(e), x),
        x == escape(e.title) ==> occurs(html_line(e), x),
        occurs(html_said(e), x) ==> occurs(html_line(e), x),
        occurs(html_linked(e), x) ==> occurs(html_line(e), x),
        occurs(html_noted(e), x) ==> occurs(html_line(e), x),
{
    let title = escape(e.title);
    let a = html_head(e);
    let b = a + title;
    let c = b + html_said(e);
    let d = c + html_linked(e);
    let f = d + html_noted(e);
    if occurs(a, x) {
        lemma_kept(a, title, x);
        lemma_kept_thrice(b, html_said(e), html_linked(e), html_noted(e), x);
        lemma_kept(f, "<br>"@, x);
    }
    if x == title {
        lemma_added(a, x);
        lemma_kept_thrice(b, html_said(e), html_linked(e), html_noted(e), x);
        lemma_kept(f, "<br>"@, x);
    }
    if occurs(html_said(e), x) {
        lemma_added(b, html_said(e));
        lemma_occurs_within(c, html_said(e), x);
        lemma_kept_thrice(c, html_linked(e), html_noted(e), "<br>"@, x);
    }
    if occurs(html_linked(e), x) {
        lemma_added(c, html_linked(e));
        lemma_occurs_within(d, html_linked(e), x);
        lemma_kept(d, html_noted(e), x);
        lemma_kept(f, "<br>"@, x);
    }
    if occurs(html_noted(e), x) {
        lemma_added(d, html_noted(e));
        lemma_occurs_within(f, html_noted(e), x);
        lemma_kept(f, "<br>"@, x);
    }
}

/// The line for an entry in HTML shows its sources, its headline, its link and the note on it,
/// each of them escaped.
pub proof fn law_html_lines_say_it_all(e: Entry)
    ensures
        occurs(html_line(e), color_of(e.score)),
        occurs(html_line(e), escape(e.source_name)),
        occurs(html_line(e), escape(e.title)),
        info_parts(e).len() > 0 ==> occurs(html_line(e), escape(info(e))),
        e.link matches Some(l) ==> occurs(html_line(e), "<a href=\""@ + escape(l) + "\">"@),
        e.link_note matches Some(n) ==> occurs(html_line(e), escape(n)),
{
    let none = Seq::<char>::empty();
    let color = color_of(e.score);
    let source = escape(e.source_name);
    lemma_added(none, color);
    assert(none + color == color);
    lemma_kept_thrice(color, " <em>["@, source, "]</em> "@, color);
    lemma_html_line(e, color);
    lemma_added(color + " <em>["@, source);
    lemma_kept(color + " <em>["@ + source, "]</em> "@, source);
    lemma_html_line(e, source);
    lemma_html_line(e, escape(e.title));
    if info_parts(e).len() > 0 {
        lemma_added(" <em>["@, escape(info(e)));
        lemma_kept(" <em>["@ + escape(info(e)), "]</em>"@, escape(info(e)));
        lemma_html_line(e, escape(info(e)));
    }
    if let Some(l) = e.link {
        let tag = "<a href=\""@ + escape(l) + "\">"@;
        reveal_strlit(" — <a href=\"");
        reveal_strlit(" — ");
        reveal_strlit("<a href=\"");
        reveal_strlit("\">link</a>");
        reveal_strlit("\">");
        reveal_strlit("link</a>");
        assert(" — <a href=\""@ == " — "@ + "<a href=\""@);
        assert("\">link</a>"@ == "\">"@ + "link</a>"@);
        assert(html_linked(e) == " — "@ + tag + "link</a>"@);
        lemma_between(" — "@, tag, "link</a>"@);
        lemma_html_line(e, tag);
    }
    if let Some(n) = e.link_note {
        lemma_added(" <em>("@, escape(n));
        lemma_kept(" <em>("@ + escape(n), ")</em>"@, escape(n));
        lemma_html_line(e, escape(n));
    }
}

/// What is known of an entry stands in the brackets of its line: the score out of the highest
/// one, how many sources there are where there is more than one, how far away it is, and where.
pub proof fn law_lines_say_what_is_known(e: Entry)
    ensures
        e.max_score > 0 ==> occurs(info(e), decimal_int(e.score) + "/"@ + decimal_int(e.max_score)),
        e.source_count > 1 ==> occurs(info(e), decimal(e.source_count as nat) + " sources"@),
        e.distance_meters matches Some(d) ==> occurs(info(e), distance_text(d)),
        e.distance_meters is Some ==> (e.location_label matches Some(l) ==> occurs(
            info(e),
            trimmed(l),
        )),
        e.max_score <= 0 && e.source_count <= 1 && e.distance_meters is None <==> info_parts(
            e,
        ).len() == 0,
{
    let parts = info_parts(e);
    let before: int = if e.max_score > 0 {
        1
    } else {
        0
    };
    if e.max_score > 0 {
        assert(parts[0] == decimal_int(e.score) + "/"@ + decimal_int(e.max_score));
        law_joined_parts_are_kept(parts, " "@, 0);
    }
    if e.source_count > 1 {
        assert(parts[before] == decimal(e.source_count as nat) + " sources"@);
        law_joined_parts_are_kept(parts, " "@, before);
    }
    if let Some(d) = e.distance_meters {
        let at = parts.len() - 1;
        let place = where_part(d, e.location_label);
        let text = distance_text(d);
        assert(parts[at] == place);
        law_joined_parts_are_kept(parts, " "@, at);
        lemma_added(Seq::<char>::empty(), text);
        assert(Seq::<char>::empty() + text == text);
        if let Some(l) = e.location_label {
            if trimmed(l).len() > 0 {
                lemma_kept(text, " · "@, text);
                lemma_kept(text + " · "@, trimmed(l), text);
                lemma_added(text + " · "@, trimmed(l));
                lemma_occurs_within(info(e), place, trimmed(l));
            } else {
                assert(info(e).subrange(0, 0) == trimmed(l));
                assert(occurs_at(info(e), trimmed(l), 0));
            }
        }
        lemma_occurs_within(info(e), place, text);
    }
}

/// Trimming the end of a text takes no more off a part of it than trimming that part does.
proof fn lemma_trim_end_keeps(a: Seq<char>, x: Seq<char>, b: Seq<char>, k: CharClass)
    ensures
        occurs(trim_end(a + x + b, k), trim_end(x, k)),
    decreases b.len(), x.len(),
{
    let s = a + x + b;
    if b.len() > 0 {
        assert(s.last() == b.last());
        if k.holds(b.last()) {
            assert(s.drop_last() =~= a + x + b.drop_last());
            lemma_trim_end_keeps(a, x, b.drop_last(), k);
        } else {
            let t = trim_end(x, k);
            lemma_trim_end_prefix(x, k);
            assert(s =~= a + t + (x.skip(t.len() as int) + b)) by {
                assert(x =~= t + x.skip(t.len() as int));
            }
            lemma_between(a, t, x.skip(t.len() as int) + b);
        }
    } else if x.len() > 0 {
        assert(s.last() == x.last());
        if k.holds(x.last()) {
            assert(s.drop_last() =~= a + x.drop_last() + b);
            lemma_trim_end_keeps(a, x.drop_last(), b, k);
        } else {
            lemma_between(a, x, b);
        }
    } else {
        let r = trim_end(s, k);
        assert(r.subrange(0, 0) =~= x);
        assert(occurs_at(r, trim_end(x, k), 0));
    }
}

proof fn lemma_trim_end_prefix(x: Seq<char>, k: CharClass)
    ensures
        trim_end(x, k).len() <= x.len(),
        x.take(trim_end(x, k).len() as int) == trim_end(x, k),
    decreases x.len(),
{
    if x.len() > 0 && k.holds(x.last()) {
        let n = trim_end(x, k).len() as int;
        lemma_trim_end_prefix(x.drop_last(), k);
        assert(x.take(n) =~= x.drop_last().take(n));
    } else {
        assert(x.take(x.len() as int) =~= x);
    }
}

proof fn lemma_split_at<T>(s: Seq<T>, x: Seq<T>, i: int)
    requires
        occurs_at(s, x, i),
    ensures
        s == s.take(i) + x + s.skip(i + x.len()),
{
    assert(s =~= s.take(i) + s.subrange(i, i + x.len()) + s.skip(i + x.len()));
}

/// A digest in plain text has its header above it and a line for every entry, but for white
/// space at the end of the line.
pub proof fn law_plain_digests_hold_every_entry(es: Seq<Entry>, header: Seq<char>, k: int)
    requires
        0 <= k < es.len(),
    ensures
        occurs(plain_digest(es, header), trim_end(plain_line(es[k]), CharClass::Space)),
        occurs(plain_digest(es, header), trim_end(header, CharClass::Space)),
{
    let first = "📡 "@ + header + "\n"@;
    let parts = seq![first] + es.map_values(|e: Entry| plain_line(e));
    let all = join(parts, "\n"@);
    assert(parts[k + 1] == plain_line(es[k]));
    law_joined_parts_are_kept(parts, "\n"@, k + 1);
    let line = plain_line(es[k]);
    let i = choose|i: int| occurs_at(all, line, i);
    lemma_split_at(all, line, i);
    lemma_trim_end_keeps(all.take(i), line, all.skip(i + line.len()), CharClass::Space);
    assert(parts[0] == first);
    law_joined_parts_are_kept(parts, "\n"@, 0);
    lemma_between("📡 "@, header, "\n"@);
    lemma_occurs_within(all, first, header);
    let j = choose|j: int| occurs_at(all, header, j);
    lemma_split_at(all, header, j);
    lemma_trim_end_keeps(all.take(j), header, all.skip(j + header.len()), CharClass::Space);
}

/// What stands before the line breaks at the end of a text is kept when they are taken off.
proof fn lemma_breaks_off(s: Seq<char>, n: int)
    requires
        0 < n <= s.len(),
        s[n - 1] != '>',
        n < s.len() ==> s[n] == '<' || s[n] == ' ',
    ensures
        without_suffix(s, "<br>"@).len() >= n,
        without_suffix(s, "<br>"@).take(n) == s.take(n),
    decreases s.len(),
{
    reveal_strlit("<br>");
    let br = "<br>"@;
    if ends_with(s, br) {
        let m = s.len() - 4;
        let tail = s.subrange(m, m + 4);
        assert(tail =~= br);
        assert(s[m] == tail[0] && s[m + 1] == tail[1] && s[m + 2] == tail[2] && s[m + 3] == tail[3]);
        assert(m >= n);
        lemma_breaks_off(s.take(m), n);
        assert(s.take(m).take(n) =~= s.take(n));
    }
}

/// Behind the headline of an entry in HTML there is a tag, or a space.
proof fn lemma_html_title(e: Entry)
    ensures
        ({
            let p = html_head(e).len() as int;
            let n = p + escape(e.title).len();
            &&& n < html_line(e).len()
            &&& html_line(e).subrange(p, n) == escape(e.title)
            &&& html_line(e)[n] == '<' || html_line(e)[n] == ' '
        }),
{
    let title = escape(e.title);
    let p = html_head(e).len() as int;
    let n = p + title.len();
    let q = html_head(e) + title;
    let a = q + html_said(e);
    let b = a + html_linked(e);
    let c = b + html_noted(e);
    let d = c + "<br>"@;
    lemma_html_line(e, title);
    assert(d == html_line(e));
    assert(q.subrange(p, n) == title);
    assert(a.subrange(p, n) == q.subrange(p, n));
    assert(b.subrange(p, n) == a.subrange(p, n));
    assert(c.subrange(p, n) == b.subrange(p, n));
    assert(d.subrange(p, n) == c.subrange(p, n));
    reveal_strlit("<br>");
    if html_said(e).len() > 0 {
        reveal_strlit(" <em>[");
        assert(a[n] == ' ');
        assert(b[n] == a[n]);
        assert(c[n] == b[n]);
    } else if html_linked(e).len() > 0 {
        reveal_strlit(" — <a href=\"");
        assert(b[n] == ' ');
        assert(c[n] == b[n]);
    } else if html_noted(e).len() > 0 {
        reveal_strlit(" <em>(");
        assert(c[n] == ' ');
    } else {
        assert(d[n] == "<br>"@[0]);
    }
}

/// A digest in HTML shows the headline of every entry, escaped.
pub proof fn law_html_digests_hold_every_entry(es: Seq<Entry>, header: Seq<char>, k: int)
    requires
        0 <= k < es.len(),
    ensures
        occurs(html_digest(es, header), escape(es[k].title)),
{
    let first = "📡 <strong>"@ + escape(header) + "</strong><br>"@;
    let parts = seq![first] + es.map_values(|e: Entry| html_line(e));
    let all = join(parts, ""@);
    let r = html_digest(es, header);
    let title = escape(es[k].title);
    let line = html_line(es[k]);
    assert(parts[k + 1] == line);
    law_joined_parts_are_kept(parts, ""@, k + 1);
    let i = choose|i: int| occurs_at(all, line, i);
    lemma_html_title(es[k]);
    if title.len() == 0 {
        assert(r.subrange(0, 0) == title);
        assert(occurs_at(r, title, 0));
    } else {
        let at = html_head(es[k]).len() as int;
        let end = at + title.len();
        law_escaped_is_inert(es[k].title);
        assert(line.subrange(at, end)[title.len() - 1] == line[end - 1]);
        let here = all.subrange(i, i + line.len());
        assert(here == line);
        assert(here[end - 1] == all[i + end - 1]);
        assert(here[end] == all[i + end]);
        lemma_breaks_off(all, i + end);
        assert(r.subrange(i + at, i + end) == r.take(i + end).subrange(i + at, i + end));
        assert(all.take(i + end).subrange(i + at, i + end) == here.subrange(at, end));
        assert(occurs_at(r, title, i + at));
    }
}

/// The header of a message starts with that of the digest. It says which part it is, and of
/// how many, exactly where there is more than one.
pub proof fn law_parts_are_numbered(header: Seq<char>, i: int, total: int)
    requires
        0 <= i < total,
    ensures
        starts_with(part_header(header, i, total), header),
        total == 1 ==> part_header(header, i, total) == header,
        total > 1 ==> ends_with(
            part_header(header, i, total),
            " ("@ + decimal((i + 1) as nat) + "/"@ + decimal(total as nat) + ")"@,
        ),
{
    let r = part_header(header, i, total);
    let part = " ("@ + decimal((i + 1) as nat) + "/"@ + decimal(total as nat) + ")"@;
    assert(r.subrange(0, header.len() as int) =~= header);
    if total > 1 {
        assert(r =~= header + part);
        assert(r.subrange(r.len() - part.len(), r.len() as int) =~= part);
    }
}

/// A suffix is taken off as often as it stands at the end, and nothing else is taken off.
pub proof fn law_suffixes_are_taken_off(s: Seq<char>, suffix: Seq<char>)
    requires
        suffix.len() > 0,
    ensures
        without_suffix(s + suffix, suffix) == without_suffix(s, suffix),
        !ends_with(s, suffix) ==> without_suffix(s, suffix) == s,
        !ends_with(without_suffix(s, suffix), suffix),
    decreases s.len(),
{
    let t = s + suffix;
    assert(t.subrange(t.len() - suffix.len(), t.len() as int) == suffix);
    assert(t.take(t.len() - suffix.len()) == s);
    if ends_with(s, suffix) {
        law_suffixes_are_taken_off(s.take(s.len() - suffix.len()), suffix);
    }
}

/// An entry takes more as its title, its sources or its link take more bytes, eight more for
/// each source, and fifty in any case.
pub proof fn law_entries_are_as_large_as_their_texts(e: Entry, text: Seq<char>)
    ensures
        entry_size(Entry { title: text, ..e }) - entry_size(e) == encode_utf8(text).len()
            - encode_utf8(e.title).len(),
        entry_size(Entry { source_name: text, ..e }) - entry_size(e) == encode_utf8(text).len()
            - encode_utf8(e.source_name).len(),
        entry_size(Entry { link: Some(text), ..e }) - entry_size(Entry { link: None, ..e })
            == encode_utf8(text).len(),
        entry_size(Entry { source_count: e.source_count + 1, ..e }) - entry_size(e) == 8,
        e.link is None && e.source_count == 0 ==> entry_size(e) == encode_utf8(e.title).len()
            + encode_utf8(e.source_name).len() + 50,
{
}

} // verus!
