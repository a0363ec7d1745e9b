//! Which feeds can be read: the limits of the parser of feeds.
//!
//! `feed-rs` keeps the number of open elements in 16 bits, reads elements of two kinds by
//! recursion, and reads play times as numbers of 64 bits: how long a recording lasts
//! (`itunes:duration`), and to which part of it a text or a picture belongs (the attributes
//! `start`, `end` and `time` of Media RSS). Past these limits it panics.

use vstd::prelude::*;

use crate::html::{numeric, numeric_entity};
use crate::markup::{
    cut, cuts_view, find_char, find_cut, find_quote, gap, is_gap, is_quote, lies_in, local,
    local_of, pieces, pieces_of, prefix, prefix_of, quote, quote_after, tag_close, tag_name,
    tag_name_of, up_to, Cut, Kind, Piece,
};
use crate::text::{append, chars_of, copy_range, matches_at, occurs_at, same, same_str};
use crate::url::{equal_ignoring_case, same_ignoring_case};

verus! {

// ---------------------------------------------------------------------------
// Numbers
// ---------------------------------------------------------------------------

/// Whether a character is one of the digits from 0 to 9.
pub open spec fn is_figure(c: char) -> bool {
    '0' <= c && c <= '9'
}

/// How many digits stand directly before a place.
pub open spec fn figures_before(v: Seq<char>, i: int) -> nat
    decreases i,
{
    if i <= 0 || i > v.len() || !is_figure(v[i - 1]) {
        0
    } else {
        figures_before(v, i - 1) + 1
    }
}

/// Whether a character can be a digit other than 0 to 9. Unicode has such digits from
/// U+0660 on, but none among its punctuation and symbols, in the scripts of East Asia, for
/// private use, in the presentation forms but for the fullwidth ones, or among its pictures.
pub open spec fn may_be_digit(c: char) -> bool {
    let n = c as u32;
    n >= 0x660 && !(0x2000 <= n < 0x2c00 || 0x3000 <= n < 0xa000 || 0xac00 <= n < 0xff10 || 0xff1a
        <= n < 0x10000 || 0x1f000 <= n < 0x1fbf0)
}

/// Whether a character can stand in a play time. Where a text may be in another encoding
/// than UTF-8, only ASCII is what it seems to be.
pub open spec fn is_allowed(c: char, ascii: bool) -> bool {
    if ascii {
        (c as u32) < 128
    } else {
        !may_be_digit(c)
    }
}

/// Whether a text can be read as a play time: its digits are 0 to 9, and its numbers have
/// at most 15 of them, so that as many hours still are fewer than 2^64 seconds.
pub open spec fn is_play_time(v: Seq<char>, ascii: bool) -> bool {
    &&& forall|i: int| 0 <= i < v.len() ==> is_allowed(#[trigger] v[i], ascii)
    &&& forall|i: int| 0 <= i <= v.len() ==> #[trigger] figures_before(v, i) <= 15
}

fn allowed(c: char, ascii: bool) -> (r: bool)
    ensures
        r == is_allowed(c, ascii),
{
    let n: u32 = c as u32;
    if ascii {
        return n < 128;
    }
    n < 0x660 || (0x2000 <= n && n < 0x2c00) || (0x3000 <= n && n < 0xa000) || (0xac00 <= n && n
        < 0xff10) || (0xff1a <= n && n < 0x10000) || (0x1f000 <= n && n < 0x1fbf0)
}

fn play_time(v: &[char], ascii: bool) -> (r: bool)
    ensures
        r == is_play_time(v@, ascii),
{
    let mut i: usize = 0;
    let mut figures: usize = 0;
    while i < v.len()
        invariant
            i <= v@.len(),
            figures == figures_before(v@, i as int),
            figures <= 15,
            forall|k: int| 0 <= k < i ==> is_allowed(#[trigger] v@[k], ascii),
            forall|k: int| 0 <= k <= i ==> #[trigger] figures_before(v@, k) <= 15,
        decreases v@.len() - i,
    {
        let c = v[i];
        if !allowed(c, ascii) {
            assert(!is_allowed(v@[i as int], ascii));
            return false;
        }
        if '0' <= c && c <= '9' {
            figures = figures + 1;
        } else {
            figures = 0;
        }
        i = i + 1;
        assert(figures == figures_before(v@, i as int));
        if figures > 15 {
            return false;
        }
    }
    true
}

// ---------------------------------------------------------------------------
// Character references
// ---------------------------------------------------------------------------

/// The character that a reference to its code stands for, given what is between the
/// ampersand and the semicolon.
pub open spec fn referred(r: Seq<char>) -> Option<Seq<char>> {
    if r.len() == 0 || r[0] != '#' {
        None
    } else if r.len() > 1 && r[1] == 'x' {
        numeric_entity(r.skip(2), 16)
    } else {
        numeric_entity(r.skip(1), 10)
    }
}

fn referred_of(r: &[char]) -> (out: Option<Vec<char>>)
    ensures
        match out {
            Some(c) => referred(r@) == Some(c@),
            None => referred(r@) is None,
        },
{
    let n: usize = r.len();
    if n == 0 || r[0] != '#' {
        return None;
    }
    if n > 1 && r[1] == 'x' {
        let digits = copy_range(r, 2, n);
        assert(digits@ == r@.skip(2));
        return numeric(digits.as_slice(), 16);
    }
    let digits = copy_range(r, 1, n);
    assert(digits@ == r@.skip(1));
    numeric(digits.as_slice(), 10)
}

/// Where a reference can go on to from `i`: up to a semicolon, or to where another
/// reference or a tag starts.
pub open spec fn reference_end(t: Seq<char>, i: int) -> int
    decreases t.len() - i,
{
    if 0 <= i < t.len() && t[i] != ';' && t[i] != '&' && t[i] != '<' {
        reference_end(t, i + 1)
    } else {
        i
    }
}

/// The character that a reference at an ampersand stands for, and where the reference ends.
/// What is no such reference is kept as it is: named characters are no digits, and end a
/// number just as their ampersand does.
pub open spec fn reference_at(t: Seq<char>, i: int) -> (Seq<char>, int) {
    let e = reference_end(t, i + 1);
    if i < e < t.len() && t[e] == ';' && referred(t.subrange(i + 1, e)) is Some {
        (referred(t.subrange(i + 1, e))->0, e + 1)
    } else {
        (seq!['&'], i + 1)
    }
}

fn read_reference(s: &[char], i: usize) -> (r: (Vec<char>, usize))
    requires
        i < s@.len(),
    ensures
        (r.0@, r.1 as int) == reference_at(s@, i as int),
        i < r.1 <= s@.len(),
{
    let n: usize = s.len();
    let mut e: usize = i + 1;
    while e < n && s[e] != ';' && s[e] != '&' && s[e] != '<'
        invariant
            i < e <= n,
            n == s@.len(),
            reference_end(s@, i + 1) == reference_end(s@, e as int),
        decreases n - e,
    {
        e = e + 1;
    }
    if e < n && s[e] == ';' {
        let name = copy_range(s, i + 1, e);
        if let Some(c) = referred_of(name.as_slice()) {
            return (c, e + 1);
        }
    }
    let mut out: Vec<char> = Vec::new();
    out.push('&');
    assert(out@ == seq!['&']);
    (out, i + 1)
}

/// A value from a place on, with the characters that references stand for.
pub open spec fn resolved(v: Seq<char>, i: int) -> Seq<char>
    decreases v.len() - i,
{
    if i < 0 || i >= v.len() {
        seq![]
    } else if v[i] == '&' {
        let (c, e) = reference_at(v, i);
        if i < e <= v.len() {
            c + resolved(v, e)
        } else {
            seq![]
        }
    } else {
        seq![v[i]] + resolved(v, i + 1)
    }
}

fn resolved_of(v: &[char]) -> (r: Vec<char>)
    ensures
        r@ == resolved(v@, 0),
{
    let mut out: Vec<char> = Vec::new();
    let mut i: usize = 0;
    assert(out@ + resolved(v@, 0) == resolved(v@, 0));
    while i < v.len()
        invariant
            i <= v@.len(),
            out@ + resolved(v@, i as int) == resolved(v@, 0),
        decreases v@.len() - i,
    {
        let ghost before = out@;
        if v[i] == '&' {
            let (c, e) = read_reference(v, i);
            append(&mut out, c.as_slice());
            assert(before + (c@ + resolved(v@, e as int)) == (before + c@) + resolved(
                v@,
                e as int,
            ));
            i = e;
        } else {
            out.push(v[i]);
            assert(before + (seq![v@[i as int]] + resolved(v@, i + 1)) == before.push(v@[i as int])
                + resolved(v@, i + 1));
            i = i + 1;
        }
    }
    assert(out@ + Seq::<char>::empty() == out@);
    out
}

// ---------------------------------------------------------------------------
// Attributes
// ---------------------------------------------------------------------------

/// Whether, if an attribute of a name stands at a place in a tag, its value can be read as
/// a play time: as it stands, and with the characters that references stand for.
pub open spec fn attribute_fits(tag: Seq<char>, name: Seq<char>, i: int, ascii: bool) -> bool {
    0 < i && occurs_at(tag, name, i) && (is_gap(tag[i - 1]) || is_quote(tag[i - 1]))
        ==> match quote_after(tag, i + name.len()) {
        Some(q) => {
            let e = up_to(tag, tag[q], q + 1);
            let v = tag.subrange(q + 1, e);
            e < tag.len() ==> is_play_time(v, ascii) && is_play_time(resolved(v, 0), ascii)
        },
        None => true,
    }
}

/// Whether the values of all attributes of a name in a tag can be read as play times.
pub open spec fn attributes_fit(tag: Seq<char>, name: Seq<char>, ascii: bool) -> bool {
    forall|i: int| 0 <= i < tag.len() ==> #[trigger] attribute_fits(tag, name, i, ascii)
}

fn check_attribute(tag: &[char], name: &[char], i: usize, ascii: bool) -> (r: bool)
    requires
        i < tag@.len(),
    ensures
        r == attribute_fits(tag@, name@, i as int, ascii),
{
    let n: usize = tag.len();
    if i == 0 || !matches_at(tag, name, i) {
        return true;
    }
    if !(gap(tag[i - 1]) || quote(tag[i - 1])) {
        return true;
    }
    match find_quote(tag, i + name.len()) {
        Some(q) => {
            let e: usize = find_char(tag, tag[q], q + 1);
            if e >= n {
                return true;
            }
            let v = copy_range(tag, q + 1, e);
            let w = resolved_of(v.as_slice());
            play_time(v.as_slice(), ascii) && play_time(w.as_slice(), ascii)
        },
        None => true,
    }
}

fn check_attributes(tag: &[char], name: &str, ascii: bool) -> (r: bool)
    ensures
        r == attributes_fit(tag@, name@, ascii),
{
    let n = chars_of(name);
    let mut i: usize = 0;
    while i < tag.len()
        invariant
            i <= tag@.len(),
            n@ == name@,
            forall|k: int| 0 <= k < i ==> #[trigger] attribute_fits(tag@, name@, k, ascii),
        decreases tag@.len() - i,
    {
        if !check_attribute(tag, n.as_slice(), i, ascii) {
            assert(!attribute_fits(tag@, name@, i as int, ascii));
            return false;
        }
        i = i + 1;
    }
    true
}

// ---------------------------------------------------------------------------
// Text
// ---------------------------------------------------------------------------

/// The text of an element from a place on, up to the next tag: with the characters that
/// references stand for, with what is in character data, and without comments and
/// instructions. Nothing comes behind markup that does not end.
pub open spec fn text_at(t: Seq<char>, i: int) -> Seq<char>
    decreases t.len() - i,
{
    if i < 0 || i >= t.len() {
        seq![]
    } else if t[i] == '<' {
        match cut(t, i) {
            Some((kind, e)) => if !(i < e <= t.len()) {
                seq![]
            } else if kind == Kind::Data {
                t.subrange(i + 9, e - 3) + text_at(t, e)
            } else if kind == Kind::Instruction || kind == Kind::Aside {
                text_at(t, e)
            } else {
                seq![]
            },
            None => seq![],
        }
    } else if t[i] == '&' {
        let (c, e) = reference_at(t, i);
        if i < e <= t.len() {
            c + text_at(t, e)
        } else {
            seq![]
        }
    } else {
        seq![t[i]] + text_at(t, i + 1)
    }
}

fn text_from(s: &[char], from: usize) -> (r: Vec<char>)
    requires
        from <= s@.len(),
    ensures
        r@ == text_at(s@, from as int),
{
    let mut out: Vec<char> = Vec::new();
    let mut i: usize = from;
    let ghost all = text_at(s@, from as int);
    assert(out@ + all == all);
    while i < s.len()
        invariant
            i <= s@.len(),
            all == text_at(s@, from as int),
            out@ + text_at(s@, i as int) == all,
        decreases s@.len() - i,
    {
        let ghost before = out@;
        if s[i] == '<' {
            match find_cut(s, i) {
                Some((Kind::Data, e)) => {
                    let data = copy_range(s, i + 9, e - 3);
                    append(&mut out, data.as_slice());
                    assert(before + (data@ + text_at(s@, e as int)) == (before + data@) + text_at(
                        s@,
                        e as int,
                    ));
                    i = e;
                },
                Some((Kind::Instruction, e)) => {
                    i = e;
                },
                Some((Kind::Aside, e)) => {
                    i = e;
                },
                _ => {
                    assert(out@ + Seq::<char>::empty() == out@);
                    return out;
                },
            }
        } else if s[i] == '&' {
            let (c, e) = read_reference(s, i);
            append(&mut out, c.as_slice());
            assert(before + (c@ + text_at(s@, e as int)) == (before + c@) + text_at(s@, e as int));
            i = e;
        } else {
            out.push(s[i]);
            assert(before + (seq![s@[i as int]] + text_at(s@, i + 1)) == before.push(s@[i as int])
                + text_at(s@, i + 1));
            i = i + 1;
        }
    }
    assert(out@ + Seq::<char>::empty() == out@);
    out
}

// ---------------------------------------------------------------------------
// Namespaces
// ---------------------------------------------------------------------------

/// The namespace of Media RSS.
pub open spec fn media_space() -> Seq<char> {
    "http://search.yahoo.com/mrss/"@
}

/// The namespace of iTunes.
pub open spec fn itunes_space() -> Seq<char> {
    "http://www.itunes.com/dtds/podcast-1.0.dtd"@
}

/// The first place from `i` on where the name of an attribute ends.
pub open spec fn key_end(t: Seq<char>, i: int) -> int
    decreases t.len() - i,
{
    if 0 <= i < t.len() && !is_gap(t[i]) && t[i] != '=' {
        key_end(t, i + 1)
    } else {
        i
    }
}

/// The prefix that is bound to a namespace at a place; an empty one where the namespace is
/// that of names without a prefix.
pub open spec fn bound_at(t: Seq<char>, space: Seq<char>, i: int) -> Option<Seq<char>> {
    let j = i + 5;
    let named = occurs_at(t, "xmlns:"@, i);
    let e = if named {
        key_end(t, j + 1)
    } else {
        j
    };
    if !occurs_at(t, "xmlns"@, i) {
        None
    } else {
        match quote_after(t, e) {
            Some(q) => if occurs_at(t, space, q + 1) && q + 1 + space.len() < t.len() && t[q + 1
                + space.len()] == t[q] {
                Some(
                    if named {
                        t.subrange(j + 1, e)
                    } else {
                        seq![]
                    },
                )
            } else {
                None
            },
            None => None,
        }
    }
}

/// Whether a prefix is bound to a namespace somewhere in a text.
pub open spec fn binds(t: Seq<char>, prefix: Seq<char>, space: Seq<char>) -> bool {
    exists|i: int| 0 <= i < t.len() && #[trigger] bound_at(t, space, i) == Some(prefix)
}

fn prefix_bound_at(s: &[char], space: &[char], named: &[char], plain: &[char], i: usize) -> (r:
    Option<Vec<char>>)
    requires
        i < s@.len(),
        named@ == "xmlns:"@,
        plain@ == "xmlns"@,
    ensures
        match r {
            Some(p) => bound_at(s@, space@, i as int) == Some(p@),
            None => bound_at(s@, space@, i as int) is None,
        },
{
    proof {
        reveal_strlit("xmlns:");
        reveal_strlit("xmlns");
    }
    let n: usize = s.len();
    if !matches_at(s, plain, i) {
        return None;
    }
    let has_prefix = matches_at(s, named, i);
    let mut e: usize = i + 5;
    if has_prefix {
        e = i + 6;
        while e < n && !gap(s[e]) && s[e] != '='
            invariant
                i + 6 <= e <= n,
                n == s@.len(),
                key_end(s@, i + 6) == key_end(s@, e as int),
            decreases n - e,
        {
            e = e + 1;
        }
    }
    match find_quote(s, e) {
        Some(q) => {
            if !matches_at(s, space, q + 1) {
                return None;
            }
            let close: usize = q + 1 + space.len();
            if close >= n || s[close] != s[q] {
                return None;
            }
            if has_prefix {
                Some(copy_range(s, i + 6, e))
            } else {
                let empty: Vec<char> = Vec::new();
                assert(empty@ == Seq::<char>::empty());
                Some(empty)
            }
        },
        None => None,
    }
}

/// Whether a name is in a list.
fn is_in(list: &Vec<Vec<char>>, name: &[char]) -> (r: bool)
    ensures
        r == list.deep_view().contains(name@),
{
    let n: usize = list.len();
    let mut i: usize = 0;
    while i < n
        invariant
            i <= n,
            n == list@.len(),
            forall|k: int| 0 <= k < i ==> list.deep_view()[k] != name@,
        decreases n - i,
    {
        assert(list.deep_view()[i as int] == list@[i as int]@) by {
            assert(list@[i as int].deep_view() == list@[i as int]@);
        }
        if same(list[i].as_slice(), name) {
            assert(list.deep_view()[i as int] == name@);
            return true;
        }
        i = i + 1;
    }
    assert(list.deep_view().len() == n);
    false
}

/// The prefixes that are bound to a namespace somewhere in a text.
fn bound_prefixes(s: &[char], space: &str) -> (r: Vec<Vec<char>>)
    ensures
        forall|p: Seq<char>| #[trigger] r.deep_view().contains(p) <==> binds(s@, p, space@),
{
    let uri = chars_of(space);
    let named = chars_of("xmlns:");
    let plain = chars_of("xmlns");
    let mut out: Vec<Vec<char>> = Vec::new();
    let mut i: usize = 0;
    assert(out.deep_view().len() == 0);
    while i < s.len()
        invariant
            i <= s@.len(),
            uri@ == space@,
            named@ == "xmlns:"@,
            plain@ == "xmlns"@,
            forall|p: Seq<char>| #[trigger]
                out.deep_view().contains(p) ==> binds(s@, p, space@),
            forall|k: int|
                0 <= k < i ==> (#[trigger] bound_at(s@, space@, k) matches Some(p)
                    ==> out.deep_view().contains(p)),
        decreases s@.len() - i,
    {
        let ghost before = out.deep_view();
        if let Some(p) = prefix_bound_at(
            s,
            uri.as_slice(),
            named.as_slice(),
            plain.as_slice(),
            i,
        ) {
            assert(binds(s@, p@, space@)) by {
                assert(bound_at(s@, space@, i as int) == Some(p@));
            }
            if !is_in(&out, p.as_slice()) {
                out.push(p);
                assert(out.deep_view() == before.push(p@)) by {
                    assert(p.deep_view() == p@);
                }
                assert forall|x: Seq<char>| #[trigger] out.deep_view().contains(x) implies binds(
                    s@,
                    x,
                    space@,
                ) by {
                    let k = choose|k: int|
                        0 <= k < out.deep_view().len() && out.deep_view()[k] == x;
                    if k < before.len() {
                        assert(before[k] == x);
                        assert(before.contains(x));
                    }
                }
                assert forall|x: Seq<char>| before.contains(x) || x == p@ implies
                    #[trigger] out.deep_view().contains(x) by {
                    if before.contains(x) {
                        let k = choose|k: int| 0 <= k < before.len() && before[k] == x;
                        assert(out.deep_view()[k] == x);
                    } else {
                        assert(out.deep_view()[before.len() as int] == x);
                    }
                }
            }
        }
        i = i + 1;
    }
    out
}

// ---------------------------------------------------------------------------
// Nesting
// ---------------------------------------------------------------------------

/// Which elements are read by recursion: `content` of Media RSS and `category` of iTunes.
#[derive(Clone, Copy, PartialEq, Eq, Structural)]
pub enum Role {
    /// Any other one.
    Plain,
    /// A content.
    Content,
    /// A category.
    Category,
}

/// Whether an element is one of a namespace, with a name in it.
pub open spec fn is_element(
    t: Seq<char>,
    name: Seq<char>,
    space: Seq<char>,
    called: Seq<char>,
) -> bool {
    local(name) == called && binds(t, prefix(name), space)
}

/// Which kind of element an element is, by its name.
pub open spec fn role(t: Seq<char>, name: Seq<char>) -> Role {
    if is_element(t, name, media_space(), "content"@) {
        Role::Content
    } else if is_element(t, name, itunes_space(), "category"@) {
        Role::Category
    } else {
        Role::Plain
    }
}

/// An open element, in contracts.
pub struct Open {
    /// Its name.
    pub name: Seq<char>,
    /// Which kind it is.
    pub role: Role,
}

/// What is open at a place in a text.
pub struct Nesting {
    /// The elements that the end tags are compared with.
    pub open: Seq<Open>,
    /// How many elements count as open: an end tag with another name than the last of them
    /// closes it, but it goes on being counted.
    pub level: int,
}

/// What is open behind a piece of markup.
pub open spec fn nested(t: Seq<char>, n: Nesting, p: Piece) -> Nesting {
    let name = tag_name(t, p);
    match p.kind {
        Kind::Start => Nesting {
            open: n.open.push(Open { name, role: role(t, name) }),
            level: n.level + 1,
        },
        Kind::End => if n.open.len() == 0 {
            n
        } else if n.open.last().name == name {
            Nesting { open: n.open.drop_last(), level: n.level - 1 }
        } else {
            Nesting { open: n.open.drop_last(), level: n.level }
        },
        _ => n,
    }
}

/// What is open behind the first `k` pieces of markup.
pub open spec fn nesting(t: Seq<char>, ps: Seq<Piece>, k: int) -> Nesting
    decreases k,
{
    if k <= 0 {
        Nesting { open: seq![], level: 0 }
    } else {
        nested(t, nesting(t, ps, k - 1), ps[k - 1])
    }
}

/// How many of the open elements are of a kind.
pub open spec fn held(open: Seq<Open>, role: Role) -> nat
    decreases open.len(),
{
    if open.len() == 0 {
        0
    } else {
        held(open.drop_last(), role) + (if open.last().role == role {
            1nat
        } else {
            0
        })
    }
}

/// How many elements can be open, that they can be counted in 16 bits.
pub const MAX_OPEN: usize = 65_535;

/// How many elements that are read by recursion can be open: far fewer than fit on the
/// stack of a thread.
pub const MAX_RECURSION: usize = 16;

/// Whether the element that a tag starts can be opened.
pub open spec fn can_be_opened(t: Seq<char>, n: Nesting, p: Piece) -> bool {
    let r = role(t, tag_name(t, p));
    &&& n.level < MAX_OPEN
    &&& r != Role::Plain ==> held(n.open, r) < MAX_RECURSION
}

/// Whether the play times of the element that a tag starts can be read.
pub open spec fn play_times_fit(t: Seq<char>, p: Piece, ascii: bool) -> bool {
    let name = tag_name(t, p);
    let tag = t.subrange(p.start + 1, tag_close(p));
    &&& is_element(t, name, media_space(), "text"@) ==> attributes_fit(tag, "start"@, ascii)
        && attributes_fit(tag, "end"@, ascii)
    &&& is_element(t, name, media_space(), "thumbnail"@) ==> attributes_fit(tag, "time"@, ascii)
    &&& is_element(t, name, itunes_space(), "duration"@) && p.kind == Kind::Start ==> is_play_time(
        text_at(t, p.end),
        ascii,
    )
}

/// Whether a piece of markup can be read where some elements are open.
pub open spec fn piece_fits(t: Seq<char>, n: Nesting, p: Piece, ascii: bool) -> bool {
    p.kind == Kind::Start || p.kind == Kind::Empty ==> can_be_opened(t, n, p) && play_times_fit(
        t,
        p,
        ascii,
    )
}

// ---------------------------------------------------------------------------
// Encodings
// ---------------------------------------------------------------------------

/// Whether UTF-8 is named behind the word for an encoding.
pub open spec fn names_utf8(t: Seq<char>, i: int) -> bool {
    match quote_after(t, i) {
        Some(q) => q + 6 < t.len() && same_ignoring_case(t.subrange(q + 1, q + 6), "utf-8"@) && t[q
            + 6] == t[q],
        None => false,
    }
}

/// Whether an encoding other than UTF-8 is named at a place.
pub open spec fn names_other(t: Seq<char>, i: int) -> bool {
    occurs_at(t, "encoding"@, i) && !names_utf8(t, i + 8)
}

/// Whether a piece of markup declares another encoding than UTF-8.
pub open spec fn declares_other(t: Seq<char>, p: Piece) -> bool {
    &&& p.kind == Kind::Instruction
    &&& occurs_at(t, "<?xml"@, p.start)
    &&& exists|i: int| p.start <= i < p.end && #[trigger] names_other(t, i)
}

/// Whether a text starts as one in UTF-16 does.
pub open spec fn starts_wide(t: Seq<char>) -> bool {
    t.len() >= 4 && (t.take(4) == seq!['\0', '<', '\0', '?'] || t.take(4) == seq![
        '<',
        '\0',
        '?',
        '\0',
    ])
}

/// Whether a text can be taken to be in another encoding than UTF-8.
pub open spec fn is_foreign(t: Seq<char>, ps: Seq<Piece>) -> bool {
    starts_wide(t) || exists|k: int| 0 <= k < ps.len() && declares_other(t, #[trigger] ps[k])
}

/// Whether a text has neither of the characters with which another encoding could spell
/// the names of elements otherwise: NUL, every other byte of ASCII in UTF-16, and escape,
/// which switches alphabets in ISO-2022-JP.
pub open spec fn is_spelt_plainly(t: Seq<char>) -> bool {
    forall|i: int| 0 <= i < t.len() ==> #[trigger] t[i] != '\0' && t[i] != '\u{1b}'
}

// ---------------------------------------------------------------------------
// Texts
// ---------------------------------------------------------------------------

/// Whether a text is read as JSON, and not as XML: a brace comes before the first tag.
pub open spec fn is_json(t: Seq<char>) -> bool {
    up_to(t, '{', 0) < up_to(t, '<', 0)
}

/// Whether a feed is within the limits of its parser: no element is nested too deep, no
/// play time in it has a number that is too long, and its encoding does not hide any.
pub open spec fn is_readable(t: Seq<char>) -> bool {
    let ps = pieces(t, 0);
    is_json(t) || {
        &&& is_foreign(t, ps) ==> is_spelt_plainly(t)
        &&& forall|k: int|
            0 <= k < ps.len() ==> piece_fits(
                t,
                nesting(t, ps, k),
                #[trigger] ps[k],
                is_foreign(t, ps),
            )
    }
}

/// Whether a list holds the prefixes that are bound to a namespace in a text.
spec fn are_bound(list: Seq<Seq<char>>, t: Seq<char>, space: Seq<char>) -> bool {
    forall|p: Seq<char>| #[trigger] list.contains(p) <==> binds(t, p, space)
}

/// The prefixes that a text binds to the namespaces with limits.
struct Prefixes {
    media: Vec<Vec<char>>,
    itunes: Vec<Vec<char>>,
}

impl Prefixes {
    spec fn of(self, t: Seq<char>) -> bool {
        &&& are_bound(self.media.deep_view(), t, media_space())
        &&& are_bound(self.itunes.deep_view(), t, itunes_space())
    }

    fn new(s: &[char]) -> (r: Prefixes)
        ensures
            r.of(s@),
    {
        Prefixes {
            media: bound_prefixes(s, "http://search.yahoo.com/mrss/"),
            itunes: bound_prefixes(s, "http://www.itunes.com/dtds/podcast-1.0.dtd"),
        }
    }

    fn is_media(&self, s: &[char], name: &[char], called: &str) -> (r: bool)
        requires
            self.of(s@),
        ensures
            r == is_element(s@, name@, media_space(), called@),
    {
        let l = local_of(name);
        let p = prefix_of(name);
        same_str(l.as_slice(), called) && is_in(&self.media, p.as_slice())
    }

    fn is_itunes(&self, s: &[char], name: &[char], called: &str) -> (r: bool)
        requires
            self.of(s@),
        ensures
            r == is_element(s@, name@, itunes_space(), called@),
    {
        let l = local_of(name);
        let p = prefix_of(name);
        same_str(l.as_slice(), called) && is_in(&self.itunes, p.as_slice())
    }

    fn role_of(&self, s: &[char], name: &[char]) -> (r: Role)
        requires
            self.of(s@),
        ensures
            r == role(s@, name@),
    {
        if self.is_media(s, name, "content") {
            Role::Content
        } else if self.is_itunes(s, name, "category") {
            Role::Category
        } else {
            Role::Plain
        }
    }

    fn check_play_times(&self, s: &[char], c: &Cut, name: &[char], ascii: bool) -> (r: bool)
        requires
            self.of(s@),
            lies_in(*c, s@),
            c.kind == Kind::Start || c.kind == Kind::Empty,
            name@ == tag_name(s@, c@),
        ensures
            r == play_times_fit(s@, c@, ascii),
    {
        let close: usize = if c.kind == Kind::Empty {
            c.end - 2
        } else {
            c.end - 1
        };
        if self.is_media(s, name, "text") {
            let tag = copy_range(s, c.start + 1, close);
            if !check_attributes(tag.as_slice(), "start", ascii) || !check_attributes(
                tag.as_slice(),
                "end",
                ascii,
            ) {
                return false;
            }
        }
        if self.is_media(s, name, "thumbnail") {
            let tag = copy_range(s, c.start + 1, close);
            if !check_attributes(tag.as_slice(), "time", ascii) {
                return false;
            }
        }
        if self.is_itunes(s, name, "duration") && c.kind == Kind::Start {
            let content = text_from(s, c.end);
            return play_time(content.as_slice(), ascii);
        }
        true
    }
}

/// An open element.
struct OpenTag {
    name: Vec<char>,
    role: Role,
}

/// Open elements, in contracts.
spec fn open_view(tags: Seq<OpenTag>) -> Seq<Open> {
    tags.map_values(|t: OpenTag| Open { name: t.name@, role: t.role })
}

/// What is open at a place in a text, with how many elements of each kind there are.
struct Stack {
    tags: Vec<OpenTag>,
    level: usize,
    contents: usize,
    categories: usize,
}

impl Stack {
    spec fn nesting(self) -> Nesting {
        Nesting { open: open_view(self.tags@), level: self.level as int }
    }

    spec fn wf(self) -> bool {
        &&& self.tags@.len() <= self.level <= MAX_OPEN
        &&& self.contents == held(open_view(self.tags@), Role::Content)
        &&& self.categories == held(open_view(self.tags@), Role::Category)
        &&& self.contents <= MAX_RECURSION
        &&& self.categories <= MAX_RECURSION
    }

    fn new() -> (r: Stack)
        ensures
            r.wf(),
            r.nesting() == (Nesting { open: seq![], level: 0 }),
    {
        let r = Stack { tags: Vec::new(), level: 0, contents: 0, categories: 0 };
        assert(open_view(r.tags@) == Seq::<Open>::empty());
        r
    }

    /// Whether an element of a kind can be opened.
    fn has_room(&self, role: Role) -> (r: bool)
        requires
            self.wf(),
        ensures
            r == (self.level < MAX_OPEN && (role != Role::Plain ==> held(self.nesting().open, role)
                < MAX_RECURSION)),
    {
        self.level < MAX_OPEN && match role {
            Role::Plain => true,
            Role::Content => self.contents < MAX_RECURSION,
            Role::Category => self.categories < MAX_RECURSION,
        }
    }

    /// Opens an element.
    fn push(&mut self, name: Vec<char>, role: Role)
        requires
            old(self).wf(),
            old(self).level < MAX_OPEN,
            role != Role::Plain ==> held(old(self).nesting().open, role) < MAX_RECURSION,
        ensures
            final(self).wf(),
            final(self).nesting() == (Nesting {
                open: old(self).nesting().open.push(Open { name: name@, role }),
                level: old(self).nesting().level + 1,
            }),
    {
        let ghost before = open_view(self.tags@);
        let tag = OpenTag { name, role };
        self.tags.push(tag);
        self.level = self.level + 1;
        match role {
            Role::Plain => {},
            Role::Content => {
                self.contents = self.contents + 1;
            },
            Role::Category => {
                self.categories = self.categories + 1;
            },
        }
        proof {
            let o = Open { name: tag.name@, role };
            assert(open_view(self.tags@) == before.push(o));
            assert(before.push(o).drop_last() == before);
        }
    }

    /// Closes the last element, at an end tag with a name.
    fn close(&mut self, name: &[char])
        requires
            old(self).wf(),
        ensures
            final(self).wf(),
            final(self).nesting() == (if old(self).nesting().open.len() == 0 {
                old(self).nesting()
            } else if old(self).nesting().open.last().name == name@ {
                Nesting {
                    open: old(self).nesting().open.drop_last(),
                    level: old(self).nesting().level - 1,
                }
            } else {
                Nesting {
                    open: old(self).nesting().open.drop_last(),
                    level: old(self).nesting().level,
                }
            }),
    {
        let ghost before = open_view(self.tags@);
        match self.tags.pop() {
            None => {},
            Some(tag) => {
                assert(before.last() == (Open { name: tag.name@, role: tag.role }));
                assert(open_view(self.tags@) == before.drop_last());
                match tag.role {
                    Role::Plain => {},
                    Role::Content => {
                        self.contents = self.contents - 1;
                    },
                    Role::Category => {
                        self.categories = self.categories - 1;
                    },
                }
                if same(tag.name.as_slice(), name) {
                    self.level = self.level - 1;
                }
            },
        }
    }
}

fn utf8_named(s: &[char], i: usize) -> (r: bool)
    requires
        i <= s@.len(),
    ensures
        r == names_utf8(s@, i as int),
{
    let n: usize = s.len();
    match find_quote(s, i) {
        Some(q) => {
            if n - q <= 6 {
                return false;
            }
            let name = copy_range(s, q + 1, q + 6);
            equal_ignoring_case(name.as_slice(), "utf-8") && s[q + 6] == s[q]
        },
        None => false,
    }
}

fn other_declared(s: &[char], c: &Cut) -> (r: bool)
    requires
        lies_in(*c, s@),
    ensures
        r == declares_other(s@, c@),
{
    proof {
        reveal_strlit("encoding");
    }
    let mark = chars_of("<?xml");
    if c.kind != Kind::Instruction || !matches_at(s, mark.as_slice(), c.start) {
        return false;
    }
    let n: usize = s.len();
    let word = chars_of("encoding");
    let mut i: usize = c.start;
    while i < c.end
        invariant
            c.start <= i <= c.end <= s@.len(),
            n == s@.len(),
            word@ == "encoding"@,
            word@.len() == 8,
            c.kind == Kind::Instruction,
            occurs_at(s@, "<?xml"@, c.start as int),
            forall|k: int| c.start <= k < i ==> !#[trigger] names_other(s@, k),
        decreases c.end - i,
    {
        if matches_at(s, word.as_slice(), i) && !utf8_named(s, i + 8) {
            assert(names_other(s@, i as int));
            return true;
        }
        i = i + 1;
    }
    false
}

fn foreign(s: &[char], cuts: &Vec<Cut>) -> (r: bool)
    requires
        forall|k: int| 0 <= k < cuts@.len() ==> lies_in(#[trigger] cuts@[k], s@),
    ensures
        r == is_foreign(s@, cuts_view(cuts@)),
{
    if s.len() >= 4 {
        let head = copy_range(s, 0, 4);
        assert(head@ == s@.take(4));
        if head[1] == '<' && head[3] == '?' && head[0] == '\0' && head[2] == '\0' {
            assert(s@.take(4) == seq!['\0', '<', '\0', '?']);
            return true;
        }
        if head[0] == '<' && head[2] == '?' && head[1] == '\0' && head[3] == '\0' {
            assert(s@.take(4) == seq!['<', '\0', '?', '\0']);
            return true;
        }
    }
    assert(!starts_wide(s@));
    let ghost ps = cuts_view(cuts@);
    let mut k: usize = 0;
    while k < cuts.len()
        invariant
            k <= cuts@.len(),
            ps == cuts_view(cuts@),
            !starts_wide(s@),
            forall|j: int| 0 <= j < cuts@.len() ==> lies_in(#[trigger] cuts@[j], s@),
            forall|j: int| 0 <= j < k ==> !declares_other(s@, #[trigger] ps[j]),
        decreases cuts@.len() - k,
    {
        assert(ps[k as int] == cuts@[k as int]@);
        if other_declared(s, &cuts[k]) {
            return true;
        }
        k = k + 1;
    }
    false
}

fn spelt_plainly(s: &[char]) -> (r: bool)
    ensures
        r == is_spelt_plainly(s@),
{
    let mut i: usize = 0;
    while i < s.len()
        invariant
            i <= s@.len(),
            forall|k: int| 0 <= k < i ==> #[trigger] s@[k] != '\0' && s@[k] != '\u{1b}',
        decreases s@.len() - i,
    {
        if s[i] == '\0' || s[i] == '\u{1b}' {
            assert(!(s@[i as int] != '\0' && s@[i as int] != '\u{1b}'));
            return false;
        }
        i = i + 1;
    }
    true
}

/// Whether a feed is within the limits of its parser.
pub fn can_be_read(text: &str) -> (r: bool)
    ensures
        r == is_readable(text@),
{
    let c = chars_of(text);
    let s = c.as_slice();
    if find_char(s, '{', 0) < find_char(s, '<', 0) {
        return true;
    }
    let cuts = pieces_of(s);
    let ghost ps = pieces(text@, 0);
    let ascii = foreign(s, &cuts);
    if ascii && !spelt_plainly(s) {
        return false;
    }
    let prefixes = Prefixes::new(s);
    let mut stack = Stack::new();
    let mut k: usize = 0;
    while k < cuts.len()
        invariant
            k <= cuts@.len(),
            s@ == text@,
            ps == pieces(text@, 0),
            cuts_view(cuts@) == ps,
            !is_json(text@),
            ascii == is_foreign(text@, ps),
            prefixes.of(text@),
            stack.wf(),
            stack.nesting() == nesting(text@, ps, k as int),
            forall|j: int| 0 <= j < cuts@.len() ==> lies_in(#[trigger] cuts@[j], s@),
            forall|j: int|
                0 <= j < k ==> piece_fits(
                    text@,
                    nesting(text@, ps, j),
                    #[trigger] ps[j],
                    is_foreign(text@, ps),
                ),
        decreases cuts@.len() - k,
    {
        let piece = &cuts[k];
        assert(ps[k as int] == piece@);
        if piece.kind == Kind::Start || piece.kind == Kind::Empty {
            let name = tag_name_of(s, piece);
            let role = prefixes.role_of(s, name.as_slice());
            if !stack.has_room(role) || !prefixes.check_play_times(
                s,
                piece,
                name.as_slice(),
                ascii,
            ) {
                assert(!piece_fits(
                    text@,
                    nesting(text@, ps, k as int),
                    ps[k as int],
                    is_foreign(text@, ps),
                ));
                return false;
            }
            if piece.kind == Kind::Start {
                stack.push(name, role);
            }
        } else if piece.kind == Kind::End {
            let name = tag_name_of(s, piece);
            stack.close(name.as_slice());
        }
        k = k + 1;
    }
    true
}

// ---------------------------------------------------------------------------
// Laws
// ---------------------------------------------------------------------------

proof fn lemma_level(t: Seq<char>, ps: Seq<Piece>, k: int)
    requires
        0 <= k,
    ensures
        nesting(t, ps, k).level <= k,
    decreases k,
{
    if k > 0 {
        lemma_level(t, ps, k - 1);
    }
}

/// A feed in UTF-8 that binds no prefix to the namespaces with play times can be read, as
/// long as it has no more than 65,535 tags.
pub proof fn law_plain_feeds_can_be_read(t: Seq<char>)
    requires
        !is_foreign(t, pieces(t, 0)),
        pieces(t, 0).len() <= MAX_OPEN,
        forall|p: Seq<char>| !binds(t, p, media_space()) && !binds(t, p, itunes_space()),
    ensures
        is_readable(t),
{
    let ps = pieces(t, 0);
    assert forall|k: int| 0 <= k < ps.len() implies piece_fits(
        t,
        nesting(t, ps, k),
        #[trigger] ps[k],
        is_foreign(t, ps),
    ) by {
        lemma_level(t, ps, k);
    }
}

} // verus!
