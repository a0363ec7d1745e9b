//! Markup: how a reader of XML cuts a text into tags, comments, character data,
//! instructions and document types.
//!
//! The cuts are those of `quick-xml`, which checks little: a tag goes on to the next `>`
//! that is in no quotes, whatever else is in it.

use vstd::prelude::*;

use crate::text::{
    chars_of, copy_range, find_from, index_from, lemma_find_from, matches_at, occurs_at,
};
use crate::url::{equal_ignoring_case, same_ignoring_case};

verus! {

// ---------------------------------------------------------------------------
// Places
// ---------------------------------------------------------------------------

/// Whether a character separates the parts of a tag.
pub open spec fn is_gap(c: char) -> bool {
    c == ' ' || c == '\t' || c == '\n' || c == '\r'
}

/// Whether a character starts and ends the value of an attribute.
pub open spec fn is_quote(c: char) -> bool {
    c == '"' || c == '\''
}

/// The first place from `i` on where no gap is.
pub open spec fn past_gap(t: Seq<char>, i: int) -> int
    decreases t.len() - i,
{
    if 0 <= i < t.len() && is_gap(t[i]) {
        past_gap(t, i + 1)
    } else {
        i
    }
}

/// The first place from `i` on where a character is; the end of the text, if it is not
/// there.
pub open spec fn up_to(t: Seq<char>, c: char, i: int) -> int
    decreases t.len() - i,
{
    if 0 <= i < t.len() && t[i] != c {
        up_to(t, c, i + 1)
    } else {
        i
    }
}

/// Where the value of an attribute starts whose name ends at a place: at a quote behind
/// an equals sign.
pub open spec fn quote_after(t: Seq<char>, i: int) -> Option<int> {
    let e = past_gap(t, i);
    let q = past_gap(t, e + 1);
    if e < t.len() && t[e] == '=' && q < t.len() && is_quote(t[q]) {
        Some(q)
    } else {
        None
    }
}

/// Whether a character separates the parts of a tag.
pub fn gap(c: char) -> (r: bool)
    ensures
        r == is_gap(c),
{
    c == ' ' || c == '\t' || c == '\n' || c == '\r'
}

/// Whether a character starts and ends the value of an attribute.
pub fn quote(c: char) -> (r: bool)
    ensures
        r == is_quote(c),
{
    c == '"' || c == '\''
}

fn skip_gap(s: &[char], from: usize) -> (r: usize)
    requires
        from <= s@.len(),
    ensures
        r == past_gap(s@, from as int),
        from <= r <= s@.len(),
{
    let mut i: usize = from;
    while i < s.len() && gap(s[i])
        invariant
            from <= i <= s@.len(),
            past_gap(s@, from as int) == past_gap(s@, i as int),
        decreases s@.len() - i,
    {
        i = i + 1;
    }
    i
}

/// The first place from `from` on where a character is; the end of the text, if it is not
/// there.
pub fn find_char(s: &[char], c: char, from: usize) -> (r: usize)
    requires
        from <= s@.len(),
    ensures
        r == up_to(s@, c, from as int),
        from <= r <= s@.len(),
        r < s@.len() ==> s@[r as int] == c,
{
    let mut i: usize = from;
    while i < s.len() && s[i] != c
        invariant
            from <= i <= s@.len(),
            up_to(s@, c, from as int) == up_to(s@, c, i as int),
        decreases s@.len() - i,
    {
        i = i + 1;
    }
    i
}

/// Where the value of an attribute starts whose name ends at a place.
pub fn find_quote(s: &[char], i: usize) -> (r: Option<usize>)
    requires
        i <= s@.len(),
    ensures
        match r {
            Some(q) => quote_after(s@, i as int) == Some(q as int) && i < q < s@.len(),
            None => quote_after(s@, i as int) is None,
        },
{
    let e: usize = skip_gap(s, i);
    if e >= s.len() || s[e] != '=' {
        return None;
    }
    let q: usize = skip_gap(s, e + 1);
    if q >= s.len() || !quote(s[q]) {
        return None;
    }
    Some(q)
}

// ---------------------------------------------------------------------------
// Pieces
// ---------------------------------------------------------------------------

/// What a piece of markup is.
#[derive(Clone, Copy, PartialEq, Eq, Structural)]
pub enum Kind {
    /// The tag at the start of an element.
    Start,
    /// The tag of an element that is closed in it.
    Empty,
    /// The tag at the end of an element.
    End,
    /// Character data.
    Data,
    /// An instruction, or the declaration of the text.
    Instruction,
    /// A comment, or a document type.
    Aside,
}

/// The first place from `i` on where a `>` is in no quotes; the end of the text, if there
/// is none.
pub open spec fn tag_end(t: Seq<char>, i: int, within: Option<char>) -> int
    decreases t.len() - i,
{
    if i < 0 || i >= t.len() {
        i
    } else {
        match within {
            Some(q) => tag_end(
                t,
                i + 1,
                if t[i] == q {
                    None
                } else {
                    within
                },
            ),
            None => if t[i] == '>' {
                i
            } else if is_quote(t[i]) {
                tag_end(t, i + 1, Some(t[i]))
            } else {
                tag_end(t, i + 1, None)
            },
        }
    }
}

proof fn lemma_tag_end(t: Seq<char>, i: int, within: Option<char>)
    ensures
        tag_end(t, i, within) >= i,
    decreases t.len() - i,
{
    if 0 <= i < t.len() {
        lemma_tag_end(t, i + 1, None);
        lemma_tag_end(t, i + 1, within);
        lemma_tag_end(t, i + 1, Some(t[i]));
    }
}

fn find_tag_end(s: &[char], from: usize) -> (r: usize)
    requires
        from <= s@.len(),
    ensures
        r == tag_end(s@, from as int, None),
        from <= r <= s@.len(),
{
    let mut i: usize = from;
    let mut within: Option<char> = None;
    while i < s.len()
        invariant
            from <= i <= s@.len(),
            tag_end(s@, from as int, None) == tag_end(s@, i as int, within),
        decreases s@.len() - i,
    {
        match within {
            Some(q) => {
                if s[i] == q {
                    within = None;
                }
            },
            None => {
                if s[i] == '>' {
                    return i;
                }
                if quote(s[i]) {
                    within = Some(s[i]);
                }
            },
        }
        i = i + 1;
    }
    i
}

/// Behind the first occurrence of a mark from `i` on.
pub open spec fn behind(t: Seq<char>, mark: Seq<char>, i: int) -> Option<int> {
    match find_from(t, mark, i) {
        Some(k) => Some(k + mark.len()),
        None => None,
    }
}

fn find_behind(s: &[char], mark: &str, from: usize) -> (r: Option<usize>)
    ensures
        match r {
            Some(e) => behind(s@, mark@, from as int) == Some(e as int) && from + mark@.len() <= e
                <= s@.len(),
            None => behind(s@, mark@, from as int) is None,
        },
{
    let m = chars_of(mark);
    let n: usize = s.len();
    match index_from(s, m.as_slice(), from) {
        Some(k) => {
            proof {
                lemma_find_from(s@, mark@, from as int);
            }
            Some(k + m.len())
        },
        None => None,
    }
}

/// Behind a place that was found in a text, if it was.
pub open spec fn next_place(t: Seq<char>, e: int) -> Option<int> {
    if e < t.len() {
        Some(e + 1)
    } else {
        None
    }
}

/// Where a declaration in a document type ends, of which the `<` stands before a place. In
/// those of entities, attributes and notations a `>` in quotes does not count.
pub open spec fn declaration_end(t: Seq<char>, j: int) -> Option<int> {
    if occurs_at(t, "?"@, j) {
        behind(t, "?>"@, j + 1)
    } else if occurs_at(t, "!--"@, j) {
        behind(t, "-->"@, j + 3)
    } else if occurs_at(t, "!ENTITY"@, j) {
        next_place(t, tag_end(t, j + 7, None))
    } else if occurs_at(t, "!ATTLIST"@, j) {
        next_place(t, tag_end(t, j + 8, None))
    } else if occurs_at(t, "!NOTATION"@, j) {
        next_place(t, tag_end(t, j + 9, None))
    } else {
        next_place(t, up_to(t, '>', j))
    }
}

fn matches_str(s: &[char], mark: &str, i: usize) -> (r: bool)
    ensures
        r == occurs_at(s@, mark@, i as int),
{
    let m = chars_of(mark);
    matches_at(s, m.as_slice(), i)
}

fn find_declaration_end(s: &[char], j: usize) -> (r: Option<usize>)
    requires
        j <= s@.len(),
    ensures
        match r {
            Some(e) => declaration_end(s@, j as int) == Some(e as int) && j < e <= s@.len(),
            None => declaration_end(s@, j as int) is None,
        },
{
    proof {
        reveal_strlit("?");
        reveal_strlit("?>");
        reveal_strlit("!--");
        reveal_strlit("-->");
        reveal_strlit("!ENTITY");
        reveal_strlit("!ATTLIST");
        reveal_strlit("!NOTATION");
    }
    let n: usize = s.len();
    let e: usize = if matches_str(s, "?", j) {
        return find_behind(s, "?>", j + 1);
    } else if matches_str(s, "!--", j) {
        return find_behind(s, "-->", j + 3);
    } else if matches_str(s, "!ENTITY", j) {
        find_tag_end(s, j + 7)
    } else if matches_str(s, "!ATTLIST", j) {
        find_tag_end(s, j + 8)
    } else if matches_str(s, "!NOTATION", j) {
        find_tag_end(s, j + 9)
    } else {
        find_char(s, '>', j)
    };
    if e < n {
        Some(e + 1)
    } else {
        None
    }
}

/// How far a document type was read.
#[derive(Clone, Copy, PartialEq, Eq, Structural)]
pub enum Doctype {
    /// Up to the declarations in it.
    Before,
    /// Into a literal in quotes.
    Quoted(char),
    /// Into the declarations.
    Inside,
    /// Behind the declarations.
    After,
}

/// The place of the `>` at the end of a document type, if there is one.
pub open spec fn doctype_end(t: Seq<char>, i: int, state: Doctype) -> Option<int>
    decreases t.len() - i,
{
    if i < 0 || i >= t.len() {
        None
    } else {
        match state {
            Doctype::Before => if t[i] == '>' {
                Some(i)
            } else if is_quote(t[i]) {
                doctype_end(t, i + 1, Doctype::Quoted(t[i]))
            } else if t[i] == '[' {
                doctype_end(t, i + 1, Doctype::Inside)
            } else {
                doctype_end(t, i + 1, state)
            },
            Doctype::Quoted(q) => if t[i] == q {
                doctype_end(t, i + 1, Doctype::Before)
            } else {
                doctype_end(t, i + 1, state)
            },
            Doctype::Inside => if t[i] == ']' {
                doctype_end(t, i + 1, Doctype::After)
            } else if t[i] == '<' {
                match declaration_end(t, i + 1) {
                    Some(e) => if i < e <= t.len() {
                        doctype_end(t, e, state)
                    } else {
                        None
                    },
                    None => None,
                }
            } else {
                doctype_end(t, i + 1, state)
            },
            Doctype::After => if t[i] == '>' {
                Some(i)
            } else {
                doctype_end(t, i + 1, state)
            },
        }
    }
}

fn find_doctype_end(s: &[char], from: usize) -> (r: Option<usize>)
    requires
        from <= s@.len(),
    ensures
        match r {
            Some(e) => doctype_end(s@, from as int, Doctype::Before) == Some(e as int) && from <= e
                < s@.len(),
            None => doctype_end(s@, from as int, Doctype::Before) is None,
        },
{
    let mut i: usize = from;
    let mut state = Doctype::Before;
    while i < s.len()
        invariant
            from <= i <= s@.len(),
            doctype_end(s@, from as int, Doctype::Before) == doctype_end(s@, i as int, state),
        decreases s@.len() - i,
    {
        let c = s[i];
        match state {
            Doctype::Before => {
                if c == '>' {
                    return Some(i);
                }
                if quote(c) {
                    state = Doctype::Quoted(c);
                } else if c == '[' {
                    state = Doctype::Inside;
                }
            },
            Doctype::Quoted(q) => {
                if c == q {
                    state = Doctype::Before;
                }
            },
            Doctype::Inside => {
                if c == ']' {
                    state = Doctype::After;
                } else if c == '<' {
                    match find_declaration_end(s, i + 1) {
                        Some(e) => {
                            i = e - 1;
                        },
                        None => {
                            return None;
                        },
                    }
                }
            },
            Doctype::After => {
                if c == '>' {
                    return Some(i);
                }
            },
        }
        i = i + 1;
    }
    None
}

/// A piece of markup that starts at a `<` and is followed by a `!`, with where it ends.
pub open spec fn cut_bang(t: Seq<char>, p: int) -> Option<(Kind, int)> {
    if occurs_at(t, "<![CDATA["@, p) {
        match behind(t, "]]>"@, p + 9) {
            Some(e) => Some((Kind::Data, e)),
            None => None,
        }
    } else if occurs_at(t, "<!--"@, p) {
        match behind(t, "-->"@, p + 4) {
            Some(e) => Some((Kind::Aside, e)),
            None => None,
        }
    } else if p + 9 <= t.len() && same_ignoring_case(t.subrange(p, p + 9), "<!DOCTYPE"@) {
        match doctype_end(t, p + 2, Doctype::Before) {
            Some(e) => Some((Kind::Aside, e + 1)),
            None => None,
        }
    } else {
        None
    }
}

/// The piece of markup that starts at a `<`, with where it ends. `None` where it does not
/// end, or is nothing that is known: then the rest of the text is not read.
pub open spec fn cut(t: Seq<char>, p: int) -> Option<(Kind, int)> {
    if p + 1 >= t.len() {
        None
    } else if t[p + 1] == '!' {
        cut_bang(t, p)
    } else if t[p + 1] == '?' {
        match behind(t, "?>"@, p + 1) {
            Some(e) => if e > p + 3 {
                Some((Kind::Instruction, e))
            } else {
                None
            },
            None => None,
        }
    } else {
        let e = tag_end(t, p + 1, None);
        if e >= t.len() {
            None
        } else if t[p + 1] == '/' {
            Some((Kind::End, e + 1))
        } else if t[e - 1] == '/' {
            Some((Kind::Empty, e + 1))
        } else {
            Some((Kind::Start, e + 1))
        }
    }
}

fn find_cut_bang(s: &[char], p: usize) -> (r: Option<(Kind, usize)>)
    requires
        p < s@.len(),
    ensures
        match r {
            Some((k, e)) => cut_bang(s@, p as int) == Some((k, e as int)) && p + 1 < e <= s@.len(),
            None => cut_bang(s@, p as int) is None,
        },
        r matches Some((k, e)) ==> piece_is_long_enough(k, p as int, e as int),
{
    proof {
        reveal_strlit("<![CDATA[");
        reveal_strlit("]]>");
        reveal_strlit("<!--");
        reveal_strlit("-->");
        reveal_strlit("<!DOCTYPE");
    }
    let n: usize = s.len();
    if matches_str(s, "<![CDATA[", p) {
        match find_behind(s, "]]>", p + 9) {
            Some(e) => Some((Kind::Data, e)),
            None => None,
        }
    } else if matches_str(s, "<!--", p) {
        match find_behind(s, "-->", p + 4) {
            Some(e) => Some((Kind::Aside, e)),
            None => None,
        }
    } else {
        if n - p < 9 {
            return None;
        }
        let mark = copy_range(s, p, p + 9);
        if !equal_ignoring_case(mark.as_slice(), "<!DOCTYPE") {
            return None;
        }
        match find_doctype_end(s, p + 2) {
            Some(e) => Some((Kind::Aside, e + 1)),
            None => None,
        }
    }
}

/// The piece of markup that starts at a `<`, with where it ends.
pub fn find_cut(s: &[char], p: usize) -> (r: Option<(Kind, usize)>)
    requires
        p < s@.len(),
        s@[p as int] == '<',
    ensures
        match r {
            Some((k, e)) => cut(s@, p as int) == Some((k, e as int)) && p + 1 < e <= s@.len(),
            None => cut(s@, p as int) is None,
        },
        r matches Some((k, e)) ==> piece_is_long_enough(k, p as int, e as int),
{
    proof {
        reveal_strlit("?>");
    }
    let n: usize = s.len();
    if p + 1 >= n {
        return None;
    }
    let c = s[p + 1];
    if c == '!' {
        return find_cut_bang(s, p);
    }
    if c == '?' {
        return match find_behind(s, "?>", p + 1) {
            Some(e) => if e > p + 3 {
                Some((Kind::Instruction, e))
            } else {
                None
            },
            None => None,
        };
    }
    let e: usize = find_tag_end(s, p + 1);
    if e >= n {
        return None;
    }
    proof {
        lemma_tag_end(s@, p + 2, None);
    }
    if c == '/' {
        Some((Kind::End, e + 1))
    } else if s[e - 1] == '/' {
        Some((Kind::Empty, e + 1))
    } else {
        Some((Kind::Start, e + 1))
    }
}

/// Whether a piece has room for the marks around it.
pub open spec fn piece_is_long_enough(kind: Kind, start: int, end: int) -> bool {
    match kind {
        Kind::Start => start + 2 <= end,
        Kind::Empty | Kind::End => start + 3 <= end,
        Kind::Data => start + 12 <= end,
        _ => true,
    }
}

/// A piece of markup in a text, in contracts.
pub struct Piece {
    /// What it is.
    pub kind: Kind,
    /// Where it starts.
    pub start: int,
    /// Where it ends.
    pub end: int,
}

/// A piece of markup in a text.
pub struct Cut {
    /// What it is.
    pub kind: Kind,
    /// Where it starts.
    pub start: usize,
    /// Where it ends.
    pub end: usize,
}

impl View for Cut {
    type V = Piece;

    open spec fn view(&self) -> Piece {
        Piece { kind: self.kind, start: self.start as int, end: self.end as int }
    }
}

/// The pieces of markup in a text, from a place on.
pub open spec fn pieces(t: Seq<char>, i: int) -> Seq<Piece>
    decreases t.len() - i,
{
    let p = up_to(t, '<', i);
    if i <= p < t.len() {
        match cut(t, p) {
            Some((kind, e)) => if p < e <= t.len() {
                seq![Piece { kind, start: p, end: e }] + pieces(t, e)
            } else {
                seq![]
            },
            None => seq![],
        }
    } else {
        seq![]
    }
}

/// Pieces of markup, in contracts.
pub open spec fn cuts_view(cuts: Seq<Cut>) -> Seq<Piece> {
    cuts.map_values(|c: Cut| c@)
}

/// Whether a piece lies in a text.
pub open spec fn lies_in(c: Cut, s: Seq<char>) -> bool {
    c.start < c.end <= s.len() && piece_is_long_enough(c.kind, c.start as int, c.end as int)
}

/// The pieces of markup in a text.
pub fn pieces_of(s: &[char]) -> (r: Vec<Cut>)
    ensures
        cuts_view(r@) == pieces(s@, 0),
        forall|k: int| 0 <= k < r@.len() ==> lies_in(#[trigger] r@[k], s@),
{
    let mut out: Vec<Cut> = Vec::new();
    let mut i: usize = 0;
    assert(cuts_view(out@) + pieces(s@, 0) == pieces(s@, 0));
    loop
        invariant
            i <= s@.len(),
            cuts_view(out@) + pieces(s@, i as int) == pieces(s@, 0),
            forall|k: int| 0 <= k < out@.len() ==> lies_in(#[trigger] out@[k], s@),
        decreases s@.len() - i,
    {
        let p: usize = find_char(s, '<', i);
        let found = if p < s.len() {
            find_cut(s, p)
        } else {
            None
        };
        match found {
            None => {
                assert(pieces(s@, i as int) == Seq::<Piece>::empty());
                assert(cuts_view(out@) == pieces(s@, 0));
                return out;
            },
            Some((kind, end)) => {
                let ghost before = cuts_view(out@);
                let c = Cut { kind, start: p, end };
                out.push(c);
                proof {
                    assert(cuts_view(out@) == before.push(c@));
                    assert(before + (seq![c@] + pieces(s@, end as int)) == before.push(c@) + pieces(
                        s@,
                        end as int,
                    ));
                }
                i = end;
            },
        }
    }
}

// ---------------------------------------------------------------------------
// Names
// ---------------------------------------------------------------------------

/// The first place from `i` on, but before `hi`, where a gap is; else `hi`.
pub open spec fn name_end(t: Seq<char>, i: int, hi: int) -> int
    decreases hi - i,
{
    if 0 <= i < hi && !is_gap(t[i]) {
        name_end(t, i + 1, hi)
    } else {
        i
    }
}

/// The last place down from `hi`, but not before `lo`, that has no gap before it.
pub open spec fn before_gap(t: Seq<char>, lo: int, hi: int) -> int
    decreases hi - lo,
{
    if lo < hi && is_gap(t[hi - 1]) {
        before_gap(t, lo, hi - 1)
    } else {
        hi
    }
}

/// Where what stands in a tag ends.
pub open spec fn tag_close(p: Piece) -> int {
    if p.kind == Kind::Empty {
        p.end - 2
    } else {
        p.end - 1
    }
}

/// The name in a tag. Behind that of an end tag only gaps are left out.
pub open spec fn tag_name(t: Seq<char>, p: Piece) -> Seq<char> {
    if p.kind == Kind::End {
        t.subrange(p.start + 2, before_gap(t, p.start + 2, tag_close(p)))
    } else {
        t.subrange(p.start + 1, name_end(t, p.start + 1, tag_close(p)))
    }
}

/// The name in a tag.
pub fn tag_name_of(s: &[char], c: &Cut) -> (r: Vec<char>)
    requires
        lies_in(*c, s@),
        c.kind == Kind::Start || c.kind == Kind::Empty || c.kind == Kind::End,
    ensures
        r@ == tag_name(s@, c@),
{
    let close: usize = if c.kind == Kind::Empty {
        c.end - 2
    } else {
        c.end - 1
    };
    if c.kind == Kind::End {
        let lo: usize = c.start + 2;
        let mut hi: usize = close;
        while lo < hi && gap(s[hi - 1])
            invariant
                lo <= hi <= close <= s@.len(),
                before_gap(s@, lo as int, close as int) == before_gap(s@, lo as int, hi as int),
            decreases hi,
        {
            hi = hi - 1;
        }
        copy_range(s, lo, hi)
    } else {
        let lo: usize = c.start + 1;
        let mut i: usize = lo;
        while i < close && !gap(s[i])
            invariant
                lo <= i <= close <= s@.len(),
                name_end(s@, lo as int, close as int) == name_end(s@, i as int, close as int),
            decreases close - i,
        {
            i = i + 1;
        }
        copy_range(s, lo, i)
    }
}

/// What stands before the first colon of a name; nothing, if there is none.
pub open spec fn prefix(name: Seq<char>) -> Seq<char> {
    let i = up_to(name, ':', 0);
    if i < name.len() {
        name.take(i)
    } else {
        seq![]
    }
}

/// What stands behind the last colon before a place.
pub open spec fn behind_colon(name: Seq<char>, i: int) -> Seq<char>
    decreases i,
{
    if i <= 0 || i > name.len() {
        name
    } else if name[i - 1] == ':' {
        name.skip(i)
    } else {
        behind_colon(name, i - 1)
    }
}

/// What stands behind the last colon of a name; the name, if there is none.
pub open spec fn local(name: Seq<char>) -> Seq<char> {
    behind_colon(name, name.len() as int)
}

/// What stands before the first colon of a name.
pub fn prefix_of(name: &[char]) -> (r: Vec<char>)
    ensures
        r@ == prefix(name@),
{
    let i: usize = find_char(name, ':', 0);
    if i < name.len() {
        let r = copy_range(name, 0, i);
        assert(r@ == name@.take(i as int));
        r
    } else {
        Vec::new()
    }
}

/// What stands behind the last colon of a name.
pub fn local_of(name: &[char]) -> (r: Vec<char>)
    ensures
        r@ == local(name@),
{
    let n: usize = name.len();
    let mut i: usize = n;
    while i > 0 && name[i - 1] != ':'
        invariant
            i <= n == name@.len(),
            local(name@) == behind_colon(name@, i as int),
        decreases i,
    {
        i = i - 1;
    }
    let r = copy_range(name, i, n);
    assert(r@ == name@.skip(i as int));
    assert(name@.skip(0) == name@);
    r
}

} // verus!
