//! Text as sequences of characters: searching, trimming, splitting, joining and
//! replacing.

use vstd::prelude::*;

verus! {

// ---------------------------------------------------------------------------
// Standard library items without a specification in vstd
// ---------------------------------------------------------------------------

/// `String::push` appends the character to the end of the string.
pub assume_specification[ String::push ](s: &mut String, c: char)
    ensures
        final(s)@ == old(s)@.push(c),
;

/// The lowercase equivalent of a text, as `str::to_lowercase` computes it from
/// the Unicode tables (context-dependent mappings such as the final sigma
/// included).
pub uninterp spec fn lowercase(s: Seq<char>) -> Seq<char>;

/// `str::to_lowercase` depends on the text alone; its result is called
/// [`lowercase`]. Nothing else is claimed of it.
pub assume_specification[ str::to_lowercase ](s: &str) -> (r: String)
    ensures
        r@ == lowercase(s@),
;

/// Whether a character has the Unicode property `Alphabetic`.
pub uninterp spec fn alphabetic(c: char) -> bool;

/// `char::is_alphabetic` looks the character up in the Unicode tables; its
/// result is called [`alphabetic`].
pub assume_specification[ char::is_alphabetic ](c: char) -> (r: bool)
    ensures
        r == alphabetic(c),
;

/// Whether a character is alphabetic or numeric in Unicode's sense.
pub uninterp spec fn alphanumeric(c: char) -> bool;

/// `char::is_alphanumeric` looks the character up in the Unicode tables; its
/// result is called [`alphanumeric`].
pub assume_specification[ char::is_alphanumeric ](c: char) -> (r: bool)
    ensures
        r == alphanumeric(c),
;

// ---------------------------------------------------------------------------
// Strings and character vectors
// ---------------------------------------------------------------------------

/// The characters of a string.
pub fn chars_of(s: &str) -> (r: Vec<char>)
    ensures
        r@ == s@,
{
    let mut out: Vec<char> = Vec::new();
    for c in it: s.chars()
        invariant
            out@ == s@.take(it.index()),
            it.seq() == s@,
    {
        out.push(c);
    }
    assert(s@.take(s@.len() as int) == s@);
    out
}

/// The string made of the given characters.
pub fn string_of(v: &[char]) -> (r: String)
    ensures
        r@ == v@,
{
    let mut out = String::new();
    let n: usize = v.len();
    let mut i: usize = 0;
    while i < n
        invariant
            0 <= i <= n,
            n == v@.len(),
            out@ == v@.take(i as int),
        decreases n - i,
    {
        out.push(v[i]);
        i += 1;
        assert(v@.take(i as int) == v@.take(i - 1).push(v@[i - 1]));
    }
    assert(v@.take(n as int) == v@);
    out
}

/// Appends all of `more` to `out`.
pub fn append(out: &mut Vec<char>, more: &[char])
    ensures
        final(out)@ == old(out)@ + more@,
{
    let n: usize = more.len();
    let mut i: usize = 0;
    while i < n
        invariant
            0 <= i <= n,
            n == more@.len(),
            out@ == old(out)@ + more@.take(i as int),
        decreases n - i,
    {
        out.push(more[i]);
        i += 1;
        assert(more@.take(i as int) == more@.take(i - 1).push(more@[i - 1]));
        assert(out@ == old(out)@ + more@.take(i as int));
    }
    assert(more@.take(n as int) == more@);
}

/// Appends the characters of a string to `out`.
pub fn append_str(out: &mut Vec<char>, more: &str)
    ensures
        final(out)@ == old(out)@ + more@,
{
    let m = chars_of(more);
    append(out, m.as_slice());
}

/// A copy of the characters in `lo..hi`.
pub fn copy_range(s: &[char], lo: usize, hi: usize) -> (r: Vec<char>)
    requires
        lo <= hi <= s@.len(),
    ensures
        r@ == s@.subrange(lo as int, hi as int),
{
    let mut out: Vec<char> = Vec::new();
    let mut i: usize = lo;
    while i < hi
        invariant
            lo <= i <= hi <= s@.len(),
            out@ == s@.subrange(lo as int, i as int),
        decreases hi - i,
    {
        out.push(s[i]);
        i += 1;
        assert(s@.subrange(lo as int, i as int) == s@.subrange(lo as int, i - 1).push(s@[i - 1]));
    }
    out
}

/// Whether two texts are the same.
pub fn same(a: &[char], b: &[char]) -> (r: bool)
    ensures
        r == (a@ == b@),
{
    if a.len() != b.len() {
        return false;
    }
    let n: usize = a.len();
    let mut i: usize = 0;
    while i < n
        invariant
            0 <= i <= n,
            n == a@.len(),
            n == b@.len(),
            forall|j: int| 0 <= j < i ==> a@[j] == b@[j],
        decreases n - i,
    {
        if a[i] != b[i] {
            return false;
        }
        i += 1;
    }
    assert(a@ == b@);
    true
}

/// Whether a text is the same as a string.
pub fn same_str(a: &[char], b: &str) -> (r: bool)
    ensures
        r == (a@ == b@),
{
    let bc = chars_of(b);
    same(a, bc.as_slice())
}

/// Whether two strings are the same.
pub fn str_same(a: &str, b: &str) -> (r: bool)
    ensures
        r == (a@ == b@),
{
    let ac = chars_of(a);
    same_str(ac.as_slice(), b)
}

// ---------------------------------------------------------------------------
// Character classes
// ---------------------------------------------------------------------------

/// The characters with the Unicode property `White_Space`.
pub open spec fn is_space(c: char) -> bool {
    let n = c as u32;
    ||| 0x09 <= n <= 0x0d
    ||| n == 0x20
    ||| n == 0x85
    ||| n == 0xa0
    ||| n == 0x1680
    ||| 0x2000 <= n <= 0x200a
    ||| n == 0x2028
    ||| n == 0x2029
    ||| n == 0x202f
    ||| n == 0x205f
    ||| n == 0x3000
}

/// Classes of characters that are trimmed off the ends of texts.
#[derive(Clone, Copy)]
pub enum CharClass {
    /// White space.
    Space,
    /// Everything that is neither alphabetic nor numeric.
    NotAlphanumeric,
    /// A single character.
    Only(char),
    /// The punctuation that ends a word: `,` `.` `;` `:` `!` `?`.
    WordEnd,
}

impl CharClass {
    /// Whether the class holds a character.
    pub open spec fn holds(self, c: char) -> bool {
        match self {
            CharClass::Space => is_space(c),
            CharClass::NotAlphanumeric => !alphanumeric(c),
            CharClass::Only(d) => c == d,
            CharClass::WordEnd => c == ',' || c == '.' || c == ';' || c == ':' || c == '!' || c
                == '?',
        }
    }

    /// Whether the class holds a character.
    pub fn has(self, c: char) -> (r: bool)
        ensures
            r == self.holds(c),
    {
        match self {
            CharClass::Space => whitespace(c),
            CharClass::NotAlphanumeric => !c.is_alphanumeric(),
            CharClass::Only(d) => c == d,
            CharClass::WordEnd => c == ',' || c == '.' || c == ';' || c == ':' || c == '!' || c
                == '?',
        }
    }
}

/// Whether a character has the Unicode property `White_Space`.
pub fn whitespace(c: char) -> (r: bool)
    ensures
        r == is_space(c),
{
    let n: u32 = c as u32;
    (0x09 <= n && n <= 0x0d) || n == 0x20 || n == 0x85 || n == 0xa0 || n == 0x1680 || (0x2000 <= n
        && n <= 0x200a) || n == 0x2028 || n == 0x2029 || n == 0x202f || n == 0x205f || n == 0x3000
}

// ---------------------------------------------------------------------------
// Trimming
// ---------------------------------------------------------------------------

/// A text without its leading characters of a class.
pub open spec fn trim_start(s: Seq<char>, k: CharClass) -> Seq<char>
    decreases s.len(),
{
    if s.len() > 0 && k.holds(s[0]) {
        trim_start(s.skip(1), k)
    } else {
        s
    }
}

/// A text without its trailing characters of a class.
pub open spec fn trim_end(s: Seq<char>, k: CharClass) -> Seq<char>
    decreases s.len(),
{
    if s.len() > 0 && k.holds(s.last()) {
        trim_end(s.drop_last(), k)
    } else {
        s
    }
}

/// A text without its leading and trailing characters of a class.
pub open spec fn trim(s: Seq<char>, k: CharClass) -> Seq<char> {
    trim_end(trim_start(s, k), k)
}

/// A text without leading and trailing white space.
pub open spec fn trimmed(s: Seq<char>) -> Seq<char> {
    trim(s, CharClass::Space)
}

/// The text without its leading characters of a class.
pub fn trim_start_of(s: &[char], k: CharClass) -> (r: Vec<char>)
    ensures
        r@ == trim_start(s@, k),
{
    let n: usize = s.len();
    let mut i: usize = 0;
    assert(s@.skip(0) == s@);
    while i < n && k.has(s[i])
        invariant
            0 <= i <= n,
            n == s@.len(),
            trim_start(s@, k) == trim_start(s@.skip(i as int), k),
        decreases n - i,
    {
        assert(s@.skip(i as int).skip(1) == s@.skip(i + 1));
        i += 1;
    }
    assert(s@.skip(i as int) == s@.subrange(i as int, n as int));
    copy_range(s, i, n)
}

/// The text without its trailing characters of a class.
pub fn trim_end_of(s: &[char], k: CharClass) -> (r: Vec<char>)
    ensures
        r@ == trim_end(s@, k),
{
    let mut n: usize = s.len();
    assert(s@.take(n as int) == s@);
    while n > 0 && k.has(s[n - 1])
        invariant
            0 <= n <= s@.len(),
            trim_end(s@, k) == trim_end(s@.take(n as int), k),
        decreases n,
    {
        assert(s@.take(n as int).drop_last() == s@.take(n - 1));
        n -= 1;
    }
    assert(s@.take(n as int) == s@.subrange(0, n as int));
    copy_range(s, 0, n)
}

/// The text without its leading and trailing characters of a class.
pub fn trim_of(s: &[char], k: CharClass) -> (r: Vec<char>)
    ensures
        r@ == trim(s@, k),
{
    let t = trim_start_of(s, k);
    trim_end_of(t.as_slice(), k)
}

/// The string without leading and trailing white space.
pub fn trim_str(s: &str) -> (r: String)
    ensures
        r@ == trimmed(s@),
{
    let c = chars_of(s);
    let t = trim_of(c.as_slice(), CharClass::Space);
    string_of(t.as_slice())
}

/// Whether nothing but white space is in the string.
pub fn is_blank(s: &str) -> (r: bool)
    ensures
        r == (trimmed(s@).len() == 0),
{
    let t = trim_str(s);
    t.as_str().is_empty()
}

// ---------------------------------------------------------------------------
// Searching
// ---------------------------------------------------------------------------

/// Whether `needle` stands in `hay` at position `i`.
pub open spec fn occurs_at<T>(hay: Seq<T>, needle: Seq<T>, i: int) -> bool {
    0 <= i && i + needle.len() <= hay.len() && hay.subrange(i, i + needle.len()) == needle
}

/// Whether `needle` stands somewhere in `hay`.
pub open spec fn occurs<T>(hay: Seq<T>, needle: Seq<T>) -> bool {
    exists|i: int| occurs_at(hay, needle, i)
}

/// The first position, `from` or later, at which `needle` stands in `hay`.
pub open spec fn find_from<T>(hay: Seq<T>, needle: Seq<T>, from: int) -> Option<int>
    decreases hay.len() + 1 - from,
{
    if from + needle.len() > hay.len() {
        None
    } else if occurs_at(hay, needle, from) {
        Some(from)
    } else {
        find_from(hay, needle, from + 1)
    }
}

/// The first position at which `needle` stands in `hay`.
pub open spec fn find<T>(hay: Seq<T>, needle: Seq<T>) -> Option<int> {
    find_from(hay, needle, 0)
}

/// What [`find_from`] returns is an occurrence, and there is none before it.
pub proof fn lemma_find_from<T>(hay: Seq<T>, needle: Seq<T>, from: int)
    requires
        0 <= from,
    ensures
        match find_from(hay, needle, from) {
            Some(i) => from <= i && occurs_at(hay, needle, i) && forall|j: int|
                from <= j < i ==> !occurs_at(hay, needle, j),
            None => forall|j: int| from <= j ==> !occurs_at(hay, needle, j),
        },
    decreases hay.len() + 1 - from,
{
    if from + needle.len() > hay.len() {
    } else if occurs_at(hay, needle, from) {
    } else {
        lemma_find_from(hay, needle, from + 1);
    }
}

/// A text is found exactly where it occurs.
pub proof fn lemma_find_occurs<T>(hay: Seq<T>, needle: Seq<T>)
    ensures
        find(hay, needle) is Some <==> occurs(hay, needle),
{
    lemma_find_from(hay, needle, 0);
    if find(hay, needle) is Some {
        assert(occurs_at(hay, needle, find(hay, needle)->0));
    }
}

/// Whether `needle` stands in `hay` at position `i`.
pub fn matches_at(hay: &[char], needle: &[char], i: usize) -> (r: bool)
    ensures
        r == occurs_at(hay@, needle@, i as int),
{
    if i > hay.len() || needle.len() > hay.len() - i {
        return false;
    }
    let n: usize = needle.len();
    let mut j: usize = 0;
    while j < n
        invariant
            0 <= j <= n,
            n == needle@.len(),
            i + n <= hay.len(),
            hay.len() == hay@.len(),
            forall|k: int| 0 <= k < j ==> hay@[i + k] == needle@[k],
        decreases n - j,
    {
        if hay[i + j] != needle[j] {
            assert(hay@.subrange(i as int, i + n)[j as int] != needle@[j as int]);
            return false;
        }
        j += 1;
    }
    assert(hay@.subrange(i as int, i + n) == needle@);
    true
}

/// The first position, `from` or later, at which `needle` stands in `hay`.
pub fn index_from(hay: &[char], needle: &[char], from: usize) -> (r: Option<usize>)
    ensures
        match r {
            Some(i) => find_from(hay@, needle@, from as int) == Some(i as int),
            None => find_from(hay@, needle@, from as int) is None,
        },
{
    let n: usize = hay.len();
    if needle.len() > n {
        return None;
    }
    let last: usize = n - needle.len();
    let mut i: usize = from;
    while i <= last
        invariant
            from <= i,
            i <= last ==> i < usize::MAX || last == usize::MAX,
            n == hay@.len(),
            last + needle@.len() == n,
            find_from(hay@, needle@, from as int) == find_from(hay@, needle@, i as int),
        decreases last + 1 - i,
    {
        if matches_at(hay, needle, i) {
            return Some(i);
        }
        if i == last {
            assert(find_from(hay@, needle@, i + 1) is None);
            return None;
        }
        i += 1;
    }
    None
}

/// Whether `needle` stands somewhere in `hay`.
pub fn contains(hay: &[char], needle: &[char]) -> (r: bool)
    ensures
        r == occurs(hay@, needle@),
{
    proof {
        lemma_find_occurs(hay@, needle@);
    }
    index_from(hay, needle, 0).is_some()
}

/// Whether the string `needle` stands somewhere in `hay`.
pub fn contains_str(hay: &[char], needle: &str) -> (r: bool)
    ensures
        r == occurs(hay@, needle@),
{
    let nc = chars_of(needle);
    contains(hay, nc.as_slice())
}

/// Whether a text starts with a prefix.
pub open spec fn starts_with(s: Seq<char>, prefix: Seq<char>) -> bool {
    occurs_at(s, prefix, 0)
}

/// Whether a text ends with a suffix.
pub open spec fn ends_with(s: Seq<char>, suffix: Seq<char>) -> bool {
    occurs_at(s, suffix, s.len() - suffix.len())
}

/// Whether the text starts with the string.
pub fn has_prefix(s: &[char], prefix: &str) -> (r: bool)
    ensures
        r == starts_with(s@, prefix@),
{
    let p = chars_of(prefix);
    matches_at(s, p.as_slice(), 0)
}

/// Whether the text ends with the string.
pub fn has_suffix(s: &[char], suffix: &str) -> (r: bool)
    ensures
        r == ends_with(s@, suffix@),
{
    let p = chars_of(suffix);
    if p.len() > s.len() {
        return false;
    }
    matches_at(s, p.as_slice(), s.len() - p.len())
}

// ---------------------------------------------------------------------------
// Words
// ---------------------------------------------------------------------------

/// The length of the run of other characters than white space at the start.
pub open spec fn word_len(s: Seq<char>) -> int
    decreases s.len(),
{
    if s.len() > 0 && !is_space(s[0]) {
        1 + word_len(s.skip(1))
    } else {
        0
    }
}

/// The first word ends inside the text.
pub proof fn lemma_word_len(s: Seq<char>)
    ensures
        0 <= word_len(s) <= s.len(),
        s.len() > 0 && !is_space(s[0]) ==> word_len(s) > 0,
        forall|i: int| 0 <= i < word_len(s) ==> !is_space(#[trigger] s[i]),
        word_len(s) < s.len() ==> is_space(s[word_len(s)]),
    decreases s.len(),
{
    if s.len() > 0 && !is_space(s[0]) {
        let t = s.skip(1);
        lemma_word_len(t);
        assert forall|i: int| 0 <= i < word_len(s) implies !is_space(#[trigger] s[i]) by {
            if i > 0 {
                assert(s[i] == t[i - 1]);
            }
        }
        if word_len(s) < s.len() {
            assert(s[word_len(s)] == t[word_len(t)]);
        }
    }
}

/// The words of a text: its runs of characters other than white space.
pub open spec fn words(s: Seq<char>) -> Seq<Seq<char>>
    decreases s.len(),
{
    if s.len() == 0 {
        seq![]
    } else if is_space(s[0]) {
        words(s.skip(1))
    } else if 0 < word_len(s) <= s.len() {
        seq![s.take(word_len(s))] + words(s.skip(word_len(s)))
    } else {
        seq![]
    }
}

/// The words of a text.
pub fn words_of(s: &[char]) -> (r: Vec<Vec<char>>)
    ensures
        r.deep_view() == words(s@),
{
    let n: usize = s.len();
    let mut out: Vec<Vec<char>> = Vec::new();
    let mut i: usize = 0;
    assert(s@.skip(0) == s@);
    assert(out.deep_view() + words(s@) == words(s@));
    while i < n
        invariant
            0 <= i <= n,
            n == s@.len(),
            out.deep_view() + words(s@.skip(i as int)) == words(s@),
        decreases n - i,
    {
        let ghost rest = s@.skip(i as int);
        if whitespace(s[i]) {
            assert(rest.skip(1) == s@.skip(i + 1));
            i += 1;
        } else {
            let start: usize = i;
            let ghost before = out.deep_view();
            proof {
                lemma_word_len(rest);
            }
            assert(rest.skip(0) == rest);
            while i < n && !whitespace(s[i])
                invariant
                    0 <= start <= i <= n,
                    n == s@.len(),
                    rest == s@.skip(start as int),
                    word_len(rest) == (i - start) + word_len(s@.skip(i as int)),
                decreases n - i,
            {
                assert(s@.skip(i as int).skip(1) == s@.skip(i + 1));
                i += 1;
            }
            assert(word_len(rest) == i - start);
            let w = copy_range(s, start, i);
            assert(w@ == rest.take(i - start));
            assert(rest.skip(i - start) == s@.skip(i as int));
            out.push(w);
            assert(out.deep_view() == before.push(w@)) by {
                assert(w.deep_view() == w@);
            }
            assert(before + (seq![w@] + words(s@.skip(i as int))) == before.push(w@) + words(
                s@.skip(i as int),
            ));
        }
    }
    assert(words(s@.skip(n as int)) == Seq::<Seq<char>>::empty());
    assert(out.deep_view() + Seq::<Seq<char>>::empty() == out.deep_view());
    out
}

// ---------------------------------------------------------------------------
// Splitting and joining
// ---------------------------------------------------------------------------

/// The pieces of a text between the occurrences of a separator character.
pub open spec fn split(s: Seq<char>, sep: char) -> Seq<Seq<char>>
    decreases s.len(),
{
    if s.len() == 0 {
        seq![s]
    } else if s[0] == sep {
        seq![Seq::<char>::empty()] + split(s.skip(1), sep)
    } else {
        let rest = split(s.skip(1), sep);
        if rest.len() == 0 {
            seq![s]
        } else {
            seq![seq![s[0]] + rest[0]] + rest.skip(1)
        }
    }
}

/// There is always at least one piece.
pub proof fn lemma_split_nonempty(s: Seq<char>, sep: char)
    ensures
        split(s, sep).len() > 0,
    decreases s.len(),
{
    if s.len() > 0 {
        lemma_split_nonempty(s.skip(1), sep);
    }
}

/// The pieces with `pre` put in front of the first.
pub open spec fn prefixed(pre: Seq<char>, pieces: Seq<Seq<char>>) -> Seq<Seq<char>> {
    if pieces.len() == 0 {
        seq![pre]
    } else {
        seq![pre + pieces[0]] + pieces.skip(1)
    }
}

/// The pieces of a text between the occurrences of a separator character.
pub fn split_of(s: &[char], sep: char) -> (r: Vec<Vec<char>>)
    ensures
        r.deep_view() == split(s@, sep),
{
    let n: usize = s.len();
    let mut out: Vec<Vec<char>> = Vec::new();
    let mut cur: Vec<char> = Vec::new();
    let mut i: usize = 0;
    assert(s@.skip(0) == s@);
    proof {
        lemma_split_nonempty(s@, sep);
        assert(cur@ + split(s@, sep)[0] == split(s@, sep)[0]);
        assert(out.deep_view() + prefixed(cur@, split(s@, sep)) == split(s@, sep));
    }
    while i < n
        invariant
            0 <= i <= n,
            n == s@.len(),
            out.deep_view() + prefixed(cur@, split(s@.skip(i as int), sep)) == split(s@, sep),
        decreases n - i,
    {
        let ghost rest = s@.skip(i as int);
        let ghost tail = split(rest.skip(1), sep);
        let ghost before = out.deep_view();
        let ghost cur0 = cur@;
        assert(rest.skip(1) == s@.skip(i + 1));
        proof {
            lemma_split_nonempty(rest.skip(1), sep);
        }
        if s[i] == sep {
            let done = cur;
            cur = Vec::new();
            out.push(done);
            assert(out.deep_view() == before.push(cur0)) by {
                assert(done.deep_view() == done@);
            }
            assert(prefixed(cur@, tail) == tail) by {
                assert(cur@ + tail[0] == tail[0]);
            }
            assert(prefixed(cur0, split(rest, sep)) == seq![cur0] + tail) by {
                assert(split(rest, sep) == seq![Seq::<char>::empty()] + tail);
                assert(cur0 + Seq::<char>::empty() == cur0);
                assert(split(rest, sep).skip(1) == tail);
            }
            assert(before + (seq![cur0] + tail) == before.push(cur0) + tail);
        } else {
            cur.push(s[i]);
            assert(prefixed(cur@, tail) == prefixed(cur0, split(rest, sep))) by {
                assert(split(rest, sep) == seq![seq![rest[0]] + tail[0]] + tail.skip(1));
                assert(split(rest, sep).skip(1) == tail.skip(1));
                assert(cur0 + (seq![rest[0]] + tail[0]) == cur@ + tail[0]);
            }
        }
        i += 1;
    }
    let ghost before = out.deep_view();
    proof {
        let e = s@.skip(n as int);
        assert(e == Seq::<char>::empty());
        assert(split(e, sep) == seq![e]);
        assert(cur@ + e == cur@);
        assert(prefixed(cur@, split(e, sep)) == seq![cur@]);
    }
    let ghost cur0 = cur@;
    out.push(cur);
    assert(out.deep_view() == before.push(cur0)) by {
        assert(cur.deep_view() == cur@);
    }
    assert(before + seq![cur0] == before.push(cur0));
    out
}

/// The parts, one after the other, with a separator between them.
pub open spec fn join(parts: Seq<Seq<char>>, sep: Seq<char>) -> Seq<char>
    decreases parts.len(),
{
    if parts.len() == 0 {
        seq![]
    } else if parts.len() == 1 {
        parts[0]
    } else {
        join(parts.drop_last(), sep) + sep + parts.last()
    }
}

/// The parts, one after the other, with a separator between them.
pub fn join_of(parts: &Vec<Vec<char>>, sep: &str) -> (r: Vec<char>)
    ensures
        r@ == join(parts.deep_view(), sep@),
{
    let mut out: Vec<char> = Vec::new();
    let n: usize = parts.len();
    let ghost all = parts.deep_view();
    let mut i: usize = 0;
    while i < n
        invariant
            0 <= i <= n,
            n == parts@.len(),
            all == parts.deep_view(),
            all.len() == n,
            out@ == join(all.take(i as int), sep@),
        decreases n - i,
    {
        let ghost out0 = out@;
        if i > 0 {
            append_str(&mut out, sep);
        }
        append(&mut out, parts[i].as_slice());
        proof {
            let t = all.take(i + 1);
            assert(t.drop_last() == all.take(i as int));
            assert(t.last() == all[i as int]);
            assert(all[i as int] == parts@[i as int]@);
            if i == 0 {
                assert(out0 == Seq::<char>::empty());
                assert(out@ == out0 + parts@[0]@);
                assert(out@ == parts@[0]@);
                assert(t[0] == all[0]);
            }
        }
        i += 1;
    }
    assert(all.take(n as int) == all);
    out
}

/// The strings, one after the other, with a separator between them.
pub fn join_strings(parts: &Vec<String>, sep: &str) -> (r: String)
    ensures
        r@ == join(parts.deep_view(), sep@),
{
    let mut out = String::new();
    let n: usize = parts.len();
    let ghost all = parts.deep_view();
    let mut i: usize = 0;
    while i < n
        invariant
            0 <= i <= n,
            n == parts@.len(),
            all == parts.deep_view(),
            all.len() == n,
            out@ == join(all.take(i as int), sep@),
        decreases n - i,
    {
        let ghost out0 = out@;
        if i > 0 {
            out.append(sep);
        }
        out.append(parts[i].as_str());
        proof {
            let t = all.take(i + 1);
            assert(t.drop_last() == all.take(i as int));
            assert(t.last() == all[i as int]);
            assert(all[i as int] == parts@[i as int]@);
            if i == 0 {
                assert(out0 == Seq::<char>::empty());
                assert(out@ == parts@[0]@);
                assert(t[0] == all[0]);
            }
        }
        i += 1;
    }
    assert(all.take(n as int) == all);
    out
}

// ---------------------------------------------------------------------------
// Prefixes
// ---------------------------------------------------------------------------

/// The characters before the first `c`.
pub open spec fn until(s: Seq<char>, c: char) -> Seq<char>
    decreases s.len(),
{
    if s.len() == 0 || s[0] == c {
        seq![]
    } else {
        seq![s[0]] + until(s.skip(1), c)
    }
}

/// The characters before the first `c`.
pub fn until_of(s: &[char], c: char) -> (r: Vec<char>)
    ensures
        r@ == until(s@, c),
{
    let n: usize = s.len();
    let mut out: Vec<char> = Vec::new();
    let mut i: usize = 0;
    assert(s@.skip(0) == s@);
    assert(out@ + until(s@, c) == until(s@, c));
    while i < n && s[i] != c
        invariant
            0 <= i <= n,
            n == s@.len(),
            out@ + until(s@.skip(i as int), c) == until(s@, c),
        decreases n - i,
    {
        let ghost out0 = out@;
        let ghost rest = s@.skip(i as int);
        assert(rest.skip(1) == s@.skip(i + 1));
        out.push(s[i]);
        assert(out0 + (seq![rest[0]] + until(rest.skip(1), c)) == out@ + until(rest.skip(1), c));
        i += 1;
    }
    assert(until(s@.skip(i as int), c) == Seq::<char>::empty());
    assert(out@ + Seq::<char>::empty() == out@);
    out
}

// ---------------------------------------------------------------------------
// Replacing
// ---------------------------------------------------------------------------

/// A text in which every occurrence of the non-empty `from`, read from the
/// left and without overlaps, is replaced by `to`.
pub open spec fn replace(s: Seq<char>, from: Seq<char>, to: Seq<char>) -> Seq<char>
    decreases s.len(),
{
    if s.len() == 0 || from.len() == 0 {
        s
    } else if occurs_at(s, from, 0) {
        to + replace(s.skip(from.len() as int), from, to)
    } else {
        seq![s[0]] + replace(s.skip(1), from, to)
    }
}

/// Replaces every occurrence of `from`, read from the left and without
/// overlaps, by `to`.
pub fn replace_of(s: &[char], from: &str, to: &str) -> (r: Vec<char>)
    requires
        from@.len() > 0,
    ensures
        r@ == replace(s@, from@, to@),
{
    let f = chars_of(from);
    let t = chars_of(to);
    let n: usize = s.len();
    let mut out: Vec<char> = Vec::new();
    let mut i: usize = 0;
    assert(s@.skip(0) == s@);
    assert(out@ + replace(s@, from@, to@) == replace(s@, from@, to@));
    while i < n
        invariant
            0 <= i <= n,
            n == s@.len(),
            f@ == from@,
            t@ == to@,
            from@.len() > 0,
            out@ + replace(s@.skip(i as int), from@, to@) == replace(s@, from@, to@),
        decreases n - i,
    {
        let ghost rest = s@.skip(i as int);
        let ghost out0 = out@;
        let hit = matches_at(s, f.as_slice(), i);
        proof {
            if occurs_at(s@, from@, i as int) {
                assert(rest.subrange(0, from@.len() as int) == s@.subrange(
                    i as int,
                    i + from@.len(),
                ));
            }
            if occurs_at(rest, from@, 0) {
                assert(rest.subrange(0, from@.len() as int) == s@.subrange(
                    i as int,
                    i + from@.len(),
                ));
            }
        }
        if hit {
            append(&mut out, t.as_slice());
            assert(rest.skip(from@.len() as int) == s@.skip(i + from@.len()));
            i += f.len();
            assert(out0 + (to@ + replace(s@.skip(i as int), from@, to@)) == out@ + replace(
                s@.skip(i as int),
                from@,
                to@,
            ));
        } else {
            out.push(s[i]);
            assert(rest.skip(1) == s@.skip(i + 1));
            i += 1;
            assert(out0 + (seq![rest[0]] + replace(s@.skip(i as int), from@, to@)) == out@
                + replace(s@.skip(i as int), from@, to@));
        }
    }
    assert(replace(s@.skip(n as int), from@, to@) == Seq::<char>::empty());
    assert(out@ + Seq::<char>::empty() == out@);
    out
}

// ---------------------------------------------------------------------------
// Laws
// ---------------------------------------------------------------------------

/// Whether all characters of a text are in a class.
pub open spec fn all_in(s: Seq<char>, k: CharClass) -> bool {
    forall|i: int| 0 <= i < s.len() ==> k.holds(#[trigger] s[i])
}

proof fn lemma_trim_start(s: Seq<char>, k: CharClass)
    ensures
        trim_start(s, k).len() <= s.len(),
        s.skip(s.len() - trim_start(s, k).len()) == trim_start(s, k),
        all_in(s.take(s.len() - trim_start(s, k).len()), k),
        trim_start(s, k).len() > 0 ==> !k.holds(trim_start(s, k)[0]),
    decreases s.len(),
{
    if s.len() > 0 && k.holds(s[0]) {
        let t = s.skip(1);
        lemma_trim_start(t, k);
        let n = s.len() - trim_start(s, k).len();
        assert(s.skip(n) == t.skip(n - 1));
        assert forall|i: int| 0 <= i < n implies k.holds(#[trigger] s.take(n)[i]) by {
            if i > 0 {
                assert(s.take(n)[i] == t.take(n - 1)[i - 1]);
            }
        }
    } else {
        assert(s.skip(0) == s);
    }
}

proof fn lemma_trim_end(s: Seq<char>, k: CharClass)
    ensures
        trim_end(s, k).len() <= s.len(),
        s.take(trim_end(s, k).len() as int) == trim_end(s, k),
        all_in(s.skip(trim_end(s, k).len() as int), k),
        trim_end(s, k).len() > 0 ==> !k.holds(trim_end(s, k).last()),
    decreases s.len(),
{
    if s.len() > 0 && k.holds(s.last()) {
        let t = s.drop_last();
        lemma_trim_end(t, k);
        let n = trim_end(s, k).len() as int;
        assert(s.take(n) == t.take(n));
        assert forall|i: int| 0 <= i < s.len() - n implies k.holds(#[trigger] s.skip(n)[i]) by {
            if i < t.len() - n {
                assert(s.skip(n)[i] == t.skip(n)[i]);
            }
        }
    } else {
        assert(s.take(s.len() as int) == s);
    }
}

/// Trimming takes nothing but characters of the class off the ends of a text, and all of
/// them: what stays neither begins nor ends with one.
pub proof fn law_trimming_takes_the_ends(s: Seq<char>, k: CharClass)
    ensures
        exists|a: Seq<char>, b: Seq<char>|
            s == #[trigger] (a + trim(s, k) + b) && all_in(a, k) && all_in(b, k),
        trim(s, k).len() > 0 ==> !k.holds(trim(s, k)[0]) && !k.holds(trim(s, k).last()),
        trim(s, k).len() == 0 <==> all_in(s, k),
{
    let t = trim_start(s, k);
    let r = trim(s, k);
    lemma_trim_start(s, k);
    lemma_trim_end(t, k);
    let a = s.take(s.len() - t.len());
    let b = t.skip(r.len() as int);
    assert(s == a + r + b) by {
        assert(s == a + t);
        assert(t == r + b);
    }
    if r.len() > 0 {
        assert(r[0] == t[0]);
        assert(s[a.len() as int] == t[0]);
    } else {
        assert forall|i: int| 0 <= i < s.len() implies k.holds(#[trigger] s[i]) by {
            if i < a.len() {
                assert(s[i] == a[i]);
            } else {
                assert(s[i] == b[i - a.len()]);
            }
        }
    }
}

/// A word of a text is never empty and has no white space in it. A text without white space
/// is one word, and white space anywhere in a text parts the words before it from those
/// behind it.
pub proof fn law_white_space_parts_words(a: Seq<char>, c: char, b: Seq<char>)
    requires
        is_space(c),
    ensures
        words(a + seq![c] + b) == words(a) + words(b),
        a.len() > 0 && (forall|i: int| 0 <= i < a.len() ==> !is_space(#[trigger] a[i])) ==> words(a)
            == seq![a],
        forall|k: int, i: int|
            0 <= k < words(a).len() && 0 <= i < words(a)[k].len() ==> !is_space(
                #[trigger] words(a)[k][i],
            ),
        forall|k: int| 0 <= k < words(a).len() ==> (#[trigger] words(a)[k]).len() > 0,
    decreases a.len(),
{
    let s = a + seq![c] + b;
    if a.len() == 0 {
        assert(s.skip(1) == b);
        assert(s[0] == c);
        assert(words(a) + words(b) == words(b));
    } else if is_space(a[0]) {
        law_white_space_parts_words(a.skip(1), c, b);
        assert(s[0] == a[0]);
        assert(s.skip(1) == a.skip(1) + seq![c] + b);
    } else {
        lemma_word_len(a);
        lemma_word_len(s);
        let n = word_len(a);
        if word_len(s) < n {
            assert(s[word_len(s)] == a[word_len(s)]);
        } else if word_len(s) > n {
            if n < a.len() {
                assert(s[n] == a[n]);
            } else {
                assert(s[n] == c);
            }
        }
        assert(word_len(s) == n);
        let rest = a.skip(n);
        law_white_space_parts_words(rest, c, b);
        assert(s.take(n) == a.take(n));
        assert(s.skip(n) == rest + seq![c] + b);
        assert(words(a) == seq![a.take(n)] + words(rest));
        assert(words(s) == seq![a.take(n)] + (words(rest) + words(b)));
        assert(seq![a.take(n)] + (words(rest) + words(b)) == words(a) + words(b));
        if forall|i: int| 0 <= i < a.len() ==> !is_space(#[trigger] a[i]) {
            assert(n == a.len());
            assert(a.take(n) == a);
            assert(words(rest) == Seq::<Seq<char>>::empty());
            assert(words(a) == seq![a]);
        }
        assert forall|k: int, i: int|
            0 <= k < words(a).len() && 0 <= i < words(a)[k].len() implies !is_space(
            #[trigger] words(a)[k][i],
        ) by {
            if k == 0 {
                assert(words(a)[0][i] == a[i]);
            } else {
                assert(words(a)[k] == words(rest)[k - 1]);
                assert(!is_space(words(rest)[k - 1][i]));
            }
        }
        assert forall|k: int| 0 <= k < words(a).len() implies (#[trigger] words(a)[k]).len()
            > 0 by {
            if k > 0 {
                assert(words(a)[k] == words(rest)[k - 1]);
            }
        }
    }
}

/// A text has no words exactly if it is blank.
pub proof fn law_blank_texts_have_no_words(s: Seq<char>)
    ensures
        trimmed(s).len() == 0 <==> words(s).len() == 0,
    decreases s.len(),
{
    law_trimming_takes_the_ends(s, CharClass::Space);
    if s.len() > 0 {
        if is_space(s[0]) {
            let t = s.skip(1);
            law_blank_texts_have_no_words(t);
            law_trimming_takes_the_ends(t, CharClass::Space);
            assert(CharClass::Space.holds(s[0]));
            if all_in(t, CharClass::Space) {
                assert forall|i: int| 0 <= i < s.len() implies CharClass::Space.holds(
                    #[trigger] s[i],
                ) by {
                    if i > 0 {
                        assert(s[i] == t[i - 1]);
                    }
                }
            } else {
                let i = choose|i: int| 0 <= i < t.len() && !CharClass::Space.holds(#[trigger] t[i]);
                assert(!CharClass::Space.holds(s[i + 1]));
            }
        } else {
            lemma_word_len(s);
            assert(!CharClass::Space.holds(s[0]));
        }
    }
}

/// The first part stands in front, with the separator behind it.
pub proof fn lemma_join_first(parts: Seq<Seq<char>>, sep: Seq<char>)
    requires
        parts.len() > 1,
    ensures
        join(parts, sep) == parts[0] + sep + join(parts.skip(1), sep),
    decreases parts.len(),
{
    let rest = parts.skip(1);
    assert(rest.last() == parts.last());
    if parts.len() == 2 {
        assert(parts.drop_last() == seq![parts[0]]);
        assert(join(parts.drop_last(), sep) == parts[0]);
        assert(join(rest, sep) == parts.last());
    } else {
        lemma_join_first(parts.drop_last(), sep);
        assert(parts.drop_last().skip(1) == rest.drop_last());
        assert(parts[0] + sep + (join(rest.drop_last(), sep) + sep + rest.last()) == parts[0] + sep
            + join(rest.drop_last(), sep) + sep + rest.last());
    }
}

proof fn lemma_join_head(c: char, parts: Seq<Seq<char>>, sep: Seq<char>)
    requires
        parts.len() > 0,
    ensures
        join(seq![seq![c] + parts[0]] + parts.skip(1), sep) == seq![c] + join(parts, sep),
{
    let more = seq![seq![c] + parts[0]] + parts.skip(1);
    if parts.len() > 1 {
        lemma_join_first(parts, sep);
        lemma_join_first(more, sep);
        assert(more.skip(1) == parts.skip(1));
        assert((seq![c] + parts[0]) + sep + join(parts.skip(1), sep) == seq![c] + (parts[0] + sep
            + join(parts.skip(1), sep)));
    }
}

/// The pieces of a text, joined by the separator, are the text again, and the separator
/// stands in none of them.
pub proof fn law_pieces_make_the_text(s: Seq<char>, sep: char)
    ensures
        join(split(s, sep), seq![sep]) == s,
        forall|k: int| 0 <= k < split(s, sep).len() ==> !(#[trigger] split(s, sep)[k]).contains(sep),
    decreases s.len(),
{
    if s.len() > 0 {
        let t = s.skip(1);
        let rest = split(t, sep);
        law_pieces_make_the_text(t, sep);
        lemma_split_nonempty(t, sep);
        assert(seq![s[0]] + t == s);
        if s[0] == sep {
            let all = seq![Seq::<char>::empty()] + rest;
            lemma_join_first(all, seq![sep]);
            assert(all.skip(1) == rest);
            assert(Seq::<char>::empty() + seq![sep] + t == s);
            assert forall|k: int| 0 <= k < all.len() implies !(#[trigger] all[k]).contains(sep) by {
                if k > 0 {
                    assert(all[k] == rest[k - 1]);
                }
            }
        } else {
            let all = seq![seq![s[0]] + rest[0]] + rest.skip(1);
            lemma_join_head(s[0], rest, seq![sep]);
            assert forall|k: int| 0 <= k < all.len() implies !(#[trigger] all[k]).contains(sep) by {
                if k > 0 {
                    assert(all[k] == rest[k]);
                } else if all[0].contains(sep) {
                    let i = choose|i: int| 0 <= i < all[0].len() && all[0][i] == sep;
                    assert(rest[0][i - 1] == sep);
                    assert(rest[0].contains(sep));
                }
            }
        }
    }
}

/// What stands before a character is all of the text up to its first occurrence.
pub proof fn law_until_the_first(s: Seq<char>, c: char)
    ensures
        until(s, c).len() <= s.len(),
        s.take(until(s, c).len() as int) == until(s, c),
        !until(s, c).contains(c),
        until(s, c).len() < s.len() ==> s[until(s, c).len() as int] == c,
    decreases s.len(),
{
    if s.len() == 0 || s[0] == c {
        assert(s.take(0) == Seq::<char>::empty());
    } else {
        let t = s.skip(1);
        let u = until(t, c);
        let all = seq![s[0]] + u;
        law_until_the_first(t, c);
        assert(s.take(all.len() as int) == seq![s[0]] + t.take(u.len() as int));
        if all.contains(c) {
            let i = choose|i: int| 0 <= i < all.len() && all[i] == c;
            assert(u[i - 1] == c);
            assert(u.contains(c));
        }
    }
}

/// What stands between two texts stands in all of them together.
pub proof fn lemma_between(a: Seq<char>, x: Seq<char>, b: Seq<char>)
    ensures
        occurs(a + x + b, x),
{
    let n = a.len() as int;
    assert((a + x + b).subrange(n, n + x.len()) == x);
    assert(occurs_at(a + x + b, x, n));
}

/// What stands in a text stands in it with another one behind it.
pub proof fn lemma_kept(a: Seq<char>, b: Seq<char>, x: Seq<char>)
    requires
        occurs(a, x),
    ensures
        occurs(a + b, x),
{
    let i = choose|i: int| occurs_at(a, x, i);
    assert((a + b).subrange(i, i + x.len()) == a.subrange(i, i + x.len()));
    assert(occurs_at(a + b, x, i));
}

/// What is put behind a text stands in both together.
pub proof fn lemma_added(a: Seq<char>, x: Seq<char>)
    ensures
        occurs(a + x, x),
{
    let n = a.len() as int;
    assert((a + x).subrange(n, n + x.len()) == x);
    assert(occurs_at(a + x, x, n));
}

/// What stands in a text that stands in another one stands there too.
pub proof fn lemma_occurs_within(a: Seq<char>, b: Seq<char>, c: Seq<char>)
    requires
        occurs(a, b),
        occurs(b, c),
    ensures
        occurs(a, c),
{
    let i = choose|i: int| occurs_at(a, b, i);
    let j = choose|j: int| occurs_at(b, c, j);
    assert(a.subrange(i + j, i + j + c.len()) == b.subrange(j, j + c.len())) by {
        assert(b == a.subrange(i, i + b.len()));
        assert(a.subrange(i, i + b.len()).subrange(j, j + c.len()) == a.subrange(
            i + j,
            i + j + c.len(),
        ));
    }
    assert(occurs_at(a, c, i + j));
}

/// Joined parts hold each part, and a single part is all there is.
pub proof fn law_joined_parts_are_kept(parts: Seq<Seq<char>>, sep: Seq<char>, k: int)
    requires
        0 <= k < parts.len(),
    ensures
        occurs(join(parts, sep), parts[k]),
        parts.len() == 1 ==> join(parts, sep) == parts[0],
        parts.len() >= 2 ==> occurs(join(parts, sep), sep),
    decreases parts.len(),
{
    let all = join(parts, sep);
    if parts.len() == 1 {
        assert(all.subrange(0, parts[0].len() as int) == parts[0]);
        assert(occurs_at(all, parts[0], 0));
    } else {
        let t = parts.drop_last();
        let head = join(t, sep);
        assert(all.subrange(head.len() as int, head.len() as int + sep.len()) == sep);
        assert(occurs_at(all, sep, head.len() as int));
        if k == parts.len() - 1 {
            let at = head.len() as int + sep.len() as int;
            assert(all.subrange(at, at + parts[k].len()) == parts[k]);
            assert(occurs_at(all, parts[k], at));
        } else {
            law_joined_parts_are_kept(t, sep, k);
            let i = choose|i: int| occurs_at(head, t[k], i);
            assert(all.subrange(i, i + t[k].len()) == head.subrange(i, i + t[k].len()));
            assert(occurs_at(all, parts[k], i));
        }
    }
}

/// What stands before the first separator is the first piece.
pub proof fn lemma_first_piece(a: Seq<char>, b: Seq<char>, sep: char)
    requires
        !a.contains(sep),
        b.len() == 0 || b[0] == sep,
    ensures
        split(a + b, sep).len() > 0,
        split(a + b, sep)[0] == a,
    decreases a.len(),
{
    let s = a + b;
    lemma_split_nonempty(s, sep);
    if a.len() == 0 {
        assert(s == b);
    } else {
        let t = a.skip(1);
        assert forall|i: int| 0 <= i < t.len() implies t[i] != sep by {
            assert(a[i + 1] == t[i]);
            assert(a.contains(a[i + 1]));
        }
        assert(a.contains(a[0]));
        assert(s.skip(1) == t + b);
        lemma_first_piece(t, b, sep);
        assert(seq![a[0]] + t == a);
    }
}

/// A text in which another one does not stand stays as it is.
pub proof fn lemma_nothing_to_replace(s: Seq<char>, from: Seq<char>, to: Seq<char>)
    requires
        forall|i: int| !occurs_at(s, from, i),
    ensures
        replace(s, from, to) == s,
    decreases s.len(),
{
    if s.len() > 0 && from.len() > 0 {
        assert forall|i: int| !occurs_at(s.skip(1), from, i) by {
            if occurs_at(s.skip(1), from, i) {
                assert(s.subrange(i + 1, i + 1 + from.len()) == s.skip(1).subrange(
                    i,
                    i + from.len(),
                ));
                assert(occurs_at(s, from, i + 1));
            }
        }
        lemma_nothing_to_replace(s.skip(1), from, to);
        assert(seq![s[0]] + s.skip(1) == s);
    }
}

/// A text in which another one does not stand stays as it is when that is replaced, and the
/// first occurrence is replaced with everything before it kept and the rest treated alike.
pub proof fn law_occurrences_are_replaced(
    a: Seq<char>,
    from: Seq<char>,
    to: Seq<char>,
    b: Seq<char>,
)
    requires
        from.len() > 0,
    ensures
        !occurs(a, from) ==> replace(a, from, to) == a,
        (forall|i: int| 0 <= i < a.len() ==> !#[trigger] occurs_at(a + from + b, from, i)) ==>
            replace(a + from + b, from, to) == a + to + replace(b, from, to),
    decreases a.len(),
{
    let s = a + from + b;
    if !occurs(a, from) {
        assert forall|i: int| !occurs_at(a, from, i) by {}
        lemma_nothing_to_replace(a, from, to);
    }
    if forall|i: int| 0 <= i < a.len() ==> !#[trigger] occurs_at(s, from, i) {
        if a.len() == 0 {
            assert(s.subrange(0, from.len() as int) == from);
            assert(s.skip(from.len() as int) == b);
            assert(a + to == to);
        } else {
            let t = a.skip(1);
            let u = t + from + b;
            assert(s.skip(1) == u);
            assert forall|i: int| 0 <= i < t.len() implies !#[trigger] occurs_at(u, from, i) by {
                if occurs_at(u, from, i) {
                    assert(s.subrange(i + 1, i + 1 + from.len()) == u.subrange(i, i + from.len()));
                    assert(occurs_at(s, from, i + 1));
                }
            }
            law_occurrences_are_replaced(t, from, to, b);
            assert(!occurs_at(s, from, 0));
            assert(s[0] == a[0]);
            assert(seq![a[0]] + (t + to + replace(b, from, to)) == a + to + replace(b, from, to));
        }
    }
}

/// What stands behind the last separator is the last piece.
pub proof fn lemma_last_piece(a: Seq<char>, b: Seq<char>, sep: char)
    requires
        !b.contains(sep),
    ensures
        split(a + seq![sep] + b, sep).len() > 1,
        split(a + seq![sep] + b, sep).last() == b,
    decreases a.len(),
{
    let s = a + seq![sep] + b;
    if a.len() == 0 {
        assert(s.skip(1) == b);
        lemma_only_piece(b, sep);
    } else {
        let t = a.skip(1);
        assert(s.skip(1) == t + seq![sep] + b);
        lemma_last_piece(t, b, sep);
        let rest = split(s.skip(1), sep);
        assert(rest.skip(1).last() == rest.last());
    }
}

proof fn lemma_only_piece(s: Seq<char>, sep: char)
    requires
        !s.contains(sep),
    ensures
        split(s, sep) == seq![s],
    decreases s.len(),
{
    if s.len() > 0 {
        let t = s.skip(1);
        assert forall|i: int| 0 <= i < t.len() implies t[i] != sep by {
            assert(s[i + 1] == t[i]);
            assert(s.contains(s[i + 1]));
        }
        assert(s.contains(s[0]));
        lemma_only_piece(t, sep);
        assert(seq![s[0]] + t == s);
    }
}

/// White space around a text is trimmed off, and nothing else is.
pub proof fn law_white_space_around_is_trimmed(a: Seq<char>, t: Seq<char>, b: Seq<char>)
    requires
        all_in(a, CharClass::Space),
        all_in(b, CharClass::Space),
        t.len() > 0,
        !is_space(t[0]),
        !is_space(t.last()),
    ensures
        trimmed(a + t + b) == t,
    decreases a.len() + b.len(),
{
    if a.len() > 0 {
        assert(CharClass::Space.holds(a[0]));
        assert((a + t + b)[0] == a[0]);
        assert((a + t + b).skip(1) == a.skip(1) + t + b);
        assert forall|i: int| 0 <= i < a.skip(1).len() implies CharClass::Space.holds(
            #[trigger] a.skip(1)[i],
        ) by {
            assert(CharClass::Space.holds(a[i + 1]));
        }
        law_white_space_around_is_trimmed(a.skip(1), t, b);
    } else if b.len() > 0 {
        let s = a + t + b;
        assert(s[0] == t[0]);
        assert(CharClass::Space.holds(b[b.len() - 1]));
        assert(s.last() == b[b.len() - 1]);
        assert(s.drop_last() == a + t + b.drop_last());
        assert forall|i: int| 0 <= i < b.drop_last().len() implies CharClass::Space.holds(
            #[trigger] b.drop_last()[i],
        ) by {
            assert(CharClass::Space.holds(b[i]));
        }
        law_white_space_around_is_trimmed(a, t, b.drop_last());
        assert(s.drop_last()[0] == t[0]);
    } else {
        assert(a + t + b == t);
    }
}

/// A text without white space at its ends stays as it is.
pub proof fn lemma_nothing_to_trim(s: Seq<char>)
    requires
        s.len() > 0,
        !is_space(s[0]),
        !is_space(s.last()),
    ensures
        trimmed(s) == s,
{
    let none = Seq::<char>::empty();
    law_white_space_around_is_trimmed(none, s, none);
    assert(none + s + none == s);
}

} // verus!
