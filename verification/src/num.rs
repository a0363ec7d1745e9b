//! Numbers in texts: decimal and hexadecimal notation.

use vstd::prelude::*;

verus! {

// ---------------------------------------------------------------------------
// Writing
// ---------------------------------------------------------------------------

/// The character for a decimal digit.
pub open spec fn digit_char(d: int) -> char {
    ('0' as int + d) as char
}

/// A natural number in decimal notation.
pub open spec fn decimal(n: nat) -> Seq<char>
    decreases n,
{
    if n < 10 {
        seq![digit_char(n as int)]
    } else {
        decimal(n / 10).push(digit_char((n % 10) as int))
    }
}

/// An integer in decimal notation, with a minus sign where it is negative.
pub open spec fn decimal_int(n: int) -> Seq<char> {
    if n < 0 {
        seq!['-'] + decimal((-n) as nat)
    } else {
        decimal(n as nat)
    }
}

/// The character for a decimal digit.
pub fn digit(d: u8) -> (r: char)
    requires
        d < 10,
    ensures
        r == digit_char(d as int),
{
    (48u8 + d) as char
}

/// A natural number in decimal notation.
pub fn decimal_of(n: u64) -> (r: Vec<char>)
    ensures
        r@ == decimal(n as nat),
    decreases n,
{
    if n < 10 {
        let mut out: Vec<char> = Vec::new();
        out.push(digit(n as u8));
        assert(out@ == seq![digit_char(n as int)]);
        out
    } else {
        let mut out = decimal_of(n / 10);
        out.push(digit((n % 10) as u8));
        out
    }
}

/// An integer in decimal notation.
pub fn decimal_int_of(n: i64) -> (r: Vec<char>)
    ensures
        r@ == decimal_int(n as int),
{
    if n < 0 {
        let mut out: Vec<char> = Vec::new();
        out.push('-');
        let m: u64 = (-(n as i128)) as u64;
        let mut d = decimal_of(m);
        out.append(&mut d);
        assert(out@ == seq!['-'] + decimal((-n) as nat));
        out
    } else {
        decimal_of(n as u64)
    }
}

/// The uppercase hexadecimal digit for a value below 16.
pub open spec fn hex_char(d: int) -> char {
    if d < 10 {
        ('0' as int + d) as char
    } else {
        ('A' as int + d - 10) as char
    }
}

/// The uppercase hexadecimal digit for a value below 16.
pub fn hex_digit(d: u8) -> (r: char)
    requires
        d < 16,
    ensures
        r == hex_char(d as int),
{
    if d < 10 {
        (48u8 + d) as char
    } else {
        (65u8 + (d - 10)) as char
    }
}

// ---------------------------------------------------------------------------
// Reading
// ---------------------------------------------------------------------------

/// The value of a digit in a notation with the given base (at most 16).
pub open spec fn digit_value(c: char, radix: int) -> Option<int> {
    let v = if '0' <= c <= '9' {
        c as int - '0' as int
    } else if 'a' <= c <= 'f' {
        c as int - 'a' as int + 10
    } else if 'A' <= c <= 'F' {
        c as int - 'A' as int + 10
    } else {
        16
    };
    if v < radix {
        Some(v)
    } else {
        None
    }
}

/// The value of a run of digits; `None` where something else is in it.
pub open spec fn digits_value(s: Seq<char>, radix: int) -> Option<int>
    decreases s.len(),
{
    if s.len() == 0 {
        Some(0)
    } else {
        match (digits_value(s.drop_last(), radix), digit_value(s.last(), radix)) {
            (Some(v), Some(d)) => Some(v * radix + d),
            _ => None,
        }
    }
}

/// A number without its plus sign.
pub open spec fn without_plus(s: Seq<char>) -> Seq<char> {
    if s.len() > 0 && s[0] == '+' {
        s.skip(1)
    } else {
        s
    }
}

/// The value of an unsigned number: an optional plus sign and at least one
/// digit, with a value of at most `max`.
pub open spec fn parse_unsigned(s: Seq<char>, radix: int, max: int) -> Option<int> {
    let d = without_plus(s);
    if d.len() == 0 {
        None
    } else {
        match digits_value(d, radix) {
            Some(v) => if v <= max {
                Some(v)
            } else {
                None
            },
            None => None,
        }
    }
}

/// More digits never make a value smaller.
proof fn lemma_digits_grow(s: Seq<char>, i: int, radix: int)
    requires
        0 <= i <= s.len(),
        radix >= 1,
        digits_value(s, radix) is Some,
    ensures
        digits_value(s.take(i), radix) is Some,
        0 <= digits_value(s.take(i), radix)->0 <= digits_value(s, radix)->0,
    decreases s.len(),
{
    if s.len() == 0 {
        assert(s.take(i) == s);
    } else if i == s.len() {
        assert(s.take(i) == s);
        lemma_digits_grow(s.drop_last(), 0, radix);
        let v = digits_value(s.drop_last(), radix)->0;
        assert(0 <= v * radix) by (nonlinear_arith)
            requires
                0 <= v,
                radix >= 1,
        ;
    } else {
        lemma_digits_grow(s.drop_last(), i, radix);
        assert(s.drop_last().take(i) == s.take(i));
        let v = digits_value(s.drop_last(), radix)->0;
        assert(v <= v * radix) by (nonlinear_arith)
            requires
                0 <= v,
                radix >= 1,
        ;
    }
}

/// The value of a digit in base 10 or 16.
fn value_of_digit(c: char, radix: u32) -> (r: Option<u32>)
    requires
        2 <= radix <= 16,
    ensures
        match r {
            Some(v) => digit_value(c, radix as int) == Some(v as int) && v < 16,
            None => digit_value(c, radix as int) is None,
        },
{
    let n: u32 = c as u32;
    let v: u32 = if '0' <= c && c <= '9' {
        n - 48
    } else if 'a' <= c && c <= 'f' {
        n - 97 + 10
    } else if 'A' <= c && c <= 'F' {
        n - 65 + 10
    } else {
        16
    };
    if v < radix {
        Some(v)
    } else {
        None
    }
}

/// Reads an unsigned number of at most `max`.
pub fn parse_unsigned_of(s: &[char], radix: u32, max: u32) -> (r: Option<u32>)
    requires
        2 <= radix <= 16,
    ensures
        match r {
            Some(v) => parse_unsigned(s@, radix as int, max as int) == Some(v as int),
            None => parse_unsigned(s@, radix as int, max as int) is None,
        },
{
    let n: usize = s.len();
    let start: usize = if n > 0 && s[0] == '+' {
        1
    } else {
        0
    };
    let ghost d = without_plus(s@);
    assert(d == s@.skip(start as int));
    if start == n {
        return None;
    }
    let mut v: u64 = 0;
    let mut i: usize = start;
    assert(d.take(0) == Seq::<char>::empty());
    while i < n
        invariant
            start <= i <= n,
            n == s@.len(),
            start < n,
            2 <= radix <= 16,
            d == s@.skip(start as int),
            d == without_plus(s@),
            v <= max,
            digits_value(d.take(i - start), radix as int) == Some(v as int),
        decreases n - i,
    {
        let ghost t = d.take(i - start + 1);
        assert(t.drop_last() == d.take(i - start));
        assert(t.last() == s@[i as int]);
        match value_of_digit(s[i], radix) {
            None => {
                proof {
                    if digits_value(d, radix as int) is Some {
                        lemma_digits_grow(d, i - start + 1, radix as int);
                    }
                }
                return None;
            },
            Some(x) => {
                assert(v * radix <= 0xffff_ffff * 16) by (nonlinear_arith)
                    requires
                        v <= 0xffff_ffff,
                        radix <= 16,
                ;
                let w: u64 = v * (radix as u64) + (x as u64);
                if w > max as u64 {
                    proof {
                        if digits_value(d, radix as int) is Some {
                            lemma_digits_grow(d, i - start + 1, radix as int);
                        }
                    }
                    return None;
                }
                v = w;
            },
        }
        i += 1;
    }
    assert(d.take(n - start) == d);
    Some(v as u32)
}

// ---------------------------------------------------------------------------
// Laws
// ---------------------------------------------------------------------------

/// Whether all characters of a text are decimal digits.
pub open spec fn all_digits(s: Seq<char>) -> bool {
    forall|i: int| 0 <= i < s.len() ==> '0' <= #[trigger] s[i] <= '9'
}

proof fn lemma_decimal_value(n: nat)
    ensures
        decimal(n).len() > 0,
        all_digits(decimal(n)),
        digits_value(decimal(n), 10) == Some(n as int),
    decreases n,
{
    let s = decimal(n);
    if n < 10 {
        assert(s.drop_last() == Seq::<char>::empty());
        assert(digits_value(s.drop_last(), 10) == Some(0int));
        assert(digit_value(s.last(), 10) == Some(n as int));
    } else {
        lemma_decimal_value(n / 10);
        assert(s.drop_last() == decimal(n / 10));
        assert(digit_value(s.last(), 10) == Some((n % 10) as int));
        assert forall|i: int| 0 <= i < s.len() implies '0' <= #[trigger] s[i] <= '9' by {
            if i < s.len() - 1 {
                assert(s[i] == decimal(n / 10)[i]);
            }
        }
    }
}

/// A number that is written in decimal notation has only digits in it, and is read back as the
/// number that it is, as long as it is not too large; so different numbers look different.
pub proof fn law_numbers_are_read_back(n: nat, max: int, other: nat)
    requires
        n <= max,
    ensures
        parse_unsigned(decimal(n), 10, max) == Some(n as int),
        all_digits(decimal(n)),
        decimal(n) == decimal(other) ==> n == other,
{
    lemma_decimal_value(n);
    lemma_decimal_value(other);
    assert('0' <= decimal(n)[0] <= '9');
}

/// A negative number is written as its amount with a minus sign in front, and no other is.
pub proof fn law_minus_signs_are_written(n: int)
    ensures
        n < 0 ==> decimal_int(n) == seq!['-'] + decimal_int(-n),
        n >= 0 ==> all_digits(decimal_int(n)) && digits_value(decimal_int(n), 10) == Some(n),
{
    if n >= 0 {
        lemma_decimal_value(n as nat);
    }
}

/// Nothing but digits is read as a number, with a plus sign in front at most, and nothing that
/// is too large is.
pub proof fn law_only_digits_are_numbers(s: Seq<char>, max: int)
    ensures
        parse_unsigned(s, 10, max) matches Some(v) ==> v <= max && s.len() > 0 && (all_digits(s)
            || (s[0] == '+' && s.len() > 1 && all_digits(s.skip(1)))),
{
    let d = without_plus(s);
    lemma_digits_only(d);
}

proof fn lemma_digits_only(d: Seq<char>)
    ensures
        digits_value(d, 10) is Some ==> all_digits(d),
    decreases d.len(),
{
    if d.len() > 0 {
        lemma_digits_only(d.drop_last());
        if digits_value(d, 10) is Some {
            assert forall|i: int| 0 <= i < d.len() implies '0' <= #[trigger] d[i] <= '9' by {
                if i < d.len() - 1 {
                    assert(d[i] == d.drop_last()[i]);
                }
            }
        }
    }
}

} // verus!
