//! Distances and how relevant they make an item.

use vstd::arithmetic::power2::{lemma2_to64, lemma2_to64_rest, lemma_pow2_pos};
use vstd::prelude::*;

use crate::ieee::{lemma_whole, one, Real};
use crate::num::{decimal, decimal_of};
use crate::text::{append, append_str, string_of};

verus! {

/// The bits of 200, below which a distance is very close.
pub const DIST_SCORE_5: u64 = 0x4069_0000_0000_0000;

/// The bits of 500.
pub const DIST_SCORE_4: u64 = 0x407f_4000_0000_0000;

/// The bits of 1000.
pub const DIST_SCORE_3: u64 = 0x408f_4000_0000_0000;

/// The bits of 2000.
pub const DIST_SCORE_2: u64 = 0x409f_4000_0000_0000;

/// The bits of 10000, below which a distance is in the same city.
pub const DIST_SCORE_1: u64 = 0x40c3_8800_0000_0000;

/// The bits of 20000, below which a geocoded street counts.
pub const GEOCODE_RANGE: u64 = 0x40d3_8800_0000_0000;

/// The limits have their places in the format.
proof fn lemma_limits()
    ensures
        (Real { bits: DIST_SCORE_5 }).value() == 200 * one(),
        (Real { bits: DIST_SCORE_4 }).value() == 500 * one(),
        (Real { bits: DIST_SCORE_3 }).value() == 1000 * one(),
        (Real { bits: DIST_SCORE_2 }).value() == 2000 * one(),
        (Real { bits: DIST_SCORE_1 }).value() == 10_000 * one(),
        (Real { bits: GEOCODE_RANGE }).value() == 20_000 * one(),
{
    lemma2_to64();
    lemma2_to64_rest();
    lemma_whole(DIST_SCORE_5 as int, 200, 45);
    lemma_whole(DIST_SCORE_4 as int, 500, 44);
    lemma_whole(DIST_SCORE_3 as int, 1000, 43);
    lemma_whole(DIST_SCORE_2 as int, 2000, 42);
    lemma_whole(DIST_SCORE_1 as int, 10_000, 39);
    lemma_whole(GEOCODE_RANGE as int, 20_000, 38);
}

/// How relevant something at a distance in metres is, from 0 to 5.
pub open spec fn score_at(m: Real) -> int {
    if m.below(200) {
        5
    } else if m.below(500) {
        4
    } else if m.below(1000) {
        3
    } else if m.below(2000) {
        2
    } else if m.below(10_000) {
        1
    } else {
        0
    }
}

/// How relevant something at a distance in metres is, from 0 to 5.
pub fn distance_score(m: Real) -> (r: i32)
    ensures
        r == score_at(m),
{
    proof {
        lemma_limits();
    }
    if m.lt(Real { bits: DIST_SCORE_5 }) {
        5
    } else if m.lt(Real { bits: DIST_SCORE_4 }) {
        4
    } else if m.lt(Real { bits: DIST_SCORE_3 }) {
        3
    } else if m.lt(Real { bits: DIST_SCORE_2 }) {
        2
    } else if m.lt(Real { bits: DIST_SCORE_1 }) {
        1
    } else {
        0
    }
}

/// Whether a geocoded street is near enough to count.
pub fn in_geocode_range(m: Real) -> (r: bool)
    ensures
        r == m.below(20_000),
{
    proof {
        lemma_limits();
    }
    m.lt(Real { bits: GEOCODE_RANGE })
}

/// A distance for people: in whole metres below a kilometre, and else in
/// kilometres with one place behind the point.
pub open spec fn distance_text(m: Real) -> Seq<char> {
    if m.below(1000) {
        "~"@ + decimal(m.rounded() as nat) + "m"@
    } else {
        "~"@ + m.thousandth_text() + "km"@
    }
}

/// A distance for people.
pub fn format_distance(m: Real) -> (r: String)
    ensures
        r@ == distance_text(m),
{
    proof {
        lemma_limits();
        lemma_pow2_pos(1074);
        let w = one();
        assert(1000 * w <= 0x8000_0000_0000_0000 * w) by (nonlinear_arith)
            requires
                w > 0,
        ;
    }
    let mut out: Vec<char> = Vec::new();
    append_str(&mut out, "~");
    if m.lt(Real { bits: DIST_SCORE_3 }) {
        let n: u64 = m.round();
        let digits = decimal_of(n);
        append(&mut out, digits.as_slice());
        append_str(&mut out, "m");
        assert(out@ == "~"@ + decimal(m.rounded() as nat) + "m"@);
    } else {
        let digits = m.to_thousandth_text();
        append(&mut out, digits.as_slice());
        append_str(&mut out, "km");
        assert(out@ == "~"@ + m.thousandth_text() + "km"@);
    }
    string_of(out.as_slice())
}

/// The colour that a score is shown in.
pub open spec fn color_of(score: int) -> Seq<char> {
    if score >= 5 {
        "🔴"@
    } else if score == 4 {
        "🟠"@
    } else if score == 3 {
        "🟡"@
    } else if score == 2 {
        "🟢"@
    } else if score == 1 {
        "🔵"@
    } else {
        "⚪"@
    }
}

/// The colour that a score is shown in.
pub fn score_color(score: i32) -> (r: &'static str)
    ensures
        r@ == color_of(score as int),
{
    if score >= 5 {
        "🔴"
    } else if score == 4 {
        "🟠"
    } else if score == 3 {
        "🟡"
    } else if score == 2 {
        "🟢"
    } else if score == 1 {
        "🔵"
    } else {
        "⚪"
    }
}

// ---------------------------------------------------------------------------
// Laws
// ---------------------------------------------------------------------------

/// Scores are from 0 to 5, and what is nearer never scores less.
pub proof fn law_nearer_scores_no_less(near: Real, far: Real)
    requires
        near.less(far),
    ensures
        0 <= score_at(far) <= score_at(near) <= 5,
{
}

/// What is no number, or infinitely far away, does not score.
pub proof fn law_unknown_distance_scores_nothing(m: Real)
    requires
        m.is_nan() || (!m.is_finite() && !m.negative()),
    ensures
        score_at(m) == 0,
{
    if !m.is_nan() {
        lemma_limits();
        crate::ieee::lemma_units_increase(DIST_SCORE_1 as int, m.magnitude());
        lemma_pow2_pos(1074);
        let w = one();
        assert(200 * w <= 500 * w && 500 * w <= 1000 * w && 1000 * w <= 2000 * w && 2000 * w
            <= 10_000 * w) by (nonlinear_arith)
            requires
                w > 0,
        ;
    }
}

/// A distance scores at least 5, 4, 3, 2 or 1 exactly if it is below 200, 500, 1000, 2000 or
/// 10000 metres.
pub proof fn law_scores_have_their_limits(m: Real)
    requires
        !m.is_nan(),
    ensures
        score_at(m) >= 5 <==> m.value() < 200 * one(),
        score_at(m) >= 4 <==> m.value() < 500 * one(),
        score_at(m) >= 3 <==> m.value() < 1000 * one(),
        score_at(m) >= 2 <==> m.value() < 2000 * one(),
        score_at(m) >= 1 <==> m.value() < 10_000 * one(),
        0 <= score_at(m) <= 5,
{
    lemma_pow2_pos(1074);
    let w = one();
    assert(200 * w <= 500 * w && 500 * w <= 1000 * w && 1000 * w <= 2000 * w && 2000 * w <= 10_000
        * w) by (nonlinear_arith)
        requires
            w > 0,
    ;
}

/// A distance below a kilometre is shown in metres, and the number that is shown is at most
/// half a metre off.
pub proof fn law_metres_are_shown(m: Real)
    requires
        m.below(1000),
        !m.negative(),
    ensures
        exists|n: nat|
            distance_text(m) == "~"@ + #[trigger] decimal(n) + "m"@ && 2 * m.value() - one() <= 2 * n
                * one() <= 2 * m.value() + one(),
{
    lemma_pow2_pos(1074);
    let w = one();
    let v = m.value();
    crate::ieee::lemma_significand(m.magnitude());
    let n = (2 * v + w) / (2 * w);
    vstd::arithmetic::div_mod::lemma_fundamental_div_mod(2 * v + w, 2 * w);
    vstd::arithmetic::div_mod::lemma_mod_bound(2 * v + w, 2 * w);
    assert((2 * w) * n == 2 * n * w) by (nonlinear_arith);
    assert(n >= 0) by {
        vstd::arithmetic::div_mod::lemma_div_pos_is_pos(2 * v + w, 2 * w);
    }
    assert(distance_text(m) == "~"@ + decimal(n as nat) + "m"@);
}

/// Each score has a colour of its own.
pub proof fn law_scores_have_their_colours(a: int, b: int)
    requires
        0 <= a < b <= 5,
    ensures
        color_of(a) != color_of(b),
{
    reveal_strlit("🔴");
    reveal_strlit("🟠");
    reveal_strlit("🟡");
    reveal_strlit("🟢");
    reveal_strlit("🔵");
    reveal_strlit("⚪");
    assert(color_of(a)[0] != color_of(b)[0]);
}

} // verus!
