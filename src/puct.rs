//! The PUCT exploration score, in fixed-point integers.
//!
//! Values are held from a side's own perspective on the scale
//! `0 ..= VALUE_MAX`: `0` is a loss, `VALUE_DRAW` a draw, `VALUE_MAX` a win.
//! Priors are held on the scale `0 ..= PRIOR_ONE`, and the exploration constant
//! in thousandths. A score is an exact fraction, compared by cross-multiplying,
//! so that no rounding hides a difference between two edges.
use vstd::prelude::*;

verus! {

/// A draw, from either side's perspective.
pub const VALUE_DRAW: u64 = 10_000;

/// A win; a loss is `0`.
pub const VALUE_MAX: u64 = 20_000;

/// The prior probability `1`.
pub const PRIOR_ONE: u32 = 10_000;

/// The probability `1` of a draw estimate.
pub const PROB_ONE: u32 = 10_000;

/// The largest exploration constant, in thousandths.
pub const CPUCT_MAX: u32 = 1_000_000;

/// The largest visit count that a score is computed for.
pub const VISITS_MAX: u64 = 1_099_511_627_776;

/// Scale under the square root, so that `isqrt(n * SQRT_SCALE)` is `1000 * sqrt(n)`.
pub const SQRT_SCALE: u64 = 1_000_000;

/// The denominator that brings `cpuct * prior * isqrt(n * SQRT_SCALE)` to value units.
pub const EXPLORE_DIV: u64 = 1_000_000;

/// `r` is the integer square root of `x`.
pub open spec fn is_isqrt(x: int, r: int) -> bool {
    0 <= r && r * r <= x && x < (r + 1) * (r + 1)
}

/// The PUCT score `q + cpuct * prior * sqrt_n / (EXPLORE_DIV * (1 + child_visits + virtual_loss))`
/// of an edge, times `EXPLORE_DIV`, as a fraction `(numerator, denominator)`
/// with the denominator `1 + child_visits + virtual_loss`. `q` is the edge's value
/// from the parent's perspective and `sqrt_n` the square root of the parent's
/// visits at the scale `SQRT_SCALE`.
pub open spec fn puct(q: int, cpuct: int, prior: int, sqrt_n: int, child_visits: int, virtual_loss: int) -> (int, int) {
    let d = 1 + child_visits + virtual_loss;
    (q * EXPLORE_DIV * d + cpuct * prior * sqrt_n, d)
}

/// `a < b` for fractions with positive denominators.
pub open spec fn frac_lt(a: (int, int), b: (int, int)) -> bool {
    a.0 * b.1 < b.0 * a.1
}

/// `a <= b` for fractions with positive denominators.
pub open spec fn frac_le(a: (int, int), b: (int, int)) -> bool {
    a.0 * b.1 <= b.0 * a.1
}

/// The largest numerator of a score of in-range arguments.
pub const SCORE_NUM_MAX: u128 = 50_000_000_000_000_000_000_000;

/// The largest denominator of a score of in-range arguments.
pub const SCORE_DEN_MAX: u128 = 3_000_000_000_000;

/// A fraction within the bounds that in-range arguments give.
pub open spec fn frac_in_range(a: (int, int)) -> bool {
    0 <= a.0 <= SCORE_NUM_MAX && 1 <= a.1 <= SCORE_DEN_MAX
}

/// Fractions are ordered: `<=` then `<` gives `<`.
pub proof fn lemma_frac_le_lt(a: (int, int), b: (int, int), c: (int, int))
    requires
        a.1 > 0,
        b.1 > 0,
        c.1 > 0,
        frac_le(a, b),
        frac_lt(b, c),
    ensures
        frac_lt(a, c),
{
    assert(a.0 * b.1 * c.1 <= b.0 * a.1 * c.1) by (nonlinear_arith)
        requires
            a.0 * b.1 <= b.0 * a.1,
            c.1 > 0,
    ;
    assert(b.0 * c.1 * a.1 < c.0 * b.1 * a.1) by (nonlinear_arith)
        requires
            b.0 * c.1 < c.0 * b.1,
            a.1 > 0,
    ;
    assert(a.0 * c.1 * b.1 < c.0 * a.1 * b.1) by (nonlinear_arith)
        requires
            a.0 * b.1 * c.1 <= b.0 * a.1 * c.1,
            b.0 * c.1 * a.1 < c.0 * b.1 * a.1,
    ;
    assert(a.0 * c.1 < c.0 * a.1) by (nonlinear_arith)
        requires
            a.0 * c.1 * b.1 < c.0 * a.1 * b.1,
            b.1 > 0,
    ;
}

/// Whether `a < b`, computed.
pub fn frac_less(a: (u128, u128), b: (u128, u128)) -> (r: bool)
    requires
        frac_in_range((a.0 as int, a.1 as int)),
        frac_in_range((b.0 as int, b.1 as int)),
    ensures
        r == frac_lt((a.0 as int, a.1 as int), (b.0 as int, b.1 as int)),
{
    assert(a.0 * b.1 <= SCORE_NUM_MAX * SCORE_DEN_MAX) by (nonlinear_arith)
        requires
            a.0 <= SCORE_NUM_MAX,
            b.1 <= SCORE_DEN_MAX,
    ;
    assert(b.0 * a.1 <= SCORE_NUM_MAX * SCORE_DEN_MAX) by (nonlinear_arith)
        requires
            b.0 <= SCORE_NUM_MAX,
            a.1 <= SCORE_DEN_MAX,
    ;
    a.0 * b.1 < b.0 * a.1
}

/// The integer square root of `x`.
pub fn isqrt(x: u64) -> (r: u64)
    ensures
        is_isqrt(x as int, r as int),
{
    let mut lo: u64 = 0;
    let mut hi: u64 = 4_294_967_296;
    assert(hi * hi > x) by (nonlinear_arith)
        requires
            hi == 4_294_967_296,
            x <= u64::MAX,
    ;
    while hi - lo > 1
        invariant
            lo < hi <= 4_294_967_296,
            lo * lo <= x,
            x < hi * hi,
        decreases hi - lo,
    {
        let mid = lo + (hi - lo) / 2;
        assert(mid < 4_294_967_296);
        assert(mid * mid <= 18_446_744_065_119_617_025) by (nonlinear_arith)
            requires
                mid < 4_294_967_296,
        ;
        if mid * mid <= x {
            lo = mid;
        } else {
            hi = mid;
        }
    }
    assert(hi == lo + 1);
    lo
}

/// The PUCT score of an edge, computed: `q` its value from the parent's
/// perspective, `parent_visits` the parent's completed visits.
pub fn score_fraction(
    q: u64,
    cpuct: u32,
    prior: u32,
    parent_visits: u64,
    child_visits: u64,
    virtual_loss: u64,
) -> (r: (u128, u128))
    requires
        q <= VALUE_MAX,
        cpuct <= CPUCT_MAX,
        prior <= PRIOR_ONE,
        parent_visits <= VISITS_MAX,
        child_visits <= VISITS_MAX,
        virtual_loss <= VISITS_MAX,
    ensures
        (r.0 as int, r.1 as int) == puct(
            q as int,
            cpuct as int,
            prior as int,
            sqrt_of(parent_visits * SQRT_SCALE),
            child_visits as int,
            virtual_loss as int,
        ),
        frac_in_range((r.0 as int, r.1 as int)),
{
    assert(parent_visits * SQRT_SCALE <= VISITS_MAX * SQRT_SCALE) by (nonlinear_arith)
        requires
            parent_visits <= VISITS_MAX,
    ;
    let s = isqrt(parent_visits * SQRT_SCALE);
    proof {
        lemma_isqrt_unique(parent_visits * SQRT_SCALE, s as int, sqrt_of(parent_visits * SQRT_SCALE));
    }
    assert(s <= 1_048_576_000) by (nonlinear_arith)
        requires
            s * s <= parent_visits * SQRT_SCALE,
            parent_visits * SQRT_SCALE <= VISITS_MAX * SQRT_SCALE,
            0 <= s,
    ;
    assert((cpuct as u128) * (prior as u128) <= 10_000_000_000) by (nonlinear_arith)
        requires
            cpuct <= 1_000_000,
            prior <= 10_000,
    ;
    let cp: u128 = (cpuct as u128) * (prior as u128);
    assert(cp * (s as u128) <= 10_000_000_000u128 * 1_048_576_000) by (nonlinear_arith)
        requires
            cp <= 10_000_000_000,
            s <= 1_048_576_000,
    ;
    let explore: u128 = cp * (s as u128);
    let d: u128 = 1 + (child_visits as u128) + (virtual_loss as u128);
    assert((q as u128) * (EXPLORE_DIV as u128) * d <= 20_000u128 * 1_000_000 * 2_199_023_255_553) by (nonlinear_arith)
        requires
            q <= 20_000,
            d <= 2_199_023_255_553,
            EXPLORE_DIV == 1_000_000,
    ;
    let base: u128 = (q as u128) * (EXPLORE_DIV as u128) * d;
    (base + explore, d)
}

/// Raising the prior, with the other terms fixed, never lowers the score.
pub proof fn lemma_puct_monotone_in_prior(
    q: int,
    cpuct: int,
    prior1: int,
    prior2: int,
    sqrt_n: int,
    child_visits: int,
    virtual_loss: int,
)
    requires
        0 <= cpuct,
        0 <= prior1 <= prior2,
        0 <= sqrt_n,
        0 <= child_visits,
        0 <= virtual_loss,
    ensures
        frac_le(
            puct(q, cpuct, prior1, sqrt_n, child_visits, virtual_loss),
            puct(q, cpuct, prior2, sqrt_n, child_visits, virtual_loss),
        ),
{
    let d = 1 + child_visits + virtual_loss;
    assert(cpuct * prior1 * sqrt_n <= cpuct * prior2 * sqrt_n) by (nonlinear_arith)
        requires
            0 <= cpuct,
            prior1 <= prior2,
            0 <= sqrt_n,
    ;
    let n1 = q * EXPLORE_DIV * d + cpuct * prior1 * sqrt_n;
    let n2 = q * EXPLORE_DIV * d + cpuct * prior2 * sqrt_n;
    assert(n1 * d <= n2 * d) by (nonlinear_arith)
        requires
            n1 <= n2,
            d > 0,
    ;
}

/// With a positive exploration constant and parent visits, raising the prior
/// strictly raises the score.
pub proof fn lemma_puct_strict_in_prior(
    q: int,
    cpuct: int,
    prior1: int,
    prior2: int,
    sqrt_n: int,
    child_visits: int,
    virtual_loss: int,
)
    requires
        0 < cpuct,
        0 <= prior1 < prior2,
        0 < sqrt_n,
        0 <= child_visits,
        0 <= virtual_loss,
    ensures
        frac_lt(
            puct(q, cpuct, prior1, sqrt_n, child_visits, virtual_loss),
            puct(q, cpuct, prior2, sqrt_n, child_visits, virtual_loss),
        ),
{
    let d = 1 + child_visits + virtual_loss;
    assert(cpuct * prior1 * sqrt_n < cpuct * prior2 * sqrt_n) by (nonlinear_arith)
        requires
            0 < cpuct,
            prior1 < prior2,
            0 < sqrt_n,
    ;
    let n1 = q * EXPLORE_DIV * d + cpuct * prior1 * sqrt_n;
    let n2 = q * EXPLORE_DIV * d + cpuct * prior2 * sqrt_n;
    assert(n1 * d < n2 * d) by (nonlinear_arith)
        requires
            n1 < n2,
            d > 0,
    ;
}

/// Raising the child's visits plus virtual loss, with the value and prior fixed,
/// never raises the score.
pub proof fn lemma_puct_antitone_in_visits(
    q: int,
    cpuct: int,
    prior: int,
    sqrt_n: int,
    child_visits1: int,
    virtual_loss1: int,
    child_visits2: int,
    virtual_loss2: int,
)
    requires
        0 <= cpuct,
        0 <= prior,
        0 <= sqrt_n,
        0 <= child_visits1,
        0 <= virtual_loss1,
        0 <= child_visits2,
        0 <= virtual_loss2,
        child_visits1 + virtual_loss1 <= child_visits2 + virtual_loss2,
    ensures
        frac_le(
            puct(q, cpuct, prior, sqrt_n, child_visits2, virtual_loss2),
            puct(q, cpuct, prior, sqrt_n, child_visits1, virtual_loss1),
        ),
{
    let x = cpuct * prior * sqrt_n;
    assert(x >= 0) by (nonlinear_arith)
        requires
            0 <= cpuct,
            0 <= prior,
            0 <= sqrt_n,
            x == cpuct * prior * sqrt_n,
    ;
    let d1 = 1 + child_visits1 + virtual_loss1;
    let d2 = 1 + child_visits2 + virtual_loss2;
    let k = q * EXPLORE_DIV;
    assert((k * d2 + x) * d1 <= (k * d1 + x) * d2) by (nonlinear_arith)
        requires
            0 < d1 <= d2,
            x >= 0,
    ;
}

/// With a positive exploration constant, prior and parent visits, raising the
/// child's visits plus virtual loss strictly lowers the score.
pub proof fn lemma_puct_strict_in_visits(
    q: int,
    cpuct: int,
    prior: int,
    sqrt_n: int,
    child_visits1: int,
    virtual_loss1: int,
    child_visits2: int,
    virtual_loss2: int,
)
    requires
        0 < cpuct,
        0 < prior,
        0 < sqrt_n,
        0 <= child_visits1,
        0 <= virtual_loss1,
        0 <= child_visits2,
        0 <= virtual_loss2,
        child_visits1 + virtual_loss1 < child_visits2 + virtual_loss2,
    ensures
        frac_lt(
            puct(q, cpuct, prior, sqrt_n, child_visits2, virtual_loss2),
            puct(q, cpuct, prior, sqrt_n, child_visits1, virtual_loss1),
        ),
{
    let x = cpuct * prior * sqrt_n;
    assert(x > 0) by (nonlinear_arith)
        requires
            0 < cpuct,
            0 < prior,
            0 < sqrt_n,
            x == cpuct * prior * sqrt_n,
    ;
    let d1 = 1 + child_visits1 + virtual_loss1;
    let d2 = 1 + child_visits2 + virtual_loss2;
    let k = q * EXPLORE_DIV;
    assert((k * d2 + x) * d1 < (k * d1 + x) * d2) by (nonlinear_arith)
        requires
            0 < d1 < d2,
            x > 0,
    ;
}

/// The value assumed for an edge whose child has no visits yet.
#[derive(Clone, Copy, Debug, PartialEq, Eq, Structural)]
pub enum FirstPlayUrgency {
    /// The parent's own value less this amount, and at least a loss.
    ParentReduced(u64),
    /// This value.
    Absolute(u64),
}

/// The parameters of the search.
#[derive(Clone, Copy, Debug)]
pub struct MctsParams {
    /// The exploration constant, in thousandths.
    pub cpuct: u32,
    /// The value of unvisited edges.
    pub fpu: FirstPlayUrgency,
}

impl MctsParams {
    pub open spec fn wf(&self) -> bool {
        &&& self.cpuct <= CPUCT_MAX
        &&& match self.fpu {
            FirstPlayUrgency::ParentReduced(d) => d <= VALUE_MAX,
            FirstPlayUrgency::Absolute(v) => v <= VALUE_MAX,
        }
    }

    /// Parameters from an exploration constant (in thousandths) and a reduction
    /// of the parent's value for unvisited edges (in value units).
    pub fn new(cpuct: u32, fpu_reduction: u64) -> (r: MctsParams)
        ensures
            r.cpuct == cpuct,
            r.fpu == FirstPlayUrgency::ParentReduced(fpu_reduction),
    {
        MctsParams { cpuct, fpu: FirstPlayUrgency::ParentReduced(fpu_reduction) }
    }

    /// Parameters from an exploration constant and a first-play policy.
    pub fn with_fpu(cpuct: u32, fpu: FirstPlayUrgency) -> (r: MctsParams)
        ensures
            r.cpuct == cpuct,
            r.fpu == fpu,
    {
        MctsParams { cpuct, fpu }
    }

    /// Whether the parameters are in range, computed.
    pub fn is_valid(&self) -> (r: bool)
        ensures
            r == self.wf(),
    {
        self.cpuct <= CPUCT_MAX && match self.fpu {
            FirstPlayUrgency::ParentReduced(d) => d <= VALUE_MAX,
            FirstPlayUrgency::Absolute(v) => v <= VALUE_MAX,
        }
    }
}

/// The square root that the score takes.
pub open spec fn sqrt_of(x: int) -> int {
    choose|r: int| is_isqrt(x, r)
}

/// An integer square root is unique.
pub proof fn lemma_isqrt_unique(x: int, r1: int, r2: int)
    requires
        is_isqrt(x, r1),
        is_isqrt(x, r2),
    ensures
        r1 == r2,
{
    if r1 < r2 {
        assert((r1 + 1) * (r1 + 1) <= r2 * r2) by (nonlinear_arith)
            requires
                0 <= r1 < r2,
        ;
    } else if r2 < r1 {
        assert((r2 + 1) * (r2 + 1) <= r1 * r1) by (nonlinear_arith)
            requires
                0 <= r2 < r1,
        ;
    }
}

} // verus!
