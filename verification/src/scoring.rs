use vstd::prelude::*;
use vstd::arithmetic::power::{pow, lemma_pow_distributes, lemma_pow_multiplies, lemma_pow_positive};
use crate::number::{Number, pow10, side_l, side_r, mag_l, mag_r, MAX_MANT};
use crate::digits::{
    ndigits, cmp_scaled, pow_prod, lemma_scaled_gap, lemma_side_swap, lemma_pow10_vals,
    lemma_pow10_pos, lemma_pow10_increases, lemma_pow10_strictly_increases, lemma_pow_base_le,
    lemma_cmp_shift_iff,
};

verus! {

/// The grading tier of one submitted answer.
#[derive(Clone, Copy, Debug, PartialEq, Eq, Structural)]
pub enum ScoreResult {
    /// Within a tenth of an order of magnitude.
    Exact,
    /// Within half an order of magnitude.
    Close,
    /// Within one order of magnitude.
    Partial,
    /// More than one order of magnitude off.
    Wrong,
}

impl ScoreResult {
    /// The fixed point value of the tier.
    pub open spec fn spec_points(self) -> u32 {
        match self {
            ScoreResult::Exact => 100,
            ScoreResult::Close => 75,
            ScoreResult::Partial => 25,
            ScoreResult::Wrong => 0,
        }
    }

    pub fn points(&self) -> (r: u32)
        ensures
            r == self.spec_points(),
    {
        match self {
            ScoreResult::Exact => 100,
            ScoreResult::Close => 75,
            ScoreResult::Partial => 25,
            ScoreResult::Wrong => 0,
        }
    }

    /// The fixed display label of the tier.
    pub open spec fn spec_label(self) -> Seq<char> {
        match self {
            ScoreResult::Exact => "Exact!"@,
            ScoreResult::Close => "Close!"@,
            ScoreResult::Partial => "Partial"@,
            ScoreResult::Wrong => "Off"@,
        }
    }

    pub fn label(&self) -> (r: &'static str)
        ensures
            r@ == self.spec_label(),
    {
        match self {
            ScoreResult::Exact => "Exact!",
            ScoreResult::Close => "Close!",
            ScoreResult::Partial => "Partial",
            ScoreResult::Wrong => "Off",
        }
    }
}

/// The larger side of the exact ratio comparison of two positive values: for
/// positive u and c, the ratio max(u,c)/min(u,c) equals
/// `ratio_hi(u, c) / ratio_lo(u, c)` as a quotient of exact integers.
pub open spec fn ratio_hi(u: Number, c: Number) -> int {
    if mag_l(u, c) >= mag_r(u, c) {
        mag_l(u, c)
    } else {
        mag_r(u, c)
    }
}

/// The smaller side of the exact ratio comparison of two positive values.
pub open spec fn ratio_lo(u: Number, c: Number) -> int {
    if mag_l(u, c) >= mag_r(u, c) {
        mag_r(u, c)
    } else {
        mag_l(u, c)
    }
}

/// The grading tier, decided exactly.  For positive u and c let
/// r = ratio_hi / ratio_lo >= 1 and d = log10(r) the order-of-magnitude
/// distance.  Each threshold on d is an exact comparison of integer powers:
/// d <= 0.1 iff r^10 <= 10, d <= 0.5 iff r^2 <= 10, and d <= 1 iff r <= 10 --
/// each inclusive of its bound.  Any non-positive value is infinitely wrong.
pub open spec fn spec_evaluate(u: Number, c: Number) -> ScoreResult {
    if u.nonpos() || c.nonpos() {
        ScoreResult::Wrong
    } else {
        let hi = ratio_hi(u, c);
        let lo = ratio_lo(u, c);
        if pow(hi, 10) <= 10 * pow(lo, 10) {
            ScoreResult::Exact
        } else if hi * hi <= 10 * (lo * lo) {
            ScoreResult::Close
        } else if hi <= 10 * lo {
            ScoreResult::Partial
        } else {
            ScoreResult::Wrong
        }
    }
}

/// Both scaled sides of a positive comparison are positive.
pub proof fn lemma_side_pos(x: int, s: int)
    requires
        x >= 1,
    ensures
        side_l(x, s) >= 1,
        side_r(x, s) >= 1,
{
    if s >= 0 {
        lemma_pow10_pos(s as nat);
        assert(x * pow10(s as nat) >= 1) by (nonlinear_arith)
            requires
                x >= 1,
                pow10(s as nat) >= 1,
        ;
    } else {
        lemma_pow10_pos((-s) as nat);
        assert(x * pow10((-s) as nat) >= 1) by (nonlinear_arith)
            requires
                x >= 1,
                pow10((-s) as nat) >= 1,
        ;
    }
}

/// Scaling the unscaled operand by ten scales the whole side by ten.
pub proof fn lemma_side_scale10(x: int, s: int)
    ensures
        side_l(10 * x, s) == 10 * side_l(x, s),
        side_r(10 * x, s) == 10 * side_r(x, s),
{
    if s >= 0 {
        assert((10 * x) * pow10(s as nat) == 10 * (x * pow10(s as nat))) by (nonlinear_arith);
    } else {
        assert((10 * x) * pow10((-s) as nat) == 10 * (x * pow10((-s) as nat)))
            by (nonlinear_arith);
    }
}

/// A ratio beyond one order of magnitude fails every tier test.
pub proof fn lemma_wrong_tier(hi: int, lo: int)
    requires
        hi > 10 * lo,
        lo >= 1,
    ensures
        pow(hi, 10) > 10 * pow(lo, 10),
        hi * hi > 10 * (lo * lo),
{
    assert(hi * hi > 10 * (lo * lo)) by (nonlinear_arith)
        requires
            hi > 10 * lo,
            lo >= 1,
    ;
    lemma_pow_base_le(10 * lo, hi, 10);
    lemma_pow_distributes(10, lo, 10);
    lemma_pow_positive(lo, 10);
    lemma_pow10_strictly_increases(1, 10);
    lemma_pow10_vals();
    assert(pow(10, 10) * pow(lo, 10) > 10 * pow(lo, 10)) by (nonlinear_arith)
        requires
            pow(10, 10) > 10,
            pow(lo, 10) >= 1,
    ;
}

/// The two one-sided tests together are the hi/lo test, for every power used
/// by the tiers.
pub proof fn lemma_two_sided(l: int, r: int, hi: int, lo: int)
    requires
        l >= 1,
        r >= 1,
        hi == if l >= r {
            l
        } else {
            r
        },
        lo == if l >= r {
            r
        } else {
            l
        },
    ensures
        (pow(l, 10) <= 10 * pow(r, 10) && pow(r, 10) <= 10 * pow(l, 10)) <==> pow(hi, 10) <= 10
            * pow(lo, 10),
        (pow(l, 2) <= 10 * pow(r, 2) && pow(r, 2) <= 10 * pow(l, 2)) <==> pow(hi, 2) <= 10 * pow(
            lo,
            2,
        ),
        (l <= 10 * r && r <= 10 * l) <==> hi <= 10 * lo,
{
    lemma_pow_base_le(lo, hi, 10);
    lemma_pow_base_le(lo, hi, 2);
    lemma_pow_positive(hi, 10);
    lemma_pow_positive(hi, 2);
    lemma_pow_positive(lo, 10);
    lemma_pow_positive(lo, 2);
    assert(lo <= 10 * lo && hi <= 10 * hi) by (nonlinear_arith)
        requires
            lo >= 1,
            hi >= 1,
    ;
}

/// Power of a scaled side in terms of its factors: used to reduce the tier
/// tests to small-integer products.
pub proof fn lemma_pow_of_side(a: int, b: int, sh: nat, k: nat)
    requires
        a >= 0,
        b >= 0,
    ensures
        pow((a * b) * pow10(sh), k) == pow(a, k) * pow(b, k) * pow10((k * sh) as nat),
{
    lemma_pow_distributes(a, b, k);
    lemma_pow_distributes(a * b, pow10(sh), k);
    lemma_pow_multiplies(10, sh, k);
    assert((k * sh) as nat == sh * k) by (nonlinear_arith);
    assert(pow10(sh) == pow(10, sh));
    assert(pow10((k * sh) as nat) == pow(10, (k * sh) as nat));
    assert(pow(pow10(sh), k) == pow10((k * sh) as nat));
    assert(pow(a * b, k) * pow(pow10(sh), k) == pow(a, k) * pow(b, k) * pow10((k * sh) as nat))
        by (nonlinear_arith)
        requires
            pow(a * b, k) == pow(a, k) * pow(b, k),
            pow(pow10(sh), k) == pow10((k * sh) as nat),
    ;
}

/// Grades a submitted answer against the correct one: the exact counterpart
/// of mapping |log10(user) - log10(correct)| through the fixed thresholds
/// 0.1, 0.5 and 1.0, each inclusive.
pub fn evaluate(user: &Number, correct: &Number) -> (r: ScoreResult)
    requires
        user.wf(),
        correct.wf(),
    ensures
        r == spec_evaluate(*user, *correct),
{
    if user.neg || user.num == 0 || correct.neg || correct.num == 0 {
        return ScoreResult::Wrong;
    }
    proof {
        lemma_pow10_vals();
        assert((user.num as int) * (correct.den as int) <= MAX_MANT * MAX_MANT
            && (user.num as int) * (correct.den as int) >= 1) by (nonlinear_arith)
            requires
                1 <= user.num <= MAX_MANT,
                1 <= correct.den <= MAX_MANT,
        ;
        assert((correct.num as int) * (user.den as int) <= MAX_MANT * MAX_MANT && (
        correct.num as int) * (user.den as int) >= 1) by (nonlinear_arith)
            requires
                1 <= correct.num <= MAX_MANT,
                1 <= user.den <= MAX_MANT,
        ;
    }
    let p: u128 = (user.num as u128) * (correct.den as u128);
    let q: u128 = (correct.num as u128) * (user.den as u128);
    let s64: i64 = user.exp - correct.exp;
    let s: i128 = s64 as i128;
    let ghost gl = mag_l(*user, *correct);
    let ghost gr = mag_r(*user, *correct);
    proof {
        assert(gl == side_l(p as int, s as int));
        assert(gr == side_r(q as int, s as int));
        lemma_side_pos(p as int, s as int);
        lemma_side_pos(q as int, s as int);
    }
    let dp: u32 = ndigits(p);
    let dq: u32 = ndigits(q);
    let t: i128 = s + dp as i128 - dq as i128;
    if t >= 2 {
        proof {
            lemma_scaled_gap(p as int, q as int, s as int, dp as nat, dq as nat, 1);
            lemma_pow10_vals();
            lemma_wrong_tier(gl, gr);
        }
        return ScoreResult::Wrong;
    }
    if t <= -2 {
        proof {
            lemma_scaled_gap(q as int, p as int, -s as int, dq as nat, dp as nat, 1);
            lemma_side_swap(p as int, s as int);
            lemma_side_swap(q as int, s as int);
            lemma_pow10_vals();
            lemma_wrong_tier(gr, gl);
        }
        return ScoreResult::Wrong;
    }
    // |t| <= 1, so the scale is at most 38 decimal places
    proof {
        if dp >= 38 {
            lemma_pow10_increases(37, (dp - 1) as nat);
            lemma_pow10_vals();
            assert(false);
        }
        if dq >= 38 {
            lemma_pow10_increases(37, (dq - 1) as nat);
            lemma_pow10_vals();
            assert(false);
        }
    }
    let sp: usize = if s >= 0 {
        s as usize
    } else {
        0
    };
    let sq: usize = if s < 0 {
        (-s) as usize
    } else {
        0
    };
    proof {
        // the two sides as factored products with nonnegative scales
        assert(gl == (user.num as int * correct.den as int) * pow10(sp as nat)) by {
            if s >= 0 {
            } else {
                lemma_pow10_vals();
                assert((p as int) * pow10(0) == p as int) by (nonlinear_arith)
                    requires
                        pow10(0) == 1,
                ;
            }
        }
        assert(gr == (correct.num as int * user.den as int) * pow10(sq as nat)) by {
            if s < 0 {
            } else {
                lemma_pow10_vals();
                assert((q as int) * pow10(0) == q as int) by (nonlinear_arith)
                    requires
                        pow10(0) == 1,
                ;
            }
        }
    }
    // within one order of magnitude, both ways
    let cab: i8 = cmp_scaled(p, 10 * q, s);
    let cba: i8 = cmp_scaled(q, 10 * p, -s);
    proof {
        lemma_side_scale10(q as int, s as int);
        lemma_side_scale10(p as int, -s as int);
        lemma_side_swap(p as int, s as int);
        lemma_side_swap(q as int, s as int);
    }
    let partial_ok: bool = cab <= 0 && cba <= 0;
    proof {
        assert(partial_ok <==> (gl <= 10 * gr && gr <= 10 * gl));
    }
    // within half an order of magnitude: squares, both ways
    let a2 = pow_prod(user.num, correct.den, 2, false, 2 * sp);
    let b2t = pow_prod(correct.num, user.den, 2, true, 2 * sq);
    let c2 = pow_prod(correct.num, user.den, 2, false, 2 * sq);
    let d2t = pow_prod(user.num, correct.den, 2, true, 2 * sp);
    let close_ok: bool = a2.cmp(&b2t) <= 0 && c2.cmp(&d2t) <= 0;
    proof {
        lemma_pow_of_side(user.num as int, correct.den as int, sp as nat, 2);
        lemma_pow_of_side(correct.num as int, user.den as int, sq as nat, 2);
        assert(a2.val() == pow(gl, 2) && d2t.val() == 10 * pow(gl, 2)) by (nonlinear_arith)
            requires
                pow(gl, 2) == pow(user.num as int, 2) * pow(correct.den as int, 2) * pow10(
                    (2 * sp) as nat,
                ),
                a2.val() == pow(user.num as int, 2) * pow(correct.den as int, 2) * 1 * pow10(
                    (2 * sp) as nat,
                ),
                d2t.val() == pow(user.num as int, 2) * pow(correct.den as int, 2) * 10 * pow10(
                    (2 * sp) as nat,
                ),
        ;
        assert(c2.val() == pow(gr, 2) && b2t.val() == 10 * pow(gr, 2)) by (nonlinear_arith)
            requires
                pow(gr, 2) == pow(correct.num as int, 2) * pow(user.den as int, 2) * pow10(
                    (2 * sq) as nat,
                ),
                c2.val() == pow(correct.num as int, 2) * pow(user.den as int, 2) * 1 * pow10(
                    (2 * sq) as nat,
                ),
                b2t.val() == pow(correct.num as int, 2) * pow(user.den as int, 2) * 10 * pow10(
                    (2 * sq) as nat,
                ),
        ;
        assert(close_ok <==> (pow(gl, 2) <= 10 * pow(gr, 2) && pow(gr, 2) <= 10 * pow(gl, 2)));
    }
    // within a tenth of an order of magnitude: tenth powers, both ways
    let a10 = pow_prod(user.num, correct.den, 10, false, 10 * sp);
    let b10t = pow_prod(correct.num, user.den, 10, true, 10 * sq);
    let c10 = pow_prod(correct.num, user.den, 10, false, 10 * sq);
    let d10t = pow_prod(user.num, correct.den, 10, true, 10 * sp);
    let exact_ok: bool = a10.cmp(&b10t) <= 0 && c10.cmp(&d10t) <= 0;
    proof {
        lemma_pow_of_side(user.num as int, correct.den as int, sp as nat, 10);
        lemma_pow_of_side(correct.num as int, user.den as int, sq as nat, 10);
        assert(a10.val() == pow(gl, 10) && d10t.val() == 10 * pow(gl, 10)) by (nonlinear_arith)
            requires
                pow(gl, 10) == pow(user.num as int, 10) * pow(correct.den as int, 10) * pow10(
                    (10 * sp) as nat,
                ),
                a10.val() == pow(user.num as int, 10) * pow(correct.den as int, 10) * 1 * pow10(
                    (10 * sp) as nat,
                ),
                d10t.val() == pow(user.num as int, 10) * pow(correct.den as int, 10) * 10 * pow10(
                    (10 * sp) as nat,
                ),
        ;
        assert(c10.val() == pow(gr, 10) && b10t.val() == 10 * pow(gr, 10)) by (nonlinear_arith)
            requires
                pow(gr, 10) == pow(correct.num as int, 10) * pow(user.den as int, 10) * pow10(
                    (10 * sq) as nat,
                ),
                c10.val() == pow(correct.num as int, 10) * pow(user.den as int, 10) * 1 * pow10(
                    (10 * sq) as nat,
                ),
                b10t.val() == pow(correct.num as int, 10) * pow(user.den as int, 10) * 10 * pow10(
                    (10 * sq) as nat,
                ),
        ;
        assert(exact_ok <==> (pow(gl, 10) <= 10 * pow(gr, 10) && pow(gr, 10) <= 10 * pow(
            gl,
            10,
        )));
        lemma_two_sided(gl, gr, ratio_hi(*user, *correct), ratio_lo(*user, *correct));
        reveal_with_fuel(pow, 3);
        assert(pow(gl, 2) == gl * gl && pow(gr, 2) == gr * gr) by (nonlinear_arith)
            requires
                pow(gl, 2) == gl * (gl * 1),
                pow(gr, 2) == gr * (gr * 1),
        ;
        assert(pow(ratio_hi(*user, *correct), 2) == ratio_hi(*user, *correct) * ratio_hi(
            *user,
            *correct,
        ) && pow(ratio_lo(*user, *correct), 2) == ratio_lo(*user, *correct) * ratio_lo(
            *user,
            *correct,
        )) by (nonlinear_arith)
            requires
                pow(ratio_hi(*user, *correct), 2) == ratio_hi(*user, *correct) * (ratio_hi(
                    *user,
                    *correct,
                ) * 1),
                pow(ratio_lo(*user, *correct), 2) == ratio_lo(*user, *correct) * (ratio_lo(
                    *user,
                    *correct,
                ) * 1),
        ;
    }
    if exact_ok {
        ScoreResult::Exact
    } else if close_ok {
        ScoreResult::Close
    } else if partial_ok {
        ScoreResult::Partial
    } else {
        ScoreResult::Wrong
    }
}

/// floor(log10(p / q)) for integers p >= q >= 1, by repeated scaling of the
/// denominator.
pub open spec fn slog(p: int, q: int) -> int
    recommends
        1 <= q <= p,
    decreases p - q,
        when 1 <= q <= p
{
    if p < 10 * q {
        0
    } else {
        1 + slog(p, 10 * q)
    }
}

/// How many of the first k half-tenth thresholds the ratio hi/lo clears:
/// the j-th threshold (j = 1..k) holds when (hi/lo)^20 >= 10^(2j-1), that is
/// when log10(hi/lo) >= (2j-1)/20.
pub open spec fn frac_count(hi: int, lo: int, k: nat) -> int
    decreases k,
{
    if k == 0 {
        0
    } else {
        frac_count(hi, lo, (k - 1) as nat) + if pow(hi, 20) >= pow10((2 * k - 1) as nat) * pow(
            lo,
            20,
        ) {
            1int
        } else {
            0int
        }
    }
}

/// The order-of-magnitude distance |log10(u) - log10(c)| of two positive
/// values, rounded to the nearest tenth and scaled to an integer count of
/// tenths.  With r = hi/lo >= 1 the distance is log10(r) = f + g where
/// f = floor(log10 r) and g in [0, 1); round(10 * g) counts the half-tenth
/// thresholds that g clears, each an exact comparison of twentieth powers.
/// (A tie at a threshold would need r^20 to be an odd power of ten, which no
/// ratio of decimals attains.)
pub open spec fn spec_oom_tenths(u: Number, c: Number) -> int {
    let hi = ratio_hi(u, c);
    let lo = ratio_lo(u, c);
    let f = slog(hi, lo);
    10 * f + frac_count(hi, lo * pow10(f as nat), 10)
}

/// The value of `slog` is pinned by the bracket q*10^f <= p < q*10^(f+1).
pub proof fn lemma_slog_set(p: int, q: int, f: int)
    requires
        1 <= q <= p,
        f >= 0,
        q * pow10(f as nat) <= p,
        p < q * pow10((f + 1) as nat),
    ensures
        slog(p, q) == f,
    decreases f,
{
    lemma_pow10_vals();
    if f == 0 {
        assert(q * pow10(0) == q) by (nonlinear_arith)
            requires
                pow10(0) == 1,
        ;
        assert(q * pow10(1) == 10 * q) by (nonlinear_arith)
            requires
                pow10(1) == 10,
        ;
    } else {
        crate::digits::lemma_pow10_succ((f - 1) as nat);
        crate::digits::lemma_pow10_succ(f as nat);
        assert((10 * q) * pow10((f - 1) as nat) == q * pow10(f as nat)) by (nonlinear_arith)
            requires
                pow10(f as nat) == 10 * pow10((f - 1) as nat),
        ;
        assert((10 * q) * pow10(f as nat) == q * pow10((f + 1) as nat)) by (nonlinear_arith)
            requires
                pow10((f + 1) as nat) == 10 * pow10(f as nat),
        ;
        crate::digits::lemma_pow10_pos((f - 1) as nat);
        assert((10 * q) * pow10((f - 1) as nat) >= 10 * q) by (nonlinear_arith)
            requires
                pow10((f - 1) as nat) >= 1,
                q >= 1,
        ;
        lemma_slog_set(p, 10 * q, f - 1);
    }
}

/// The distance is symmetric in its two arguments: swapping them changes
/// only the direction, never the magnitude.
pub proof fn lemma_oom_distance_symmetric(u: Number, c: Number)
    ensures
        spec_oom_tenths(u, c) == spec_oom_tenths(c, u),
        spec_evaluate(u, c) == spec_evaluate(c, u),
{
    lemma_side_swap(u.num * c.den, u.exp - c.exp);
    lemma_side_swap(c.num * u.den, u.exp - c.exp);
    assert(mag_l(c, u) == mag_r(u, c));
    assert(mag_r(c, u) == mag_l(u, c));
    assert(ratio_hi(u, c) == ratio_hi(c, u));
    assert(ratio_lo(u, c) == ratio_lo(c, u));
}

/// The order-of-magnitude distance between two values, in tenths of an
/// order of magnitude, rounded to the nearest tenth.  `None` is the
/// sentinel: either value was zero or negative, which no finite distance
/// describes.
pub fn oom_distance(user: &Number, correct: &Number) -> (r: Option<u64>)
    requires
        user.wf(),
        correct.wf(),
    ensures
        r is None <==> (user.nonpos() || correct.nonpos()),
        r matches Some(t) ==> t as int == spec_oom_tenths(*user, *correct),
{
    if user.neg || user.num == 0 || correct.neg || correct.num == 0 {
        return None;
    }
    proof {
        lemma_pow10_vals();
        assert((user.num as int) * (correct.den as int) <= MAX_MANT * MAX_MANT
            && (user.num as int) * (correct.den as int) >= 1) by (nonlinear_arith)
            requires
                1 <= user.num <= MAX_MANT,
                1 <= correct.den <= MAX_MANT,
        ;
        assert((correct.num as int) * (user.den as int) <= MAX_MANT * MAX_MANT && (
        correct.num as int) * (user.den as int) >= 1) by (nonlinear_arith)
            requires
                1 <= correct.num <= MAX_MANT,
                1 <= user.den <= MAX_MANT,
        ;
    }
    let p: u128 = (user.num as u128) * (correct.den as u128);
    let q: u128 = (correct.num as u128) * (user.den as u128);
    let s: i128 = (user.exp - correct.exp) as i128;
    let ghost gl = mag_l(*user, *correct);
    let ghost gr = mag_r(*user, *correct);
    proof {
        assert(gl == side_l(p as int, s as int));
        assert(gr == side_r(q as int, s as int));
        lemma_side_pos(p as int, s as int);
        lemma_side_pos(q as int, s as int);
        lemma_side_swap(p as int, s as int);
        lemma_side_swap(q as int, s as int);
    }
    let c0: i8 = cmp_scaled(p, q, s);
    let ha: u64;
    let hb: u64;
    let la: u64;
    let lb: u64;
    let hs: i128;
    if c0 >= 0 {
        ha = user.num;
        hb = correct.den;
        la = correct.num;
        lb = user.den;
        hs = s;
    } else {
        ha = correct.num;
        hb = user.den;
        la = user.num;
        lb = correct.den;
        hs = -s;
    }
    let hx: u128 = (ha as u128) * (hb as u128);
    let lx: u128 = (la as u128) * (lb as u128);
    let ghost hi = ratio_hi(*user, *correct);
    let ghost lo = ratio_lo(*user, *correct);
    proof {
        assert(hi == side_l(hx as int, hs as int));
        assert(lo == side_r(lx as int, hs as int));
        assert(1 <= lo <= hi);
    }
    let ghost aa: nat = if hs >= 0 {
        hs as nat
    } else {
        0
    };
    let ghost bb: nat = if hs >= 0 {
        0
    } else {
        (-hs) as nat
    };
    proof {
        lemma_pow10_vals();
        assert(hi == hx * pow10(aa) && lo == lx * pow10(bb)) by (nonlinear_arith)
            requires
                hi == side_l(hx as int, hs as int),
                lo == side_r(lx as int, hs as int),
                aa == if hs >= 0 {
                    hs as nat
                } else {
                    0nat
                },
                bb == if hs >= 0 {
                    0nat
                } else {
                    (-hs) as nat
                },
                pow10(0) == 1,
                side_l(hx as int, hs as int) == if hs >= 0 {
                    hx * pow10(hs as nat)
                } else {
                    hx as int
                },
                side_r(lx as int, hs as int) == if hs >= 0 {
                    lx as int
                } else {
                    lx * pow10((-hs) as nat)
                },
        ;
        assert(aa - bb == hs);
    }
    let dh: u32 = ndigits(hx);
    let dl: u32 = ndigits(lx);
    let ghost dhn: nat = dh as nat;
    let ghost dln: nat = dl as nat;
    proof {
        if dh >= 38 {
            lemma_pow10_increases(37, (dh - 1) as nat);
            lemma_pow10_vals();
            assert(false);
        }
        if dl >= 38 {
            lemma_pow10_increases(37, (dl - 1) as nat);
            lemma_pow10_vals();
            assert(false);
        }
        // bounds of hi and lo by digit counts
        crate::digits::lemma_pow10_adds(dhn, aa);
        crate::digits::lemma_pow10_adds((dhn - 1) as nat, aa);
        crate::digits::lemma_pow10_adds(dln, bb);
        crate::digits::lemma_pow10_adds((dln - 1) as nat, bb);
        crate::digits::lemma_pow10_pos(aa);
        crate::digits::lemma_pow10_pos(bb);
        assert(hi < pow10((dhn + aa) as nat) && hi >= pow10((dhn - 1 + aa) as nat))
            by (nonlinear_arith)
            requires
                hi == hx * pow10(aa),
                pow10((dhn - 1) as nat) <= hx < pow10(dhn),
                pow10(aa) >= 1,
                pow10((dhn + aa) as nat) == pow10(dhn) * pow10(aa),
                pow10((dhn - 1 + aa) as nat) == pow10((dhn - 1) as nat) * pow10(aa),
        ;
        assert(lo < pow10((dln + bb) as nat) && lo >= pow10((dln - 1 + bb) as nat))
            by (nonlinear_arith)
            requires
                lo == lx * pow10(bb),
                pow10((dln - 1) as nat) <= lx < pow10(dln),
                pow10(bb) >= 1,
                pow10((dln + bb) as nat) == pow10(dln) * pow10(bb),
                pow10((dln - 1 + bb) as nat) == pow10((dln - 1) as nat) * pow10(bb),
        ;
    }
    let f0: i128 = hs + dh as i128 - dl as i128;
    proof {
        assert(f0 == aa + dhn - bb - dln);
        if f0 <= -1 {
            // then hi < 10^(dh+aa) <= 10^(dl-1+bb) <= lo, contradicting lo <= hi
            lemma_pow10_increases((dhn + aa) as nat, (dln - 1 + bb) as nat);
            assert(false);
        }
    }
    let c1: i8 = cmp_scaled(hx, lx, hs - f0);
    proof {
        lemma_cmp_shift_iff(hx as int, lx as int, aa, (bb + f0) as nat);
        crate::digits::lemma_pow10_adds(bb, f0 as nat);
        assert(lx * pow10((bb + f0) as nat) == lo * pow10(f0 as nat)) by (nonlinear_arith)
            requires
                lo == lx * pow10(bb),
                pow10((bb + f0) as nat) == pow10(bb) * pow10(f0 as nat),
        ;
        if c1 < 0 && f0 == 0 {
            // hi < lo * 10^0 = lo contradicts lo <= hi
            lemma_pow10_vals();
            assert(lo * pow10(0) == lo) by (nonlinear_arith)
                requires
                    pow10(0) == 1,
            ;
            assert(false);
        }
    }
    let f: i128 = if c1 >= 0 {
        f0
    } else {
        f0 - 1
    };
    proof {
        // bracket lo * 10^f <= hi < lo * 10^(f+1), so f = floor(log10(hi/lo))
        if c1 >= 0 {
            // upper: hi < 10^(dh+aa) = 10^(dl-1+bb+f0+1) <= lo * 10^(f0+1)
            crate::digits::lemma_pow10_adds((dln - 1 + bb) as nat, (f0 + 1) as nat);
            crate::digits::lemma_pow10_pos((f0 + 1) as nat);
            assert(lo * pow10((f0 + 1) as nat) >= pow10((dln - 1 + bb) as nat) * pow10(
                (f0 + 1) as nat,
            )) by (nonlinear_arith)
                requires
                    lo >= pow10((dln - 1 + bb) as nat),
                    pow10((f0 + 1) as nat) >= 1,
            ;
            assert((dln - 1 + bb) + (f0 + 1) == dhn + aa);
        } else {
            // upper is the failed test; lower: lo * 10^(f0-1) < 10^(dl+bb+f0-1)
            // = 10^(dh+aa-1) <= hi
            crate::digits::lemma_pow10_adds((dln + bb) as nat, (f0 - 1) as nat);
            crate::digits::lemma_pow10_pos((f0 - 1) as nat);
            assert(lo * pow10((f0 - 1) as nat) < pow10((dln + bb) as nat) * pow10(
                (f0 - 1) as nat,
            )) by (nonlinear_arith)
                requires
                    lo < pow10((dln + bb) as nat),
                    pow10((f0 - 1) as nat) >= 1,
            ;
            assert((dln + bb) + (f0 - 1) == dhn - 1 + aa);
        }
        lemma_cmp_shift_iff(hx as int, lx as int, aa, (bb + f) as nat);
        crate::digits::lemma_pow10_adds(bb, f as nat);
        assert(lx * pow10((bb + f) as nat) == lo * pow10(f as nat)) by (nonlinear_arith)
            requires
                lo == lx * pow10(bb),
                pow10((bb + f) as nat) == pow10(bb) * pow10(f as nat),
        ;
        crate::digits::lemma_pow10_adds(bb, (f + 1) as nat);
        assert(lx * pow10((bb + f + 1) as nat) == lo * pow10((f + 1) as nat))
            by (nonlinear_arith)
            requires
                lo == lx * pow10(bb),
                pow10((bb + f + 1) as nat) == pow10(bb) * pow10((f + 1) as nat),
        ;
        lemma_cmp_shift_iff(hx as int, lx as int, aa, (bb + f + 1) as nat);
        lemma_slog_set(hi, lo, f as int);
    }
    let d: i128 = f - hs;
    let ghost lof: int = lo * pow10(f as nat);
    proof {
        assert(d == dhn - dln || d == dhn - dln - 1);
        crate::digits::lemma_pow10_pos(f as nat);
        assert(lof >= 1) by (nonlinear_arith)
            requires
                lo >= 1,
                pow10(f as nat) >= 1,
                lof == lo * pow10(f as nat),
        ;
        // lof as a factored product for the threshold comparisons
        crate::digits::lemma_pow10_adds(bb, f as nat);
        assert(lof == (la as int * lb as int) * pow10((bb + f) as nat)) by (nonlinear_arith)
            requires
                lo == lx * pow10(bb),
                lof == lo * pow10(f as nat),
                pow10((bb + f) as nat) == pow10(bb) * pow10(f as nat),
                lx == la as int * lb as int,
        ;
        assert(hi == (ha as int * hb as int) * pow10(aa));
        reveal_with_fuel(frac_count, 1);
        assert(frac_count(hi, lof, 0) == 0);
    }
    let mut cnt: u64 = 0;
    let mut k: u32 = 1;
    while k <= 10
        invariant
            1 <= k <= 11,
            cnt == frac_count(hi, lof, (k - 1) as nat),
            0 <= cnt <= k - 1,
            1 <= ha <= MAX_MANT,
            1 <= hb <= MAX_MANT,
            1 <= la <= MAX_MANT,
            1 <= lb <= MAX_MANT,
            -40 <= d <= 40,
            hi == (ha as int * hb as int) * pow10(aa),
            lof == (la as int * lb as int) * pow10((bb + f) as nat),
            aa - bb == hs,
            f - hs == d,
            f >= 0,
            aa >= 0,
            bb >= 0,
            bb + f >= 0,
        decreases 11 - k,
    {
        let net: i128 = (2 * (k as i128) - 1) + 20 * d;
        let sha: usize = if net < 0 {
            (-net) as usize
        } else {
            0
        };
        let shb: usize = if net >= 0 {
            net as usize
        } else {
            0
        };
        let lhs = pow_prod(ha, hb, 20, false, sha);
        let rhs = pow_prod(la, lb, 20, false, shb);
        let ge: bool = lhs.cmp(&rhs) >= 0;
        proof {
            let xx = pow(ha as int, 20) * pow(hb as int, 20);
            let yy = pow(la as int, 20) * pow(lb as int, 20);
            lemma_pow_positive(ha as int, 20);
            lemma_pow_positive(hb as int, 20);
            lemma_pow_positive(la as int, 20);
            lemma_pow_positive(lb as int, 20);
            assert(xx >= 0 && yy >= 0) by (nonlinear_arith)
                requires
                    xx == pow(ha as int, 20) * pow(hb as int, 20),
                    yy == pow(la as int, 20) * pow(lb as int, 20),
                    pow(ha as int, 20) > 0,
                    pow(hb as int, 20) > 0,
                    pow(la as int, 20) > 0,
                    pow(lb as int, 20) > 0,
            ;
            // exec comparison in spec terms
            assert(lhs.val() == xx * pow10(sha as nat)) by (nonlinear_arith)
                requires
                    xx == pow(ha as int, 20) * pow(hb as int, 20),
                    lhs.val() == pow(ha as int, 20) * pow(hb as int, 20) * 1 * pow10(sha as nat),
            ;
            assert(rhs.val() == yy * pow10(shb as nat)) by (nonlinear_arith)
                requires
                    yy == pow(la as int, 20) * pow(lb as int, 20),
                    rhs.val() == pow(la as int, 20) * pow(lb as int, 20) * 1 * pow10(shb as nat),
            ;
            lemma_cmp_shift_iff(xx, yy, sha as nat, shb as nat);
            // the spec comparison, with the same scale difference
            lemma_pow_of_side(ha as int, hb as int, aa, 20);
            lemma_pow_of_side(la as int, lb as int, (bb + f) as nat, 20);
            lemma_cmp_shift_iff(xx, yy, (20 * aa) as nat, (2 * k - 1 + 20 * (bb + f)) as nat);
            assert((20 * aa) - (2 * k - 1 + 20 * (bb + f)) == sha - shb);
            crate::digits::lemma_pow10_adds((2 * k - 1) as nat, (20 * (bb + f)) as nat);
            assert(pow(hi, 20) == xx * pow10((20 * aa) as nat));
            assert(pow(lof, 20) == yy * pow10((20 * (bb + f)) as nat));
            assert(pow10((2 * k - 1) as nat) * pow(lof, 20) == yy * pow10(
                (2 * k - 1 + 20 * (bb + f)) as nat,
            )) by (nonlinear_arith)
                requires
                    pow(lof, 20) == yy * pow10((20 * (bb + f)) as nat),
                    pow10((2 * k - 1 + 20 * (bb + f)) as nat) == pow10((2 * k - 1) as nat) * pow10(
                        (20 * (bb + f)) as nat,
                    ),
            ;
            assert(ge <==> pow(hi, 20) >= pow10((2 * k - 1) as nat) * pow(lof, 20));
            assert(frac_count(hi, lof, k as nat) == frac_count(hi, lof, (k - 1) as nat) + if pow(
                hi,
                20,
            ) >= pow10((2 * k - 1) as nat) * pow(lof, 20) {
                1int
            } else {
                0int
            });
        }
        if ge {
            cnt = cnt + 1;
        }
        k = k + 1;
    }
    proof {
        assert(f <= 5_000_000_000);
    }
    let tenths: u64 = 10 * (f as u64) + cnt;
    Some(tenths)
}

/// The distance is below a hundredth of an order of magnitude: exactly,
/// the ratio raised to the hundredth power stays below ten.
pub open spec fn spec_spot_on(u: Number, c: Number) -> bool {
    pow(ratio_hi(u, c), 100) < 10 * pow(ratio_lo(u, c), 100)
}

/// What `format_oom_difference` renders: a "spot on" message when the
/// distance is below a hundredth of an order of magnitude, else the distance
/// to one decimal place with the direction; values with no finite distance
/// render the distance as `inf`.
pub open spec fn spec_format_oom(u: Number, c: Number) -> Seq<char> {
    let dir: Seq<char> = if crate::number::spec_lt(c, u) {
        "high"@
    } else {
        "low"@
    };
    if u.nonpos() || c.nonpos() {
        "inf OOM "@ + dir
    } else if spec_spot_on(u, c) {
        "Spot on!"@
    } else {
        crate::format::fixed_str(spec_oom_tenths(u, c), 1) + " OOM "@ + dir
    }
}

/// A ratio beyond one order of magnitude is nowhere near spot on.
pub proof fn lemma_not_spot(hi: int, lo: int)
    requires
        hi > 10 * lo,
        lo >= 1,
    ensures
        pow(hi, 100) >= 10 * pow(lo, 100),
{
    lemma_pow_base_le(10 * lo, hi, 100);
    lemma_pow_distributes(10, lo, 100);
    lemma_pow_positive(lo, 100);
    lemma_pow10_strictly_increases(1, 100);
    lemma_pow10_vals();
    assert(pow(10, 100) * pow(lo, 100) >= 10 * pow(lo, 100)) by (nonlinear_arith)
        requires
            pow(10, 100) > 10,
            pow(lo, 100) >= 1,
    ;
}

/// Renders the order-of-magnitude difference for display.
pub fn format_oom_difference(user: &Number, correct: &Number) -> (r: String)
    requires
        user.wf(),
        correct.wf(),
    ensures
        r@ == spec_format_oom(*user, *correct),
{
    let cd: i8 = crate::number::cmp_number(correct, user);
    let high: bool = cd == -1;
    if user.neg || user.num == 0 || correct.neg || correct.num == 0 {
        let mut s = String::new();
        proof {
            assert(s@ =~= Seq::<char>::empty());
        }
        s.append("inf OOM ");
        if high {
            s.append("high");
        } else {
            s.append("low");
        }
        proof {
            assert(s@ =~= spec_format_oom(*user, *correct));
        }
        return s;
    }
    proof {
        lemma_pow10_vals();
        assert((user.num as int) * (correct.den as int) <= MAX_MANT * MAX_MANT
            && (user.num as int) * (correct.den as int) >= 1) by (nonlinear_arith)
            requires
                1 <= user.num <= MAX_MANT,
                1 <= correct.den <= MAX_MANT,
        ;
        assert((correct.num as int) * (user.den as int) <= MAX_MANT * MAX_MANT && (
        correct.num as int) * (user.den as int) >= 1) by (nonlinear_arith)
            requires
                1 <= correct.num <= MAX_MANT,
                1 <= user.den <= MAX_MANT,
        ;
    }
    let p: u128 = (user.num as u128) * (correct.den as u128);
    let q: u128 = (correct.num as u128) * (user.den as u128);
    let s128: i128 = (user.exp - correct.exp) as i128;
    let ghost gl = mag_l(*user, *correct);
    let ghost gr = mag_r(*user, *correct);
    proof {
        assert(gl == side_l(p as int, s128 as int));
        assert(gr == side_r(q as int, s128 as int));
        lemma_side_pos(p as int, s128 as int);
        lemma_side_pos(q as int, s128 as int);
        lemma_side_swap(p as int, s128 as int);
        lemma_side_swap(q as int, s128 as int);
    }
    let dp: u32 = ndigits(p);
    let dq: u32 = ndigits(q);
    let tt: i128 = s128 + dp as i128 - dq as i128;
    let ghost hi = ratio_hi(*user, *correct);
    let ghost lo = ratio_lo(*user, *correct);
    let spot: bool;
    if tt >= 2 {
        spot = false;
        proof {
            lemma_scaled_gap(p as int, q as int, s128 as int, dp as nat, dq as nat, 1);
            lemma_pow10_vals();
            lemma_not_spot(gl, gr);
        }
    } else if tt <= -2 {
        spot = false;
        proof {
            lemma_scaled_gap(q as int, p as int, -s128 as int, dq as nat, dp as nat, 1);
            lemma_pow10_vals();
            lemma_not_spot(gr, gl);
        }
    } else {
        proof {
            if dp >= 38 {
                lemma_pow10_increases(37, (dp - 1) as nat);
                lemma_pow10_vals();
                assert(false);
            }
            if dq >= 38 {
                lemma_pow10_increases(37, (dq - 1) as nat);
                lemma_pow10_vals();
                assert(false);
            }
        }
        let c0: i8 = cmp_scaled(p, q, s128);
        let ha: u64;
        let hb: u64;
        let la: u64;
        let lb: u64;
        let hs: i128;
        if c0 >= 0 {
            ha = user.num;
            hb = correct.den;
            la = correct.num;
            lb = user.den;
            hs = s128;
        } else {
            ha = correct.num;
            hb = user.den;
            la = user.num;
            lb = correct.den;
            hs = -s128;
        }
        proof {
            assert(hi == side_l((ha as int) * (hb as int), hs as int));
            assert(lo == side_r((la as int) * (lb as int), hs as int));
        }
        let ghost aa: nat = if hs >= 0 {
            hs as nat
        } else {
            0
        };
        let ghost bb: nat = if hs >= 0 {
            0
        } else {
            (-hs) as nat
        };
        proof {
            lemma_pow10_vals();
            assert(hi == (ha as int) * (hb as int) * pow10(aa) && lo == (la as int) * (lb as int)
                * pow10(bb)) by (nonlinear_arith)
                requires
                    hi == side_l((ha as int) * (hb as int), hs as int),
                    lo == side_r((la as int) * (lb as int), hs as int),
                    aa == if hs >= 0 {
                        hs as nat
                    } else {
                        0nat
                    },
                    bb == if hs >= 0 {
                        0nat
                    } else {
                        (-hs) as nat
                    },
                    pow10(0) == 1,
                    side_l((ha as int) * (hb as int), hs as int) == if hs >= 0 {
                        ((ha as int) * (hb as int)) * pow10(hs as nat)
                    } else {
                        (ha as int) * (hb as int)
                    },
                    side_r((la as int) * (lb as int), hs as int) == if hs >= 0 {
                        (la as int) * (lb as int)
                    } else {
                        ((la as int) * (lb as int)) * pow10((-hs) as nat)
                    },
            ;
            assert(aa - bb == hs);
            assert(-40 <= hs <= 40);
        }
        let net: i128 = 1 - 100 * hs;
        let sha: usize = if net < 0 {
            (-net) as usize
        } else {
            0
        };
        let shb: usize = if net >= 0 {
            net as usize
        } else {
            0
        };
        let lhs = pow_prod(ha, hb, 100, false, sha);
        let rhs = pow_prod(la, lb, 100, false, shb);
        spot = lhs.cmp(&rhs) < 0;
        proof {
            let xx = pow(ha as int, 100) * pow(hb as int, 100);
            let yy = pow(la as int, 100) * pow(lb as int, 100);
            lemma_pow_positive(ha as int, 100);
            lemma_pow_positive(hb as int, 100);
            lemma_pow_positive(la as int, 100);
            lemma_pow_positive(lb as int, 100);
            assert(xx >= 0 && yy >= 0) by (nonlinear_arith)
                requires
                    xx == pow(ha as int, 100) * pow(hb as int, 100),
                    yy == pow(la as int, 100) * pow(lb as int, 100),
                    pow(ha as int, 100) > 0,
                    pow(hb as int, 100) > 0,
                    pow(la as int, 100) > 0,
                    pow(lb as int, 100) > 0,
            ;
            assert(lhs.val() == xx * pow10(sha as nat)) by (nonlinear_arith)
                requires
                    xx == pow(ha as int, 100) * pow(hb as int, 100),
                    lhs.val() == pow(ha as int, 100) * pow(hb as int, 100) * 1 * pow10(sha as nat),
            ;
            assert(rhs.val() == yy * pow10(shb as nat)) by (nonlinear_arith)
                requires
                    yy == pow(la as int, 100) * pow(lb as int, 100),
                    rhs.val() == pow(la as int, 100) * pow(lb as int, 100) * 1 * pow10(shb as nat),
            ;
            lemma_cmp_shift_iff(xx, yy, sha as nat, shb as nat);
            lemma_pow_of_side(ha as int, hb as int, aa, 100);
            lemma_pow_of_side(la as int, lb as int, bb, 100);
            lemma_cmp_shift_iff(xx, yy, (100 * aa) as nat, (1 + 100 * bb) as nat);
            assert((100 * aa) - (1 + 100 * bb) == sha - shb);
            crate::digits::lemma_pow10_adds(1, (100 * bb) as nat);
            assert(pow(hi, 100) == xx * pow10((100 * aa) as nat));
            assert(pow(lo, 100) == yy * pow10((100 * bb) as nat));
            assert(10 * pow(lo, 100) == yy * pow10((1 + 100 * bb) as nat)) by (nonlinear_arith)
                requires
                    pow(lo, 100) == yy * pow10((100 * bb) as nat),
                    pow10((1 + 100 * bb) as nat) == pow10(1) * pow10((100 * bb) as nat),
                    pow10(1) == 10,
            ;
            assert(spot <==> pow(hi, 100) < 10 * pow(lo, 100));
        }
    }
    if spot {
        let s = String::from_str("Spot on!");
        proof {
            assert(s@ =~= "Spot on!"@);
        }
        return s;
    }
    let dr = oom_distance(user, correct);
    let t: u64 = match dr {
        Some(t) => t,
        None => 0,
    };
    let td = crate::format::u128_digits(t as u128);
    proof {
        crate::format::lemma_dec_bytes_facts(t as int);
    }
    let mut s = String::new();
    proof {
        assert(s@ =~= Seq::<char>::empty());
    }
    crate::format::push_fixed(&mut s, &td, 1);
    s.append(" OOM ");
    if high {
        s.append("high");
    } else {
        s.append("low");
    }
    proof {
        assert(s@ =~= spec_format_oom(*user, *correct));
    }
    s
}

} // verus!
