use vstd::prelude::*;
use vstd::arithmetic::power::{
    pow, lemma_pow_adds, lemma_pow_positive, lemma_pow_strictly_increases, lemma_pow_increases,
};
use vstd::arithmetic::div_mod::{lemma_fundamental_div_mod, lemma_div_denominator};
use crate::number::{pow10, side_l, side_r, MAX_MANT};

verus! {

/// Value of a little-endian sequence of decimal digits.
pub open spec fn dval(s: Seq<u8>) -> int
    decreases s.len(),
{
    if s.len() == 0 {
        0
    } else {
        dval(s.drop_last()) + s.last() * pow10((s.len() - 1) as nat)
    }
}

/// Every element is a decimal digit.
pub open spec fn digits_ok(s: Seq<u8>) -> bool {
    forall|i: int| 0 <= i < s.len() ==> s[i] < 10
}

/// An arbitrary-precision decimal natural number, stored as little-endian
/// digits with no leading (high-order) zero.  It backs the exact
/// order-of-magnitude comparisons: a threshold like "within half an order of
/// magnitude" is decided by comparing exact powers of the two operands, which
/// do not fit machine integers.
pub struct BigDec {
    pub d: Vec<u8>,
}

pub proof fn lemma_pow10_pos(e: nat)
    ensures
        pow10(e) >= 1,
{
    lemma_pow_positive(10, e);
}

pub proof fn lemma_pow10_succ(e: nat)
    ensures
        pow10((e + 1) as nat) == 10 * pow10(e),
{
    reveal_with_fuel(pow, 2);
    lemma_pow_adds(10, e, 1);
}

pub proof fn lemma_pow10_adds(a: nat, b: nat)
    ensures
        pow10((a + b) as nat) == pow10(a) * pow10(b),
{
    lemma_pow_adds(10, a, b);
}

pub proof fn lemma_pow10_increases(a: nat, b: nat)
    requires
        a <= b,
    ensures
        pow10(a) <= pow10(b),
{
    lemma_pow_increases(10, a, b);
}

pub proof fn lemma_pow10_strictly_increases(a: nat, b: nat)
    requires
        a < b,
    ensures
        pow10(a) < pow10(b),
{
    lemma_pow_strictly_increases(10, a, b);
}

/// Concrete values of the powers of ten the engine's bounds rest on.
pub proof fn lemma_pow10_vals()
    ensures
        pow10(0) == 1,
        pow10(1) == 10,
        pow10(2) == 100,
        pow10(3) == 1000,
        pow10(4) == 10000,
        pow10(18) == MAX_MANT,
        pow10(19) == 10 * MAX_MANT,
        pow10(36) == MAX_MANT * MAX_MANT,
        pow10(37) == 10 * (MAX_MANT * MAX_MANT),
        pow10(38) < u128::MAX,
        pow10(39) > u128::MAX,
{
    reveal_with_fuel(pow, 40);
}

/// Raising a larger base to the same power gives a larger result.
pub proof fn lemma_pow_base_le(a: int, b: int, e: nat)
    requires
        0 <= a <= b,
    ensures
        0 <= pow(a, e) <= pow(b, e),
    decreases e,
{
    reveal(pow);
    if e == 0 {
        assert(pow(a, 0) == 1);
        assert(pow(b, 0) == 1);
    }
    if e > 0 {
        lemma_pow_base_le(a, b, (e - 1) as nat);
        assert(pow(a, e) == a * pow(a, (e - 1) as nat));
        assert(pow(b, e) == b * pow(b, (e - 1) as nat));
        assert(0 <= a * pow(a, (e - 1) as nat) <= b * pow(b, (e - 1) as nat))
            by (nonlinear_arith)
            requires
                0 <= a <= b,
                0 <= pow(a, (e - 1) as nat) <= pow(b, (e - 1) as nat),
        ;
    }
}

pub proof fn lemma_dval_nonneg(s: Seq<u8>)
    ensures
        dval(s) >= 0,
    decreases s.len(),
{
    if s.len() > 0 {
        lemma_dval_nonneg(s.drop_last());
        lemma_pow10_pos((s.len() - 1) as nat);
        assert(s.last() * pow10((s.len() - 1) as nat) >= 0) by (nonlinear_arith)
            requires
                s.last() >= 0,
                pow10((s.len() - 1) as nat) >= 1,
        ;
    }
}

/// A digit sequence of length n has value below 10^n.
pub proof fn lemma_dval_bound(s: Seq<u8>)
    requires
        digits_ok(s),
    ensures
        dval(s) < pow10(s.len()),
    decreases s.len(),
{
    if s.len() == 0 {
        lemma_pow10_pos(0);
        lemma_pow10_vals();
    } else {
        let n = (s.len() - 1) as nat;
        lemma_dval_bound(s.drop_last());
        lemma_pow10_succ(n);
        lemma_pow10_pos(n);
        assert(s.last() * pow10(n) <= 9 * pow10(n)) by (nonlinear_arith)
            requires
                0 <= s.last() <= 9,
                pow10(n) >= 1,
        ;
    }
}

/// A digit sequence with a non-zero leading digit has value at least
/// 10^(n-1).
pub proof fn lemma_dval_lower(s: Seq<u8>)
    requires
        s.len() > 0,
        s.last() >= 1,
    ensures
        dval(s) >= pow10((s.len() - 1) as nat),
{
    let n = (s.len() - 1) as nat;
    lemma_dval_nonneg(s.drop_last());
    lemma_pow10_pos(n);
    assert(s.last() * pow10(n) >= pow10(n)) by (nonlinear_arith)
        requires
            s.last() >= 1,
            pow10(n) >= 1,
    ;
}

/// Splitting a digit sequence at i splits its value.
pub proof fn lemma_dval_split(s: Seq<u8>, i: int)
    requires
        0 <= i <= s.len(),
    ensures
        dval(s) == dval(s.take(i)) + pow10(i as nat) * dval(s.skip(i)),
    decreases s.len(),
{
    if i == s.len() {
        assert(s.take(i) =~= s);
        assert(s.skip(i) =~= Seq::<u8>::empty());
        lemma_pow10_pos(i as nat);
        assert(pow10(i as nat) * 0 == 0) by (nonlinear_arith);
    } else {
        let t = s.drop_last();
        lemma_dval_split(t, i);
        assert(s.take(i) =~= t.take(i));
        assert(s.skip(i).drop_last() =~= t.skip(i));
        let m = (s.len() - 1 - i) as nat;
        assert(dval(s.skip(i)) == dval(t.skip(i)) + s.last() * pow10(m));
        lemma_pow10_adds(i as nat, m);
        assert(pow10(i as nat) * (dval(t.skip(i)) + s.last() * pow10(m)) == pow10(i as nat) * dval(
            t.skip(i),
        ) + s.last() * (pow10(i as nat) * pow10(m))) by (nonlinear_arith);
    }
}

/// The value of a suffix decomposes into its low digit and the rest.
pub proof fn lemma_dval_low(s: Seq<u8>)
    requires
        s.len() > 0,
    ensures
        dval(s) == s[0] + 10 * dval(s.skip(1)),
{
    lemma_dval_split(s, 1);
    lemma_pow10_vals();
    assert(s.take(1).len() == 1);
    assert(s.take(1).last() == s[0]);
    assert(s.take(1).drop_last() =~= Seq::<u8>::empty());
    assert(dval(s.take(1)) == dval(s.take(1).drop_last()) + s.take(1).last() * pow10(0));
    assert(dval(Seq::<u8>::empty()) == 0);
    assert(dval(s.take(1)) == s[0]);
}

impl BigDec {
    pub open spec fn wf(self) -> bool {
        &&& digits_ok(self.d@)
        &&& (self.d@.len() == 0 || self.d@.last() != 0)
    }

    pub open spec fn val(self) -> int {
        dval(self.d@)
    }

    /// Builds the big decimal holding `x`.
    pub fn from_u128(x: u128) -> (r: BigDec)
        ensures
            r.wf(),
            r.val() == x,
    {
        let mut d: Vec<u8> = Vec::new();
        let mut y: u128 = x;
        proof {
            lemma_pow10_vals();
        }
        while y > 0
            invariant
                digits_ok(d@),
                dval(d@) + y * pow10(d@.len() as nat) == x,
                y == 0 ==> (d@.len() == 0 || d@.last() != 0),
            decreases y,
        {
            let ghost n: nat = d@.len() as nat;
            let dig: u8 = (y % 10) as u8;
            let y2: u128 = y / 10;
            proof {
                assert(d@.push(dig).drop_last() =~= d@);
                lemma_pow10_succ(n);
                assert(y == 10 * y2 + dig);
                assert((10 * y2 + dig) * pow10(n) == dig * pow10(n) + y2 * (10 * pow10(n)))
                    by (nonlinear_arith);
            }
            d.push(dig);
            y = y2;
        }
        BigDec { d }
    }

    /// Multiplies in place by a small factor.
    pub fn times(&mut self, m: u64)
        requires
            old(self).wf(),
            1 <= m <= MAX_MANT,
        ensures
            final(self).wf(),
            final(self).val() == old(self).val() * m,
    {
        let ghost s = self.d@;
        let n: usize = self.d.len();
        let mut r: Vec<u8> = Vec::new();
        let mut carry: u64 = 0;
        let mut i: usize = 0;
        proof {
            lemma_pow10_vals();
            assert(s.take(0) =~= Seq::<u8>::empty());
        }
        while i < n
            invariant
                n == self.d@.len(),
                self.d@ == s,
                digits_ok(s),
                n == 0 || s.last() != 0,
                1 <= m <= MAX_MANT,
                digits_ok(r@),
                r@.len() == i,
                i <= n,
                carry < m,
                dval(r@) + carry * pow10(i as nat) == dval(s.take(i as int)) * m,
                i > 0 && carry == 0 && s[i - 1] != 0 ==> r@.last() != 0,
            decreases n - i,
        {
            let ghost ii = i as int;
            proof {
                assert((s[ii] as int) * (m as int) <= 9 * (MAX_MANT as int)) by (nonlinear_arith)
                    requires
                        0 <= s[ii] <= 9,
                        0 <= m <= MAX_MANT,
                ;
            }
            let t: u64 = (self.d[i] as u64) * m + carry;
            let dig: u8 = (t % 10) as u8;
            let c2: u64 = t / 10;
            proof {
                lemma_pow10_succ(i as nat);
                lemma_pow10_pos(i as nat);
                assert(s.take(ii + 1).drop_last() =~= s.take(ii));
                assert(dval(s.take(ii + 1)) == dval(s.take(ii)) + s[ii] * pow10(i as nat));
                assert(r@.push(dig).drop_last() =~= r@);
                assert(t == 10 * c2 + dig);
                assert(dval(r@) + dig * pow10(i as nat) + c2 * (10 * pow10(i as nat)) == dval(
                    s.take(ii + 1),
                ) * m) by (nonlinear_arith)
                    requires
                        dval(r@) + carry * pow10(i as nat) == dval(s.take(ii)) * m,
                        t == s[ii] * m + carry,
                        t == 10 * c2 + dig,
                        dval(s.take(ii + 1)) == dval(s.take(ii)) + s[ii] * pow10(i as nat),
                ;
                assert(c2 < m) by (nonlinear_arith)
                    requires
                        t == s[ii] * m + carry,
                        0 <= s[ii] <= 9,
                        0 <= carry < m,
                        c2 == t / 10,
                        m >= 1,
                ;
                // a zero digit with no carry out means the source digit was zero
                if c2 == 0 && dig == 0 {
                    assert(t == 0);
                    assert(s[ii] * m == 0);
                    assert(s[ii] == 0) by (nonlinear_arith)
                        requires
                            s[ii] * m + carry == 0,
                            m >= 1,
                            carry >= 0,
                            s[ii] >= 0,
                    ;
                }
            }
            r.push(dig);
            carry = c2;
            i += 1;
        }
        proof {
            assert(s.take(n as int) =~= s);
        }
        while carry > 0
            invariant
                digits_ok(r@),
                dval(r@) + carry * pow10(r@.len() as nat) == dval(s) * m,
                carry == 0 ==> (r@.len() == 0 || r@.last() != 0),
            decreases carry,
        {
            let ghost k: nat = r@.len() as nat;
            let dig: u8 = (carry % 10) as u8;
            let c2: u64 = carry / 10;
            proof {
                lemma_pow10_succ(k);
                assert(r@.push(dig).drop_last() =~= r@);
                assert(carry == 10 * c2 + dig);
                assert((10 * c2 + dig) * pow10(k) == dig * pow10(k) + c2 * (10 * pow10(k)))
                    by (nonlinear_arith);
            }
            r.push(dig);
            carry = c2;
        }
        proof {
            assert(pow10(r@.len() as nat) >= 1) by {
                lemma_pow10_pos(r@.len() as nat);
            }
        }
        self.d = r;
    }

    /// Multiplies in place by 10^k.
    pub fn shift(&mut self, k: usize)
        requires
            old(self).wf(),
        ensures
            final(self).wf(),
            final(self).val() == old(self).val() * pow10(k as nat),
    {
        let ghost s = self.d@;
        proof {
            lemma_pow10_pos(k as nat);
        }
        if self.d.len() == 0 {
            proof {
                assert(0 * pow10(k as nat) == 0) by (nonlinear_arith);
            }
            return ;
        }
        let n: usize = self.d.len();
        let mut r: Vec<u8> = Vec::new();
        let mut i: usize = 0;
        while i < k
            invariant
                r@.len() == i,
                i <= k,
                digits_ok(r@),
                dval(r@) == 0,
            decreases k - i,
        {
            proof {
                assert(r@.push(0u8).drop_last() =~= r@);
                assert(0 * pow10(r@.len() as nat) == 0) by (nonlinear_arith);
            }
            r.push(0u8);
            i += 1;
        }
        let mut j: usize = 0;
        proof {
            assert(s.take(0) =~= Seq::<u8>::empty());
            assert(0 * pow10(k as nat) == 0) by (nonlinear_arith);
        }
        while j < n
            invariant
                n == self.d@.len(),
                self.d@ == s,
                digits_ok(s),
                n > 0,
                s.last() != 0,
                digits_ok(r@),
                r@.len() == k + j,
                j <= n,
                dval(r@) == dval(s.take(j as int)) * pow10(k as nat),
                j > 0 ==> r@.last() == s[j - 1],
            decreases n - j,
        {
            let ghost jj = j as int;
            let dig: u8 = self.d[j];
            proof {
                lemma_pow10_adds(k as nat, j as nat);
                assert(r@.push(dig).drop_last() =~= r@);
                assert(s.take(jj + 1).drop_last() =~= s.take(jj));
                assert(dval(s.take(jj + 1)) == dval(s.take(jj)) + s[jj] * pow10(j as nat));
                assert((dval(s.take(jj)) + s[jj] * pow10(j as nat)) * pow10(k as nat) == dval(
                    s.take(jj),
                ) * pow10(k as nat) + s[jj] * (pow10(j as nat) * pow10(k as nat)))
                    by (nonlinear_arith);
                assert(pow10(j as nat) * pow10(k as nat) == pow10((k + j) as nat)) by {
                    lemma_pow10_adds(j as nat, k as nat);
                }
            }
            r.push(dig);
            j += 1;
        }
        proof {
            assert(s.take(n as int) =~= s);
        }
        self.d = r;
    }

    /// Exact comparison: -1, 0 or 1 as self is below, equal to, or above
    /// other.
    pub fn cmp(&self, other: &BigDec) -> (r: i8)
        requires
            self.wf(),
            other.wf(),
        ensures
            r == -1 <==> self.val() < other.val(),
            r == 0 <==> self.val() == other.val(),
            r == 1 <==> self.val() > other.val(),
            -1 <= r <= 1,
    {
        let na: usize = self.d.len();
        let nb: usize = other.d.len();
        if na < nb {
            proof {
                lemma_dval_bound(self.d@);
                lemma_dval_lower(other.d@);
                lemma_pow10_increases(na as nat, (nb - 1) as nat);
            }
            return -1;
        }
        if na > nb {
            proof {
                lemma_dval_bound(other.d@);
                lemma_dval_lower(self.d@);
                lemma_pow10_increases(nb as nat, (na - 1) as nat);
            }
            return 1;
        }
        let mut i: usize = na;
        while i > 0
            invariant
                na == self.d@.len(),
                nb == other.d@.len(),
                na == nb,
                i <= na,
                self.wf(),
                other.wf(),
                self.d@.skip(i as int) =~= other.d@.skip(i as int),
            decreases i,
        {
            i -= 1;
            let ghost ii = i as int;
            let a: u8 = self.d[i];
            let b: u8 = other.d[i];
            if a != b {
                proof {
                    lemma_dval_split(self.d@, ii);
                    lemma_dval_split(other.d@, ii);
                    lemma_dval_low(self.d@.skip(ii));
                    lemma_dval_low(other.d@.skip(ii));
                    assert(self.d@.skip(ii).skip(1) =~= self.d@.skip(ii + 1));
                    assert(other.d@.skip(ii).skip(1) =~= other.d@.skip(ii + 1));
                    assert(self.d@.skip(ii)[0] == a);
                    assert(other.d@.skip(ii)[0] == b);
                    lemma_dval_bound(self.d@.take(ii));
                    lemma_dval_bound(other.d@.take(ii));
                    lemma_dval_nonneg(self.d@.take(ii));
                    lemma_dval_nonneg(other.d@.take(ii));
                    lemma_pow10_pos(ii as nat);
                    let h = dval(self.d@.skip(ii + 1));
                    assert(dval(self.d@.skip(ii)) == a + 10 * h);
                    assert(dval(other.d@.skip(ii)) == b + 10 * h);
                    if a < b {
                        assert(dval(self.d@) < dval(other.d@)) by (nonlinear_arith)
                            requires
                                dval(self.d@) == dval(self.d@.take(ii)) + pow10(ii as nat) * (a + 10
                                    * h),
                                dval(other.d@) == dval(other.d@.take(ii)) + pow10(ii as nat) * (b
                                    + 10 * h),
                                0 <= dval(self.d@.take(ii)) < pow10(ii as nat),
                                0 <= dval(other.d@.take(ii)) < pow10(ii as nat),
                                a < b,
                                pow10(ii as nat) >= 1,
                        ;
                    } else {
                        assert(dval(self.d@) > dval(other.d@)) by (nonlinear_arith)
                            requires
                                dval(self.d@) == dval(self.d@.take(ii)) + pow10(ii as nat) * (a + 10
                                    * h),
                                dval(other.d@) == dval(other.d@.take(ii)) + pow10(ii as nat) * (b
                                    + 10 * h),
                                0 <= dval(self.d@.take(ii)) < pow10(ii as nat),
                                0 <= dval(other.d@.take(ii)) < pow10(ii as nat),
                                a > b,
                                pow10(ii as nat) >= 1,
                        ;
                    }
                }
                if a < b {
                    return -1;
                } else {
                    return 1;
                }
            }
            proof {
                let s1 = self.d@;
                let s2 = other.d@;
                assert forall|k: int| 0 <= k < s1.skip(ii).len() implies s1.skip(ii)[k]
                    == s2.skip(ii)[k] by {
                    if k == 0 {
                        assert(s1.skip(ii)[0] == s1[ii]);
                        assert(s2.skip(ii)[0] == s2[ii]);
                    } else {
                        assert(s1.skip(ii + 1)[k - 1] == s2.skip(ii + 1)[k - 1]);
                        assert(s1.skip(ii + 1)[k - 1] == s1[ii + k]);
                        assert(s2.skip(ii + 1)[k - 1] == s2[ii + k]);
                    }
                }
                assert(s1.skip(ii) =~= s2.skip(ii));
            }
        }
        proof {
            assert(self.d@.skip(0) =~= self.d@);
            assert(other.d@.skip(0) =~= other.d@);
        }
        0
    }
}

/// The number of decimal digits of x.
pub fn ndigits(x: u128) -> (n: u32)
    requires
        x >= 1,
    ensures
        1 <= n <= 39,
        pow10((n - 1) as nat) <= x < pow10(n as nat),
{
    let mut n: u32 = 0;
    let mut y: u128 = x;
    let ghost mut rem: int = 0;
    proof {
        lemma_pow10_vals();
    }
    while y > 0
        invariant
            x >= 1,
            0 <= rem < pow10(n as nat),
            x == y * pow10(n as nat) + rem,
            n >= 1 ==> pow10((n - 1) as nat) <= x,
            n <= 39,
        decreases y,
    {
        let ghost nn: nat = n as nat;
        let ghost y0: int = y as int;
        let dig: u128 = y % 10;
        let y2: u128 = y / 10;
        proof {
            lemma_pow10_pos(nn);
            lemma_pow10_succ(nn);
            // the loop runs again, so x has at least n+1 digits
            assert(y0 * pow10(nn) >= pow10(nn)) by (nonlinear_arith)
                requires
                    y0 >= 1,
                    pow10(nn) >= 1,
            ;
            if n == 39 {
                lemma_pow10_vals();
                assert(false);
            }
            assert(y0 == 10 * y2 + dig);
            assert(y0 * pow10(nn) == y2 * (10 * pow10(nn)) + dig * pow10(nn))
                by (nonlinear_arith)
                requires
                    y0 == 10 * y2 + dig,
            ;
            assert(dig * pow10(nn) + rem < 10 * pow10(nn)) by (nonlinear_arith)
                requires
                    0 <= dig <= 9,
                    0 <= rem < pow10(nn),
                    pow10(nn) >= 1,
            ;
            assert(dig * pow10(nn) >= 0) by (nonlinear_arith)
                requires
                    dig >= 0,
                    pow10(nn) >= 1,
            ;
            rem = rem + dig * pow10(nn);
        }
        y = y2;
        n = n + 1;
    }
    proof {
        assert(0 * pow10(n as nat) == 0) by (nonlinear_arith);
        assert(n >= 1);
    }
    n
}

/// If x has dx digits, y has dy digits, and the scaled exponent gap is at
/// least k+1, then `x * 10^s` exceeds `y` by more than a factor of 10^k.
pub proof fn lemma_scaled_gap(x: int, y: int, s: int, dx: nat, dy: nat, k: nat)
    requires
        dx >= 1,
        dy >= 1,
        pow10((dx - 1) as nat) <= x < pow10(dx),
        pow10((dy - 1) as nat) <= y < pow10(dy),
        s + dx - dy >= 1 + k,
    ensures
        side_l(x, s) > pow10(k) * side_r(y, s),
{
    if s >= 0 {
        // side_l = x * 10^s >= 10^(dx-1+s); 10^k * y < 10^(k+dy) <= 10^(dx-1+s)
        lemma_pow10_adds((dx - 1) as nat, s as nat);
        lemma_pow10_adds(k, dy);
        lemma_pow10_increases((k + dy) as nat, (dx - 1 + s) as nat);
        lemma_pow10_pos(s as nat);
        lemma_pow10_pos(k);
        assert(x * pow10(s as nat) >= pow10((dx - 1) as nat) * pow10(s as nat))
            by (nonlinear_arith)
            requires
                x >= pow10((dx - 1) as nat),
                pow10(s as nat) >= 1,
        ;
        assert(pow10(k) * y < pow10(k) * pow10(dy)) by (nonlinear_arith)
            requires
                y < pow10(dy),
                pow10(k) >= 1,
        ;
    } else {
        // side_l = x >= 10^(dx-1); 10^k * y * 10^(-s) < 10^(k+dy-s) <= 10^(dx-1)
        let m = (-s) as nat;
        lemma_pow10_adds(k, (dy + m) as nat);
        lemma_pow10_adds(dy, m);
        lemma_pow10_increases((k + dy + m) as nat, (dx - 1) as nat);
        lemma_pow10_pos(k);
        lemma_pow10_pos(m);
        assert(pow10(k) * (y * pow10(m)) < pow10(k) * (pow10(dy) * pow10(m)))
            by (nonlinear_arith)
            requires
                y < pow10(dy),
                pow10(k) >= 1,
                pow10(m) >= 1,
        ;
        assert(pow10(k) * (pow10(dy) * pow10(m)) == pow10((k + dy + m) as nat))
            by (nonlinear_arith)
            requires
                pow10((dy + m) as nat) == pow10(dy) * pow10(m),
                pow10((k + dy + m) as nat) == pow10(k) * pow10((dy + m) as nat),
        ;
    }
}

/// Swapping the sides of a scaled comparison negates the scale.
pub proof fn lemma_side_swap(x: int, s: int)
    ensures
        side_l(x, s) == side_r(x, -s),
        side_r(x, s) == side_l(x, -s),
{
    lemma_pow10_vals();
    if s == 0 {
        assert(x * pow10(0) == x) by (nonlinear_arith)
            requires
                pow10(0) == 1,
        ;
    }
}

/// Comparing x*10^m with y*10^n is the same as the one-sided scaled
/// comparison with scale m - n.
pub proof fn lemma_cmp_shift_iff(x: int, y: int, m: nat, n: nat)
    requires
        x >= 0,
        y >= 0,
    ensures
        (x * pow10(m) < y * pow10(n)) <==> (side_l(x, m - n) < side_r(y, m - n)),
        (x * pow10(m) == y * pow10(n)) <==> (side_l(x, m - n) == side_r(y, m - n)),
{
    lemma_pow10_pos(m);
    lemma_pow10_pos(n);
    if m >= n {
        let d = (m - n) as nat;
        lemma_pow10_adds(d, n);
        lemma_pow10_pos(d);
        assert(x * pow10(m) == (x * pow10(d)) * pow10(n)) by (nonlinear_arith)
            requires
                pow10(m) == pow10(d) * pow10(n),
        ;
        assert((x * pow10(d)) * pow10(n) < y * pow10(n) <==> x * pow10(d) < y)
            by (nonlinear_arith)
            requires
                pow10(n) >= 1,
        ;
        assert((x * pow10(d)) * pow10(n) == y * pow10(n) <==> x * pow10(d) == y)
            by (nonlinear_arith)
            requires
                pow10(n) >= 1,
        ;
    } else {
        let d = (n - m) as nat;
        lemma_pow10_adds(d, m);
        lemma_pow10_pos(d);
        assert(y * pow10(n) == (y * pow10(d)) * pow10(m)) by (nonlinear_arith)
            requires
                pow10(n) == pow10(d) * pow10(m),
        ;
        assert(x * pow10(m) < (y * pow10(d)) * pow10(m) <==> x < y * pow10(d))
            by (nonlinear_arith)
            requires
                pow10(m) >= 1,
        ;
        assert(x * pow10(m) == (y * pow10(d)) * pow10(m) <==> x == y * pow10(d))
            by (nonlinear_arith)
            requires
                pow10(m) >= 1,
        ;
    }
}

/// Exact three-way comparison of `x * 10^s` against `y`, for positive x, y.
pub fn cmp_scaled(x: u128, y: u128, s: i128) -> (r: i8)
    requires
        x >= 1,
        y >= 1,
        -5_000_000_000 <= s <= 5_000_000_000,
    ensures
        r == -1 <==> side_l(x as int, s as int) < side_r(y as int, s as int),
        r == 0 <==> side_l(x as int, s as int) == side_r(y as int, s as int),
        r == 1 <==> side_l(x as int, s as int) > side_r(y as int, s as int),
        -1 <= r <= 1,
{
    let dx: u32 = ndigits(x);
    let dy: u32 = ndigits(y);
    let t: i128 = s + dx as i128 - dy as i128;
    if t >= 1 {
        proof {
            lemma_scaled_gap(x as int, y as int, s as int, dx as nat, dy as nat, 0);
            lemma_pow10_vals();
        }
        return 1;
    }
    if t <= -1 {
        proof {
            lemma_scaled_gap(y as int, x as int, -s as int, dy as nat, dx as nat, 0);
            lemma_side_swap(x as int, s as int);
            lemma_side_swap(y as int, s as int);
            lemma_pow10_vals();
        }
        return -1;
    }
    // t == 0, so |s| = |dy - dx| <= 38: both sides fit as small big decimals
    let sp: usize = if s >= 0 {
        s as usize
    } else {
        0
    };
    let sq: usize = if s < 0 {
        (-s) as usize
    } else {
        0
    };
    let mut a = BigDec::from_u128(x);
    a.shift(sp);
    let mut b = BigDec::from_u128(y);
    b.shift(sq);
    let c: i8 = a.cmp(&b);
    proof {
        lemma_pow10_vals();
        if s >= 0 {
            assert(b.val() == y * pow10(0) == y) by (nonlinear_arith)
                requires
                    b.val() == y * pow10(0),
                    pow10(0) == 1,
            ;
        } else {
            assert(a.val() == x * pow10(0) == x) by (nonlinear_arith)
                requires
                    a.val() == x * pow10(0),
                    pow10(0) == 1,
            ;
        }
    }
    c
}

/// Builds `a^k * b^k * (10 if extra_ten) * 10^sh` as a big decimal.
pub fn pow_prod(a: u64, b: u64, k: u32, extra_ten: bool, sh: usize) -> (r: BigDec)
    requires
        1 <= a <= MAX_MANT,
        1 <= b <= MAX_MANT,
        k <= 100,
        sh <= 100_000,
    ensures
        r.wf(),
        r.val() == pow(a as int, k as nat) * pow(b as int, k as nat) * (
        if extra_ten {
            10int
        } else {
            1int
        }) * pow10(sh as nat),
{
    let mut r = BigDec::from_u128(1);
    let mut i: u32 = 0;
    proof {
        reveal(pow);
        assert(pow(a as int, 0) == 1);
        assert(pow(b as int, 0) == 1);
    }
    while i < k
        invariant
            1 <= a <= MAX_MANT,
            1 <= b <= MAX_MANT,
            i <= k,
            r.wf(),
            r.val() == pow(a as int, i as nat) * pow(b as int, i as nat),
        decreases k - i,
    {
        let ghost v0 = r.val();
        r.times(a);
        r.times(b);
        proof {
            reveal(pow);
            assert(pow(a as int, (i + 1) as nat) == a * pow(a as int, i as nat));
            assert(pow(b as int, (i + 1) as nat) == b * pow(b as int, i as nat));
            assert((pow(a as int, i as nat) * pow(b as int, i as nat)) * a * b == (a * pow(
                a as int,
                i as nat,
            )) * (b * pow(b as int, i as nat))) by (nonlinear_arith);
        }
        i = i + 1;
    }
    if extra_ten {
        r.times(10);
    }
    let ghost v1 = r.val();
    r.shift(sh);
    proof {
        let pa = pow(a as int, k as nat);
        let pb = pow(b as int, k as nat);
        let e: int = if extra_ten {
            10
        } else {
            1
        };
        assert(r.val() == pa * pb * e * pow10(sh as nat)) by (nonlinear_arith)
            requires
                v1 == pa * pb * e,
                r.val() == v1 * pow10(sh as nat),
        ;
    }
    r
}

} // verus!
