use vstd::prelude::*;
use crate::number::Number;

verus! {

/// A calendar date (1-based month and day), supplied by the caller: the
/// engine never reads a clock, so the seed is a pure function of the date.
#[derive(Clone, Copy, Debug, PartialEq, Eq, Structural)]
pub struct CalendarDate {
    pub year: u32,
    pub month: u32,
    pub day: u32,
}

impl CalendarDate {
    pub open spec fn wf(self) -> bool {
        &&& 1 <= self.month <= 12
        &&& 1 <= self.day <= 31
    }
}

/// One estimation problem: two operands and an operator (multiply, or
/// divide when `is_division`).  The correct answer is never ill-defined:
/// both operands are strictly positive.
#[derive(Clone, Copy, Debug, PartialEq, Eq, Structural)]
pub struct Challenge {
    pub num1: Number,
    pub num2: Number,
    pub is_division: bool,
}

/// A generated operand: a mantissa of tenths in [11, 99] (that is, 1.1 to
/// 9.9 in steps of 0.1) times a power of ten, with the exponent field
/// shifted one down so that the value m.m * 10^e has e in [3, 9].
pub open spec fn operand_wf(n: Number) -> bool {
    &&& !n.neg
    &&& 11 <= n.num <= 99
    &&& n.den == 1
    &&& 2 <= n.exp <= 8
}

impl Challenge {
    pub open spec fn wf(self) -> bool {
        operand_wf(self.num1) && operand_wf(self.num2)
    }

    /// The exact correct answer of the challenge.
    pub open spec fn spec_answer(self) -> Number {
        if self.is_division {
            Number {
                neg: false,
                num: self.num1.num,
                den: self.num2.num,
                exp: (self.num1.exp - self.num2.exp) as i64,
            }
        } else {
            Number {
                neg: false,
                num: (self.num1.num * self.num2.num) as u64,
                den: 1,
                exp: (self.num1.exp + self.num2.exp) as i64,
            }
        }
    }

    /// num1 * num2, or num1 / num2 for a division challenge, exactly.
    pub fn answer(&self) -> (r: Number)
        requires
            self.wf(),
        ensures
            r == self.spec_answer(),
            r.wf(),
            r.is_pos(),
    {
        proof {
            assert(self.num1.num * self.num2.num <= 9801) by (nonlinear_arith)
                requires
                    11 <= self.num1.num <= 99,
                    11 <= self.num2.num <= 99,
            ;
            assert(self.num1.num * self.num2.num >= 1) by (nonlinear_arith)
                requires
                    11 <= self.num1.num <= 99,
                    11 <= self.num2.num <= 99,
            ;
        }
        if self.is_division {
            Number {
                neg: false,
                num: self.num1.num,
                den: self.num2.num,
                exp: self.num1.exp - self.num2.exp,
            }
        } else {
            Number {
                neg: false,
                num: self.num1.num * self.num2.num,
                den: 1,
                exp: self.num1.exp + self.num2.exp,
            }
        }
    }
}

/// The i-th 64-bit word of the ChaCha8 stream keyed by `seed`.
pub uninterp spec fn chacha8_word(seed: u64, i: int) -> u64;

/// Relies on rand_chacha's ChaCha8Rng with rand's SeedableRng::seed_from_u64
/// and RngCore::next_u64: seeding from a u64 is a fixed function of the seed,
/// and the ChaCha8 keystream is a fixed, platform-independent function of the
/// key, so the i-th draw depends on (seed, i) alone.
#[verifier::external_body]
fn chacha8_words(seed: u64, n: usize) -> (r: Vec<u64>)
    ensures
        r@.len() == n,
        forall|i: int| 0 <= i < n ==> r@[i] == chacha8_word(seed, i),
{
    let mut rng = <rand_chacha::ChaCha8Rng as rand::SeedableRng>::seed_from_u64(seed);
    let mut v: Vec<u64> = Vec::with_capacity(n);
    for _ in 0..n {
        v.push(rand::RngCore::next_u64(&mut rng));
    }
    v
}

/// The operand built from two stream words: first the exponent, uniform in
/// [3, 9] as `3 + we mod 7`, then the mantissa in tenths, uniform in
/// [11, 99] as `11 + wm mod 89`.
pub open spec fn spec_operand(we: u64, wm: u64) -> Number {
    Number { neg: false, num: (11 + wm % 89) as u64, den: 1, exp: (2 + we % 7) as i64 }
}

/// The i-th challenge of a seed.  Each challenge consumes five stream words
/// in a fixed order: num1 (exponent, mantissa), num2 (exponent, mantissa),
/// then the operator, a division with probability 3 in 10 as `wd mod 10 < 3`.
/// This draw order and these formulas are part of the reproducibility
/// contract: any client that repeats them on the same seed gets the same
/// problems.
pub open spec fn spec_challenge(seed: u64, i: int) -> Challenge {
    Challenge {
        num1: spec_operand(chacha8_word(seed, 5 * i), chacha8_word(seed, 5 * i + 1)),
        num2: spec_operand(chacha8_word(seed, 5 * i + 2), chacha8_word(seed, 5 * i + 3)),
        is_division: chacha8_word(seed, 5 * i + 4) % 10 < 3,
    }
}

/// The whole daily challenge set of a seed: a pure function of (seed, count).
pub open spec fn spec_challenges(seed: u64, count: int) -> Seq<Challenge> {
    Seq::new(count as nat, |i: int| spec_challenge(seed, i))
}

/// Every generated challenge is well-formed: mantissas are rounded tenths in
/// [1.1, 9.9] and exponents lie in [3, 9].
pub proof fn lemma_spec_challenge_wf(seed: u64, i: int)
    ensures
        spec_challenge(seed, i).wf(),
{
}

/// Generates the ordered challenge set of a session: exactly `count`
/// challenges, a deterministic function of the seed alone.
pub fn generate_challenges(seed: u64, count: usize) -> (r: Vec<Challenge>)
    requires
        count as int * 5 <= usize::MAX as int,
    ensures
        r@ == spec_challenges(seed, count as int),
        r@.len() == count,
        forall|i: int| 0 <= i < count ==> (#[trigger] r@[i]).wf(),
{
    let words = chacha8_words(seed, count * 5);
    let mut out: Vec<Challenge> = Vec::new();
    let mut i: usize = 0;
    while i < count
        invariant
            count * 5 <= usize::MAX,
            words@.len() == count * 5,
            forall|j: int| 0 <= j < count * 5 ==> words@[j] == chacha8_word(seed, j),
            out@.len() == i,
            i <= count,
            forall|j: int| 0 <= j < i ==> out@[j] == spec_challenge(seed, j),
        decreases count - i,
    {
        let we1: u64 = words[5 * i];
        let wm1: u64 = words[5 * i + 1];
        let we2: u64 = words[5 * i + 2];
        let wm2: u64 = words[5 * i + 3];
        let wd: u64 = words[5 * i + 4];
        let c = Challenge {
            num1: Number { neg: false, num: 11 + wm1 % 89, den: 1, exp: (2 + we1 % 7) as i64 },
            num2: Number { neg: false, num: 11 + wm2 % 89, den: 1, exp: (2 + we2 % 7) as i64 },
            is_division: wd % 10 < 3,
        };
        proof {
            assert(c == spec_challenge(seed, i as int));
        }
        out.push(c);
        i += 1;
    }
    proof {
        assert(out@ =~= spec_challenges(seed, count as int));
        assert forall|i2: int| 0 <= i2 < count implies (#[trigger] out@[i2]).wf() by {
            lemma_spec_challenge_wf(seed, i2);
        }
    }
    out
}

/// The same seed and count always reproduce the same challenge set, in the
/// same order.
pub proof fn lemma_generation_deterministic(
    seed: u64,
    count: int,
    r1: Seq<Challenge>,
    r2: Seq<Challenge>,
)
    requires
        r1 == spec_challenges(seed, count),
        r2 == spec_challenges(seed, count),
    ensures
        r1 == r2,
{
}

/// Offset basis of the 64-bit FNV-1a hash.
pub const FNV_OFFSET: u64 = 0xcbf2_9ce4_8422_2325;

/// Prime of the 64-bit FNV-1a hash.
pub const FNV_PRIME: u64 = 0x0000_0100_0000_01b3;

/// 64-bit FNV-1a over a byte sequence.  The engine pins this specific hash
/// so that every client derives the same seed from the same date.
pub open spec fn fnv1a(s: Seq<u8>) -> u64
    decreases s.len(),
{
    if s.len() == 0 {
        FNV_OFFSET
    } else {
        (fnv1a(s.drop_last()) ^ (s.last() as u64)).wrapping_mul(FNV_PRIME)
    }
}

/// The decimal digits of a nonnegative integer, as ASCII bytes.
pub open spec fn dec_bytes(n: int) -> Seq<u8>
    decreases n,
        when n >= 0
{
    if n < 10 {
        seq![(48 + n) as u8]
    } else {
        dec_bytes(n / 10).push((48 + n % 10) as u8)
    }
}

/// A number padded with a leading zero to at least two digits.
pub open spec fn pad2_bytes(n: int) -> Seq<u8> {
    if n < 10 {
        seq![48u8, (48 + n) as u8]
    } else {
        dec_bytes(n)
    }
}

/// The date formatted as "YYYY-MM-DD" (month and day zero-padded to two
/// digits), as ASCII bytes.
pub open spec fn date_bytes(d: CalendarDate) -> Seq<u8> {
    dec_bytes(d.year as int) + seq![45u8] + pad2_bytes(d.month as int) + seq![45u8] + pad2_bytes(
        d.day as int,
    )
}

/// The daily seed: the pinned 64-bit FNV-1a hash of the formatted date.
pub open spec fn spec_daily_seed(d: CalendarDate) -> u64 {
    fnv1a(date_bytes(d))
}

/// Appends the decimal digits of n.
fn push_dec(v: &mut Vec<u8>, n: u32)
    ensures
        final(v)@ == old(v)@ + dec_bytes(n as int),
    decreases n,
{
    if n < 10 {
        v.push(48 + n as u8);
        proof {
            assert(v@ =~= old(v)@ + dec_bytes(n as int));
        }
    } else {
        push_dec(v, n / 10);
        v.push(48 + (n % 10) as u8);
        proof {
            assert(v@ =~= old(v)@ + dec_bytes(n as int));
        }
    }
}

/// Derives the stable seed of a calendar date, shared by every client on
/// every platform: the 64-bit FNV-1a hash of "YYYY-MM-DD".
pub fn get_daily_seed(date: CalendarDate) -> (r: u64)
    requires
        date.wf(),
    ensures
        r == spec_daily_seed(date),
{
    let mut v: Vec<u8> = Vec::new();
    push_dec(&mut v, date.year);
    v.push(45);
    if date.month < 10 {
        v.push(48);
        v.push(48 + date.month as u8);
    } else {
        push_dec(&mut v, date.month);
    }
    v.push(45);
    if date.day < 10 {
        v.push(48);
        v.push(48 + date.day as u8);
    } else {
        push_dec(&mut v, date.day);
    }
    proof {
        assert(v@ =~= date_bytes(date));
    }
    let n: usize = v.len();
    let mut h: u64 = FNV_OFFSET;
    let mut i: usize = 0;
    proof {
        assert(v@.take(0) =~= Seq::<u8>::empty());
    }
    while i < n
        invariant
            n == v@.len(),
            i <= n,
            h == fnv1a(v@.take(i as int)),
        decreases n - i,
    {
        let b: u8 = v[i];
        proof {
            assert(v@.take(i as int + 1).drop_last() =~= v@.take(i as int));
            assert(v@.take(i as int + 1).last() == v@[i as int]);
        }
        h = (h ^ (b as u64)).wrapping_mul(FNV_PRIME);
        i += 1;
    }
    proof {
        assert(v@.take(n as int) =~= v@);
    }
    h
}

/// The daily seed is pure: two derivations from the same date agree.
pub proof fn lemma_daily_seed_pure(d: CalendarDate, s1: u64, s2: u64)
    requires
        s1 == spec_daily_seed(d),
        s2 == spec_daily_seed(d),
    ensures
        s1 == s2,
{
}

} // verus!
