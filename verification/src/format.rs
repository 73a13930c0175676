use vstd::prelude::*;
use vstd::arithmetic::div_mod::{lemma_fundamental_div_mod, lemma_fundamental_div_mod_converse};
use crate::number::{Number, pow10, side_l, side_r, MAX_MANT};
use crate::digits::{
    cmp_scaled, lemma_pow10_vals, lemma_pow10_succ, lemma_pow10_pos, lemma_pow10_adds,
    lemma_pow10_increases,
};
use crate::parser::{all_digits, is_digit, digits_val, strip_zeros};
use crate::scoring::lemma_side_pos;

verus! {

/// The character of one decimal digit value.
pub open spec fn digit_char(d: int) -> char {
    if d == 0 {
        '0'
    } else if d == 1 {
        '1'
    } else if d == 2 {
        '2'
    } else if d == 3 {
        '3'
    } else if d == 4 {
        '4'
    } else if d == 5 {
        '5'
    } else if d == 6 {
        '6'
    } else if d == 7 {
        '7'
    } else if d == 8 {
        '8'
    } else {
        '9'
    }
}

/// The character of one ASCII digit byte.
pub open spec fn char_of(b: u8) -> char {
    digit_char(b - 48)
}

/// Decimal text of a nonnegative integer.
pub open spec fn dec_str(n: int) -> Seq<char>
    decreases n,
        when n >= 0
{
    if n < 10 {
        seq![digit_char(n)]
    } else {
        dec_str(n / 10).push(digit_char(n % 10))
    }
}

/// n (a value already scaled up by 10^j and rounded) rendered with j
/// decimal places.
pub open spec fn fixed_str(t: int, j: nat) -> Seq<char> {
    if j == 0 {
        dec_str(t)
    } else if j == 1 {
        dec_str(t / 10) + seq!['.', digit_char(t % 10)]
    } else {
        dec_str(t / 100) + seq!['.', digit_char((t / 10) % 10), digit_char(t % 10)]
    }
}

/// Round-half-up of (num/den) * 10^pj, as an exact integer division.
pub open spec fn spec_scaled(num: int, den: int, pj: int) -> int {
    if pj >= 0 {
        (2 * num * pow10(pj as nat) + den) / (2 * den)
    } else {
        (2 * num + den * pow10((-pj) as nat)) / (2 * (den * pow10((-pj) as nat)))
    }
}

/// The magnitude of n is at least 10^k.
pub open spec fn ge_pow(n: Number, k: int) -> bool {
    side_l(n.num as int, n.exp - k) >= side_r(n.den as int, n.exp - k)
}

/// The ASCII decimal digits of a nonnegative integer.
pub open spec fn dec_bytes(n: int) -> Seq<u8>
    decreases n,
        when n >= 0
{
    if n < 10 {
        seq![(48 + n) as u8]
    } else {
        dec_bytes(n / 10).push((48 + n % 10) as u8)
    }
}

pub proof fn lemma_dec_bytes_facts(n: int)
    requires
        n >= 0,
    ensures
        all_digits(dec_bytes(n)),
        digits_val(dec_bytes(n)) == n,
        dec_bytes(n).len() >= 1,
        n > 0 ==> dec_bytes(n)[0] != 48,
        n == 0 ==> dec_bytes(n) =~= seq![48u8],
    decreases n,
{
    if n < 10 {
        assert(dec_bytes(n) =~= seq![(48 + n) as u8]);
        assert(dec_bytes(n).drop_last() =~= Seq::<u8>::empty());
        assert(digits_val(Seq::<u8>::empty()) == 0);
        assert(digits_val(dec_bytes(n)) == 0 * 10 + ((48 + n) - 48));
    } else {
        lemma_dec_bytes_facts(n / 10);
        let s = dec_bytes(n);
        assert(s.drop_last() =~= dec_bytes(n / 10));
        assert(s[0] == dec_bytes(n / 10)[0]);
        assert(digits_val(s) == digits_val(dec_bytes(n / 10)) * 10 + (n % 10));
        lemma_fundamental_div_mod(n, 10);
        assert(forall|i: int| 0 <= i < s.len() ==> is_digit(#[trigger] s[i])) by {
            assert(forall|i: int| 0 <= i < s.len() - 1 ==> s[i] == dec_bytes(n / 10)[i]);
        }
    }
}

/// `dec_str` is the character image of the canonical ASCII digits.
pub proof fn lemma_digits_chars(s: Seq<u8>)
    requires
        all_digits(s),
        s.len() >= 1,
        s.len() >= 2 ==> s[0] != 48,
    ensures
        dec_str(digits_val(s)) == s.map_values(|b: u8| char_of(b)),
        digits_val(s) >= 0,
        s.len() >= 2 ==> digits_val(s) >= 10,
    decreases s.len(),
{
    crate::parser::lemma_digits_val_bound(s);
    if s.len() == 1 {
        assert(digits_val(s) == digits_val(s.drop_last()) * 10 + (s[0] - 48));
        assert(s.drop_last() =~= Seq::<u8>::empty());
        assert(digits_val(s) == s[0] - 48);
        lemma_pow10_vals();
        assert(s.map_values(|b: u8| char_of(b)) =~= seq![char_of(s[0])]);
    } else {
        let d = s.drop_last();
        lemma_digits_chars(d);
        crate::parser::lemma_digits_val_bound(d);
        crate::parser::lemma_digits_val_pos(d);
        assert(d[0] == s[0]);
        let v = digits_val(s);
        assert(v == digits_val(d) * 10 + (s.last() - 48));
        assert(digits_val(d) * 10 >= 10) by (nonlinear_arith)
            requires
                digits_val(d) >= 1,
        ;
        lemma_fundamental_div_mod_converse(v, 10, digits_val(d), (s.last() - 48) as int);
        assert(dec_str(v) == dec_str(digits_val(d)).push(digit_char((s.last() - 48) as int)));
        assert(dec_str(v) =~= s.map_values(|b: u8| char_of(b))) by {
            assert(dec_str(digits_val(d)) == d.map_values(|b: u8| char_of(b)));
        }
    }
}

/// Concatenation of digit strings concatenates their values positionally.
pub proof fn lemma_digits_val_concat(a: Seq<u8>, b: Seq<u8>)
    ensures
        digits_val(a + b) == digits_val(a) * pow10(b.len()) + digits_val(b),
    decreases b.len(),
{
    lemma_pow10_vals();
    if b.len() == 0 {
        assert(a + b =~= a);
        assert(digits_val(a) * 1 == digits_val(a)) by (nonlinear_arith);
    } else {
        lemma_digits_val_concat(a, b.drop_last());
        assert((a + b).drop_last() =~= a + b.drop_last());
        assert((a + b).last() == b.last());
        lemma_pow10_succ((b.len() - 1) as nat);
        assert(digits_val(a + b) == (digits_val(a) * pow10((b.len() - 1) as nat) + digits_val(
            b.drop_last(),
        )) * 10 + (b.last() - 48));
        assert((digits_val(a) * pow10((b.len() - 1) as nat)) * 10 == digits_val(a) * (10 * pow10(
            (b.len() - 1) as nat,
        ))) by (nonlinear_arith);
    }
}

/// A leading zero does not change the value.
pub proof fn lemma_digits_val_strip(s: Seq<u8>)
    requires
        s.len() >= 1,
        s[0] == 48,
    ensures
        digits_val(s) == digits_val(s.skip(1)),
    decreases s.len(),
{
    if s.len() == 1 {
        assert(s.drop_last() =~= Seq::<u8>::empty());
        assert(s.skip(1) =~= Seq::<u8>::empty());
    } else {
        let d = s.drop_last();
        lemma_digits_val_strip(d);
        assert(s.skip(1).drop_last() =~= d.skip(1));
        assert(s.skip(1).last() == s.last());
    }
}

/// Values are preserved when leading zeros are stripped.
pub proof fn lemma_strip_zeros_val(s: Seq<u8>)
    ensures
        digits_val(strip_zeros(s)) == digits_val(s),
        strip_zeros(s).len() >= 1 ==> strip_zeros(s)[0] != 48,
    decreases s.len(),
{
    if s.len() > 0 && s[0] == 48 {
        lemma_digits_val_strip(s);
        lemma_strip_zeros_val(s.skip(1));
    }
}

pub proof fn lemma_strip_zeros_digits(s: Seq<u8>)
    requires
        all_digits(s),
    ensures
        all_digits(strip_zeros(s)),
    decreases s.len(),
{
    if s.len() > 0 && s[0] == 48 {
        assert(forall|i: int| 0 <= i < s.skip(1).len() ==> is_digit(#[trigger] s.skip(1)[i])) by {
            assert(forall|i: int| 0 <= i < s.skip(1).len() ==> s.skip(1)[i] == s[i + 1]);
        }
        lemma_strip_zeros_digits(s.skip(1));
    }
}

/// The ASCII digits of x.
pub(crate) fn u128_digits(x: u128) -> (r: Vec<u8>)
    ensures
        r@ == dec_bytes(x as int),
    decreases x,
{
    if x < 10 {
        let mut v: Vec<u8> = Vec::new();
        v.push(48 + x as u8);
        proof {
            assert(v@ =~= dec_bytes(x as int));
        }
        v
    } else {
        let mut v = u128_digits(x / 10);
        v.push(48 + (x % 10) as u8);
        proof {
            assert(v@ =~= dec_bytes(x as int));
        }
        v
    }
}

/// Appends src to dst.
fn append_vec(dst: &mut Vec<u8>, src: &Vec<u8>)
    ensures
        final(dst)@ == old(dst)@ + src@,
{
    let mut k: usize = 0;
    proof {
        assert(dst@ =~= old(dst)@ + src@.take(0));
    }
    while k < src.len()
        invariant
            k <= src@.len(),
            dst@ == old(dst)@ + src@.take(k as int),
        decreases src@.len() - k,
    {
        proof {
            assert((old(dst)@ + src@.take(k as int)).push(src@[k as int]) =~= old(dst)@
                + src@.take(k as int + 1));
        }
        dst.push(src[k]);
        k += 1;
    }
    proof {
        assert(src@.take(src@.len() as int) =~= src@);
    }
}

/// Appends k zero digits.
fn append_zero_digits(dst: &mut Vec<u8>, k: usize)
    ensures
        final(dst)@.len() == old(dst)@.len() + k,
        forall|i: int|
            0 <= i < final(dst)@.len() ==> final(dst)@[i] == (if i < old(dst)@.len() {
                old(dst)@[i]
            } else {
                48u8
            }),
{
    let mut j: usize = 0;
    while j < k
        invariant
            j <= k,
            dst@.len() == old(dst)@.len() + j,
            forall|i: int|
                0 <= i < dst@.len() ==> dst@[i] == (if i < old(dst)@.len() {
                    old(dst)@[i]
                } else {
                    48u8
                }),
        decreases k - j,
    {
        dst.push(48);
        j += 1;
    }
}

/// Schoolbook long division of a decimal digit string by a machine word:
/// quotient digits (same length) and remainder.
fn div_digits(dd: &Vec<u8>, m: u128) -> (r: (Vec<u8>, u128))
    requires
        all_digits(dd@),
        1 <= m <= 4_000_000_000_000_000_000,
    ensures
        ({
            let (q, rem) = r;
            &&& all_digits(q@)
            &&& q@.len() == dd@.len()
            &&& rem < m
            &&& digits_val(q@) >= 0
            &&& digits_val(q@) * m + rem == digits_val(dd@)
        }),
{
    let n: usize = dd.len();
    let mut q: Vec<u8> = Vec::new();
    let mut rem: u128 = 0;
    let mut i: usize = 0;
    proof {
        assert(dd@.take(0) =~= Seq::<u8>::empty());
        assert(q@ =~= Seq::<u8>::empty());
        assert(0 * m == 0) by (nonlinear_arith);
        crate::parser::lemma_digits_val_bound(dd@);
    }
    while i < n
        invariant
            n == dd@.len(),
            all_digits(dd@),
            i <= n,
            q@.len() == i,
            all_digits(q@),
            1 <= m <= 4_000_000_000_000_000_000,
            rem < m,
            digits_val(q@) >= 0,
            digits_val(q@) * m + rem == digits_val(dd@.take(i as int)),
        decreases n - i,
    {
        let d: u8 = dd[i];
        let cur: u128 = rem * 10 + (d - 48) as u128;
        let qd: u128 = cur / m;
        let rem2: u128 = cur % m;
        proof {
            assert(is_digit(dd@[i as int]));
            assert(cur == m * qd + rem2) by {
                lemma_fundamental_div_mod(cur as int, m as int);
            }
            assert(qd <= 9) by (nonlinear_arith)
                requires
                    cur == m * qd + rem2,
                    cur < 10 * m,
                    rem2 >= 0,
                    m >= 1,
                    qd >= 0,
            ;
            assert(q@.push((48 + qd) as u8).drop_last() =~= q@);
            assert(dd@.take(i as int + 1).drop_last() =~= dd@.take(i as int));
            assert(dd@.take(i as int + 1).last() == dd@[i as int]);
            // value bookkeeping of one long-division step
            assert((digits_val(q@) * 10 + qd) * m + rem2 == digits_val(dd@.take(i as int)) * 10 + (
            dd@[i as int] - 48)) by (nonlinear_arith)
                requires
                    digits_val(q@) * m + rem == digits_val(dd@.take(i as int)),
                    cur == m * qd + rem2,
                    cur == rem * 10 + (dd@[i as int] - 48),
            ;
            assert(digits_val(q@) * 10 + qd >= 0) by (nonlinear_arith)
                requires
                    digits_val(q@) >= 0,
                    qd >= 0,
            ;
        }
        q.push(48 + qd as u8);
        rem = rem2;
        i += 1;
    }
    proof {
        assert(dd@.take(n as int) =~= dd@);
    }
    (q, rem)
}

/// The canonical ASCII digits of `spec_scaled(num, den, p)`: the displayed
/// value, scaled and rounded half-up.
fn scaled_digits(num: u64, den: u64, p: i64) -> (r: Vec<u8>)
    requires
        num <= MAX_MANT,
        1 <= den <= MAX_MANT,
        -3_000_000_000 <= p <= 3_000_000_000,
    ensures
        all_digits(r@),
        r@.len() >= 1,
        r@.len() >= 2 ==> r@[0] != 48,
        digits_val(r@) == spec_scaled(num as int, den as int, p as int),
{
    proof {
        lemma_pow10_vals();
    }
    if p <= -19 {
        // the scaled value is far below one half: it rounds to zero
        let mut v: Vec<u8> = Vec::new();
        v.push(48);
        proof {
            let k = (-p) as nat;
            lemma_pow10_pos(k);
            lemma_pow10_increases(19, k);
            let dd = (den as int) * pow10(k);
            assert(dd >= pow10(k)) by (nonlinear_arith)
                requires
                    dd == (den as int) * pow10(k),
                    den >= 1,
                    pow10(k) >= 1,
            ;
            assert(2 * (num as int) < dd);
            assert(2 * (num as int) + dd < 2 * dd);
            assert(2 * (num as int) + dd >= 0);
            vstd::arithmetic::div_mod::lemma_basic_div(2 * (num as int) + dd, 2 * dd);
            assert(v@ =~= seq![48u8]);
            assert(digits_val(v@) == 0) by {
                reveal_with_fuel(digits_val, 3);
                assert(v@.drop_last() =~= Seq::<u8>::empty());
            }
        }
        return v;
    }
    if p < 19 {
        // everything fits in machine words
        let t: u128 = if p >= 0 {
            let sc = pow10_u128(p as u32);
            proof {
                lemma_pow10_increases(p as nat, 18);
                assert(2 * (num as u128) * sc <= 2 * ((MAX_MANT as u128) * sc)) by (nonlinear_arith)
                    requires
                        num <= MAX_MANT,
                        sc >= 1,
                ;
                assert((MAX_MANT as int) * pow10(p as nat) <= (MAX_MANT as int) * pow10(18))
                    by (nonlinear_arith)
                    requires
                        pow10(p as nat) <= pow10(18),
                        MAX_MANT >= 0,
                ;
            }
            (2 * (num as u128) * sc + den as u128) / (2 * (den as u128))
        } else {
            let sc = pow10_u128((-p) as u32);
            proof {
                lemma_pow10_increases((-p) as nat, 18);
                assert((den as u128) * sc <= (MAX_MANT as u128) * sc) by (nonlinear_arith)
                    requires
                        den <= MAX_MANT,
                        sc >= 0,
                ;
                assert((den as u128) * sc >= 1) by (nonlinear_arith)
                    requires
                        den >= 1,
                        sc >= 1,
                ;
                assert((MAX_MANT as int) * pow10((-p) as nat) <= (MAX_MANT as int) * pow10(18))
                    by (nonlinear_arith)
                    requires
                        pow10((-p) as nat) <= pow10(18),
                        MAX_MANT >= 0,
                ;
            }
            (2 * (num as u128) + (den as u128) * sc) / (2 * ((den as u128) * sc))
        };
        let v = u128_digits(t);
        proof {
            lemma_dec_bytes_facts(t as int);
        }
        return v;
    }
    // p >= 19: long division over the digit string of 2*num*10^p + den
    let mut dd = u128_digits(2 * (num as u128));
    let ghost da = dd@;
    proof {
        lemma_dec_bytes_facts(2 * (num as int));
    }
    let zcount: usize = (p - 19) as usize;
    append_zero_digits(&mut dd, zcount);
    let ghost dz = dd@;
    proof {
        assert(dz =~= da + Seq::new(zcount as nat, |i: int| 48u8));
    }
    let dlow = u128_digits(den as u128);
    proof {
        lemma_dec_bytes_facts(den as int);
        if dlow@.len() >= 20 {
            lemma_digits_val_lower(dlow@);
            lemma_pow10_increases(19, (dlow@.len() - 1) as nat);
            assert(false);
        }
    }
    let pad: usize = 19 - dlow.len();
    append_zero_digits(&mut dd, pad);
    let ghost dzp = dd@;
    append_vec(&mut dd, &dlow);
    proof {
        // dd now spells 2*num*10^p + den
        let zs = Seq::new(zcount as nat, |i: int| 48u8);
        let ps = Seq::new(pad as nat, |i: int| 48u8);
        assert(dzp =~= dz + ps);
        assert(dd@ =~= da + (zs + (ps + dlow@)));
        assert(all_digits(zs));
        assert(all_digits(ps));
        assert(all_digits(dd@)) by {
            assert(forall|i: int|
                0 <= i < dd@.len() ==> dd@[i] == (da + (zs + (ps + dlow@)))[i]);
        }
        lemma_digits_val_concat(ps, dlow@);
        lemma_digits_val_concat(zs, ps + dlow@);
        lemma_digits_val_concat(da, zs + (ps + dlow@));
        lemma_zeros_val(zs);
        lemma_zeros_val(ps);
        lemma_pow10_adds(pad as nat, dlow@.len() as nat);
        assert(digits_val(ps + dlow@) == den) by (nonlinear_arith)
            requires
                digits_val(ps) == 0,
                digits_val(dlow@) == den,
                digits_val(ps + dlow@) == digits_val(ps) * pow10(dlow@.len() as nat) + digits_val(
                    dlow@,
                ),
        ;
        assert((ps + dlow@).len() == 19);
        assert(digits_val(zs + (ps + dlow@)) == den) by (nonlinear_arith)
            requires
                digits_val(zs) == 0,
                digits_val(zs + (ps + dlow@)) == digits_val(zs) * pow10((ps + dlow@).len() as nat)
                    + digits_val(ps + dlow@),
                digits_val(ps + dlow@) == den,
        ;
        assert((zs + (ps + dlow@)).len() == zcount + 19);
        assert(digits_val(dd@) == 2 * (num as int) * pow10((zcount + 19) as nat) + den)
            by (nonlinear_arith)
            requires
                digits_val(dd@) == digits_val(da) * pow10((zcount + 19) as nat) + digits_val(
                    zs + (ps + dlow@),
                ),
                digits_val(da) == 2 * (num as int),
                digits_val(zs + (ps + dlow@)) == den,
        ;
        assert((zcount + 19) as nat == p as nat);
    }
    let (q, rem) = div_digits(&dd, 2 * (den as u128));
    proof {
        lemma_fundamental_div_mod_converse(
            digits_val(dd@),
            2 * (den as int),
            digits_val(q@),
            rem as int,
        );
    }
    // strip leading zeros of the quotient
    let mut i: usize = 0;
    let n: usize = q.len();
    proof {
        assert(q@.skip(0) =~= q@);
    }
    while i < n && q[i] == 48
        invariant
            n == q@.len(),
            i <= n,
            strip_zeros(q@) == strip_zeros(q@.skip(i as int)),
        decreases n - i,
    {
        proof {
            assert(q@.skip(i as int)[0] == q@[i as int]);
            assert(q@.skip(i as int).skip(1) =~= q@.skip(i as int + 1));
        }
        i += 1;
    }
    proof {
        if i < n {
            assert(q@.skip(i as int)[0] == q@[i as int]);
        }
        assert(strip_zeros(q@) == q@.skip(i as int));
        lemma_strip_zeros_val(q@);
        lemma_strip_zeros_digits(q@);
    }
    if i == n {
        let mut v: Vec<u8> = Vec::new();
        v.push(48);
        proof {
            assert(q@.skip(n as int) =~= Seq::<u8>::empty());
            assert(v@ =~= seq![48u8]);
            assert(digits_val(v@) == 0) by {
                reveal_with_fuel(digits_val, 3);
                assert(v@.drop_last() =~= Seq::<u8>::empty());
            }
        }
        v
    } else {
        let v = crate::parser::copy_range(q.as_slice(), i, n);
        proof {
            assert(v@ =~= q@.skip(i as int));
        }
        v
    }
}

/// A run of zero digits has value zero.
pub proof fn lemma_zeros_val(s: Seq<u8>)
    requires
        forall|i: int| 0 <= i < s.len() ==> s[i] == 48,
    ensures
        digits_val(s) == 0,
    decreases s.len(),
{
    if s.len() > 0 {
        lemma_zeros_val(s.drop_last());
    }
}

/// A digit string with a non-zero leading digit is at least 10^(len-1).
pub proof fn lemma_digits_val_lower(s: Seq<u8>)
    requires
        all_digits(s),
        s.len() >= 1,
        s[0] != 48,
    ensures
        digits_val(s) >= pow10((s.len() - 1) as nat),
    decreases s.len(),
{
    lemma_pow10_vals();
    if s.len() == 1 {
        assert(s.drop_last() =~= Seq::<u8>::empty());
        assert(digits_val(Seq::<u8>::empty()) == 0);
    } else {
        let d = s.drop_last();
        lemma_digits_val_lower(d);
        lemma_pow10_succ((s.len() - 2) as nat);
        assert(digits_val(d) * 10 >= pow10((s.len() - 2) as nat) * 10) by (nonlinear_arith)
            requires
                digits_val(d) >= pow10((s.len() - 2) as nat),
        ;
    }
}

/// 10^k as a machine word.
fn pow10_u128(k: u32) -> (r: u128)
    requires
        k <= 38,
    ensures
        r == pow10(k as nat),
        r >= 1,
{
    let mut r: u128 = 1;
    let mut i: u32 = 0;
    proof {
        lemma_pow10_vals();
    }
    while i < k
        invariant
            i <= k <= 38,
            r == pow10(i as nat),
            r >= 1,
        decreases k - i,
    {
        proof {
            lemma_pow10_succ(i as nat);
            lemma_pow10_increases((i + 1) as nat, 38);
            lemma_pow10_vals();
        }
        r = r * 10;
        i += 1;
    }
    r
}

/// Appends one digit character.
fn push_digit_char(s: &mut String, d: u8)
    requires
        48 <= d <= 57,
    ensures
        final(s)@ == old(s)@.push(char_of(d)),
{
    if d == 48 {
        s.append("0");
        proof {
            reveal_strlit("0");
            assert(old(s)@ + "0"@ =~= old(s)@.push('0'));
        }
    } else if d == 49 {
        s.append("1");
        proof {
            reveal_strlit("1");
            assert(old(s)@ + "1"@ =~= old(s)@.push('1'));
        }
    } else if d == 50 {
        s.append("2");
        proof {
            reveal_strlit("2");
            assert(old(s)@ + "2"@ =~= old(s)@.push('2'));
        }
    } else if d == 51 {
        s.append("3");
        proof {
            reveal_strlit("3");
            assert(old(s)@ + "3"@ =~= old(s)@.push('3'));
        }
    } else if d == 52 {
        s.append("4");
        proof {
            reveal_strlit("4");
            assert(old(s)@ + "4"@ =~= old(s)@.push('4'));
        }
    } else if d == 53 {
        s.append("5");
        proof {
            reveal_strlit("5");
            assert(old(s)@ + "5"@ =~= old(s)@.push('5'));
        }
    } else if d == 54 {
        s.append("6");
        proof {
            reveal_strlit("6");
            assert(old(s)@ + "6"@ =~= old(s)@.push('6'));
        }
    } else if d == 55 {
        s.append("7");
        proof {
            reveal_strlit("7");
            assert(old(s)@ + "7"@ =~= old(s)@.push('7'));
        }
    } else if d == 56 {
        s.append("8");
        proof {
            reveal_strlit("8");
            assert(old(s)@ + "8"@ =~= old(s)@.push('8'));
        }
    } else {
        s.append("9");
        proof {
            reveal_strlit("9");
            assert(old(s)@ + "9"@ =~= old(s)@.push('9'));
        }
    }
}

/// Appends the digit characters of td.
fn push_digit_run(s: &mut String, td: &Vec<u8>, upto: usize)
    requires
        all_digits(td@),
        upto <= td@.len(),
    ensures
        final(s)@ == old(s)@ + td@.take(upto as int).map_values(|b: u8| char_of(b)),
{
    let mut k: usize = 0;
    proof {
        assert(s@ =~= old(s)@ + td@.take(0).map_values(|b: u8| char_of(b)));
    }
    while k < upto
        invariant
            upto <= td@.len(),
            all_digits(td@),
            k <= upto,
            s@ == old(s)@ + td@.take(k as int).map_values(|b: u8| char_of(b)),
        decreases upto - k,
    {
        proof {
            assert(td@.take(k as int + 1).map_values(|b: u8| char_of(b)) =~= td@.take(
                k as int,
            ).map_values(|b: u8| char_of(b)).push(char_of(td@[k as int])));
            assert(is_digit(td@[k as int]));
        }
        push_digit_char(s, td[k]);
        k += 1;
    }
}

/// Appends the value spelled by canonical digits td, with j decimal places
/// taken from its end (zero-padded on the left of the point when needed).
pub(crate) fn push_fixed(s: &mut String, td: &Vec<u8>, j: usize)
    requires
        all_digits(td@),
        td@.len() >= 1,
        td@.len() >= 2 ==> td@[0] != 48,
        j <= 2,
    ensures
        final(s)@ == old(s)@ + fixed_str(digits_val(td@), j as nat),
{
    let n: usize = td.len();
    let ghost t = digits_val(td@);
    proof {
        lemma_digits_chars(td@);
        crate::parser::lemma_digits_val_bound(td@);
        lemma_pow10_vals();
    }
    if j == 0 {
        push_digit_run(s, td, n);
        proof {
            assert(td@.take(n as int) =~= td@);
        }
        return ;
    }
    if n <= j {
        // the whole string is fraction: the integer part is zero
        s.append("0.");
        proof {
            reveal_strlit("0.");
        }
        if n < j {
            push_digit_char(s, 48);
        }
        push_digit_run(s, td, n);
        proof {
            assert(td@.take(n as int) =~= td@);
            assert(t < pow10(n as nat));
            if j == 1 {
                // n == 1, t < 10
                assert(t / 10 == 0 && t % 10 == t) by {
                    lemma_basic_div_mod(t, 10);
                }
                assert(dec_str(t / 10) =~= seq!['0']);
                assert(td@.map_values(|b: u8| char_of(b)) =~= seq![char_of(td@[0])]);
                assert(t == td@[0] - 48) by {
                    assert(td@.drop_last() =~= Seq::<u8>::empty());
                }
                assert(s@ =~= old(s)@ + fixed_str(t, 1)) by {
                    reveal_strlit("0.");
                }
            } else {
                // j == 2
                assert(t / 100 == 0 && t % 100 == t) by {
                    lemma_pow10_increases(n as nat, 2);
                    lemma_basic_div_mod(t, 100);
                }
                assert(dec_str(t / 100) =~= seq!['0']);
                if n == 1 {
                    assert(t == td@[0] - 48) by {
                        assert(td@.drop_last() =~= Seq::<u8>::empty());
                        assert(digits_val(Seq::<u8>::empty()) == 0);
                    }
                    assert(t / 10 == 0 && t % 10 == t) by {
                        lemma_basic_div_mod(t, 10);
                    }
                    assert((t / 10) % 10 == 0) by {
                        lemma_basic_div_mod(0, 10);
                    }
                    assert(td@.map_values(|b: u8| char_of(b)) =~= seq![char_of(td@[0])]);
                    assert(s@ =~= old(s)@ + fixed_str(t, 2)) by {
                        reveal_strlit("0.");
                    }
                } else {
                    // n == 2
                    assert(t == (td@[0] - 48) * 10 + (td@[1] - 48)) by {
                        reveal_with_fuel(digits_val, 4);
                        assert(td@.drop_last() =~= seq![td@[0]]);
                        assert(seq![td@[0]].drop_last() =~= Seq::<u8>::empty());
                        assert(digits_val(Seq::<u8>::empty()) == 0);
                    }
                    lemma_fundamental_div_mod_converse(
                        t,
                        10,
                        (td@[0] - 48) as int,
                        (td@[1] - 48) as int,
                    );
                    assert((t / 10) % 10 == td@[0] - 48) by {
                        lemma_basic_div_mod((td@[0] - 48) as int, 10);
                    }
                    assert(td@.map_values(|b: u8| char_of(b)) =~= seq![
                        char_of(td@[0]),
                        char_of(td@[1]),
                    ]);
                    assert(s@ =~= old(s)@ + fixed_str(t, 2)) by {
                        reveal_strlit("0.");
                    }
                }
            }
        }
        return ;
    }
    // n > j >= 1: integer part is td[..n-j], fraction is td[n-j..]
    let cut: usize = n - j;
    let ghost ip = td@.take(cut as int);
    proof {
        assert(all_digits(ip)) by {
            assert(forall|i: int| 0 <= i < ip.len() ==> ip[i] == td@[i]);
        }
        assert(ip[0] == td@[0]);
        lemma_digits_chars(ip);
        lemma_digits_val_concat(ip, td@.skip(cut as int));
        assert(ip + td@.skip(cut as int) =~= td@);
        crate::parser::lemma_digits_val_bound(td@.skip(cut as int));
        crate::parser::lemma_digits_val_bound(ip);
        lemma_fundamental_div_mod_converse(
            t,
            pow10(j as nat),
            digits_val(ip),
            digits_val(td@.skip(cut as int)),
        );
    }
    push_digit_run(s, td, cut);
    proof {
        assert(td@.take(cut as int).map_values(|b: u8| char_of(b)) == ip.map_values(
            |b: u8| char_of(b),
        ));
    }
    s.append(".");
    proof {
        reveal_strlit(".");
    }
    push_digit_char(s, td[cut]);
    if j == 2 {
        push_digit_char(s, td[cut + 1]);
    }
    proof {
        let fr = td@.skip(cut as int);
        let q = digits_val(ip);
        let rr = digits_val(fr);
        assert(t / pow10(j as nat) == q && t % pow10(j as nat) == rr);
        if j == 1 {
            assert(fr =~= seq![td@[cut as int]]);
            assert(rr == td@[cut as int] - 48) by {
                assert(fr.drop_last() =~= Seq::<u8>::empty());
                assert(digits_val(Seq::<u8>::empty()) == 0);
            }
            assert(t % 10 == rr);
            assert(t / 10 == q);
            assert(s@ =~= old(s)@ + fixed_str(t, 1)) by {
                assert(dec_str(q) == ip.map_values(|b: u8| char_of(b)));
            }
        } else {
            assert(fr =~= seq![td@[cut as int], td@[cut as int + 1]]);
            assert(rr == (td@[cut as int] - 48) * 10 + (td@[cut as int + 1] - 48)) by {
                reveal_with_fuel(digits_val, 4);
                assert(fr.drop_last() =~= seq![td@[cut as int]]);
                assert(seq![td@[cut as int]].drop_last() =~= Seq::<u8>::empty());
                assert(digits_val(Seq::<u8>::empty()) == 0);
            }
            assert(t % 100 == rr && t / 100 == q);
            lemma_fundamental_div_mod_converse(
                rr,
                10,
                (td@[cut as int] - 48) as int,
                (td@[cut as int + 1] - 48) as int,
            );
            assert(t == (q * 10 + (td@[cut as int] - 48)) * 10 + (td@[cut as int + 1] - 48))
                by (nonlinear_arith)
                requires
                    t == q * 100 + rr,
                    rr == (td@[cut as int] - 48) * 10 + (td@[cut as int + 1] - 48),
            ;
            lemma_fundamental_div_mod_converse(
                t,
                10,
                q * 10 + (td@[cut as int] - 48),
                (td@[cut as int + 1] - 48) as int,
            );
            lemma_fundamental_div_mod_converse(
                q * 10 + (td@[cut as int] - 48),
                10,
                q,
                (td@[cut as int] - 48) as int,
            );
            assert((t / 10) % 10 == td@[cut as int] - 48);
            assert(t % 10 == td@[cut as int + 1] - 48);
            assert(s@ =~= old(s)@ + fixed_str(t, 2)) by {
                assert(dec_str(q) == ip.map_values(|b: u8| char_of(b)));
            }
        }
    }
}

/// Division of a small nonnegative value by a larger modulus.
pub proof fn lemma_basic_div_mod(x: int, d: int)
    requires
        0 <= x < d,
    ensures
        x / d == 0,
        x % d == x,
{
    vstd::arithmetic::div_mod::lemma_basic_div(x, d);
    lemma_fundamental_div_mod(x, d);
}

/// Whether |n| >= 10^k.
fn ge_pow_exec(n: &Number, k: i64) -> (r: bool)
    requires
        n.wf(),
        0 <= k <= 14,
    ensures
        r == ge_pow(*n, k as int),
{
    if n.num == 0 {
        proof {
            let s = n.exp - k;
            lemma_side_pos(n.den as int, s);
            if s >= 0 {
                lemma_pow10_pos(s as nat);
                assert(0 * pow10(s as nat) == 0) by (nonlinear_arith);
            }
        }
        return false;
    }
    let c = cmp_scaled(n.num as u128, n.den as u128, (n.exp - k) as i128);
    c >= 0
}

/// The magnitude-scaled word rendering: the value scaled into its bracket
/// (trillion, billion, million, thousand, or none) with one decimal place,
/// rounded half-up, the sign preserved.
pub open spec fn spec_format_number(n: Number) -> Seq<char> {
    let sign: Seq<char> = if n.neg {
        "-"@
    } else {
        Seq::<char>::empty()
    };
    if ge_pow(n, 12) {
        sign + fixed_str(spec_scaled(n.num as int, n.den as int, n.exp - 11), 1) + " trillion"@
    } else if ge_pow(n, 9) {
        sign + fixed_str(spec_scaled(n.num as int, n.den as int, n.exp - 8), 1) + " billion"@
    } else if ge_pow(n, 6) {
        sign + fixed_str(spec_scaled(n.num as int, n.den as int, n.exp - 5), 1) + " million"@
    } else if ge_pow(n, 3) {
        sign + fixed_str(spec_scaled(n.num as int, n.den as int, n.exp - 2), 1) + " thousand"@
    } else {
        sign + fixed_str(spec_scaled(n.num as int, n.den as int, n.exp + 1), 1)
    }
}

/// Renders a value for display in its word-suffixed magnitude bracket.
pub fn format_number(n: &Number) -> (r: String)
    requires
        n.wf(),
    ensures
        r@ == spec_format_number(*n),
{
    let mut s = String::new();
    proof {
        assert(s@ =~= Seq::<char>::empty());
    }
    if n.neg {
        s.append("-");
        proof {
            assert(s@ =~= "-"@);
        }
    }
    let ghost base = s@;
    let b: i64 = if ge_pow_exec(n, 12) {
        12
    } else if ge_pow_exec(n, 9) {
        9
    } else if ge_pow_exec(n, 6) {
        6
    } else if ge_pow_exec(n, 3) {
        3
    } else {
        0
    };
    let td = scaled_digits(n.num, n.den, n.exp - b + 1);
    proof {
        if td@.len() == 1 && td@[0] != 48 {
        }
        crate::parser::lemma_digits_val_bound(td@);
    }
    push_fixed(&mut s, &td, 1);
    if b == 12 {
        s.append(" trillion");
    } else if b == 9 {
        s.append(" billion");
    } else if b == 6 {
        s.append(" million");
    } else if b == 3 {
        s.append(" thousand");
    }
    proof {
        assert(s@ =~= spec_format_number(*n));
    }
    s
}

/// The compact letter-suffixed rendering of a value: values below one render
/// as "0"; otherwise the largest suffix K, M, B or T whose scaled value is at
/// least one, with two, one or no decimal places as the scaled value reaches
/// ten and a hundred, rounded half-up.
pub open spec fn spec_format_answer_display(n: Number) -> Seq<char> {
    if n.sgn() <= 0 || !ge_pow(n, 0) {
        "0"@
    } else {
        let b: int = if ge_pow(n, 12) {
            12
        } else if ge_pow(n, 9) {
            9
        } else if ge_pow(n, 6) {
            6
        } else if ge_pow(n, 3) {
            3
        } else {
            0
        };
        let j: int = if b == 0 {
            0
        } else if ge_pow(n, b + 2) {
            0
        } else if ge_pow(n, b + 1) {
            1
        } else {
            2
        };
        let body = fixed_str(spec_scaled(n.num as int, n.den as int, n.exp - b + j), j as nat);
        if b == 12 {
            body + "T"@
        } else if b == 9 {
            body + "B"@
        } else if b == 6 {
            body + "M"@
        } else if b == 3 {
            body + "K"@
        } else {
            body
        }
    }
}

/// Renders a value compactly with a letter suffix.
pub fn format_answer_display(n: &Number) -> (r: String)
    requires
        n.wf(),
    ensures
        r@ == spec_format_answer_display(*n),
{
    if n.neg || n.num == 0 || !ge_pow_exec(n, 0) {
        let mut s = String::new();
        proof {
            assert(s@ =~= Seq::<char>::empty());
        }
        s.append("0");
        proof {
            assert(s@ =~= "0"@);
            if n.neg || n.num == 0 {
                assert(n.sgn() <= 0);
            }
        }
        return s;
    }
    let b: i64 = if ge_pow_exec(n, 12) {
        12
    } else if ge_pow_exec(n, 9) {
        9
    } else if ge_pow_exec(n, 6) {
        6
    } else if ge_pow_exec(n, 3) {
        3
    } else {
        0
    };
    let j: i64 = if b == 0 {
        0
    } else if ge_pow_exec(n, b + 2) {
        0
    } else if ge_pow_exec(n, b + 1) {
        1
    } else {
        2
    };
    let mut s = String::new();
    proof {
        assert(s@ =~= Seq::<char>::empty());
    }
    let td = scaled_digits(n.num, n.den, n.exp - b + j);
    push_fixed(&mut s, &td, j as usize);
    if b == 12 {
        s.append("T");
    } else if b == 9 {
        s.append("B");
    } else if b == 6 {
        s.append("M");
    } else if b == 3 {
        s.append("K");
    }
    proof {
        assert(s@ =~= spec_format_answer_display(*n));
    }
    s
}

} // verus!
