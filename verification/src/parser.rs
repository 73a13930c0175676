use vstd::prelude::*;
use vstd::string::StringSliceAdditionalSpecFns;
use crate::number::{Number, pow10, MAX_EXP};
use crate::digits::{lemma_pow10_succ, lemma_pow10_pos, lemma_pow10_vals, lemma_pow10_increases};

verus! {

// ---------------------------------------------------------------------------
// Byte classes and normalization
// ---------------------------------------------------------------------------
/// ASCII whitespace, as trimmed from the ends of the input.
pub open spec fn is_ws(b: u8) -> bool {
    b == 32 || b == 9 || b == 10 || b == 13 || b == 11 || b == 12
}

/// ASCII lower-casing of one byte.
pub open spec fn lower(b: u8) -> u8 {
    if 65 <= b <= 90 {
        (b + 32) as u8
    } else {
        b
    }
}

pub open spec fn is_digit(b: u8) -> bool {
    48 <= b <= 57
}

pub open spec fn all_digits(s: Seq<u8>) -> bool {
    forall|i: int| 0 <= i < s.len() ==> is_digit(#[trigger] s[i])
}

pub open spec fn trim_front(s: Seq<u8>) -> Seq<u8>
    decreases s.len(),
{
    if s.len() > 0 && is_ws(s[0]) {
        trim_front(s.skip(1))
    } else {
        s
    }
}

pub open spec fn trim_back(s: Seq<u8>) -> Seq<u8>
    decreases s.len(),
{
    if s.len() > 0 && is_ws(s.last()) {
        trim_back(s.drop_last())
    } else {
        s
    }
}

/// The input as the grammar sees it: ASCII whitespace trimmed at both ends,
/// ASCII letters lower-cased; other bytes pass through untouched.
pub open spec fn norm(s: Seq<u8>) -> Seq<u8> {
    trim_back(trim_front(s)).map_values(|b: u8| lower(b))
}

// ---------------------------------------------------------------------------
// Small searching specs
// ---------------------------------------------------------------------------
/// Index of the first occurrence of b in s, or -1.
pub open spec fn find_byte(s: Seq<u8>, b: u8) -> int
    decreases s.len(),
{
    if s.len() == 0 {
        -1
    } else if s[0] == b {
        0
    } else if find_byte(s.skip(1), b) == -1 {
        -1
    } else {
        1 + find_byte(s.skip(1), b)
    }
}

/// What `find_byte` returns: the first index of b, if any.
pub proof fn lemma_find_byte(s: Seq<u8>, b: u8)
    ensures
        find_byte(s, b) == -1 ==> forall|j: int| 0 <= j < s.len() ==> s[j] != b,
        find_byte(s, b) != -1 ==> {
            &&& 0 <= find_byte(s, b) < s.len()
            &&& s[find_byte(s, b)] == b
            &&& forall|j: int| 0 <= j < find_byte(s, b) ==> s[j] != b
        },
    decreases s.len(),
{
    if s.len() > 0 && s[0] != b {
        lemma_find_byte(s.skip(1), b);
        let r = find_byte(s.skip(1), b);
        if r != -1 {
            assert(s.skip(1)[r] == s[r + 1]);
            assert(forall|j: int| 1 <= j < r + 1 ==> s[j] == s.skip(1)[j - 1] && s.skip(1)[j - 1]
                != b);
        } else {
            assert(forall|j: int| 1 <= j < s.len() ==> s[j] == s.skip(1)[j - 1] && s.skip(1)[j - 1]
                != b);
        }
    }
}

/// Whether "x10^" occurs at position i of s.
pub open spec fn x10_at(s: Seq<u8>, i: int) -> bool {
    &&& 0 <= i
    &&& i + 4 <= s.len()
    &&& s[i] == 120
    &&& s[i + 1] == 49
    &&& s[i + 2] == 48
    &&& s[i + 3] == 94
}

/// Index of the first occurrence of "x10^" in s, or -1.
pub open spec fn find_x10(s: Seq<u8>, i: int) -> int
    decreases s.len() - i,
{
    if i < 0 || i + 4 > s.len() {
        -1
    } else if x10_at(s, i) {
        i
    } else {
        find_x10(s, i + 1)
    }
}

pub proof fn lemma_find_x10(s: Seq<u8>, i: int)
    requires
        i >= 0,
    ensures
        find_x10(s, i) == -1 ==> forall|j: int| i <= j ==> !x10_at(s, j),
        find_x10(s, i) != -1 ==> {
            &&& i <= find_x10(s, i)
            &&& x10_at(s, find_x10(s, i))
            &&& forall|j: int| i <= j < find_x10(s, i) ==> !x10_at(s, j)
        },
    decreases s.len() - i,
{
    if i + 4 > s.len() {
        assert(forall|j: int| i <= j ==> !x10_at(s, j));
    } else if !x10_at(s, i) {
        lemma_find_x10(s, i + 1);
    }
}

// ---------------------------------------------------------------------------
// Number assembly
// ---------------------------------------------------------------------------
/// Value of a big-endian digit string.
pub open spec fn digits_val(s: Seq<u8>) -> int
    decreases s.len(),
{
    if s.len() == 0 {
        0
    } else {
        digits_val(s.drop_last()) * 10 + (s.last() - 48)
    }
}

/// Digits with leading zeros removed.
pub open spec fn strip_zeros(s: Seq<u8>) -> Seq<u8>
    decreases s.len(),
{
    if s.len() > 0 && s[0] == 48 {
        strip_zeros(s.skip(1))
    } else {
        s
    }
}

/// Strips trailing zero digits of n into the exponent.
pub open spec fn norm_mant(n: int, e: int) -> (int, int)
    decreases n,
        when n >= 1
{
    if n % 10 == 0 {
        norm_mant(n / 10, e + 1)
    } else {
        (n, e)
    }
}

/// Builds the parsed value `sign * digits * 10^e0` as a canonical `Number`:
/// at most the first 18 significant digits are kept (further digits only
/// widen the exponent), trailing zeros move into the exponent, and a final
/// exponent beyond +/-MAX_EXP yields no value.
pub open spec fn mk_number(neg: bool, ds: Seq<u8>, e0: int) -> Option<Number> {
    let sig = strip_zeros(ds);
    if sig.len() == 0 {
        Some(Number { neg, num: 0, den: 1, exp: 0 })
    } else {
        let keep = if sig.len() > 18 {
            sig.take(18)
        } else {
            sig
        };
        let e1 = e0 + sig.len() - keep.len();
        let ne = norm_mant(digits_val(keep), e1);
        if -MAX_EXP <= ne.1 <= MAX_EXP {
            Some(Number { neg, num: ne.0 as u64, den: 1, exp: ne.1 as i64 })
        } else {
            None
        }
    }
}

// ---------------------------------------------------------------------------
// Literal grammar
// ---------------------------------------------------------------------------
/// Splits a decimal body `D+ | D+.D* | .D+` into its digits and the count
/// of fraction digits.
pub open spec fn dec_split(s: Seq<u8>) -> Option<(Seq<u8>, int)> {
    let d = find_byte(s, 46);
    if d == -1 {
        if s.len() >= 1 && all_digits(s) {
            Some((s, 0int))
        } else {
            None
        }
    } else {
        let ip = s.take(d);
        let fp = s.skip(d + 1);
        if find_byte(fp, 46) == -1 && all_digits(ip) && all_digits(fp) && ip.len() + fp.len() >= 1 {
            Some((ip + fp, fp.len() as int))
        } else {
            None
        }
    }
}

/// An optionally signed digit string, as sign and value.
pub open spec fn int_val(s: Seq<u8>) -> Option<(bool, int)> {
    if s.len() == 0 {
        None
    } else {
        let neg = s[0] == 45;
        let ds = if s[0] == 45 || s[0] == 43 {
            s.skip(1)
        } else {
            s
        };
        if ds.len() >= 1 && all_digits(ds) {
            Some((neg, digits_val(ds)))
        } else {
            None
        }
    }
}

/// A finite decimal literal: optional sign, decimal body, optional exponent
/// marked by 'e'.  This is the number grammar every rule's operand uses.
pub open spec fn lit_num(t: Seq<u8>) -> Option<Number> {
    if t.len() == 0 {
        None
    } else {
        let neg = t[0] == 45;
        let rest = if t[0] == 45 || t[0] == 43 {
            t.skip(1)
        } else {
            t
        };
        let ei = find_byte(rest, 101);
        if ei == -1 {
            match dec_split(rest) {
                Some(ds) => mk_number(neg, ds.0, -ds.1),
                None => None,
            }
        } else {
            match dec_split(rest.take(ei)) {
                Some(ds) => match int_val(rest.skip(ei + 1)) {
                    Some(ev) => mk_number(
                        neg,
                        ds.0,
                        (if ev.0 {
                            -ev.1
                        } else {
                            ev.1
                        }) - ds.1,
                    ),
                    None => None,
                },
                None => None,
            }
        }
    }
}

// ---------------------------------------------------------------------------
// The five rules
// ---------------------------------------------------------------------------
/// Scales a parsed number by 10^k.
pub open spec fn bump_exp(n: Number, k: int) -> Option<Number> {
    if -MAX_EXP <= n.exp + k <= MAX_EXP {
        Some(Number { neg: n.neg, num: n.num, den: n.den, exp: (n.exp + k) as i64 })
    } else {
        None
    }
}

pub open spec fn ends_with(s: Seq<u8>, w: Seq<u8>) -> bool {
    s.len() >= w.len() && s.skip(s.len() - w.len()) == w
}

pub open spec fn w_trillion() -> Seq<u8> {
    seq![116u8, 114u8, 105u8, 108u8, 108u8, 105u8, 111u8, 110u8]
}

pub open spec fn w_billion() -> Seq<u8> {
    seq![98u8, 105u8, 108u8, 108u8, 105u8, 111u8, 110u8]
}

pub open spec fn w_million() -> Seq<u8> {
    seq![109u8, 105u8, 108u8, 108u8, 105u8, 111u8, 110u8]
}

pub open spec fn w_thousand() -> Seq<u8> {
    seq![116u8, 104u8, 111u8, 117u8, 115u8, 97u8, 110u8, 100u8]
}

/// The prefix before a suffix of length k, trimmed again, as a literal,
/// scaled by 10^mult.
pub open spec fn suffix_apply(t: Seq<u8>, k: int, mult: int) -> Option<Number> {
    let prefix = trim_back(trim_front(t.take(t.len() - k)));
    match lit_num(prefix) {
        Some(n) => bump_exp(n, mult),
        None => None,
    }
}

/// Word suffixes, checked in order: trillion, billion, million, thousand.
pub open spec fn word_rule(t: Seq<u8>) -> Option<Number> {
    if ends_with(t, w_trillion()) {
        suffix_apply(t, 8, 12)
    } else if ends_with(t, w_billion()) {
        suffix_apply(t, 7, 9)
    } else if ends_with(t, w_million()) {
        suffix_apply(t, 7, 6)
    } else if ends_with(t, w_thousand()) {
        suffix_apply(t, 8, 3)
    } else {
        None
    }
}

/// Letter suffixes t, b, m, k; the prefix must be non-empty before parsing.
pub open spec fn letter_rule(t: Seq<u8>) -> Option<Number> {
    if t.len() == 0 {
        None
    } else {
        let c = t.last();
        let mult: int = if c == 116 {
            12
        } else if c == 98 {
            9
        } else if c == 109 {
            6
        } else if c == 107 {
            3
        } else {
            0
        };
        if mult == 0 {
            None
        } else {
            let prefix = trim_back(trim_front(t.drop_last()));
            if prefix.len() == 0 {
                None
            } else {
                match lit_num(prefix) {
                    Some(n) => bump_exp(n, mult),
                    None => None,
                }
            }
        }
    }
}

/// The multiplication-sign normalization of the caret rule: the two-byte
/// UTF-8 multiplication sign and '*' become 'x', and spaces disappear.
pub open spec fn caret_norm(s: Seq<u8>) -> Seq<u8>
    decreases s.len(),
{
    if s.len() == 0 {
        Seq::<u8>::empty()
    } else if s.len() >= 2 && s[0] == 195 && s[1] == 151 {
        seq![120u8] + caret_norm(s.skip(2))
    } else if s[0] == 42 {
        seq![120u8] + caret_norm(s.skip(1))
    } else if s[0] == 32 {
        caret_norm(s.skip(1))
    } else {
        seq![s[0]] + caret_norm(s.skip(1))
    }
}

/// Mantissa "x10^" exponent: the normalized text must split into exactly two
/// parts around one occurrence of "x10^"; the mantissa is a literal and the
/// exponent a signed integer within the 32-bit range.
pub open spec fn caret_rule(t: Seq<u8>) -> Option<Number> {
    let cn = caret_norm(t);
    let i = find_x10(cn, 0);
    if i == -1 {
        None
    } else if find_x10(cn, i + 4) != -1 {
        None
    } else {
        match lit_num(cn.take(i)) {
            Some(n) => match int_val(cn.skip(i + 4)) {
                Some(ev) => {
                    let e = if ev.0 {
                        -ev.1
                    } else {
                        ev.1
                    };
                    if -2147483648 <= e <= 2147483647 {
                        bump_exp(n, e)
                    } else {
                        None
                    }
                },
                None => None,
            },
            None => None,
        }
    }
}

/// Commas and spaces removed, for the plain-number rule.
pub open spec fn strip_seps(s: Seq<u8>) -> Seq<u8>
    decreases s.len(),
{
    if s.len() == 0 {
        Seq::<u8>::empty()
    } else if s[0] == 44 || s[0] == 32 {
        strip_seps(s.skip(1))
    } else {
        seq![s[0]] + strip_seps(s.skip(1))
    }
}

pub open spec fn plain_rule(t: Seq<u8>) -> Option<Number> {
    lit_num(strip_seps(t))
}

/// What `parse_answer` returns on the raw input bytes.  The rules are tried
/// in a fixed order, first match wins; a rule whose trigger matches but whose
/// operand fails to parse yields nothing and the chain moves on.
pub open spec fn spec_parse(raw: Seq<u8>) -> Option<Number> {
    let t = norm(raw);
    if t.len() == 0 {
        None
    } else if find_byte(t, 101) != -1 && lit_num(t) is Some {
        lit_num(t)
    } else if word_rule(t) is Some {
        word_rule(t)
    } else if letter_rule(t) is Some {
        letter_rule(t)
    } else if caret_rule(t) is Some {
        caret_rule(t)
    } else {
        plain_rule(t)
    }
}

// ---------------------------------------------------------------------------
// Executable helpers
// ---------------------------------------------------------------------------
/// Copies v[i..j] into a fresh vector.
pub(crate) fn copy_range(v: &[u8], i: usize, j: usize) -> (r: Vec<u8>)
    requires
        i <= j <= v@.len(),
    ensures
        r@ == v@.subrange(i as int, j as int),
{
    let mut r: Vec<u8> = Vec::new();
    let mut k: usize = i;
    while k < j
        invariant
            i <= k <= j <= v@.len(),
            r@ == v@.subrange(i as int, k as int),
        decreases j - k,
    {
        proof {
            assert(v@.subrange(i as int, k as int + 1) =~= v@.subrange(i as int, k as int).push(
                v@[k as int],
            ));
        }
        r.push(v[k]);
        k += 1;
    }
    r
}

/// First index of b in v, if any; agrees with `find_byte`.
fn find_b(v: &[u8], b: u8) -> (r: Option<usize>)
    ensures
        r is None <==> find_byte(v@, b) == -1,
        r matches Some(i) ==> i < v@.len() && find_byte(v@, b) == i,
{
    let n: usize = v.len();
    let mut i: usize = 0;
    while i < n
        invariant
            n == v@.len(),
            i <= n,
            forall|j: int| 0 <= j < i ==> v@[j] != b,
        decreases n - i,
    {
        if v[i] == b {
            proof {
                lemma_find_byte(v@, b);
            }
            return Some(i);
        }
        i += 1;
    }
    proof {
        lemma_find_byte(v@, b);
    }
    None
}

/// Whether every byte is a decimal digit.
fn all_digits_exec(v: &[u8]) -> (r: bool)
    ensures
        r == all_digits(v@),
{
    let n: usize = v.len();
    let mut i: usize = 0;
    while i < n
        invariant
            n == v@.len(),
            i <= n,
            forall|j: int| 0 <= j < i ==> is_digit(#[trigger] v@[j]),
        decreases n - i,
    {
        let c: u8 = v[i];
        if c < 48 || c > 57 {
            return false;
        }
        i += 1;
    }
    true
}

/// Trims ASCII whitespace from both ends and lower-cases, as `norm` says.
fn normalize(v: &[u8]) -> (r: Vec<u8>)
    ensures
        r@ == norm(v@),
{
    let n: usize = v.len();
    let mut lo: usize = 0;
    proof {
        assert(v@.skip(0) =~= v@);
    }
    while lo < n && (v[lo] == 32 || v[lo] == 9 || v[lo] == 10 || v[lo] == 13 || v[lo] == 11
        || v[lo] == 12)
        invariant
            n == v@.len(),
            lo <= n,
            trim_front(v@) == trim_front(v@.skip(lo as int)),
        decreases n - lo,
    {
        proof {
            assert(v@.skip(lo as int).skip(1) =~= v@.skip(lo as int + 1));
            assert(v@.skip(lo as int)[0] == v@[lo as int]);
        }
        lo += 1;
    }
    proof {
        if lo < n {
            assert(v@.skip(lo as int)[0] == v@[lo as int]);
        }
        assert(trim_front(v@) == v@.skip(lo as int));
    }
    let ghost u = v@.skip(lo as int);
    let m: usize = n - lo;
    let mut h: usize = m;
    proof {
        assert(u.take(m as int) =~= u);
    }
    while h > 0 && (v[lo + h - 1] == 32 || v[lo + h - 1] == 9 || v[lo + h - 1] == 10 || v[lo + h
        - 1] == 13 || v[lo + h - 1] == 11 || v[lo + h - 1] == 12)
        invariant
            n == v@.len(),
            lo + m == n,
            h <= m,
            u == v@.skip(lo as int),
            trim_back(u) == trim_back(u.take(h as int)),
        decreases h,
    {
        proof {
            assert(u.take(h as int).last() == u[h as int - 1]);
            assert(u[h as int - 1] == v@[lo + h - 1]);
            assert(u.take(h as int).drop_last() =~= u.take(h as int - 1));
        }
        h -= 1;
    }
    proof {
        if h > 0 {
            assert(u.take(h as int).last() == u[h as int - 1]);
            assert(u[h as int - 1] == v@[lo + h - 1]);
        }
        assert(trim_back(u) == u.take(h as int));
        assert(u.take(h as int) =~= v@.subrange(lo as int, (lo + h) as int));
    }
    let mut r: Vec<u8> = Vec::new();
    let mut k: usize = 0;
    while k < h
        invariant
            n == v@.len(),
            lo + m == n,
            h <= m,
            k <= h,
            r@.len() == k,
            forall|j: int| 0 <= j < k ==> r@[j] == lower(v@[lo + j]),
        decreases h - k,
    {
        let c: u8 = v[lo + k];
        let lc: u8 = if 65 <= c && c <= 90 {
            c + 32
        } else {
            c
        };
        r.push(lc);
        k += 1;
    }
    proof {
        let t = trim_back(trim_front(v@));
        assert(t == v@.subrange(lo as int, (lo + h) as int));
        assert(r@ =~= t.map_values(|b: u8| lower(b)));
    }
    r
}

/// Digit strings are bounded by powers of ten.
pub proof fn lemma_digits_val_bound(s: Seq<u8>)
    requires
        all_digits(s),
    ensures
        0 <= digits_val(s) < pow10(s.len()),
    decreases s.len(),
{
    lemma_pow10_vals();
    if s.len() > 0 {
        lemma_digits_val_bound(s.drop_last());
        lemma_pow10_succ((s.len() - 1) as nat);
        assert(digits_val(s.drop_last()) * 10 <= (pow10((s.len() - 1) as nat) - 1) * 10)
            by (nonlinear_arith)
            requires
                digits_val(s.drop_last()) <= pow10((s.len() - 1) as nat) - 1,
        ;
    }
}

/// A digit string with a non-zero first digit has a positive value.
pub proof fn lemma_digits_val_pos(s: Seq<u8>)
    requires
        all_digits(s),
        s.len() >= 1,
        s[0] != 48,
    ensures
        digits_val(s) >= 1,
    decreases s.len(),
{
    if s.len() == 1 {
    } else {
        lemma_digits_val_pos(s.drop_last());
        assert(digits_val(s.drop_last()) * 10 >= 10) by (nonlinear_arith)
            requires
                digits_val(s.drop_last()) >= 1,
        ;
    }
}

/// Exponent magnitudes at which parsing is certainly out of range.
const CLAMP_E: i128 = 1_000_000_000_000_000_000_000_000_000_000;

const BIG_E: i128 = 10_000_000_000_000_000_000_000_000_000;

/// Signed integer literal; values at least CLAMP_E freeze (the exact value
/// no longer matters, only that it is at least that large).
fn int_val_exec(v: &[u8]) -> (r: Option<(bool, i128)>)
    ensures
        r is None <==> int_val(v@) is None,
        r matches Some(p) ==> match int_val(v@) {
            Some(q) => p.0 == q.0 && 0 <= p.1 && 0 <= q.1 && p.1 < 11 * CLAMP_E && (p.1 == q.1 || (
            p.1 >= CLAMP_E && q.1 >= CLAMP_E)),
            None => false,
        },
{
    let n: usize = v.len();
    if n == 0 {
        return None;
    }
    let neg: bool = v[0] == 45;
    let start: usize = if v[0] == 45 || v[0] == 43 {
        1
    } else {
        0
    };
    let ghost ds = if v@[0] == 45 || v@[0] == 43 {
        v@.skip(1)
    } else {
        v@
    };
    proof {
        assert(ds =~= v@.subrange(start as int, n as int));
    }
    if n == start {
        return None;
    }
    let mut ev: i128 = 0;
    let mut j: usize = start;
    proof {
        assert(ds.take(0) =~= Seq::<u8>::empty());
        lemma_digits_val_bound(ds.take(0));
    }
    while j < n
        invariant
            n == v@.len(),
            n >= 1,
            start == if v@[0] == 45 || v@[0] == 43 {
                1int
            } else {
                0int
            },
            start <= j <= n,
            ds == v@.subrange(start as int, n as int),
            forall|i2: int| 0 <= i2 < j - start ==> is_digit(#[trigger] ds[i2]),
            0 <= ev,
            ev == digits_val(ds.take(j - start)) && ev < CLAMP_E || (ev >= CLAMP_E && ev
                < 11 * CLAMP_E && digits_val(ds.take(j - start)) >= CLAMP_E),
        decreases n - j,
    {
        let c: u8 = v[j];
        if c < 48 || c > 57 {
            proof {
                assert(ds[j - start] == v@[j as int]);
                assert(!is_digit(ds[j - start]));
                assert(!all_digits(ds));
                let s2 = v@;
                let ds2 = if s2[0] == 45 || s2[0] == 43 {
                    s2.skip(1)
                } else {
                    s2
                };
                assert(ds2 =~= v@.subrange(start as int, n as int));
                assert(!(ds2.len() >= 1 && all_digits(ds2)));
                assert(int_val(v@) is None);
            }
            return None;
        }
        proof {
            assert(ds[j - start] == v@[j as int]);
            assert(ds.take(j - start + 1).drop_last() =~= ds.take(j - start));
            assert(ds.take(j - start + 1).last() == ds[j - start]);
            if ev >= CLAMP_E {
                assert(digits_val(ds.take(j - start)) * 10 + (ds[j - start] - 48) >= digits_val(
                    ds.take(j - start),
                )) by (nonlinear_arith)
                    requires
                        digits_val(ds.take(j - start)) >= 0,
                        ds[j - start] >= 48,
                ;
            }
        }
        if ev < CLAMP_E {
            ev = ev * 10 + (c - 48) as i128;
        }
        j += 1;
    }
    proof {
        assert(ds.take(n - start) =~= ds);
        assert(all_digits(ds));
    }
    Some((neg, ev))
}

/// Assembles the parsed digits and exponent into a `Number`, matching
/// `mk_number` on the exact (ghost) exponent.
fn mk_number_exec(neg: bool, ds: &Vec<u8>, e0: i128, Ghost(e0t): Ghost<int>) -> (r: Option<Number>)
    requires
        all_digits(ds@),
        e0 == e0t || (e0 >= BIG_E && e0t >= BIG_E) || (e0 <= -BIG_E && e0t <= -BIG_E),
        -100 * CLAMP_E <= e0 <= 100 * CLAMP_E,
    ensures
        r == mk_number(neg, ds@, e0t),
        r matches Some(x) ==> x.wf() && x.den == 1,
{
    let n: usize = ds.len();
    let mut i: usize = 0;
    proof {
        assert(ds@.skip(0) =~= ds@);
    }
    while i < n && ds[i] == 48
        invariant
            n == ds@.len(),
            i <= n,
            strip_zeros(ds@) == strip_zeros(ds@.skip(i as int)),
        decreases n - i,
    {
        proof {
            assert(ds@.skip(i as int)[0] == ds@[i as int]);
            assert(ds@.skip(i as int).skip(1) =~= ds@.skip(i as int + 1));
        }
        i += 1;
    }
    let ghost sig = strip_zeros(ds@);
    proof {
        if i < n {
            assert(ds@.skip(i as int)[0] == ds@[i as int]);
        }
        assert(sig == ds@.skip(i as int));
    }
    if i == n {
        proof {
            assert(sig =~= Seq::<u8>::empty());
        }
        return Some(Number { neg, num: 0, den: 1, exp: 0 });
    }
    let sig_len: usize = n - i;
    let keep_len: usize = if sig_len > 18 {
        18
    } else {
        sig_len
    };
    let ghost keep = if sig.len() > 18 {
        sig.take(18)
    } else {
        sig
    };
    proof {
        assert(keep =~= ds@.subrange(i as int, (i + keep_len) as int));
        assert(forall|j: int| 0 <= j < keep.len() ==> keep[j] == ds@[i + j]);
        lemma_pow10_vals();
    }
    let mut m: u64 = 0;
    let mut j: usize = 0;
    proof {
        assert(keep.take(0) =~= Seq::<u8>::empty());
    }
    while j < keep_len
        invariant
            n == ds@.len(),
            i + keep_len <= n,
            keep_len <= 18,
            j <= keep_len,
            all_digits(ds@),
            keep == ds@.subrange(i as int, (i + keep_len) as int),
            m == digits_val(keep.take(j as int)),
            0 <= m < pow10(j as nat),
        decreases keep_len - j,
    {
        proof {
            lemma_pow10_vals();
            lemma_pow10_succ(j as nat);
            lemma_pow10_increases((j + 1) as nat, 18);
            assert(keep.take(j as int + 1).drop_last() =~= keep.take(j as int));
            assert(keep.take(j as int + 1).last() == keep[j as int]);
            assert(keep[j as int] == ds@[i + j]);
            assert(is_digit(ds@[i + j]));
            assert(m * 10 + 9 < pow10((j + 1) as nat)) by (nonlinear_arith)
                requires
                    m < pow10(j as nat),
                    pow10((j + 1) as nat) == 10 * pow10(j as nat),
            ;
        }
        m = m * 10 + (ds[i + j] - 48) as u64;
        j += 1;
    }
    proof {
        assert(keep.take(keep_len as int) =~= keep);
        lemma_pow10_vals();
        lemma_pow10_increases(keep_len as nat, 18);
        assert(keep[0] == ds@[i as int] && ds@[i as int] != 48);
        assert(all_digits(keep));
        lemma_digits_val_pos(keep);
    }
    let e1: i128 = e0 + (sig_len - keep_len) as i128;
    let ghost e1t: int = e0t + (sig.len() - keep.len());
    let mut mm: u64 = m;
    let mut ee: i128 = e1;
    let ghost eet: int = e1t;
    let ghost m0: int = m as int;
    proof {
        assert(pow10(0) == 1) by {
            lemma_pow10_vals();
        }
        assert(mm * pow10(0) == m0) by (nonlinear_arith)
            requires
                pow10(0) == 1,
                mm == m0,
        ;
    }
    while mm % 10 == 0 && mm > 0
        invariant
            1 <= mm <= m0,
            m0 < pow10(18),
            ee - e1 == eet - e1t,
            0 <= ee - e1 <= 18,
            -200 * CLAMP_E <= e1 <= 200 * CLAMP_E,
            mm as int * pow10((ee - e1) as nat) == m0,
            norm_mant(m0, e1t) == norm_mant(mm as int, eet),
        decreases mm,
    {
        proof {
            let d: nat = (ee - e1) as nat;
            lemma_pow10_succ(d);
            lemma_pow10_pos(d);
            assert(mm == 10 * (mm / 10));
            assert((mm / 10) as int * pow10((d + 1) as nat) == m0) by (nonlinear_arith)
                requires
                    mm as int * pow10(d) == m0,
                    mm == 10 * (mm / 10) as int,
                    pow10((d + 1) as nat) == 10 * pow10(d),
            ;
            if ee - e1 == 18 {
                lemma_pow10_pos((d + 1) as nat);
                lemma_pow10_increases(18, (d + 1) as nat);
                assert((mm / 10) as int * pow10((d + 1) as nat) >= pow10((d + 1) as nat))
                    by (nonlinear_arith)
                    requires
                        (mm / 10) as int >= 1,
                        pow10((d + 1) as nat) >= 1,
                ;
                assert(false);
            }
        }
        mm = mm / 10;
        ee = ee + 1;
        proof {
            eet = eet + 1;
        }
    }
    proof {
        assert(norm_mant(mm as int, eet) == (mm as int, eet));
    }
    if ee >= -(MAX_EXP as i128) && ee <= MAX_EXP as i128 {
        proof {
            assert(e0 == e0t) by {
                if e0 >= BIG_E {
                    assert(ee >= BIG_E);
                    assert(false);
                }
                if e0 <= -BIG_E {
                    assert(sig.len() - keep.len() < ds@.len());
                    assert(ee <= -BIG_E + ds@.len() + 18);
                    assert(false);
                }
            }
        }
        Some(Number { neg, num: mm, den: 1, exp: ee as i64 })
    } else {
        proof {
            // the exact exponent is out of range too
            if e0 == e0t {
            } else if e0 >= BIG_E {
                assert(eet >= BIG_E);
            } else {
                assert(eet <= -BIG_E + ds@.len() + 18);
            }
        }
        None
    }
}

/// A finite decimal literal, matching `lit_num`.
fn lit_num_exec(v: &[u8]) -> (r: Option<Number>)
    ensures
        r == lit_num(v@),
        r matches Some(x) ==> x.wf() && x.den == 1,
{
    let n: usize = v.len();
    if n == 0 {
        return None;
    }
    let neg: bool = v[0] == 45;
    let start: usize = if v[0] == 45 || v[0] == 43 {
        1
    } else {
        0
    };
    let rest: Vec<u8> = copy_range(v, start, n);
    proof {
        assert(rest@ =~= if v@[0] == 45 || v@[0] == 43 {
            v@.skip(1)
        } else {
            v@
        });
    }
    let er = find_b(rest.as_slice(), 101);
    match er {
        None => {
            match dec_split_exec(rest.as_slice()) {
                None => None,
                Some((dsv, sc)) => {
                    let r = mk_number_exec(neg, &dsv, -(sc as i128), Ghost(-(sc as int)));
                    r
                },
            }
        },
        Some(ei) => {
            let mant: Vec<u8> = copy_range(rest.as_slice(), 0, ei);
            let expd: Vec<u8> = copy_range(rest.as_slice(), ei + 1, rest.len());
            proof {
                assert(mant@ =~= rest@.take(ei as int));
                assert(expd@ =~= rest@.skip(ei as int + 1));
            }
            match dec_split_exec(mant.as_slice()) {
                None => None,
                Some((dsv, sc)) => {
                    match int_val_exec(expd.as_slice()) {
                        None => None,
                        Some((eneg, ev)) => {
                            let e_signed: i128 = if eneg {
                                -ev
                            } else {
                                ev
                            };
                            let e0: i128 = e_signed - sc as i128;
                            let ghost evt: int = match int_val(expd@) {
                                Some(q) => q.1,
                                None => 0,
                            };
                            let ghost e0t: int = (if eneg {
                                -evt
                            } else {
                                evt
                            }) - sc as int;
                            proof {
                                if ev != evt {
                                    assert(ev >= CLAMP_E && evt >= CLAMP_E);
                                    assert(sc <= usize::MAX);
                                }
                            }
                            let r = mk_number_exec(neg, &dsv, e0, Ghost(e0t));
                            r
                        },
                    }
                },
            }
        },
    }
}

/// Decimal body split, matching `dec_split`.
fn dec_split_exec(v: &[u8]) -> (r: Option<(Vec<u8>, usize)>)
    ensures
        r is None <==> dec_split(v@) is None,
        r matches Some(p) ==> match dec_split(v@) {
            Some(q) => p.0@ == q.0 && p.1 as int == q.1 && all_digits(p.0@) && q.1 <= v@.len(),
            None => false,
        },
{
    let n: usize = v.len();
    let dr = find_b(v, 46);
    match dr {
        None => {
            if n >= 1 && all_digits_exec(v) {
                let ds = copy_range(v, 0, n);
                proof {
                    assert(ds@ =~= v@);
                }
                Some((ds, 0))
            } else {
                None
            }
        },
        Some(d) => {
            let ip: Vec<u8> = copy_range(v, 0, d);
            let fp: Vec<u8> = copy_range(v, d + 1, n);
            proof {
                assert(ip@ =~= v@.take(d as int));
                assert(fp@ =~= v@.skip(d as int + 1));
            }
            let no_second = match find_b(fp.as_slice(), 46) {
                None => true,
                Some(_) => false,
            };
            if no_second && all_digits_exec(ip.as_slice()) && all_digits_exec(fp.as_slice()) && ip.len()
                + fp.len() >= 1 {
                let mut ds = ip;
                let mut k: usize = 0;
                let ghost ip0 = v@.take(d as int);
                while k < fp.len()
                    invariant
                        k <= fp@.len(),
                        ds@ == ip0 + fp@.take(k as int),
                    decreases fp@.len() - k,
                {
                    proof {
                        assert((ip0 + fp@.take(k as int)).push(fp@[k as int]) =~= ip0 + fp@.take(
                            k as int + 1,
                        ));
                    }
                    ds.push(fp[k]);
                    k += 1;
                }
                proof {
                    assert(fp@.take(fp@.len() as int) =~= fp@);
                    assert(ds@ == ip0 + fp@);
                    assert(all_digits(ds@)) by {
                        assert(forall|j: int| 0 <= j < ds@.len() ==> ds@[j] == (ip0 + fp@)[j]);
                    }
                }
                Some((ds, fp.len()))
            } else {
                None
            }
        },
    }
}

/// Trims ASCII whitespace from both ends (the input is already lower-cased).
fn trim_exec(v: &[u8]) -> (r: Vec<u8>)
    ensures
        r@ == trim_back(trim_front(v@)),
{
    let n: usize = v.len();
    let mut lo: usize = 0;
    proof {
        assert(v@.skip(0) =~= v@);
    }
    while lo < n && (v[lo] == 32 || v[lo] == 9 || v[lo] == 10 || v[lo] == 13 || v[lo] == 11
        || v[lo] == 12)
        invariant
            n == v@.len(),
            lo <= n,
            trim_front(v@) == trim_front(v@.skip(lo as int)),
        decreases n - lo,
    {
        proof {
            assert(v@.skip(lo as int).skip(1) =~= v@.skip(lo as int + 1));
            assert(v@.skip(lo as int)[0] == v@[lo as int]);
        }
        lo += 1;
    }
    proof {
        if lo < n {
            assert(v@.skip(lo as int)[0] == v@[lo as int]);
        }
        assert(trim_front(v@) == v@.skip(lo as int));
    }
    let ghost u = v@.skip(lo as int);
    let m: usize = n - lo;
    let mut h: usize = m;
    proof {
        assert(u.take(m as int) =~= u);
    }
    while h > 0 && (v[lo + h - 1] == 32 || v[lo + h - 1] == 9 || v[lo + h - 1] == 10 || v[lo + h
        - 1] == 13 || v[lo + h - 1] == 11 || v[lo + h - 1] == 12)
        invariant
            n == v@.len(),
            lo + m == n,
            h <= m,
            u == v@.skip(lo as int),
            trim_back(u) == trim_back(u.take(h as int)),
        decreases h,
    {
        proof {
            assert(u.take(h as int).last() == u[h as int - 1]);
            assert(u[h as int - 1] == v@[lo + h - 1]);
            assert(u.take(h as int).drop_last() =~= u.take(h as int - 1));
        }
        h -= 1;
    }
    proof {
        if h > 0 {
            assert(u.take(h as int).last() == u[h as int - 1]);
            assert(u[h as int - 1] == v@[lo + h - 1]);
        }
        assert(trim_back(u) == u.take(h as int));
        assert(u.take(h as int) =~= v@.subrange(lo as int, (lo + h) as int));
    }
    let r = copy_range(v, lo, lo + h);
    r
}

/// Scales a well-formed parsed number by 10^k.
fn bump_exp_exec(nb: Number, k: i64) -> (r: Option<Number>)
    requires
        nb.wf(),
        -3_000_000_000 <= k <= 3_000_000_000,
    ensures
        r == bump_exp(nb, k as int),
        r matches Some(x) ==> x.wf() && x.den == nb.den,
{
    let e2: i64 = nb.exp + k;
    if -MAX_EXP <= e2 && e2 <= MAX_EXP {
        Some(Number { neg: nb.neg, num: nb.num, den: nb.den, exp: e2 })
    } else {
        None
    }
}

/// Whether v ends with the bytes of w.
fn ends_with_exec(v: &[u8], w: &[u8]) -> (r: bool)
    ensures
        r == ends_with(v@, w@),
{
    let n: usize = v.len();
    let k: usize = w.len();
    if n < k {
        return false;
    }
    let off: usize = n - k;
    let mut i: usize = 0;
    while i < k
        invariant
            n == v@.len(),
            k == w@.len(),
            off == n - k,
            i <= k,
            forall|j: int| 0 <= j < i ==> v@[off + j] == w@[j],
        decreases k - i,
    {
        if v[off + i] != w[i] {
            proof {
                assert(v@.skip(off as int)[i as int] == v@[off + i]);
                assert(v@.skip(off as int) != w@);
            }
            return false;
        }
        i += 1;
    }
    proof {
        assert(v@.skip(off as int) =~= w@);
    }
    true
}

fn word_trillion_vec() -> (r: Vec<u8>)
    ensures
        r@ == w_trillion(),
{
    let mut v: Vec<u8> = Vec::new();
    v.push(116);
    v.push(114);
    v.push(105);
    v.push(108);
    v.push(108);
    v.push(105);
    v.push(111);
    v.push(110);
    proof {
        assert(v@ =~= w_trillion());
    }
    v
}

fn word_billion_vec() -> (r: Vec<u8>)
    ensures
        r@ == w_billion(),
{
    let mut v: Vec<u8> = Vec::new();
    v.push(98);
    v.push(105);
    v.push(108);
    v.push(108);
    v.push(105);
    v.push(111);
    v.push(110);
    proof {
        assert(v@ =~= w_billion());
    }
    v
}

fn word_million_vec() -> (r: Vec<u8>)
    ensures
        r@ == w_million(),
{
    let mut v: Vec<u8> = Vec::new();
    v.push(109);
    v.push(105);
    v.push(108);
    v.push(108);
    v.push(105);
    v.push(111);
    v.push(110);
    proof {
        assert(v@ =~= w_million());
    }
    v
}

fn word_thousand_vec() -> (r: Vec<u8>)
    ensures
        r@ == w_thousand(),
{
    let mut v: Vec<u8> = Vec::new();
    v.push(116);
    v.push(104);
    v.push(111);
    v.push(117);
    v.push(115);
    v.push(97);
    v.push(110);
    v.push(100);
    proof {
        assert(v@ =~= w_thousand());
    }
    v
}

/// The shared tail of the word and letter rules: prefix before the suffix,
/// re-trimmed, parsed, scaled.
fn suffix_apply_exec(t: &[u8], k: usize, mult: i64) -> (r: Option<Number>)
    requires
        k <= t@.len(),
        0 <= mult <= 12,
    ensures
        r == suffix_apply(t@, k as int, mult as int),
        r matches Some(x) ==> x.wf() && x.den == 1,
{
    let cut = copy_range(t, 0, t.len() - k);
    proof {
        assert(cut@ =~= t@.take(t@.len() - k));
    }
    let prefix = trim_exec(cut.as_slice());
    match lit_num_exec(prefix.as_slice()) {
        Some(nb) => bump_exp_exec(nb, mult),
        None => None,
    }
}

/// Word suffixes in their fixed order.
fn word_rule_exec(t: &[u8]) -> (r: Option<Number>)
    ensures
        r == word_rule(t@),
        r matches Some(x) ==> x.wf() && x.den == 1,
{
    let wt = word_trillion_vec();
    if ends_with_exec(t, wt.as_slice()) {
        return suffix_apply_exec(t, 8, 12);
    }
    let wb = word_billion_vec();
    if ends_with_exec(t, wb.as_slice()) {
        return suffix_apply_exec(t, 7, 9);
    }
    let wm = word_million_vec();
    if ends_with_exec(t, wm.as_slice()) {
        return suffix_apply_exec(t, 7, 6);
    }
    let wh = word_thousand_vec();
    if ends_with_exec(t, wh.as_slice()) {
        return suffix_apply_exec(t, 8, 3);
    }
    None
}

/// Letter suffixes t, b, m, k.
fn letter_rule_exec(t: &[u8]) -> (r: Option<Number>)
    ensures
        r == letter_rule(t@),
        r matches Some(x) ==> x.wf() && x.den == 1,
{
    let n: usize = t.len();
    if n == 0 {
        return None;
    }
    let c: u8 = t[n - 1];
    let mult: i64 = if c == 116 {
        12
    } else if c == 98 {
        9
    } else if c == 109 {
        6
    } else if c == 107 {
        3
    } else {
        0
    };
    if mult == 0 {
        return None;
    }
    let cut = copy_range(t, 0, n - 1);
    proof {
        assert(cut@ =~= t@.drop_last());
    }
    let prefix = trim_exec(cut.as_slice());
    if prefix.len() == 0 {
        return None;
    }
    match lit_num_exec(prefix.as_slice()) {
        Some(nb) => bump_exp_exec(nb, mult),
        None => None,
    }
}

/// The caret rule's normalization pass.
fn caret_norm_exec(t: &[u8]) -> (r: Vec<u8>)
    ensures
        r@ == caret_norm(t@),
{
    let n: usize = t.len();
    let mut r: Vec<u8> = Vec::new();
    let mut i: usize = 0;
    proof {
        assert(t@.skip(0) =~= t@);
        assert(r@ + caret_norm(t@) =~= caret_norm(t@));
    }
    while i < n
        invariant
            n == t@.len(),
            i <= n,
            caret_norm(t@) == r@ + caret_norm(t@.skip(i as int)),
        decreases n - i,
    {
        let ghost ii = i as int;
        let ghost s = t@.skip(ii);
        proof {
            assert(s[0] == t@[ii]);
            if i + 1 < n {
                assert(s[1] == t@[ii + 1]);
            }
        }
        if t[i] == 195 && i + 1 < n && t[i + 1] == 151 {
            proof {
                assert(s.skip(2) =~= t@.skip(ii + 2));
                assert(caret_norm(s) == seq![120u8] + caret_norm(t@.skip(ii + 2)));
                assert(r@ + caret_norm(s) =~= r@.push(120u8) + caret_norm(t@.skip(ii + 2)));
            }
            r.push(120);
            i += 2;
        } else if t[i] == 42 {
            proof {
                assert(s.skip(1) =~= t@.skip(ii + 1));
                assert(caret_norm(s) == seq![120u8] + caret_norm(t@.skip(ii + 1)));
                assert(r@ + caret_norm(s) =~= r@.push(120u8) + caret_norm(t@.skip(ii + 1)));
            }
            r.push(120);
            i += 1;
        } else if t[i] == 32 {
            proof {
                assert(s.skip(1) =~= t@.skip(ii + 1));
                assert(caret_norm(s) == caret_norm(t@.skip(ii + 1)));
            }
            i += 1;
        } else {
            proof {
                assert(s.skip(1) =~= t@.skip(ii + 1));
                assert(caret_norm(s) == seq![s[0]] + caret_norm(t@.skip(ii + 1)));
                assert(r@ + caret_norm(s) =~= r@.push(t@[ii]) + caret_norm(t@.skip(ii + 1)));
            }
            r.push(t[i]);
            i += 1;
        }
    }
    proof {
        assert(t@.skip(n as int) =~= Seq::<u8>::empty());
        assert(r@ + caret_norm(t@.skip(n as int)) =~= r@);
    }
    r
}

/// First occurrence of "x10^" at or after `from`, agreeing with `find_x10`.
fn find_x10_exec(v: &[u8], from: usize) -> (r: Option<usize>)
    requires
        from <= v@.len(),
    ensures
        r is None <==> find_x10(v@, from as int) == -1,
        r matches Some(i) ==> from <= i && i + 4 <= v@.len() && find_x10(v@, from as int) == i,
{
    let n: usize = v.len();
    let mut j: usize = from;
    while n >= 4 && j <= n - 4
        invariant
            n == v@.len(),
            from <= j,
            j <= n + 1,
            forall|j2: int| from <= j2 < j ==> !x10_at(v@, j2),
        decreases n - j,
    {
        if v[j] == 120 && v[j + 1] == 49 && v[j + 2] == 48 && v[j + 3] == 94 {
            proof {
                assert(x10_at(v@, j as int));
                lemma_find_x10(v@, from as int);
            }
            return Some(j);
        }
        proof {
            assert(!x10_at(v@, j as int));
        }
        j += 1;
    }
    proof {
        assert(forall|j2: int| from <= j2 ==> !x10_at(v@, j2));
        lemma_find_x10(v@, from as int);
    }
    None
}

/// Mantissa times ten to an integer power.
fn caret_rule_exec(t: &[u8]) -> (r: Option<Number>)
    ensures
        r == caret_rule(t@),
        r matches Some(x) ==> x.wf() && x.den == 1,
{
    let cn = caret_norm_exec(t);
    let first = find_x10_exec(cn.as_slice(), 0);
    let i = match first {
        None => {
            return None;
        },
        Some(i) => i,
    };
    let cl: usize = cn.len();
    proof {
        assert(i + 4 <= cl);
    }
    let second = find_x10_exec(cn.as_slice(), i + 4);
    match second {
        Some(_) => {
            return None;
        },
        None => {},
    }
    let mant = copy_range(cn.as_slice(), 0, i);
    let expp = copy_range(cn.as_slice(), i + 4, cn.len());
    proof {
        assert(mant@ =~= cn@.take(i as int));
        assert(expp@ =~= cn@.skip(i as int + 4));
    }
    match lit_num_exec(mant.as_slice()) {
        None => None,
        Some(nb) => {
            match int_val_exec(expp.as_slice()) {
                None => None,
                Some((eneg, ev)) => {
                    let ghost evt: int = match int_val(expp@) {
                        Some(q) => q.1,
                        None => 0,
                    };
                    let ghost et: int = if eneg {
                        -evt
                    } else {
                        evt
                    };
                    let in_range: bool = if eneg {
                        ev <= 2147483648
                    } else {
                        ev <= 2147483647
                    };
                    if !in_range {
                        proof {
                            assert(!(-2147483648 <= et <= 2147483647));
                        }
                        return None;
                    }
                    proof {
                        assert(ev == evt);
                    }
                    let e: i64 = if eneg {
                        -(ev as i64)
                    } else {
                        ev as i64
                    };
                    bump_exp_exec(nb, e)
                },
            }
        },
    }
}

/// Commas and spaces removed.
fn strip_seps_exec(t: &[u8]) -> (r: Vec<u8>)
    ensures
        r@ == strip_seps(t@),
{
    let n: usize = t.len();
    let mut r: Vec<u8> = Vec::new();
    let mut i: usize = 0;
    proof {
        assert(t@.skip(0) =~= t@);
        assert(r@ + strip_seps(t@) =~= strip_seps(t@));
    }
    while i < n
        invariant
            n == t@.len(),
            i <= n,
            strip_seps(t@) == r@ + strip_seps(t@.skip(i as int)),
        decreases n - i,
    {
        let ghost ii = i as int;
        let ghost s = t@.skip(ii);
        proof {
            assert(s[0] == t@[ii]);
            assert(s.skip(1) =~= t@.skip(ii + 1));
        }
        if t[i] == 44 || t[i] == 32 {
            proof {
                assert(strip_seps(s) == strip_seps(t@.skip(ii + 1)));
            }
        } else {
            proof {
                assert(strip_seps(s) == seq![s[0]] + strip_seps(t@.skip(ii + 1)));
                assert(r@ + strip_seps(s) =~= r@.push(t@[ii]) + strip_seps(t@.skip(ii + 1)));
            }
            r.push(t[i]);
        }
        i += 1;
    }
    proof {
        assert(t@.skip(n as int) =~= Seq::<u8>::empty());
        assert(r@ + strip_seps(t@.skip(n as int)) =~= r@);
    }
    r
}

/// Parses free-form answer text, given as raw bytes.  The grammar is
/// `spec_parse`: scientific notation, word suffix, letter suffix, caret
/// notation, then a plain number, first match wins.
pub fn parse_bytes(bytes: &[u8]) -> (r: Option<Number>)
    ensures
        r == spec_parse(bytes@),
        r matches Some(x) ==> x.wf() && x.den == 1,
{
    let t = normalize(bytes);
    if t.len() == 0 {
        return None;
    }
    let has_e = match find_b(t.as_slice(), 101) {
        Some(_) => true,
        None => false,
    };
    if has_e {
        let r1 = lit_num_exec(t.as_slice());
        match r1 {
            Some(x) => {
                return Some(x);
            },
            None => {},
        }
    }
    let r2 = word_rule_exec(t.as_slice());
    match r2 {
        Some(x) => {
            return Some(x);
        },
        None => {},
    }
    let r3 = letter_rule_exec(t.as_slice());
    match r3 {
        Some(x) => {
            return Some(x);
        },
        None => {},
    }
    let r4 = caret_rule_exec(t.as_slice());
    match r4 {
        Some(x) => {
            return Some(x);
        },
        None => {},
    }
    plain_rule_exec(t.as_slice())
}

fn plain_rule_exec(t: &[u8]) -> (r: Option<Number>)
    ensures
        r == plain_rule(t@),
        r matches Some(x) ==> x.wf() && x.den == 1,
{
    let stripped = strip_seps_exec(t);
    lit_num_exec(stripped.as_slice())
}

/// Parses free-form answer text into an exact value, or nothing when no
/// supported notation matches.
pub fn parse_answer(input: &str) -> (r: Option<Number>)
    ensures
        r == spec_parse(input.spec_bytes()),
        r matches Some(x) ==> x.wf() && x.den == 1,
{
    parse_bytes(input.as_bytes())
}

} // verus!
