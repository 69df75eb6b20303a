//! Fixed-point arithmetic for embedding vectors. A scalar is an `i64` in
//! thousandths (three decimal places); decimal literals from the word-vector
//! file are parsed into it against an exact grammar, and the vector math —
//! dot products, norms, truncating division, integer square root — is
//! specified over mathematical integers.
use vstd::prelude::*;

verus! {

/// One unit in the last place is a thousandth.
pub const SCALE: i64 = 1000;

/// Largest magnitude a stored scalar may have (so sums and products fit).
pub const VALUE_BOUND: i64 = 1048576;

/// Largest vector dimensionality the engine accepts.
pub const MAX_DIM: usize = 4096;

pub open spec fn is_digit(c: char) -> bool {
    48 <= c as u32 <= 57
}

pub open spec fn digit_val(c: char) -> int {
    c as u32 - 48
}

pub open spec fn all_digits(s: Seq<char>) -> bool {
    s.len() > 0 && forall|i: int| 0 <= i < s.len() ==> is_digit(#[trigger] s[i])
}

pub open spec fn digits_val(s: Seq<char>) -> int
    decreases s.len(),
{
    if s.len() == 0 {
        0
    } else {
        digits_val(s.drop_last()) * 10 + digit_val(s.last())
    }
}

pub proof fn lemma_digits_val_nonneg(s: Seq<char>)
    requires
        forall|i: int| 0 <= i < s.len() ==> is_digit(#[trigger] s[i]),
    ensures
        digits_val(s) >= 0,
    decreases s.len(),
{
    if s.len() > 0 {
        assert(forall|i: int| 0 <= i < s.drop_last().len()
            ==> is_digit(#[trigger] s.drop_last()[i]));
        lemma_digits_val_nonneg(s.drop_last());
    }
}

/// `k` splits `s` into a digit run, a decimal point, and a digit run.
pub open spec fn dot_split_ok(s: Seq<char>, k: int) -> bool {
    &&& 0 <= k < s.len()
    &&& s[k] == '.'
    &&& all_digits(s.subrange(0, k))
    &&& all_digits(s.subrange(k + 1, s.len() as int))
}

pub proof fn lemma_dot_split_unique(s: Seq<char>, k1: int, k2: int)
    requires
        dot_split_ok(s, k1),
        dot_split_ok(s, k2),
    ensures
        k1 == k2,
{
    if k1 < k2 {
        assert(is_digit(s.subrange(0, k2)[k1]));
        assert(s.subrange(0, k2)[k1] == '.');
        assert(('.') as u32 == 46);
    } else if k2 < k1 {
        assert(is_digit(s.subrange(0, k1)[k2]));
        assert(s.subrange(0, k1)[k2] == '.');
        assert(('.') as u32 == 46);
    }
}

/// The first three fractional digits, padded with zeros, as thousandths.
pub open spec fn frac_milli(f: Seq<char>) -> int {
    if f.len() >= 3 {
        digits_val(f.subrange(0, 3))
    } else if f.len() == 2 {
        digits_val(f) * 10
    } else {
        digits_val(f) * 100
    }
}

/// The magnitude of an unsigned decimal literal, in thousandths: either all
/// digits, or digits, a point and digits.
pub open spec fn fixed_mag_of(s: Seq<char>) -> Option<int> {
    if all_digits(s) {
        Some(digits_val(s) * 1000)
    } else if exists|k: int| dot_split_ok(s, k) {
        let k = choose|k: int| dot_split_ok(s, k);
        Some(digits_val(s.subrange(0, k)) * 1000 + frac_milli(s.subrange(k + 1, s.len() as int)))
    } else {
        None
    }
}

/// The value of a decimal literal with an optional leading minus, in
/// thousandths, truncated after the third fractional digit.
pub open spec fn fixed_of(s: Seq<char>) -> Option<int> {
    if s.len() > 0 && s.first() == '-' {
        match fixed_mag_of(s.drop_first()) {
            Some(v) => Some(-v),
            None => None,
        }
    } else {
        fixed_mag_of(s)
    }
}

/// The same, rejecting values too large for a stored scalar.
pub open spec fn bounded_fixed_of(s: Seq<char>) -> Option<int> {
    match fixed_of(s) {
        Some(v) => if -VALUE_BOUND <= v <= VALUE_BOUND {
            Some(v)
        } else {
            None
        },
        None => None,
    }
}

/// Division truncating toward zero, as machine division does.
pub open spec fn tdiv(a: int, b: int) -> int {
    if a >= 0 {
        a / b
    } else {
        -((-a) / b)
    }
}

/// The integer square root: the unique `r` with `r² <= x < (r+1)²`.
pub open spec fn is_isqrt(r: int, x: int) -> bool {
    r >= 0 && r * r <= x && x < (r + 1) * (r + 1)
}

pub open spec fn sqrt_floor(x: int) -> int {
    choose|r: int| is_isqrt(r, x)
}

pub proof fn lemma_isqrt_unique(x: int, r1: int, r2: int)
    requires
        is_isqrt(r1, x),
        is_isqrt(r2, x),
    ensures
        r1 == r2,
{
    if r1 < r2 {
        assert((r1 + 1) * (r1 + 1) <= r2 * r2) by (nonlinear_arith)
            requires 0 <= r1, 0 <= r2, r1 + 1 <= r2;
    } else if r2 < r1 {
        assert((r2 + 1) * (r2 + 1) <= r1 * r1) by (nonlinear_arith)
            requires 0 <= r1, 0 <= r2, r2 + 1 <= r1;
    }
}

/// Floor of the square root, by bisection.
pub fn isqrt(x: u128) -> (r: u128)
    requires
        x < 0x10000000000000000000000000000000u128,
    ensures
        is_isqrt(r as int, x as int),
        r as int == sqrt_floor(x as int),
{
    let mut lo: u128 = 0;
    let mut hi: u128 = 0x4000000000000000u128;
    proof {
        assert(0x4000000000000000int * 0x4000000000000000int
            == 0x10000000000000000000000000000000int);
    }
    while lo + 1 < hi
        invariant
            0 <= lo < hi <= 0x4000000000000000u128,
            (lo as int) * (lo as int) <= x as int,
            (hi as int) * (hi as int) > x as int,
        decreases hi - lo,
    {
        let mid = lo + (hi - lo) / 2;
        proof {
            assert((mid as int) * (mid as int) <= 0x4000000000000000int * 0x4000000000000000int)
                by (nonlinear_arith)
                requires 0 <= mid as int <= 0x4000000000000000int;
        }
        let sq = mid * mid;
        if sq <= x {
            lo = mid;
        } else {
            hi = mid;
        }
    }
    proof {
        assert(is_isqrt(lo as int, x as int));
        lemma_isqrt_unique(x as int, lo as int, sqrt_floor(x as int));
    }
    lo
}

/// Division truncating toward zero on wide integers.
pub fn div_trunc(a: i128, b: i128) -> (r: i128)
    requires
        b > 0,
        -0x40000000000000000000000000000000i128 < a,
        a < 0x40000000000000000000000000000000i128,
    ensures
        r as int == tdiv(a as int, b as int),
{
    if a >= 0 {
        let q = (a as u128) / (b as u128);
        proof {
            assert(q as int == a as int / b as int);
        }
        q as i128
    } else {
        let m = (-a) as u128;
        let q = m / (b as u128);
        proof {
            assert(q as int == (-(a as int)) / b as int);
            vstd::arithmetic::div_mod::lemma_fundamental_div_mod(m as int, b as int);
            vstd::arithmetic::div_mod::lemma_div_pos_is_pos(m as int, b as int);
            assert((q as int) * (b as int) <= m as int) by (nonlinear_arith)
                requires m as int == (b as int) * (q as int) + (m as int) % (b as int),
                    (m as int) % (b as int) >= 0;
            assert(0 <= q as int <= m as int) by (nonlinear_arith)
                requires (q as int) * (b as int) <= m as int, b as int >= 1, q as int >= 0,
                    m as int >= 0;
        }
        -(q as i128)
    }
}

/// The dot product of two scalar sequences, over the integers.
pub open spec fn dot_of(a: Seq<i64>, b: Seq<i64>) -> int
    decreases a.len(),
{
    if a.len() == 0 || b.len() == 0 {
        0
    } else {
        dot_of(a.drop_last(), b.drop_last()) + a.last() * b.last()
    }
}

pub open spec fn norm_sq(a: Seq<i64>) -> int {
    dot_of(a, a)
}

pub open spec fn bounded_entries(a: Seq<i64>) -> bool {
    forall|i: int| 0 <= i < a.len() ==> -VALUE_BOUND <= #[trigger] a[i] <= VALUE_BOUND
}

/// A norm is never negative.
pub proof fn lemma_norm_nonneg(a: Seq<i64>)
    ensures
        norm_sq(a) >= 0,
    decreases a.len(),
{
    if a.len() > 0 {
        lemma_norm_nonneg(a.drop_last());
        assert((a.last() as int) * (a.last() as int) >= 0) by (nonlinear_arith);
    }
}

/// The Cauchy-Schwarz inequality: a dot product squared never exceeds the
/// product of the norms, so a cosine quotient stays within one.
pub proof fn lemma_cauchy_schwarz(a: Seq<i64>, b: Seq<i64>)
    requires
        a.len() == b.len(),
    ensures
        dot_of(a, b) * dot_of(a, b) <= norm_sq(a) * norm_sq(b),
    decreases a.len(),
{
    if a.len() == 0 {
        assert(dot_of(a, b) == 0);
    } else {
        let a0 = a.drop_last();
        let b0 = b.drop_last();
        lemma_cauchy_schwarz(a0, b0);
        lemma_norm_nonneg(a0);
        lemma_norm_nonneg(b0);
        let d = dot_of(a0, b0);
        let na = norm_sq(a0);
        let nb = norm_sq(b0);
        let x = a.last() as int;
        let y = b.last() as int;
        assert(dot_of(a, b) == d + x * y);
        assert(norm_sq(a) == na + x * x);
        assert(norm_sq(b) == nb + y * y);
        let am = na * (y * y) + nb * (x * x);
        assert(am * am >= 4 * (na * nb) * ((x * y) * (x * y))) by (nonlinear_arith)
            requires am == na * (y * y) + nb * (x * x);
        assert(4 * (d * d) * ((x * y) * (x * y)) <= 4 * (na * nb) * ((x * y) * (x * y)))
            by (nonlinear_arith)
            requires d * d <= na * nb;
        assert(am >= 0) by (nonlinear_arith)
            requires am == na * (y * y) + nb * (x * x), na >= 0, nb >= 0;
        assert((2 * d * (x * y)) * (2 * d * (x * y)) <= am * am) by (nonlinear_arith)
            requires 4 * (d * d) * ((x * y) * (x * y)) <= am * am;
        assert(2 * d * (x * y) <= am) by (nonlinear_arith)
            requires am >= 0, (2 * d * (x * y)) * (2 * d * (x * y)) <= am * am;
        let cross = 2 * d * (x * y);
        assert((d + x * y) * (d + x * y) == d * d + cross + (x * y) * (x * y))
            by (nonlinear_arith)
            requires cross == 2 * d * (x * y);
        assert((na + x * x) * (nb + y * y) == na * nb + am + (x * x) * (y * y))
            by (nonlinear_arith)
            requires am == na * (y * y) + nb * (x * x);
        assert((x * y) * (x * y) == (x * x) * (y * y)) by (nonlinear_arith);
        assert((d + x * y) * (d + x * y) <= (na + x * x) * (nb + y * y));
    }
}

/// The scalar sequence whose integers these are, entrywise.
pub open spec fn from_ints(s: Seq<int>) -> Seq<i64> {
    s.map_values(|x: int| x as i64)
}

pub proof fn lemma_digits_val_small(s: Seq<char>)
    requires
        forall|p: int| 0 <= p < s.len() ==> is_digit(#[trigger] s[p]),
        s.len() <= 2,
    ensures
        0 <= digits_val(s),
        s.len() <= 1 ==> digits_val(s) <= 9,
        digits_val(s) <= 99,
    decreases s.len(),
{
    if s.len() > 0 {
        assert(forall|p: int| 0 <= p < s.drop_last().len()
            ==> is_digit(#[trigger] s.drop_last()[p]));
        lemma_digits_val_small(s.drop_last());
    }
}

fn char_at_is_digit(s: &str, i: usize) -> (r: bool)
    requires
        i < s@.len(),
    ensures
        r == is_digit(s@[i as int]),
{
    let u = s.get_char(i) as u32;
    48 <= u && u <= 57
}

/// Parse a decimal literal into thousandths, rejecting anything the grammar
/// or the scalar bound refuses.
#[verifier::rlimit(100)]
pub fn parse_fixed(tok: &str) -> (r: Option<i64>)
    ensures
        match r {
            Some(v) => bounded_fixed_of(tok@) == Some(v as int),
            None => bounded_fixed_of(tok@).is_none(),
        },
{
    let n = tok.unicode_len();
    if n == 0 {
        return None;
    }
    let neg = tok.get_char(0) == '-';
    let start: usize = if neg {
        1
    } else {
        0
    };
    let ghost m = tok@.skip(start as int);
    proof {
        if neg {
            assert(m =~= tok@.drop_first());
        } else {
            assert(m =~= tok@);
        }
    }
    if start == n {
        return None;
    }
    let mut i = start;
    let mut acc: i64 = 0;
    let mut too_big = false;
    while i < n && char_at_is_digit(tok, i)
        invariant
            start <= i <= n,
            n == tok@.len(),
            m == tok@.skip(start as int),
            forall|q: int| 0 <= q < i - start ==> is_digit(#[trigger] m[q]),
            !too_big ==> acc as int == digits_val(m.subrange(0, i - start))
                && 0 <= acc <= VALUE_BOUND,
            too_big ==> digits_val(m.subrange(0, i - start)) > VALUE_BOUND,
        decreases n - i,
    {
        let u = tok.get_char(i) as u32;
        let d = (u - 48) as i64;
        proof {
            let t = m.subrange(0, i - start + 1);
            assert(t.drop_last() =~= m.subrange(0, i - start));
            assert(t.last() == m[i - start]);
            assert(m[i - start] == tok@[i as int]);
            if too_big {
                lemma_digits_val_nonneg(t.drop_last());
                assert(digits_val(t) == digits_val(t.drop_last()) * 10 + digit_val(t.last()));
                assert(digits_val(t.drop_last()) * 10 >= digits_val(t.drop_last()) + 1)
                    by (nonlinear_arith)
                    requires digits_val(t.drop_last()) >= 1;
            }
        }
        if !too_big {
            let tentative = acc * 10 + d;
            if tentative > VALUE_BOUND {
                too_big = true;
            } else {
                acc = tentative;
            }
        }
        i = i + 1;
    }
    let mag: i64;
    let ghost k = i - start;
    if i == n {
        // all characters of the magnitude are digits
        proof {
            assert(m.subrange(0, m.len() as int) =~= m);
            assert(all_digits(m));
        }
        if too_big {
            proof {
                lemma_digits_val_nonneg(m);
                assert(digits_val(m) * 1000 > VALUE_BOUND) by (nonlinear_arith)
                    requires digits_val(m) > VALUE_BOUND;
            }
            return None;
        }
        mag = acc * 1000;
    } else {
        let c = tok.get_char(i);
        proof {
            assert(m[k as int] == tok@[i as int]);
        }
        if c != '.' {
            proof {
                assert(!is_digit(m[k as int]));
                assert(!all_digits(m));
                assert(('.') as u32 == 46);
                assert forall|kk: int| !dot_split_ok(m, kk) by {
                    if 0 <= kk < m.len() && m[kk] == '.' {
                        if kk < k {
                            assert(is_digit(m[kk]));
                        } else if kk == k {
                        } else {
                            assert(m.subrange(0, kk)[k as int] == m[k as int]);
                            assert(!all_digits(m.subrange(0, kk)));
                        }
                    }
                }
            }
            return None;
        }
        // decimal point found
        proof {
            assert(('.') as u32 == 46);
            assert(!is_digit(m[k as int]));
            assert(!all_digits(m));
            assert forall|kk: int| dot_split_ok(m, kk) implies kk == k by {
                if kk < k {
                    assert(is_digit(m[kk]));
                } else if kk > k {
                    assert(m.subrange(0, kk)[k as int] == m[k as int]);
                    assert(!all_digits(m.subrange(0, kk)));
                }
            }
        }
        if i == start {
            proof {
                assert(m.subrange(0, 0).len() == 0);
                assert(!dot_split_ok(m, 0));
            }
            return None;
        }
        let fstart = i + 1;
        let ghost frac = m.subrange(k + 1, m.len() as int);
        if fstart == n {
            proof {
                assert(frac.len() == 0);
                assert(!dot_split_ok(m, k as int));
            }
            return None;
        }
        let mut q = fstart;
        let mut facc: i64 = 0;
        while q < n
            invariant
                fstart <= q <= n,
                n == tok@.len(),
                fstart == i + 1 < n,
                start <= i < n,
                k == i - start,
                m == tok@.skip(start as int),
                neg ==> tok@.len() > 0 && tok@.first() == '-' && m == tok@.drop_first(),
                !neg ==> m == tok@ && tok@.first() != '-',
                !all_digits(m),
                forall|kk: int| dot_split_ok(m, kk) ==> kk == k,
                frac == m.subrange(k + 1, m.len() as int),
                forall|p: int| 0 <= p < q - fstart ==> is_digit(#[trigger] frac[p]),
                q - fstart <= 3 ==> facc as int == digits_val(
                    frac.subrange(0, q - fstart),
                ) && 0 <= facc <= 999,
                q - fstart > 3 ==> facc as int == digits_val(frac.subrange(0, 3))
                    && 0 <= facc <= 999,
            decreases n - q,
        {
            let u = tok.get_char(q) as u32;
            if !(48 <= u && u <= 57) {
                proof {
                    assert(frac[q - fstart] == tok@[q as int]);
                    assert(!is_digit(frac[q - fstart]));
                    assert(!all_digits(frac));
                    assert(!dot_split_ok(m, k as int));
                }
                return None;
            }
            let d = (u - 48) as i64;
            proof {
                assert(frac[q - fstart] == tok@[q as int]);
                if q - fstart < 3 {
                    let t = frac.subrange(0, q - fstart + 1);
                    assert(t.drop_last() =~= frac.subrange(0, q - fstart));
                    assert(t.last() == frac[q - fstart]);
                    assert(digits_val(frac.subrange(0, q - fstart)) <= 99) by {
                        let t0 = frac.subrange(0, q - fstart);
                        assert(forall|p: int| 0 <= p < t0.len()
                            ==> is_digit(#[trigger] t0[p]));
                        lemma_digits_val_small(t0);
                    }
                }
            }
            if q - fstart < 3 {
                facc = facc * 10 + d;
            }
            q = q + 1;
        }
        proof {
            assert(frac.subrange(0, frac.len() as int) =~= frac);
            assert(all_digits(frac));
            assert(dot_split_ok(m, k as int));
            assert(fixed_mag_of(m) == Some(
                digits_val(m.subrange(0, k as int)) * 1000 + frac_milli(frac),
            )) by {
                let kk = choose|kk: int| dot_split_ok(m, kk);
                assert(dot_split_ok(m, kk));
            }
        }
        let flen = n - fstart;
        let fr3: i64 = if flen >= 3 {
            facc
        } else if flen == 2 {
            facc * 10
        } else {
            facc * 100
        };
        proof {
            if flen >= 3 {
                assert(frac.subrange(0, 3) =~= frac.subrange(0, 3));
            } else {
                assert(frac.subrange(0, frac.len() as int) =~= frac);
            }
            assert(fr3 as int == frac_milli(frac));
            assert(0 <= fr3 <= 99900);
        }
        if too_big {
            proof {
                lemma_digits_val_nonneg(m.subrange(0, k as int));
                assert(digits_val(m.subrange(0, k as int)) * 1000 > VALUE_BOUND)
                    by (nonlinear_arith)
                    requires digits_val(m.subrange(0, k as int)) > VALUE_BOUND;
            }
            return None;
        }
        mag = acc * 1000 + fr3;
    }
    proof {
        assert(fixed_mag_of(m) == Some(mag as int));
    }
    if mag > VALUE_BOUND {
        return None;
    }
    if neg {
        Some(-mag)
    } else {
        Some(mag)
    }
}

} // verus!
