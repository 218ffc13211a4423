//! Finite binary fractions `mant * 2^exp`, the exact numbers on which the
//! integer mapping is computed, with the rounding and ordering it needs.
use vstd::prelude::*;
use vstd::arithmetic::power2::*;
use vstd::arithmetic::div_mod::*;
use vstd::arithmetic::mul::*;

verus! {

/// The number `mant * 2^exp`.
#[derive(Clone, Copy, Debug, PartialEq, Eq, Structural)]
pub struct Dyadic {
    pub mant: i128,
    pub exp: i32,
}

/// `2^e` for `e >= 0`.
pub open spec fn p2(e: int) -> int {
    pow2(e as nat) as int
}

/// `floor(m * 2^s)`.
pub open spec fn shift_floor(m: int, s: int) -> int {
    if s >= 0 {
        m * p2(s)
    } else {
        m / p2(-s)
    }
}

impl Dyadic {
    /// `floor(self * 2^s)`; exact when `self.exp + s >= 0`.
    pub open spec fn floor_scaled(self, s: int) -> int {
        shift_floor(self.mant as int, self.exp + s)
    }
}

/// The smaller of the two exponents; both numbers are integers there.
pub open spec fn common_exp(a: Dyadic, b: Dyadic) -> int {
    if a.exp <= b.exp {
        a.exp as int
    } else {
        b.exp as int
    }
}

/// The sign of `a - b`: -1, 0 or 1.
pub open spec fn compare(a: Dyadic, b: Dyadic) -> int {
    let e = common_exp(a, b);
    let x = a.floor_scaled(-e);
    let y = b.floor_scaled(-e);
    if x < y {
        -1
    } else if x == y {
        0
    } else {
        1
    }
}

/// `a < b` as numbers.
pub open spec fn less(a: Dyadic, b: Dyadic) -> bool {
    compare(a, b) == -1
}

/// `a == b` as numbers (representations may differ).
pub open spec fn same_value(a: Dyadic, b: Dyadic) -> bool {
    compare(a, b) == 0
}

/// `ceil(log2(n))` for `n >= 1`.
pub open spec fn ceil_log2(n: int) -> int
    decreases n,
{
    if n <= 1 {
        0
    } else {
        1 + ceil_log2((n + 1) / 2)
    }
}

/// `floor(log2(n))` for `n >= 1`.
pub open spec fn floor_log2(n: int) -> int
    decreases n,
{
    if n <= 1 {
        0
    } else {
        1 + floor_log2(n / 2)
    }
}

pub proof fn lemma_pow2_values()
    ensures
        p2(0) == 1,
        p2(1) == 2,
        p2(62) == 0x4000_0000_0000_0000,
        p2(63) == 0x8000_0000_0000_0000,
        p2(64) == 0x1_0000_0000_0000_0000,
        p2(125) == 0x2000_0000_0000_0000_0000_0000_0000_0000,
        p2(126) == 0x4000_0000_0000_0000_0000_0000_0000_0000,
        p2(127) == 0x8000_0000_0000_0000_0000_0000_0000_0000,
{
    lemma2_to64();
    lemma_pow2_adds(32, 31);
    lemma_pow2_adds(32, 30);
    lemma_pow2_adds(64, 61);
    lemma_pow2_adds(64, 62);
    lemma_pow2_adds(64, 63);
    lemma_pow2_adds(32, 29);
    lemma_pow2_adds(32, 30);
}

pub proof fn lemma_p2_mono(a: int, b: int)
    requires
        0 <= a <= b,
    ensures
        1 <= p2(a) <= p2(b),
{
    lemma_pow2_pos(a as nat);
    if a < b {
        lemma_pow2_strictly_increases(a as nat, b as nat);
    }
}

pub proof fn lemma_p2_adds(a: int, b: int)
    requires
        0 <= a,
        0 <= b,
    ensures
        p2(a + b) == p2(a) * p2(b),
{
    lemma_pow2_adds(a as nat, b as nat);
}

/// Flooring twice by powers of two floors once by their product.
pub proof fn lemma_div_p2_compose(m: int, a: int, b: int)
    requires
        0 <= a,
        0 <= b,
    ensures
        (m / p2(a)) / p2(b) == m / p2(a + b),
{
    let pa = p2(a);
    let pb = p2(b);
    lemma_p2_adds(a, b);
    lemma_p2_mono(0, a);
    lemma_p2_mono(0, b);
    let q1 = m / pa;
    let r1 = m % pa;
    lemma_fundamental_div_mod(m, pa);
    lemma_mod_bound(m, pa);
    let q2 = q1 / pb;
    let r2 = q1 % pb;
    lemma_fundamental_div_mod(q1, pb);
    lemma_mod_bound(q1, pb);
    // m == (q2 * pb + r2) * pa + r1 == q2 * (pa * pb) + (r2 * pa + r1)
    assert(m == q2 * (pa * pb) + (r2 * pa + r1)) by (nonlinear_arith)
        requires
            m == pa * q1 + r1,
            q1 == pb * q2 + r2,
    ;
    assert(0 <= r2 * pa + r1 < pa * pb) by (nonlinear_arith)
        requires
            0 <= r1 < pa,
            0 <= r2 < pb,
    ;
    lemma_fundamental_div_mod_converse(m, pa * pb, q2, r2 * pa + r1);
}

/// A non-positive shift floors by a division.
pub proof fn lemma_shift_floor_down(m: int, t: int)
    requires
        t >= 0,
    ensures
        shift_floor(m, -t) == m / p2(t),
{
    if t == 0 {
        lemma_pow2_values();
        assert(m / 1 == m);
        assert(m * 1 == m);
    }
}

/// Flooring is monotone.
pub proof fn lemma_shift_floor_mono(m1: int, m2: int, s: int)
    requires
        m1 <= m2,
    ensures
        shift_floor(m1, s) <= shift_floor(m2, s),
{
    if s >= 0 {
        lemma_p2_mono(0, s);
        lemma_mul_inequality(m1, m2, p2(s));
    } else {
        lemma_p2_mono(0, -s);
        lemma_div_is_ordered(m1, m2, p2(-s));
    }
}

/// Moving to a finer exponent multiplies by the matching power of two.
pub proof fn lemma_refine(m: int, s: int, j: int)
    requires
        s >= 0,
        j >= 0,
    ensures
        shift_floor(m, s + j) == shift_floor(m, s) * p2(j),
{
    lemma_p2_adds(s, j);
    lemma_mul_is_associative(m, p2(s), p2(j));
}

/// Flooring an exact scaling by a coarser power of two.
pub proof fn lemma_shift_floor_of_exact(m: int, s: int, j: int)
    requires
        s >= 0,
        j >= 0,
    ensures
        shift_floor(m * p2(s), -j) == shift_floor(m, s - j),
{
    lemma_p2_mono(0, s);
    lemma_p2_mono(0, j);
    if j == 0 {
        assert(p2(0) == 1) by {
            lemma_pow2_values();
        }
        if s == 0 {
            assert(m * p2(0) == m);
        }
        assert((m * p2(s)) / 1 == m * p2(s));
        assert(shift_floor(m * p2(s), -j) == (m * p2(s)) / p2(0));
    } else if s >= j {
        lemma_p2_adds(s - j, j);
        lemma_mul_is_associative(m, p2(s - j), p2(j));
        lemma_div_multiples_vanish(m * p2(s - j), p2(j));
        assert(m * p2(s) == p2(j) * (m * p2(s - j))) by (nonlinear_arith)
            requires
                p2(s) == p2(s - j) * p2(j),
        ;
    } else {
        lemma_p2_adds(s, j - s);
        lemma_mul_is_associative(m, p2(s), p2(j - s));
        lemma_div_p2_compose(m * p2(s), s, j - s);
        assert(p2(s) * m == m * p2(s)) by (nonlinear_arith);
        lemma_div_multiples_vanish(m, p2(s));
    }
}

/// Flooring twice, the second time by a division, floors once.
pub proof fn lemma_floor_floor(m: int, s: int, t: int)
    requires
        t >= 0,
    ensures
        shift_floor(shift_floor(m, s), -t) == shift_floor(m, s - t),
{
    lemma_pow2_values();
    if s >= 0 {
        lemma_shift_floor_of_exact(m, s, t);
    } else {
        lemma_shift_floor_down(m / p2(-s), t);
        lemma_div_p2_compose(m, -s, t);
    }
}

/// An integer at the exponent of `a` is at most `x` exactly when it is at
/// most the floor of `x` there.
pub proof fn lemma_compare_floor(a: Dyadic, x: Dyadic)
    ensures
        compare(a, x) <= 0 <==> a.mant <= x.floor_scaled(-a.exp),
{
    lemma_pow2_values();
    let e = common_exp(a, x);
    if a.exp <= x.exp {
        assert(a.mant * p2(0) == a.mant) by (nonlinear_arith)
            requires
                p2(0) == 1,
        ;
        assert(a.floor_scaled(-e) == a.mant);
    } else {
        let gap = a.exp - x.exp;
        let p = p2(gap);
        lemma_p2_mono(0, gap);
        assert(x.mant * p2(0) == x.mant) by (nonlinear_arith)
            requires
                p2(0) == 1,
        ;
        assert(x.floor_scaled(-e) == x.mant as int);
        assert(a.floor_scaled(-e) == a.mant * p);
        lemma_shift_floor_down(x.mant as int, gap);
        let q = (x.mant as int) / p;
        lemma_fundamental_div_mod(x.mant as int, p);
        lemma_mod_bound(x.mant as int, p);
        assert(a.mant * p <= x.mant <==> a.mant <= q) by (nonlinear_arith)
            requires
                x.mant == p * q + (x.mant as int) % p,
                0 <= (x.mant as int) % p < p,
        ;
    }
}

/// At any exponent where both are integers, the order of two numbers is
/// the order of their integers there.
pub proof fn lemma_compare_at(x: Dyadic, y: Dyadic, z: int)
    requires
        z <= x.exp,
        z <= y.exp,
    ensures
        (compare(x, y) == -1) == (x.floor_scaled(-z) < y.floor_scaled(-z)),
        (compare(x, y) == 0) == (x.floor_scaled(-z) == y.floor_scaled(-z)),
{
    let e = common_exp(x, y);
    lemma_refine(x.mant as int, x.exp - e, e - z);
    lemma_refine(y.mant as int, y.exp - e, e - z);
    lemma_p2_mono(0, e - z);
    let a = x.floor_scaled(-e);
    let b = y.floor_scaled(-e);
    let f = p2(e - z);
    assert((a < b) == (a * f < b * f)) by (nonlinear_arith)
        requires
            f >= 1,
    ;
    assert((a == b) == (a * f == b * f)) by (nonlinear_arith)
        requires
            f >= 1,
    ;
}

/// `2^n` for `n < 128`.
pub fn pow2_u128(n: u32) -> (r: u128)
    requires
        n < 128,
    ensures
        r == p2(n as int),
{
    let mut r: u128 = 1;
    let mut i: u32 = 0;
    proof {
        lemma_pow2_values();
    }
    while i < n
        invariant
            i <= n,
            n < 128,
            r == p2(i as int),
        decreases n - i,
    {
        proof {
            lemma_pow2_unfold((i + 1) as nat);
            lemma_p2_mono(i as int, 126);
            lemma_pow2_values();
        }
        r = r * 2;
        i = i + 1;
    }
    r
}

/// `m * 2^n`, or `None` when that does not fit in an `i128`.
pub fn shl_checked(m: i128, n: u64) -> (r: Option<i128>)
    ensures
        match r {
            Some(v) => v == m * p2(n as int),
            None => !(i128::MIN <= m * p2(n as int) <= i128::MAX),
        },
{
    proof {
        lemma_pow2_values();
        lemma_p2_mono(0, n as int);
    }
    if m == 0 {
        assert(m * p2(n as int) == 0);
        return Some(0);
    }
    let mut v: i128 = m;
    let mut i: u64 = 0;
    assert(v == m * p2(0));
    while i < n
        invariant
            i <= n,
            m != 0,
            v == m * p2(i as int),
        decreases n - i,
    {
        proof {
            lemma_pow2_unfold((i + 1) as nat);
            lemma_p2_adds((i + 1) as int, (n - i - 1) as int);
            lemma_p2_mono(0, (n - i - 1) as int);
            lemma_mul_is_associative(m as int, p2((i + 1) as int), p2((n - i - 1) as int));
            assert(m * p2((i + 1) as int) == 2 * v) by (nonlinear_arith)
                requires
                    v == m * p2(i as int),
                    p2((i + 1) as int) == 2 * p2(i as int),
            ;
        }
        if v > 0x3FFF_FFFF_FFFF_FFFF_FFFF_FFFF_FFFF_FFFF || v < -0x4000_0000_0000_0000_0000_0000_0000_0000 {
            proof {
                let big = 2 * v;
                let f = p2((n - i - 1) as int);
                assert(m * p2(n as int) == big * f) by (nonlinear_arith)
                    requires
                        m * p2((i + 1) as int) == big,
                        p2(n as int) == p2((i + 1) as int) * f,
                ;
                if v > 0 {
                    lemma_mul_inequality(1, f, big);
                } else {
                    lemma_mul_inequality(1, f, -big);
                    assert(big * f == -((-big) * f)) by (nonlinear_arith);
                }
            }
            return None;
        }
        v = v * 2;
        i = i + 1;
    }
    Some(v)
}

/// `floor(m / 2^n)`.
pub fn shr_floor(m: i128, n: u64) -> (r: i128)
    ensures
        r == (m as int) / p2(n as int),
{
    proof {
        lemma_pow2_values();
        lemma_p2_mono(0, n as int);
    }
    if n >= 127 {
        proof {
            lemma_p2_mono(127, n as int);
        }
        if m >= 0 {
            proof {
                lemma_fundamental_div_mod_converse(m as int, p2(n as int), 0, m as int);
            }
            0
        } else {
            proof {
                lemma_fundamental_div_mod_converse(m as int, p2(n as int), -1, p2(n as int) + m);
            }
            -1
        }
    } else {
        let d: u128 = pow2_u128(n as u32);
        proof {
            lemma_p2_mono(n as int, 126);
        }
        if m >= 0 {
            let q: u128 = (m as u128) / d;
            proof {
                lemma_div_pos_is_pos(m as int, d as int);
                lemma_div_is_ordered(0, m as int, d as int);
                lemma_div_is_ordered_by_denominator(m as int, 1, d as int);
            }
            q as i128
        } else {
            let a: u128 = (-(m + 1)) as u128;
            let q: u128 = a / d;
            let rem: u128 = a % d;
            proof {
                lemma_fundamental_div_mod(a as int, d as int);
                lemma_mod_bound(a as int, d as int);
                lemma_div_is_ordered_by_denominator(a as int, 1, d as int);
                let qq = -(q as int) - 1;
                let rr = d - rem - 1;
                assert(m == qq * d + rr) by (nonlinear_arith)
                    requires
                        a == d * q + rem,
                        a == -(m + 1),
                        qq == -(q as int) - 1,
                        rr == d - rem - 1,
                ;
                lemma_fundamental_div_mod_converse(m as int, d as int, qq, rr);
            }
            -(q as i128) - 1
        }
    }
}

/// `floor(m * 2^s)`, or `None` when that does not fit in an `i128`.
pub fn shift_floor_checked(m: i128, s: i64) -> (r: Option<i128>)
    requires
        -0x1_0000_0000_0000 < s < 0x1_0000_0000_0000,
    ensures
        match r {
            Some(v) => v == shift_floor(m as int, s as int),
            None => !(i128::MIN <= shift_floor(m as int, s as int) <= i128::MAX),
        },
{
    if s >= 0 {
        shl_checked(m, s as u64)
    } else {
        Some(shr_floor(m, (-s) as u64))
    }
}

/// The sign of `a - b` when `a.exp >= b.exp`.
fn compare_coarse_first(a: Dyadic, b: Dyadic) -> (r: i8)
    requires
        a.exp >= b.exp,
    ensures
        r == compare(a, b),
{
    let gap: u64 = (a.exp as i64 - b.exp as i64) as u64;
    let q = shr_floor(b.mant, gap);
    let ghost pg = p2(gap as int);
    proof {
        lemma_p2_mono(0, gap as int);
        lemma_fundamental_div_mod(b.mant as int, pg);
        lemma_mod_bound(b.mant as int, pg);
        assert(a.floor_scaled(-common_exp(a, b)) == a.mant * pg);
        lemma_pow2_values();
        assert(b.floor_scaled(-common_exp(a, b)) == b.mant);
    }
    let ghost rem = (b.mant as int) % pg;
    if a.mant > q {
        proof {
            assert(a.mant * pg > b.mant) by (nonlinear_arith)
                requires
                    a.mant >= q + 1,
                    b.mant == pg * q + rem,
                    0 <= rem < pg,
            ;
        }
        1
    } else if a.mant < q {
        proof {
            assert(a.mant * pg < b.mant) by (nonlinear_arith)
                requires
                    a.mant <= q - 1,
                    b.mant == pg * q + rem,
                    0 <= rem < pg,
            ;
        }
        -1
    } else {
        let back = shl_checked(q, gap);
        proof {
            assert(b.mant - a.mant * pg == rem) by (nonlinear_arith)
                requires
                    a.mant == q,
                    b.mant == pg * q + rem,
            ;
        }
        match back {
            Some(v) => {
                if v == b.mant {
                    proof {
                        assert(a.mant * pg == b.mant);
                    }
                    0
                } else {
                    proof {
                        assert(a.mant * pg < b.mant);
                    }
                    -1
                }
            },
            None => {
                proof {
                    assert(a.mant * pg < b.mant);
                }
                -1
            },
        }
    }
}

/// The sign of `a - b`, exactly.
pub fn compare_exec(a: Dyadic, b: Dyadic) -> (r: i8)
    ensures
        r == compare(a, b),
        -1 <= r <= 1,
{
    if a.exp >= b.exp {
        compare_coarse_first(a, b)
    } else {
        let r = compare_coarse_first(b, a);
        -r
    }
}

/// `ceil(log2(n))` for `1 <= n`.
pub fn ceil_log2_exec(n: u128) -> (r: u32)
    requires
        1 <= n,
    ensures
        r == ceil_log2(n as int),
        r <= 128,
{
    let mut v: u128 = n;
    let mut c: u32 = 0;
    proof {
        lemma_pow2_values();
    }
    while v > 1
        invariant
            1 <= v <= n,
            c + ceil_log2(v as int) == ceil_log2(n as int),
            p2(c as int) * (v - 1) <= n - 1,
            c <= 128,
        decreases v,
    {
        proof {
            lemma_pow2_values();
            lemma_p2_mono(0, c as int);
            lemma_pow2_unfold((c + 1) as nat);
            assert(p2(c as int) <= n - 1) by (nonlinear_arith)
                requires
                    p2(c as int) * (v - 1) <= n - 1,
                    v - 1 >= 1,
                    p2(c as int) >= 1,
            ;
            if c >= 128 {
                lemma_p2_mono(128, c as int);
                lemma_pow2_adds(127, 1);
            }
        }
        let next: u128 = v / 2 + v % 2;
        proof {
            assert(next == (v + 1) / 2);
            assert(p2((c + 1) as int) * (next - 1) <= p2(c as int) * (v - 1)) by (nonlinear_arith)
                requires
                    p2((c + 1) as int) == 2 * p2(c as int),
                    2 * (next - 1) <= v - 1,
                    p2(c as int) >= 1,
            ;
        }
        v = next;
        c = c + 1;
    }
    c
}

/// `floor(log2(n))` for `1 <= n`.
pub fn floor_log2_exec(n: u128) -> (r: u32)
    requires
        1 <= n,
    ensures
        r == floor_log2(n as int),
        r < 128,
{
    let mut v: u128 = n;
    let mut c: u32 = 0;
    proof {
        lemma_pow2_values();
    }
    while v > 1
        invariant
            1 <= v <= n,
            c + floor_log2(v as int) == floor_log2(n as int),
            p2(c as int) * v <= n,
            c < 128,
        decreases v,
    {
        proof {
            lemma_pow2_values();
            lemma_p2_mono(0, c as int);
            lemma_pow2_unfold((c + 1) as nat);
            assert(p2((c + 1) as int) <= n) by (nonlinear_arith)
                requires
                    p2(c as int) * v <= n,
                    v >= 2,
                    p2((c + 1) as int) == 2 * p2(c as int),
                    p2(c as int) >= 1,
            ;
            if c + 1 >= 128 {
                lemma_p2_mono(128, (c + 1) as int);
                lemma_pow2_adds(127, 1);
            }
        }
        let next: u128 = v / 2;
        proof {
            assert(p2((c + 1) as int) * next <= p2(c as int) * v) by (nonlinear_arith)
                requires
                    p2((c + 1) as int) == 2 * p2(c as int),
                    2 * next <= v,
                    p2(c as int) >= 1,
            ;
        }
        v = next;
        c = c + 1;
    }
    c
}

} // verus!
