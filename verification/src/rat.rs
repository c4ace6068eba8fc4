//! Exact rational arithmetic over `i128`, together with the ghost
//! rational model that the engine's contracts are stated over.
//!
//! A [`Rat`] holds a numerator and a positive denominator.  Its ghost
//! counterpart [`Frac`] is an unbounded numerator/denominator pair;
//! two `Frac`s denote the same rational exactly when [`frac_eq`] holds
//! (cross-multiplied equality).

use vstd::prelude::*;
use vstd::arithmetic::mul::lemma_mul_is_distributive_add_other_way;

verus! {

/// Unbounded rational in specifications: the number `n / d`.
pub ghost struct Frac {
    pub n: int,
    pub d: int,
}

/// `a` and `b` denote the same rational (cross-multiplied equality).
pub open spec fn frac_eq(a: Frac, b: Frac) -> bool {
    a.n * b.d == b.n * a.d
}

/// Product of two spec rationals.
pub open spec fn frac_mul(a: Frac, b: Frac) -> Frac {
    Frac { n: a.n * b.n, d: a.d * b.d }
}

/// Sum of two spec rationals, over the common denominator.
pub open spec fn frac_add(a: Frac, b: Frac) -> Frac {
    Frac { n: a.n * b.d + b.n * a.d, d: a.d * b.d }
}

/// Negation of a spec rational.
pub open spec fn frac_neg(a: Frac) -> Frac {
    Frac { n: -a.n, d: a.d }
}

/// Difference of two spec rationals.
pub open spec fn frac_sub(a: Frac, b: Frac) -> Frac {
    frac_add(a, frac_neg(b))
}

/// `b` to the power `e`, in specifications.
pub open spec fn powi(b: int, e: nat) -> int
    decreases e,
{
    if e == 0 {
        1
    } else {
        b * powi(b, (e - 1) as nat)
    }
}

/// Ten to the power `e`, in specifications.
pub open spec fn p10(e: nat) -> int {
    powi(10, e)
}

/// Ten to a possibly negative power, as a spec rational.
pub open spec fn p10f(e: int) -> Frac {
    if e >= 0 {
        Frac { n: p10(e as nat), d: 1 }
    } else {
        Frac { n: 1, d: p10((-e) as nat) }
    }
}

pub proof fn lemma_powi_pos(b: int, e: nat)
    requires
        b >= 1,
    ensures
        powi(b, e) >= 1,
    decreases e,
{
    if e > 0 {
        lemma_powi_pos(b, (e - 1) as nat);
        assert(b * powi(b, (e - 1) as nat) >= 1) by (nonlinear_arith)
            requires
                b >= 1,
                powi(b, (e - 1) as nat) >= 1,
        ;
    }
}

pub proof fn lemma_powi_adds(b: int, e1: nat, e2: nat)
    ensures
        powi(b, e1 + e2) == powi(b, e1) * powi(b, e2),
    decreases e1,
{
    if e1 == 0 {
        assert(powi(b, e2) == 1 * powi(b, e2));
    } else {
        lemma_powi_adds(b, (e1 - 1) as nat, e2);
        assert(powi(b, e1 + e2) == b * powi(b, (e1 + e2 - 1) as nat));
        assert(b * (powi(b, (e1 - 1) as nat) * powi(b, e2))
            == (b * powi(b, (e1 - 1) as nat)) * powi(b, e2)) by (nonlinear_arith);
    }
}

pub proof fn lemma_powi_increases(b: int, e1: nat, e2: nat)
    requires
        b >= 1,
        e1 <= e2,
    ensures
        powi(b, e1) <= powi(b, e2),
    decreases e2 - e1,
{
    if e1 < e2 {
        lemma_powi_increases(b, e1, (e2 - 1) as nat);
        lemma_powi_pos(b, (e2 - 1) as nat);
        assert(powi(b, (e2 - 1) as nat) <= b * powi(b, (e2 - 1) as nat)) by (nonlinear_arith)
            requires
                b >= 1,
                powi(b, (e2 - 1) as nat) >= 1,
        ;
    }
}

pub proof fn lemma_p10f_pos(e: int)
    ensures
        p10f(e).n >= 1,
        p10f(e).d >= 1,
{
    if e >= 0 {
        lemma_powi_pos(10, e as nat);
    } else {
        lemma_powi_pos(10, (-e) as nat);
    }
}

/// Powers of ten compose under addition of exponents.
pub proof fn lemma_p10f_adds(x: int, y: int)
    ensures
        frac_eq(p10f(x + y), frac_mul(p10f(x), p10f(y))),
{
    lemma_p10f_pos(x);
    lemma_p10f_pos(y);
    lemma_p10f_pos(x + y);
    if x >= 0 && y >= 0 {
        lemma_powi_adds(10, x as nat, y as nat);
        assert(x as nat + y as nat == (x + y) as nat);
        assert(p10((x + y) as nat) == p10(x as nat) * p10(y as nat));
        assert(frac_eq(p10f(x + y), frac_mul(p10f(x), p10f(y))));
    } else if x < 0 && y < 0 {
        lemma_powi_adds(10, (-x) as nat, (-y) as nat);
        assert((-x) as nat + (-y) as nat == (-(x + y)) as nat);
        assert(p10((-(x + y)) as nat) == p10((-x) as nat) * p10((-y) as nat));
        assert(1 * (p10((-x) as nat) * p10((-y) as nat)) == (1 * 1) * p10((-(x + y)) as nat))
            by (nonlinear_arith)
            requires
                p10((-(x + y)) as nat) == p10((-x) as nat) * p10((-y) as nat),
        ;
        assert(frac_eq(p10f(x + y), frac_mul(p10f(x), p10f(y))));
    } else if x >= 0 && y < 0 {
        if x + y >= 0 {
            lemma_powi_adds(10, (x + y) as nat, (-y) as nat);
            assert((x + y) as nat + (-y) as nat == x as nat);
            assert(p10(x as nat) == p10((x + y) as nat) * p10((-y) as nat));
            assert(frac_eq(p10f(x + y), frac_mul(p10f(x), p10f(y))));
        } else {
            lemma_powi_adds(10, x as nat, (-(x + y)) as nat);
            assert(x as nat + (-(x + y)) as nat == (-y) as nat);
            assert(p10((-y) as nat) == p10(x as nat) * p10((-(x + y)) as nat));
            assert(1 * (1 * p10((-y) as nat)) == (p10(x as nat) * 1) * p10((-(x + y)) as nat))
                by (nonlinear_arith)
                requires
                    p10((-y) as nat) == p10(x as nat) * p10((-(x + y)) as nat),
            ;
            assert(frac_eq(p10f(x + y), frac_mul(p10f(x), p10f(y))));
        }
    } else {
        if x + y >= 0 {
            lemma_powi_adds(10, (x + y) as nat, (-x) as nat);
            assert((x + y) as nat + (-x) as nat == y as nat);
            assert(p10(y as nat) == p10((x + y) as nat) * p10((-x) as nat));
            assert(frac_eq(p10f(x + y), frac_mul(p10f(x), p10f(y))));
        } else {
            lemma_powi_adds(10, y as nat, (-(x + y)) as nat);
            assert(y as nat + (-(x + y)) as nat == (-x) as nat);
            assert(p10((-x) as nat) == p10(y as nat) * p10((-(x + y)) as nat));
            assert(1 * (p10((-x) as nat) * 1) == (1 * p10(y as nat)) * p10((-(x + y)) as nat))
                by (nonlinear_arith)
                requires
                    p10((-x) as nat) == p10(y as nat) * p10((-(x + y)) as nat),
            ;
            assert(frac_eq(p10f(x + y), frac_mul(p10f(x), p10f(y))));
        }
    }
}

/// `frac_eq` is transitive, through a middle term with nonzero denominator.
pub proof fn lemma_frac_eq_trans(a: Frac, b: Frac, c: Frac)
    requires
        frac_eq(a, b),
        frac_eq(b, c),
        b.d != 0,
    ensures
        frac_eq(a, c),
{
    assert(a.n * c.d == c.n * a.d) by (nonlinear_arith)
        requires
            a.n * b.d == b.n * a.d,
            b.n * c.d == c.n * b.d,
            b.d != 0,
    ;
}

/// Multiplication of spec rationals respects `frac_eq`.
pub proof fn lemma_frac_mul_cong(a: Frac, b: Frac, x: Frac, y: Frac)
    requires
        frac_eq(a, x),
        frac_eq(b, y),
    ensures
        frac_eq(frac_mul(a, b), frac_mul(x, y)),
{
    assert((a.n * b.n) * (x.d * y.d) == (x.n * y.n) * (a.d * b.d)) by (nonlinear_arith)
        requires
            a.n * x.d == x.n * a.d,
            b.n * y.d == y.n * b.d,
    ;
}

proof fn lemma_add_cong_core(an: int, ad: int, bn: int, bd: int, xn: int, xd: int, yn: int, yd: int)
    requires
        an * xd == xn * ad,
        bn * yd == yn * bd,
    ensures
        (an * bd + bn * ad) * (xd * yd) == (xn * yd + yn * xd) * (ad * bd),
{
    lemma_mul_is_distributive_add_other_way(xd * yd, an * bd, bn * ad);
    lemma_mul_is_distributive_add_other_way(ad * bd, xn * yd, yn * xd);
    assert((an * bd) * (xd * yd) == (an * xd) * (bd * yd)) by (nonlinear_arith);
    assert((bn * ad) * (xd * yd) == (bn * yd) * (ad * xd)) by (nonlinear_arith);
    assert((xn * yd) * (ad * bd) == (xn * ad) * (bd * yd)) by (nonlinear_arith);
    assert((yn * xd) * (ad * bd) == (yn * bd) * (ad * xd)) by (nonlinear_arith);
}

/// Addition of spec rationals respects `frac_eq`.
pub proof fn lemma_frac_add_cong(a: Frac, b: Frac, x: Frac, y: Frac)
    requires
        frac_eq(a, x),
        frac_eq(b, y),
    ensures
        frac_eq(frac_add(a, b), frac_add(x, y)),
{
    lemma_add_cong_core(a.n, a.d, b.n, b.d, x.n, x.d, y.n, y.d);
}

#[verifier::rlimit(100)]
proof fn lemma_distrib_core(an: int, ad: int, bn: int, bd: int, cn: int, cd: int)
    ensures
        ((an * bd + bn * ad) * cn) * ((ad * cd) * (bd * cd))
            == ((an * cn) * (bd * cd) + (bn * cn) * (ad * cd)) * ((ad * bd) * cd),
{
    let q = (ad * cd) * (bd * cd);
    lemma_mul_is_distributive_add_other_way(cn, an * bd, bn * ad);
    lemma_mul_is_distributive_add_other_way(q, (an * bd) * cn, (bn * ad) * cn);
    lemma_mul_is_distributive_add_other_way((ad * bd) * cd, (an * cn) * (bd * cd), (bn * cn) * (ad * cd));
    assert(((an * bd) * cn) * ((ad * cd) * (bd * cd)) == ((an * cn) * (bd * cd)) * ((ad * bd) * cd))
        by (nonlinear_arith);
    let m1 = (bn * ad) * cn;
    let m2 = (bn * cn) * (ad * cd);
    assert(m1 * (ad * cd) == m2 * ad) by (nonlinear_arith)
        requires
            m1 == (bn * ad) * cn,
            m2 == (bn * cn) * (ad * cd),
    ;
    assert(m1 * ((ad * cd) * (bd * cd)) == (m1 * (ad * cd)) * (bd * cd)) by (nonlinear_arith);
    assert(m2 * ((ad * bd) * cd) == (m2 * ad) * (bd * cd)) by (nonlinear_arith);
}

/// Multiplication distributes over addition, up to `frac_eq`.
pub proof fn lemma_frac_mul_distributes(a: Frac, b: Frac, c: Frac)
    ensures
        frac_eq(frac_mul(frac_add(a, b), c), frac_add(frac_mul(a, c), frac_mul(b, c))),
{
    lemma_distrib_core(a.n, a.d, b.n, b.d, c.n, c.d);
}

/// The values of the powers of ten that bound the canonicalizing loops.
pub proof fn lemma_p10_consts()
    ensures
        p10(12) == 1_000_000_000_000int,
        p10(18) == 1_000_000_000_000_000_000int,
        p10(37) == 10_000_000_000_000_000_000_000_000_000_000_000_000int,
        p10(38) == 100_000_000_000_000_000_000_000_000_000_000_000_000int,
        p10(39) == 1_000_000_000_000_000_000_000_000_000_000_000_000_000int,
{
    reveal_with_fuel(powi, 41);
}

/// A product of two values bounded in magnitude is bounded by the
/// product of the bounds.
pub proof fn lemma_mul_bounds(x: int, y: int, p: int, q: int)
    requires
        -p <= x <= p,
        -q <= y <= q,
        0 <= p,
        0 <= q,
    ensures
        -(p * q) <= x * y <= p * q,
{
    assert(-(p * q) <= x * y <= p * q) by (nonlinear_arith)
        requires
            -p <= x <= p,
            -q <= y <= q,
            0 <= p,
            0 <= q,
    ;
}

/// A product of two values at least one is at least one.
pub proof fn lemma_pos2(x: int, y: int)
    requires
        x >= 1,
        y >= 1,
    ensures
        x * y >= 1,
{
    assert(x * y >= 1) by (nonlinear_arith)
        requires
            x >= 1,
            y >= 1,
    ;
}

/// Equal rationals are zero together.
pub proof fn lemma_frac_eq_zero(a: Frac, b: Frac)
    requires
        frac_eq(a, b),
        a.d != 0,
        b.d != 0,
    ensures
        (a.n == 0) == (b.n == 0),
{
    assert((a.n == 0) == (b.n == 0)) by (nonlinear_arith)
        requires
            a.n * b.d == b.n * a.d,
            a.d != 0,
            b.d != 0,
    ;
}

/// Magnitude of an integer, in specifications.
pub open spec fn absi(x: int) -> int {
    if x >= 0 {
        x
    } else {
        -x
    }
}

/// One to any power is one.
pub proof fn lemma_powi_one(e: nat)
    ensures
        powi(1, e) == 1,
    decreases e,
{
    if e > 0 {
        lemma_powi_one((e - 1) as nat);
    }
}

/// The magnitude of a power is the power of the magnitude.
pub proof fn lemma_powi_abs(b: int, e: nat)
    ensures
        absi(powi(b, e)) == powi(absi(b), e),
    decreases e,
{
    if e > 0 {
        lemma_powi_abs(b, (e - 1) as nat);
        assert(absi(b * powi(b, (e - 1) as nat)) == absi(b) * absi(powi(b, (e - 1) as nat)))
            by (nonlinear_arith);
    }
}

/// Powers distribute over products.
pub proof fn lemma_powi_distributes(a: int, b: int, e: nat)
    ensures
        powi(a * b, e) == powi(a, e) * powi(b, e),
    decreases e,
{
    if e == 0 {
    } else {
        lemma_powi_distributes(a, b, (e - 1) as nat);
        assert((a * b) * (powi(a, (e - 1) as nat) * powi(b, (e - 1) as nat))
            == (a * powi(a, (e - 1) as nat)) * (b * powi(b, (e - 1) as nat))) by (nonlinear_arith);
    }
}

/// A power of a power is the power of the product of exponents.
pub proof fn lemma_powi_multiplies(b: int, x: nat, y: nat)
    ensures
        powi(b, x * y) == powi(powi(b, x), y),
    decreases y,
{
    if y == 0 {
        assert(x * 0 == 0) by (nonlinear_arith);
    } else {
        lemma_powi_multiplies(b, x, (y - 1) as nat);
        let y1 = (y - 1) as nat;
        assert(x * y == x + x * y1) by (nonlinear_arith)
            requires
                y1 == y - 1,
                y >= 1,
        ;
        lemma_powi_adds(b, x, x * y1);
    }
}

/// The rational `f` is an integer: its denominator divides its numerator.
pub open spec fn frac_is_whole(f: Frac) -> bool {
    f.n % f.d == 0
}

/// The integer a whole rational denotes.
pub open spec fn frac_whole(f: Frac) -> int {
    f.n / f.d
}

/// Negation keeps exact divisibility, and negates the exact quotient.
pub proof fn lemma_exact_div_neg(x: int, d: int)
    requires
        d >= 1,
        x % d == 0,
    ensures
        (-x) % d == 0,
        (-x) / d == -(x / d),
{
    vstd::arithmetic::div_mod::lemma_fundamental_div_mod(x, d);
    let q = x / d;
    assert(-x == d * (-q)) by (nonlinear_arith)
        requires
            x == d * q,
    ;
    vstd::arithmetic::div_mod::lemma_div_multiples_vanish(-q, d);
    assert(d * (-q) == (-q) * d) by (nonlinear_arith);
    vstd::arithmetic::div_mod::lemma_mod_multiples_basic(-q, d);
}

/// `f` to a possibly negative integer power, as a spec rational.
pub open spec fn frac_powz(f: Frac, p: int) -> Frac {
    if p >= 0 {
        Frac { n: powi(f.n, p as nat), d: powi(f.d, p as nat) }
    } else {
        Frac { n: powi(f.d, (-p) as nat), d: powi(f.n, (-p) as nat) }
    }
}

/// Ten to the power `e`, executable.
pub fn pow10_i128(e: u32) -> (r: i128)
    requires
        e <= 37,
    ensures
        r == p10(e as nat),
        1 <= r <= RAT_LIMIT,
{
    let mut acc: i128 = 1;
    let mut i: u32 = 0;
    proof {
        lemma_p10_consts();
    }
    while i < e
        invariant
            0 <= i <= e <= 37,
            acc == p10(i as nat),
            1 <= acc,
            p10(37) == RAT_LIMIT,
        decreases e - i,
    {
        proof {
            lemma_powi_increases(10, (i + 1) as nat, 37);
            assert(p10((i + 1) as nat) == 10 * p10(i as nat));
        }
        acc = acc * 10;
        i = i + 1;
    }
    proof {
        lemma_powi_increases(10, e as nat, 37);
    }
    acc
}

/// Scaling a rational's denominator by ten while raising the exponent
/// by one denotes the same number.
proof fn lemma_step_down(sa: int, d: int, k: int, t: Frac)
    requires
        frac_eq(frac_mul(Frac { n: sa, d: d }, p10f(k)), t),
    ensures
        frac_eq(frac_mul(Frac { n: sa, d: 10 * d }, p10f(k + 1)), t),
{
    if k >= 0 {
        assert(p10((k + 1) as nat) == 10 * p10(k as nat));
        assert((sa * (10 * p10(k as nat))) * t.d == t.n * ((10 * d) * 1)) by (nonlinear_arith)
            requires
                (sa * p10(k as nat)) * t.d == t.n * (d * 1),
        ;
    } else {
        if k + 1 == 0 {
            assert(p10((-k) as nat) == 10 * p10(0));
        } else {
            assert(p10((-k) as nat) == 10 * p10((-(k + 1)) as nat));
        }
        assert(p10f(k + 1).n == 1 && p10((-k) as nat) == 10 * p10f(k + 1).d);
        assert((sa * 1) * t.d == t.n * ((10 * d) * p10f(k + 1).d)) by (nonlinear_arith)
            requires
                (sa * 1) * t.d == t.n * (d * (10 * p10f(k + 1).d)),
        ;
    }
}

/// Scaling a rational's numerator by ten while lowering the exponent
/// by one denotes the same number.
proof fn lemma_step_up(sa: int, d: int, k: int, t: Frac)
    requires
        frac_eq(frac_mul(Frac { n: sa, d: d }, p10f(k)), t),
    ensures
        frac_eq(frac_mul(Frac { n: 10 * sa, d: d }, p10f(k - 1)), t),
{
    if k - 1 >= 0 {
        assert(p10(k as nat) == 10 * p10((k - 1) as nat));
        assert(((10 * sa) * p10((k - 1) as nat)) * t.d == t.n * (d * 1)) by (nonlinear_arith)
            requires
                (sa * (10 * p10((k - 1) as nat))) * t.d == t.n * (d * 1),
        ;
    } else {
        assert(p10((-(k - 1)) as nat) == 10 * p10f(k).d || k == 0);
        if k == 0 {
            assert(p10f(0).d == 1);
            assert(p10((-(k - 1)) as nat) == 10);
            assert(((10 * sa) * 1) * t.d == t.n * (d * 10)) by (nonlinear_arith)
                requires
                    (sa * 1) * t.d == t.n * (d * 1),
            ;
        } else {
            assert(((10 * sa) * 1) * t.d == t.n * (d * (10 * p10((-k) as nat))))
                by (nonlinear_arith)
                requires
                    (sa * 1) * t.d == t.n * (d * p10((-k) as nat)),
            ;
            assert(p10((-(k - 1)) as nat) == 10 * p10((-k) as nat));
        }
    }
}

/// Dividing numerator and denominator by a shared factor of ten
/// denotes the same number.
proof fn lemma_step_reduce(sa: int, d: int, k: int, t: Frac)
    requires
        frac_eq(frac_mul(Frac { n: 10 * sa, d: 10 * d }, p10f(k)), t),
    ensures
        frac_eq(frac_mul(Frac { n: sa, d: d }, p10f(k)), t),
{
    let pn = p10f(k).n;
    let pd = p10f(k).d;
    assert((sa * pn) * t.d == t.n * (d * pd)) by (nonlinear_arith)
        requires
            ((10 * sa) * pn) * t.d == t.n * ((10 * d) * pd),
    ;
}

/// `x` is `y` shifted by `t` orders of ten: `x == y * 10^t`, with a
/// negative `t` meaning exact division.
pub open spec fn tenshift(x: int, y: int, t: int) -> bool {
    if t >= 0 {
        x == y * p10(t as nat)
    } else {
        x * p10((-t) as nat) == y
    }
}

/// How a canonical split relates to the rational it came from: `m` is
/// in [1,10), free of shared factors of ten, and each of its components
/// is `f`'s component shifted by whole orders of ten, consistently with
/// the extracted exponent `k` (so that `m * 10^k` denotes `f`).
pub open spec fn norm_rel(f: Frac, m: Rat, k: int) -> bool {
    &&& m.wf()
    &&& m.unit_range()
    &&& m.reduced10()
    &&& exists|a: int| #[trigger] tenshift(m.n as int, f.n, a) && tenshift(m.d as int, f.d, a + k)
}

proof fn lemma_tenshift_up(x: int, y: int, t: int)
    requires
        tenshift(x, y, t),
    ensures
        tenshift(10 * x, y, t + 1),
{
    if t >= 0 {
        assert(p10((t + 1) as nat) == 10 * p10(t as nat));
        assert(10 * x == y * (10 * p10(t as nat))) by (nonlinear_arith)
            requires
                x == y * p10(t as nat),
        ;
    } else {
        assert(p10((-t) as nat) == 10 * p10((-(t + 1)) as nat));
        assert((10 * x) * p10((-(t + 1)) as nat) == y) by (nonlinear_arith)
            requires
                x * (10 * p10((-(t + 1)) as nat)) == y,
        ;
        if t + 1 == 0 {
            assert(10 * x == y * p10(0));
        }
    }
}

proof fn lemma_tenshift_down(x: int, y: int, t: int)
    requires
        tenshift(x, y, t),
        x % 10 == 0,
    ensures
        tenshift(x / 10, y, t - 1),
{
    let x2 = x / 10;
    assert(x == 10 * x2);
    if t - 1 >= 0 {
        assert(p10(t as nat) == 10 * p10((t - 1) as nat));
        assert(x2 == y * p10((t - 1) as nat)) by (nonlinear_arith)
            requires
                10 * x2 == y * (10 * p10((t - 1) as nat)),
        ;
    } else {
        if t >= 0 {
            assert(t == 0);
            assert(x2 * p10(1) == y) by (nonlinear_arith)
                requires
                    10 * x2 == y * p10(0),
                    p10(0nat) == 1,
                    p10(1nat) == 10,
            ;
        } else {
            assert(p10((-(t - 1)) as nat) == 10 * p10((-t) as nat));
            assert(x2 * (10 * p10((-t) as nat)) == y) by (nonlinear_arith)
                requires
                    (10 * x2) * p10((-t) as nat) == y,
        ;
        }
    }
}

/// Largest magnitude admitted into the canonicalizing scale split;
/// ten times it still fits in an `i128`.
pub const RAT_LIMIT: i128 = 10_000_000_000_000_000_000_000_000_000_000_000_000;

/// Largest magnitude of operands whose pairwise products are certain
/// to fit: the square of this bound is below `RAT_LIMIT`.
pub const MUL_LIMIT: i128 = 1_000_000_000_000_000_000;

/// Exact rational number `n / d`; well-formed values keep `d >= 1`.
#[derive(Clone, Copy, Debug, PartialEq, Eq, Structural)]
pub struct Rat {
    pub n: i128,
    pub d: i128,
}

impl Rat {
    /// The ghost rational this value denotes.
    pub open spec fn frac(self) -> Frac {
        Frac { n: self.n as int, d: self.d as int }
    }

    /// Denominator positive.
    pub open spec fn wf(self) -> bool {
        self.d >= 1
    }

    /// Both components within `b` in magnitude.
    pub open spec fn within(self, b: int) -> bool {
        -b <= self.n <= b && self.d <= b
    }

    /// Magnitude at least 1 and below 10: `d <= |n| < 10 d`.
    pub open spec fn unit_range(self) -> bool {
        if self.n >= 0 {
            self.d <= self.n && self.n < 10 * self.d
        } else {
            self.d <= -self.n && -self.n < 10 * self.d
        }
    }

    /// Numerator and denominator do not share a factor of ten.
    pub open spec fn reduced10(self) -> bool {
        !(self.n % 10 == 0 && self.d % 10 == 0)
    }

    /// The rational `n / d`.
    pub fn new(n: i128, d: i128) -> (r: Rat)
        requires
            d >= 1,
        ensures
            r == (Rat { n, d }),
            r.wf(),
    {
        Rat { n, d }
    }

    /// The integer `n`.
    pub fn whole(n: i128) -> (r: Rat)
        ensures
            r == (Rat { n, d: 1 }),
            r.wf(),
    {
        Rat { n, d: 1 }
    }

    /// One.
    pub fn one() -> (r: Rat)
        ensures
            r == (Rat { n: 1, d: 1 }),
            r.wf(),
            r.unit_range(),
    {
        Rat { n: 1, d: 1 }
    }

    /// Exact product.
    pub fn times(self, other: Rat) -> (r: Rat)
        requires
            self.wf(),
            other.wf(),
            -0x7fff_ffff_ffff_ffff_ffff_ffff_ffff_ffff <= self.n * other.n
                <= 0x7fff_ffff_ffff_ffff_ffff_ffff_ffff_ffff,
            self.d * other.d <= 0x7fff_ffff_ffff_ffff_ffff_ffff_ffff_ffff,
        ensures
            r.frac() == frac_mul(self.frac(), other.frac()),
            r.wf(),
    {
        proof {
            assert(self.d * other.d >= 1) by (nonlinear_arith)
                requires
                    self.d >= 1,
                    other.d >= 1,
            ;
        }
        Rat { n: self.n * other.n, d: self.d * other.d }
    }

    /// Exact sum, over the common denominator.
    pub fn plus(self, other: Rat) -> (r: Rat)
        requires
            self.wf(),
            other.wf(),
            -0x7fff_ffff_ffff_ffff_ffff_ffff_ffff_ffff <= self.n * other.d
                <= 0x7fff_ffff_ffff_ffff_ffff_ffff_ffff_ffff,
            -0x7fff_ffff_ffff_ffff_ffff_ffff_ffff_ffff <= other.n * self.d
                <= 0x7fff_ffff_ffff_ffff_ffff_ffff_ffff_ffff,
            -0x7fff_ffff_ffff_ffff_ffff_ffff_ffff_ffff <= self.n * other.d + other.n * self.d
                <= 0x7fff_ffff_ffff_ffff_ffff_ffff_ffff_ffff,
            self.d * other.d <= 0x7fff_ffff_ffff_ffff_ffff_ffff_ffff_ffff,
        ensures
            r.frac() == frac_add(self.frac(), other.frac()),
            r.wf(),
    {
        proof {
            assert(self.d * other.d >= 1) by (nonlinear_arith)
                requires
                    self.d >= 1,
                    other.d >= 1,
            ;
        }
        Rat { n: self.n * other.d + other.n * self.d, d: self.d * other.d }
    }

    /// Exact negation.
    pub fn negated(self) -> (r: Rat)
        requires
            self.wf(),
            self.n > -0x7fff_ffff_ffff_ffff_ffff_ffff_ffff_ffff,
        ensures
            r.frac() == frac_neg(self.frac()),
            r.wf(),
            r.d == self.d,
            r == (Rat { n: (-self.n) as i128, d: self.d }),
    {
        Rat { n: -self.n, d: self.d }
    }

    /// Splits a nonzero rational into a mantissa with magnitude in
    /// [1,10) and a power-of-ten exponent: `self == mantissa * 10^k`,
    /// with mantissa and exponent free of a shared factor of ten.
    pub fn normalize(self) -> (r: (Rat, i64))
        requires
            self.wf(),
            self.n != 0,
            self.within(RAT_LIMIT as int),
        ensures
            r.0.wf(),
            r.0.unit_range(),
            r.0.reduced10(),
            -39 <= r.1 <= 38,
            frac_eq(frac_mul(r.0.frac(), p10f(r.1 as int)), self.frac()),
            (r.0.n > 0) == (self.n > 0),
            self.unit_range() && self.reduced10() ==> r.0 == self && r.1 == 0,
            norm_rel(self.frac(), r.0, r.1 as int),
            r.0.d <= self.d || r.0.d <= absi(self.n as int),
    {
        let ghost t = self.frac();
        let neg = self.n < 0;
        let ghost sgn: int = if neg { -1int } else { 1int };
        let mut a: i128 = if neg { -self.n } else { self.n };
        let mut d: i128 = self.d;
        let mut k: i64 = 0;
        let ghost a0 = a;
        let ghost idem = self.unit_range() && self.reduced10();
        let ghost mut sn: int = 0;
        let ghost mut sd: int = 0;
        proof {
            assert(sgn * (a as int) == self.n as int) by (nonlinear_arith)
                requires
                    (sgn == -1 && a as int == -(self.n as int))
                        || (sgn == 1 && a as int == self.n as int),
            ;
            assert(sgn * (a as int) == t.n * p10(0));
            assert(d as int == t.d * p10(0));
            assert((sgn * (a as int) * 1) * t.d == t.n * ((d as int) * 1)) by (nonlinear_arith)
                requires
                    sgn * (a as int) == t.n,
                    d as int == t.d,
            ;
            lemma_p10_consts();
        }
        while a >= 10 * d
            invariant
                1 <= a <= RAT_LIMIT,
                1 <= d <= RAT_LIMIT,
                0 <= k <= 38,
                p10(k as nat) <= d,
                sgn == if neg { -1int } else { 1int },
                frac_eq(frac_mul(Frac { n: sgn * (a as int), d: d as int }, p10f(k as int)), t),
                idem == (self.unit_range() && self.reduced10()),
                a0 == (if neg { -(self.n as int) } else { self.n as int }),
                idem ==> a == a0 && d == self.d && k == 0,
                tenshift(sgn * (a as int), t.n, sn),
                tenshift(d as int, t.d, sd),
                sd == sn + k,
                a as int == a0,
                d <= self.d || d as int <= a0,
            decreases a - d,
        {
            proof {
                lemma_step_down(sgn * (a as int), d as int, k as int, t);
                lemma_tenshift_up(d as int, t.d, sd);
                assert(p10((k + 1) as nat) == 10 * p10(k as nat));
                if k + 1 > 38 {
                    lemma_powi_increases(10, 39, (k + 1) as nat);
                    lemma_p10_consts();
                    assert(false);
                }
            }
            d = 10 * d;
            k = k + 1;
            proof {
                sd = sd + 1;
            }
        }
        let ghost ke: int = k as int;
        let ghost ae: int = a as int;
        while a < d
            invariant
                1 <= a,
                a < 10 * d,
                1 <= d <= RAT_LIMIT,
                k <= 38,
                0 <= ke <= 38,
                0 <= ke - k,
                p10((ke - k) as nat) <= a,
                sgn == if neg { -1int } else { 1int },
                frac_eq(frac_mul(Frac { n: sgn * (a as int), d: d as int }, p10f(k as int)), t),
                idem == (self.unit_range() && self.reduced10()),
                a0 == (if neg { -(self.n as int) } else { self.n as int }),
                idem ==> a == a0 && d == self.d && k == 0,
                tenshift(sgn * (a as int), t.n, sn),
                tenshift(d as int, t.d, sd),
                sd == sn + k,
                d <= self.d || d as int <= a0,
            decreases 10 * d - a,
        {
            proof {
                lemma_step_up(sgn * (a as int), d as int, k as int, t);
                lemma_tenshift_up(sgn * (a as int), t.n, sn);
                assert(sgn * ((10 * a) as int) == 10 * (sgn * (a as int))) by (nonlinear_arith);
                assert(p10((ke - (k - 1)) as nat) == 10 * p10((ke - k) as nat));
                if ke - (k - 1) > 39 {
                    lemma_powi_increases(10, 40, (ke - (k - 1)) as nat);
                    lemma_p10_consts();
                    assert(p10(40) == 10 * p10(39));
                    assert(false);
                }
            }
            a = 10 * a;
            k = k - 1;
            proof {
                sn = sn + 1;
            }
        }
        proof {
            if k < -39 {
                lemma_powi_increases(10, 40, (ke - k) as nat);
                lemma_p10_consts();
                assert(p10(40) == 10 * p10(39));
                assert(false);
            }
        }
        while a % 10 == 0 && d % 10 == 0
            invariant
                1 <= d,
                d <= a,
                a < 10 * d,
                -39 <= k <= 38,
                sgn == if neg { -1int } else { 1int },
                frac_eq(frac_mul(Frac { n: sgn * (a as int), d: d as int }, p10f(k as int)), t),
                idem == (self.unit_range() && self.reduced10()),
                a0 == (if neg { -(self.n as int) } else { self.n as int }),
                idem ==> a == a0 && d == self.d && k == 0,
                tenshift(sgn * (a as int), t.n, sn),
                tenshift(d as int, t.d, sd),
                sd == sn + k,
                d <= self.d || d as int <= a0,
            decreases d,
        {
            proof {
                let a2: int = a as int / 10;
                let d2: int = d as int / 10;
                assert(a as int == 10 * a2 && d as int == 10 * d2);
                assert(sgn * (a as int) == 10 * (sgn * a2)) by (nonlinear_arith)
                    requires
                        a as int == 10 * a2,
                ;
                lemma_step_reduce(sgn * a2, d2, k as int, t);
                assert((sgn * (a as int)) % 10 == 0) by (nonlinear_arith)
                    requires
                        sgn * (a as int) == 10 * (sgn * a2),
                ;
                assert((sgn * (a as int)) / 10 == sgn * a2) by (nonlinear_arith)
                    requires
                        sgn * (a as int) == 10 * (sgn * a2),
                ;
                lemma_tenshift_down(sgn * (a as int), t.n, sn);
                lemma_tenshift_down(d as int, t.d, sd);
                sn = sn - 1;
                sd = sd - 1;
            }
            a = a / 10;
            d = d / 10;
        }
        let res = Rat { n: if neg { -a } else { a }, d };
        proof {
            assert(res.n as int == sgn * (a as int)) by (nonlinear_arith)
                requires
                    sgn == if neg { -1int } else { 1int },
                    res.n as int == if neg { -(a as int) } else { a as int },
            ;
            assert(tenshift(res.n as int, t.n, sn) && tenshift(res.d as int, t.d, sn + k));
        }
        (res, k)
    }

    /// Exact reciprocal; the sign stays in the numerator.
    pub fn recip(self) -> (r: Rat)
        requires
            self.wf(),
            self.n != 0,
            self.n > -0x7fff_ffff_ffff_ffff_ffff_ffff_ffff_ffff,
            self.d > -0x7fff_ffff_ffff_ffff_ffff_ffff_ffff_ffff,
        ensures
            frac_eq(frac_mul(r.frac(), self.frac()), (Frac { n: 1, d: 1 })),
            r.wf(),
            r.n != 0,
            self.n > 0 ==> r == (Rat { n: self.d, d: self.n }),
            self.n < 0 ==> r == (Rat { n: (-self.d) as i128, d: (-self.n) as i128 }),
    {
        let r = if self.n > 0 {
            Rat { n: self.d, d: self.n }
        } else {
            Rat { n: -self.d, d: -self.n }
        };
        proof {
            assert((r.n as int * self.n as int) * 1 == 1 * (r.d as int * self.d as int))
                by (nonlinear_arith)
                requires
                    self.n != 0,
                    r.n == if self.n > 0 { self.d as int } else { -(self.d as int) },
                    r.d == if self.n > 0 { self.n as int } else { -(self.n as int) },
            ;
        }
        r
    }

    /// Exact integer power, with a negative exponent inverting the
    /// base.  The result denotes `self` to the power `p`.
    pub fn powz(self, p: i64) -> (r: Rat)
        requires
            self.wf(),
            -32 <= p <= 32,
            p < 0 ==> self.n != 0,
            powi(absi(self.n as int), absi(p as int) as nat) <= RAT_LIMIT,
            powi(self.d as int, absi(p as int) as nat) <= RAT_LIMIT,
        ensures
            r.wf(),
            r.n != 0 || (self.n == 0 && p != 0),
            frac_eq(r.frac(), frac_powz(self.frac(), p as int)),
            self.n >= 1 ==> r.frac() == frac_powz(self.frac(), p as int),
            p >= 0 && self.n != 0 ==> r.frac() == frac_powz(self.frac(), p as int),
            self.n == 0 && p == 0 ==> r == (Rat { n: 1, d: 1 }),
            r.within(RAT_LIMIT as int),
            (r.n == 0) == (self.n == 0 && p != 0),
    {
        let ab: u32 = if p >= 0 { p as u32 } else { (-p) as u32 };
        if self.n == 0 {
            if p == 0 {
                let r = Rat { n: 1, d: 1 };
                return r;
            }
            let r = Rat { n: 0, d: 1 };
            proof {
                lemma_powi_pos(self.d as int, ab as nat);
                assert(powi(0int, ab as nat) == 0) by {
                    assert(0int * powi(0int, (ab - 1) as nat) == 0) by (nonlinear_arith);
                };
                let fz = frac_powz(self.frac(), p as int);
                assert(fz == (Frac { n: 0int, d: powi(self.d as int, ab as nat) }));
                assert(r.frac().n == 0 && r.frac().d == 1);
                assert(0int * fz.d == 0) by (nonlinear_arith);
                assert(fz.n * 1 == 0);
                assert(frac_eq(r.frac(), fz));
            }
            return r;
        }
        let mut acc = Rat { n: 1, d: 1 };
        let mut i: u32 = 0;
        proof {
            lemma_powi_pos(absi(self.n as int), ab as nat);
            lemma_powi_pos(self.d as int, ab as nat);
        }
        while i < ab
            invariant
                0 <= i <= ab <= 32,
                self.wf(),
                self.n != 0,
                acc.d >= 1,
                acc.n as int == powi(self.n as int, i as nat),
                acc.d as int == powi(self.d as int, i as nat),
                powi(absi(self.n as int), ab as nat) <= RAT_LIMIT,
                powi(self.d as int, ab as nat) <= RAT_LIMIT,
            decreases ab - i,
        {
            proof {
                lemma_powi_abs(self.n as int, i as nat);
                lemma_powi_abs(self.n as int, (i + 1) as nat);
                lemma_powi_increases(absi(self.n as int), (i + 1) as nat, ab as nat);
                lemma_powi_increases(self.d as int, (i + 1) as nat, ab as nat);
                assert(absi(powi(self.n as int, (i + 1) as nat))
                    == absi(acc.n as int) * absi(self.n as int)) by (nonlinear_arith)
                    requires
                        powi(self.n as int, (i + 1) as nat)
                            == self.n as int * powi(self.n as int, i as nat),
                        acc.n as int == powi(self.n as int, i as nat),
                ;
                assert(absi(acc.n as int * self.n as int)
                    == absi(acc.n as int) * absi(self.n as int)) by (nonlinear_arith);
                lemma_powi_pos(self.d as int, i as nat);
                lemma_powi_pos(self.d as int, (i + 1) as nat);
                assert(self.n as int * powi(self.n as int, i as nat)
                    == powi(self.n as int, i as nat) * self.n as int) by (nonlinear_arith);
                assert(self.d as int * powi(self.d as int, i as nat)
                    == powi(self.d as int, i as nat) * self.d as int) by (nonlinear_arith);
            }
            acc = Rat { n: acc.n * self.n, d: acc.d * self.d };
            i = i + 1;
        }
        proof {
            lemma_powi_abs(self.n as int, ab as nat);
            lemma_powi_pos(absi(self.n as int), ab as nat);
            lemma_powi_pos(self.d as int, ab as nat);
        }
        if p >= 0 {
            acc
        } else {
            proof {
                lemma_powi_abs(self.n as int, ab as nat);
                lemma_powi_pos(absi(self.n as int), ab as nat);
            }
            let r = acc.recip();
            proof {
                if acc.n < 0 {
                    assert(((-(acc.d as int)) * (acc.n as int)) == ((acc.d as int) * (-(acc.n as int))))
                        by (nonlinear_arith);
                }
                assert(frac_eq(r.frac(), (Frac { n: acc.d as int, d: acc.n as int })));
            }
            r
        }
    }
}

} // verus!
