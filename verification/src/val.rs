//! Dimensioned values and their arithmetic.
//!
//! A `Val` is an immutable pair of an exact rational mantissa and a
//! [`Unit`]; the magnitude it denotes is `num * mult * 10^exp` in the
//! dimension `desc`.  Every arithmetic operation validates what must
//! be validated, computes exactly, and re-canonicalizes through
//! [`Val::clamp_num`] so that non-zero results keep both the mantissa
//! and the unit multiplier with magnitude in [1,10).

use vstd::prelude::*;
use crate::dim::Dim;
use crate::rat::{
    absi, frac_add, frac_eq, frac_is_whole, frac_mul, frac_neg, frac_powz, frac_sub, frac_whole,
    norm_rel,
    lemma_exact_div_neg, lemma_frac_add_cong, lemma_frac_eq_trans, lemma_frac_eq_zero,
    lemma_frac_mul_cong, lemma_frac_mul_distributes, lemma_mul_bounds, lemma_p10_consts,
    lemma_p10f_adds, lemma_p10f_pos, lemma_pos2, lemma_powi_abs, lemma_powi_distributes,
    lemma_powi_increases, lemma_powi_multiplies, lemma_powi_one, lemma_powi_pos, p10, p10f,
    pow10_i128, powi, Frac, Rat, MUL_LIMIT, RAT_LIMIT,
};
use crate::text::{dchar, dec_seq, frac_seq, trimz};
use crate::unit::{sym_seq, Unit, EXP_LIMIT};

verus! {

/// Bound on the mantissa and multiplier components admitted by
/// addition and subtraction; chosen so that every intermediate product
/// of the exact rescaling fits comfortably in an `i128`.
pub const COMP_LIMIT: i128 = 1_000_000;

/// Bound on the difference of the two operands' exponents admitted by
/// addition and subtraction: the smaller operand is rescaled by this
/// many orders of ten at most.
pub const EXP_DIFF_LIMIT: i64 = 12;

/// The recoverable errors of the engine.
#[derive(Clone, Copy, Debug, PartialEq, Eq, Structural)]
pub enum ValError {
    /// Addition or subtraction of operands whose dimension descriptors differ.
    IncompatibleDimension,
    /// An exponent operand that is dimensioned with a fractional
    /// mantissa, or whose effective power is not a whole number.  The
    /// second case is a restriction of this exact engine: a
    /// dimensionless fractional power has an irrational result in
    /// general, which only floating point can approximate, so the
    /// engine returns this error instead of an approximation.
    InvalidExponent,
    /// A literal and base unit that cannot form a value.
    InvalidConstruction,
}

/// An immutable pair of a numeric mantissa and a unit.
#[derive(Clone, Copy, Debug, PartialEq, Eq, Structural)]
pub struct Val {
    pub num: Rat,
    pub unit: Unit,
}

impl Val {
    /// Mantissa and unit well-formed.
    pub open spec fn wf(self) -> bool {
        &&& self.num.wf()
        &&& self.unit.wf()
    }

    /// The magnitude this value denotes: `num * mult * 10^exp`.
    pub open spec fn val_frac(self) -> Frac {
        frac_mul(self.num.frac(), self.unit.scale())
    }

    /// Canonical form: a zero mantissa, or mantissa and multiplier
    /// both with magnitude in [1,10) and free of shared factors of ten.
    pub open spec fn canonical(self) -> bool {
        self.num.n != 0 ==> {
            &&& self.num.unit_range()
            &&& self.num.reduced10()
            &&& self.unit.mult.unit_range()
            &&& self.unit.mult.reduced10()
        }
    }

    /// The denoted magnitude has a positive denominator.
    pub proof fn lemma_val_frac_pos(self)
        requires
            self.wf(),
        ensures
            self.val_frac().d >= 1,
    {
        self.unit.lemma_scale_pos();
        lemma_pos2(self.num.d as int, self.unit.scale().d);
    }

    /// A value in canonical form, built from the given mantissa and the
    /// dimensionless unit.
    pub fn empty(val: Rat) -> (r: Val)
        requires
            val.wf(),
        ensures
            r == (Val { num: val, unit: Unit { desc: Dim { length: 0, mass: 0, time: 0 }, mult: Rat { n: 1, d: 1 }, exp: 0 } }),
            r.wf(),
    {
        Val { num: val, unit: Unit::empty() }
    }

    /// Construction from a mantissa and a unit.  The contract allows a
    /// `ValError::InvalidConstruction` rejection, but no such pair
    /// exists: construction always succeeds.
    pub fn try_from(num: Rat, unit: Unit) -> (r: Result<Val, ValError>)
        requires
            num.wf(),
            unit.wf(),
        ensures
            r == Ok::<Val, ValError>(Val { num, unit }),
    {
        Ok(Val { num, unit })
    }

    /// Attaches a further unit by unit composition; the mantissa is not
    /// touched and no re-canonicalization happens.
    pub fn with_unit(&self, unit: &Unit) -> (r: Val)
        requires
            self.wf(),
            unit.wf(),
            self.unit.desc.in_range(),
            unit.desc.in_range(),
            self.unit.mult.within(MUL_LIMIT as int),
            unit.mult.within(MUL_LIMIT as int),
            -EXP_LIMIT <= self.unit.exp <= EXP_LIMIT,
            -EXP_LIMIT <= unit.exp <= EXP_LIMIT,
        ensures
            r.wf(),
            r.num == self.num,
            r.unit.desc == (Dim {
                length: (self.unit.desc.length + unit.desc.length) as i64,
                mass: (self.unit.desc.mass + unit.desc.mass) as i64,
                time: (self.unit.desc.time + unit.desc.time) as i64,
            }),
            r.unit.mult.frac() == frac_mul(self.unit.mult.frac(), unit.mult.frac()),
            r.unit.exp == self.unit.exp + unit.exp,
            frac_eq(r.val_frac(), frac_mul(self.val_frac(), unit.scale())),
    {
        let u = self.unit.multiply(*unit);
        let r = Val { num: self.num, unit: u };
        proof {
            let nf = self.num.frac();
            let su = self.unit.scale();
            let so = unit.scale();
            self.unit.lemma_scale_pos();
            unit.lemma_scale_pos();
            u.lemma_scale_pos();
            assert(frac_eq(nf, nf));
            lemma_frac_mul_cong(nf, u.scale(), nf, frac_mul(su, so));
            // Regroup `num * (su * so)` as `(num * su) * so`.
            let mid = frac_mul(nf, frac_mul(su, so));
            assert(nf.n * (su.n * so.n) == (nf.n * su.n) * so.n) by (nonlinear_arith);
            assert(nf.d * (su.d * so.d) == (nf.d * su.d) * so.d) by (nonlinear_arith);
            assert(frac_eq(mid, frac_mul(self.val_frac(), so)));
            lemma_pos2(su.d, so.d);
            lemma_pos2(nf.d, su.d * so.d);
            lemma_frac_eq_trans(r.val_frac(), mid, frac_mul(self.val_frac(), so));
        }
        r
    }

    /// The canonicalized triple denotes the same magnitude as the raw one.
    proof fn lemma_clamp_value(m1: Frac, k1: int, numf: Frac, m2: Frac, k2: int, multf: Frac, e: int)
        requires
            frac_eq(frac_mul(m1, p10f(k1)), numf),
            frac_eq(frac_mul(m2, p10f(k2)), multf),
            m1.d >= 1,
            m2.d >= 1,
            numf.d >= 1,
            multf.d >= 1,
        ensures
            frac_eq(
                frac_mul(m1, frac_mul(m2, p10f(e + k1 + k2))),
                frac_mul(numf, frac_mul(multf, p10f(e))),
            ),
    {
        let pk1 = p10f(k1);
        let pk2 = p10f(k2);
        let pe = p10f(e);
        lemma_p10f_pos(k1);
        lemma_p10f_pos(k2);
        lemma_p10f_pos(e);
        lemma_p10f_pos(k1 + k2);
        lemma_p10f_pos(e + k1 + k2);
        // p10f(e + k1 + k2) denotes pe * (pk1 * pk2).
        lemma_p10f_adds(e, k1 + k2);
        lemma_p10f_adds(k1, k2);
        assert(frac_eq(pe, pe));
        lemma_frac_mul_cong(pe, p10f(k1 + k2), pe, frac_mul(pk1, pk2));
        lemma_pos2(pe.d, p10f(k1 + k2).d);
        lemma_frac_eq_trans(
            p10f(e + k1 + k2),
            frac_mul(pe, p10f(k1 + k2)),
            frac_mul(pe, frac_mul(pk1, pk2)),
        );
        // Substitute under the mantissa and multiplier factors.
        let x = frac_mul(m1, frac_mul(m2, p10f(e + k1 + k2)));
        let y = frac_mul(m1, frac_mul(m2, frac_mul(pe, frac_mul(pk1, pk2))));
        assert(frac_eq(m1, m1));
        assert(frac_eq(m2, m2));
        lemma_frac_mul_cong(m2, p10f(e + k1 + k2), m2, frac_mul(pe, frac_mul(pk1, pk2)));
        lemma_frac_mul_cong(
            m1,
            frac_mul(m2, p10f(e + k1 + k2)),
            m1,
            frac_mul(m2, frac_mul(pe, frac_mul(pk1, pk2))),
        );
        // Regroup the five factors.
        let z = frac_mul(frac_mul(m1, pk1), frac_mul(frac_mul(m2, pk2), pe));
        assert(m1.n * (m2.n * (pe.n * (pk1.n * pk2.n))) == (m1.n * pk1.n) * ((m2.n * pk2.n) * pe.n))
            by (nonlinear_arith);
        assert(m1.d * (m2.d * (pe.d * (pk1.d * pk2.d))) == (m1.d * pk1.d) * ((m2.d * pk2.d) * pe.d))
            by (nonlinear_arith);
        assert(y.n == z.n);
        assert(y.d == z.d);
        // The grouped factors denote the raw mantissa and multiplier.
        let w = frac_mul(numf, frac_mul(multf, pe));
        lemma_frac_mul_cong(frac_mul(m2, pk2), pe, multf, pe);
        lemma_frac_mul_cong(frac_mul(m1, pk1), frac_mul(frac_mul(m2, pk2), pe), numf, frac_mul(multf, pe));
        // Chain the three reshapings.
        lemma_pos2(pk1.d, pk2.d);
        lemma_pos2(pe.d, pk1.d * pk2.d);
        lemma_pos2(m2.d, pe.d * (pk1.d * pk2.d));
        lemma_pos2(m1.d, m2.d * (pe.d * (pk1.d * pk2.d)));
        assert(y.d >= 1);
        lemma_frac_eq_trans(x, y, z);
        lemma_frac_eq_trans(x, z, w);
    }

    /// Rescaling the non-reference operand into the reference frame and
    /// weighing it by the reference scale denotes the operand's own
    /// magnitude: `(onum * (mo/mr) * 10^(eo-er)) * (mr * 10^er)` is
    /// `onum * mo * 10^eo`.
    proof fn lemma_rescale(onum: Frac, mo: Frac, eo: int, mr: Frac, er: int)
        requires
            onum.d >= 1,
            mo.d >= 1,
            mo.n >= 1,
            mr.d >= 1,
            mr.n >= 1,
        ensures
            frac_eq(
                frac_mul(
                    frac_mul(frac_mul(onum, Frac { n: mo.n * mr.d, d: mo.d * mr.n }), p10f(eo - er)),
                    frac_mul(mr, p10f(er)),
                ),
                frac_mul(onum, frac_mul(mo, p10f(eo))),
            ),
    {
        let mf = Frac { n: mo.n * mr.d, d: mo.d * mr.n };
        let pd = p10f(eo - er);
        let per = p10f(er);
        let peo = p10f(eo);
        lemma_p10f_pos(eo - er);
        lemma_p10f_pos(er);
        lemma_p10f_pos(eo);
        let x0 = frac_mul(frac_mul(frac_mul(onum, mf), pd), frac_mul(mr, per));
        let x1 = frac_mul(frac_mul(onum, frac_mul(mf, mr)), frac_mul(pd, per));
        assert(((onum.n * mf.n) * pd.n) * (mr.n * per.n) == (onum.n * (mf.n * mr.n)) * (pd.n * per.n))
            by (nonlinear_arith);
        assert(((onum.d * mf.d) * pd.d) * (mr.d * per.d) == (onum.d * (mf.d * mr.d)) * (pd.d * per.d))
            by (nonlinear_arith);
        assert(x0.n == x1.n);
        assert(x0.d == x1.d);
        // The reference multiplier cancels out of the factor.
        assert(((mo.n * mr.d) * mr.n) * mo.d == mo.n * ((mo.d * mr.n) * mr.d)) by (nonlinear_arith);
        assert(frac_eq(frac_mul(mf, mr), mo));
        // The two powers of ten collapse to the operand's own exponent.
        lemma_p10f_adds(eo - er, er);
        assert(frac_eq(frac_mul(pd, per), peo));
        lemma_frac_mul_cong(onum, frac_mul(mf, mr), onum, mo);
        lemma_frac_mul_cong(frac_mul(onum, frac_mul(mf, mr)), frac_mul(pd, per), frac_mul(onum, mo), peo);
        // Regroup to the operand's magnitude.
        let z = frac_mul(frac_mul(onum, mo), peo);
        let vo = frac_mul(onum, frac_mul(mo, peo));
        assert((onum.n * mo.n) * peo.n == onum.n * (mo.n * peo.n)) by (nonlinear_arith);
        assert((onum.d * mo.d) * peo.d == onum.d * (mo.d * peo.d)) by (nonlinear_arith);
        assert(z.n == vo.n);
        assert(z.d == vo.d);
        assert(frac_eq(x1, z));
        assert(frac_eq(x0, vo));
    }

    /// The exact sum in the reference frame, weighted by the reference
    /// scale, denotes the sum of the two magnitudes.
    proof fn lemma_add_value(rv: Val, ov: Val, scaled: Frac, sum: Frac)
        requires
            rv.wf(),
            ov.wf(),
            scaled == frac_mul(
                frac_mul(ov.num.frac(), Frac {
                    n: ov.unit.mult.n * rv.unit.mult.d,
                    d: ov.unit.mult.d * rv.unit.mult.n,
                }),
                p10f(ov.unit.exp - rv.unit.exp),
            ),
            sum == frac_add(rv.num.frac(), scaled),
        ensures
            frac_eq(
                frac_mul(sum, rv.unit.scale()),
                frac_add(rv.val_frac(), ov.val_frac()),
            ),
    {
        let sr = rv.unit.scale();
        let nr = rv.num.frac();
        rv.unit.lemma_scale_pos();
        ov.unit.lemma_scale_pos();
        rv.lemma_val_frac_pos();
        ov.lemma_val_frac_pos();
        // Distribute the reference scale over the sum.
        lemma_frac_mul_distributes(nr, scaled, sr);
        // The rescaled term weighted by the reference scale is the
        // other operand's own magnitude.
        Val::lemma_rescale(
            ov.num.frac(),
            ov.unit.mult.frac(),
            ov.unit.exp as int,
            rv.unit.mult.frac(),
            rv.unit.exp as int,
        );
        assert(frac_eq(frac_mul(scaled, sr), ov.val_frac()));
        assert(frac_eq(nr, nr));
        assert(frac_eq(frac_mul(nr, sr), rv.val_frac()));
        lemma_frac_add_cong(frac_mul(nr, sr), frac_mul(scaled, sr), rv.val_frac(), ov.val_frac());
        // Chain through the distributed middle.
        let mid = frac_add(frac_mul(nr, sr), frac_mul(scaled, sr));
        lemma_p10f_pos(ov.unit.exp - rv.unit.exp);
        lemma_pos2(ov.unit.mult.d as int, rv.unit.mult.n as int);
        lemma_pos2(ov.num.d as int, (ov.unit.mult.d as int) * (rv.unit.mult.n as int));
        lemma_pos2(
            (ov.num.d as int) * ((ov.unit.mult.d as int) * (rv.unit.mult.n as int)),
            p10f(ov.unit.exp - rv.unit.exp).d,
        );
        lemma_pos2(nr.d, sr.d);
        lemma_pos2(scaled.d, sr.d);
        lemma_pos2(nr.d * sr.d, scaled.d * sr.d);
        lemma_frac_eq_trans(
            frac_mul(sum, sr),
            mid,
            frac_add(rv.val_frac(), ov.val_frac()),
        );
    }

    /// The reference operand of addition and subtraction: the one whose
    /// exponent has the larger magnitude, the left operand on a tie.
    pub open spec fn add_reference(a: Val, b: Val) -> Val {
        if absi(b.unit.exp as int) > absi(a.unit.exp as int) {
            b
        } else {
            a
        }
    }

    /// The operand that is rescaled into the reference frame.
    pub open spec fn add_other(a: Val, b: Val) -> Val {
        if absi(b.unit.exp as int) > absi(a.unit.exp as int) {
            a
        } else {
            b
        }
    }

    /// The exact mantissa of a sum, expressed in the reference
    /// operand's frame: the other operand's mantissa is scaled by the
    /// ratio of the multipliers and the difference of the exponents,
    /// then added to the reference mantissa.
    pub open spec fn sum_mantissa(a: Val, b: Val) -> Frac {
        let rv = Val::add_reference(a, b);
        let ov = Val::add_other(a, b);
        frac_add(
            rv.num.frac(),
            frac_mul(
                frac_mul(ov.num.frac(), Frac {
                    n: ov.unit.mult.n * rv.unit.mult.d,
                    d: ov.unit.mult.d * rv.unit.mult.n,
                }),
                p10f(ov.unit.exp - rv.unit.exp),
            ),
        )
    }

    /// The same value with the mantissa negated.
    pub open spec fn negated_of(v: Val) -> Val {
        Val { num: Rat { n: (-v.num.n) as i128, d: v.num.d }, unit: v.unit }
    }

    /// Shared exact core of addition and subtraction: `b` is rescaled
    /// into the frame of the operand with the larger exponent
    /// magnitude, the mantissas are added there, and the raw result is
    /// canonicalized.  Dimension agreement is the caller's concern.
    #[verifier::rlimit(100)]
    fn add_core(&self, rhs: &Val) -> (r: Val)
        requires
            self.wf(),
            rhs.wf(),
            self.num.within(COMP_LIMIT as int),
            rhs.num.within(COMP_LIMIT as int),
            self.unit.mult.within(COMP_LIMIT as int),
            rhs.unit.mult.within(COMP_LIMIT as int),
            -EXP_LIMIT <= self.unit.exp <= EXP_LIMIT,
            -EXP_LIMIT <= rhs.unit.exp <= EXP_LIMIT,
            -EXP_DIFF_LIMIT <= self.unit.exp - rhs.unit.exp <= EXP_DIFF_LIMIT,
        ensures
            r.wf(),
            r.unit.desc == self.unit.desc,
            r.canonical(),
            frac_eq(r.val_frac(), frac_add(self.val_frac(), rhs.val_frac())),
            (r.num.n == 0) == (frac_add(self.val_frac(), rhs.val_frac()).n == 0),
            r.num.n != 0 ==> exists|k1: int, k2: int|
                #![trigger norm_rel(Val::sum_mantissa(*self, *rhs), r.num, k1), norm_rel(Val::add_reference(*self, *rhs).unit.mult.frac(), r.unit.mult, k2)]
                {
                    &&& norm_rel(Val::sum_mantissa(*self, *rhs), r.num, k1)
                    &&& norm_rel(Val::add_reference(*self, *rhs).unit.mult.frac(), r.unit.mult, k2)
                    &&& r.unit.exp == Val::add_reference(*self, *rhs).unit.exp + k1 + k2
                },
            r.num.n != 0 && Val::add_reference(*self, *rhs).unit.mult.unit_range()
                && Val::add_reference(*self, *rhs).unit.mult.reduced10() ==> {
                &&& r.unit.mult == Val::add_reference(*self, *rhs).unit.mult
                &&& exists|k1: int| #[trigger] norm_rel(Val::sum_mantissa(*self, *rhs), r.num, k1)
                    && r.unit.exp == Val::add_reference(*self, *rhs).unit.exp + k1
            },
            r.num.n == 0 ==> r.unit.mult == Val::add_reference(*self, *rhs).unit.mult
                && r.unit.exp == Val::add_reference(*self, *rhs).unit.exp,
    {
        proof {
            crate::rat::lemma_p10_consts();
        }
        let aabs = if self.unit.exp < 0 { -self.unit.exp } else { self.unit.exp };
        let babs = if rhs.unit.exp < 0 { -rhs.unit.exp } else { rhs.unit.exp };
        let (rv, ov) = if babs > aabs { (*rhs, *self) } else { (*self, *rhs) };
        let diff = rv.unit.exp - ov.unit.exp;
        proof {
            lemma_mul_bounds(
                ov.unit.mult.n as int,
                rv.unit.mult.d as int,
                COMP_LIMIT as int,
                COMP_LIMIT as int,
            );
            lemma_mul_bounds(
                ov.unit.mult.d as int,
                rv.unit.mult.n as int,
                COMP_LIMIT as int,
                COMP_LIMIT as int,
            );
            lemma_pos2(ov.unit.mult.d as int, rv.unit.mult.n as int);
        }
        let mf = Rat {
            n: ov.unit.mult.n * rv.unit.mult.d,
            d: ov.unit.mult.d * rv.unit.mult.n,
        };
        proof {
            lemma_mul_bounds(
                ov.num.n as int,
                mf.n as int,
                COMP_LIMIT as int,
                (COMP_LIMIT as int) * (COMP_LIMIT as int),
            );
            lemma_mul_bounds(
                ov.num.d as int,
                mf.d as int,
                COMP_LIMIT as int,
                (COMP_LIMIT as int) * (COMP_LIMIT as int),
            );
        }
        let s0 = ov.num.times(mf);
        let dabs: u32 = if diff >= 0 { diff as u32 } else { (-diff) as u32 };
        let pw = pow10_i128(dabs);
        proof {
            crate::rat::lemma_powi_increases(10, dabs as nat, 12);
            lemma_mul_bounds(
                s0.n as int,
                pw as int,
                1_000_000_000_000_000_000int,
                1_000_000_000_000int,
            );
            lemma_mul_bounds(
                s0.d as int,
                pw as int,
                1_000_000_000_000_000_000int,
                1_000_000_000_000int,
            );
            lemma_pos2(s0.d as int, pw as int);
        }
        let scaled = if diff >= 0 {
            Rat { n: s0.n, d: s0.d * pw }
        } else {
            Rat { n: s0.n * pw, d: s0.d }
        };
        proof {
            // `scaled` is the rescaled operand, componentwise.
            let pd = p10f(ov.unit.exp - rv.unit.exp);
            assert(dabs as nat == absi(diff as int));
            if diff >= 0 {
                if diff > 0 {
                    assert(pd == (Frac { n: 1, d: p10(diff as nat) }));
                } else {
                    assert(pd == (Frac { n: p10(0), d: 1 }));
                }
                assert(pd.n == 1 && pd.d == pw as int);
                assert(scaled.n as int == s0.n as int * pd.n) by (nonlinear_arith)
                    requires
                        pd.n == 1,
                        scaled.n == s0.n,
                ;
                assert(scaled.d as int == s0.d as int * pd.d) by (nonlinear_arith)
                    requires
                        pd.d == pw as int,
                        scaled.d as int == s0.d as int * (pw as int),
                ;
            } else {
                assert(pd == (Frac { n: p10((-diff) as nat), d: 1 }));
                assert(pd.d == 1 && pd.n == pw as int);
                assert(scaled.n as int == s0.n as int * pd.n) by (nonlinear_arith)
                    requires
                        pd.n == pw as int,
                        scaled.n as int == s0.n as int * (pw as int),
                ;
                assert(scaled.d as int == s0.d as int * pd.d) by (nonlinear_arith)
                    requires
                        pd.d == 1,
                        scaled.d == s0.d,
                ;
            }
            assert(scaled.frac() == frac_mul(s0.frac(), pd));
            lemma_mul_bounds(
                rv.num.n as int,
                scaled.d as int,
                COMP_LIMIT as int,
                1_000_000_000_000_000_000_000_000_000_000int,
            );
            lemma_mul_bounds(
                scaled.n as int,
                rv.num.d as int,
                1_000_000_000_000_000_000_000_000_000_000int,
                COMP_LIMIT as int,
            );
            lemma_mul_bounds(
                rv.num.d as int,
                scaled.d as int,
                COMP_LIMIT as int,
                1_000_000_000_000_000_000_000_000_000_000int,
            );
        }
        let sum = rv.num.plus(scaled);
        let pre = Val {
            num: sum,
            unit: Unit { desc: self.unit.desc, mult: rv.unit.mult, exp: rv.unit.exp },
        };
        proof {
            Val::lemma_add_value(rv, ov, scaled.frac(), sum.frac());
            // `pre` and the reference share their unit scale.
            assert(pre.unit.scale() == rv.unit.scale());
            pre.lemma_val_frac_pos();
            rv.lemma_val_frac_pos();
            ov.lemma_val_frac_pos();
            self.lemma_val_frac_pos();
            rhs.lemma_val_frac_pos();
            // The sum of magnitudes is symmetric in its operands.
            let va = self.val_frac();
            let vb = rhs.val_frac();
            assert(va.d * vb.d == vb.d * va.d) by (nonlinear_arith);
            assert(frac_add(rv.val_frac(), ov.val_frac()) == frac_add(va, vb));
            lemma_pos2(va.d, vb.d);
        }
        let res = pre.clamp_num();
        proof {
            assert(rv == Val::add_reference(*self, *rhs));
            assert(ov == Val::add_other(*self, *rhs));
            assert(sum.frac() == Val::sum_mantissa(*self, *rhs));
            if res.num.n != 0 {
                let (k1, k2) = choose|k1: int, k2: int|
                    #![trigger norm_rel(pre.num.frac(), res.num, k1), norm_rel(pre.unit.mult.frac(), res.unit.mult, k2)]
                    {
                        &&& norm_rel(pre.num.frac(), res.num, k1)
                        &&& norm_rel(pre.unit.mult.frac(), res.unit.mult, k2)
                        &&& res.unit.exp == pre.unit.exp + k1 + k2
                    };
                assert(norm_rel(Val::sum_mantissa(*self, *rhs), res.num, k1)
                    && norm_rel(Val::add_reference(*self, *rhs).unit.mult.frac(), res.unit.mult, k2)
                    && res.unit.exp == Val::add_reference(*self, *rhs).unit.exp + k1 + k2);
                if rv.unit.mult.unit_range() && rv.unit.mult.reduced10() {
                    let k = choose|k1: int| #[trigger] norm_rel(pre.num.frac(), res.num, k1)
                        && res.unit.exp == pre.unit.exp + k1;
                    assert(norm_rel(Val::sum_mantissa(*self, *rhs), res.num, k)
                        && res.unit.exp == Val::add_reference(*self, *rhs).unit.exp + k);
                }
            }
            let va = self.val_frac();
            let vb = rhs.val_frac();
            lemma_frac_eq_trans(res.val_frac(), pre.val_frac(), frac_add(va, vb));
            res.lemma_val_frac_pos();
            lemma_frac_eq_zero(res.val_frac(), frac_add(va, vb));
            // A zero mantissa is a zero magnitude, under a positive scale.
            res.unit.lemma_scale_pos();
            assert((res.num.n as int * res.unit.scale().n == 0) == (res.num.n as int == 0))
                by (nonlinear_arith)
                requires
                    res.unit.scale().n >= 1,
            ;
        }
        res
    }

    /// Addition.  Operands must agree in dimension; the result is the
    /// exact sum of the two magnitudes, in canonical form, carrying the
    /// dimension and the reference operand's multiplier.
    pub fn add(&self, rhs: &Val) -> (r: Result<Val, ValError>)
        requires
            self.wf(),
            rhs.wf(),
            self.unit.desc == rhs.unit.desc ==> {
                &&& self.num.within(COMP_LIMIT as int)
                &&& rhs.num.within(COMP_LIMIT as int)
                &&& self.unit.mult.within(COMP_LIMIT as int)
                &&& rhs.unit.mult.within(COMP_LIMIT as int)
                &&& -EXP_LIMIT <= self.unit.exp <= EXP_LIMIT
                &&& -EXP_LIMIT <= rhs.unit.exp <= EXP_LIMIT
                &&& -EXP_DIFF_LIMIT <= self.unit.exp - rhs.unit.exp <= EXP_DIFF_LIMIT
            },
        ensures
            (r is Ok) == (self.unit.desc == rhs.unit.desc),
            r matches Err(e) ==> e == ValError::IncompatibleDimension,
            r matches Ok(res) ==> {
                &&& res.wf()
                &&& res.unit.desc == self.unit.desc
                &&& res.canonical()
                &&& frac_eq(res.val_frac(), frac_add(self.val_frac(), rhs.val_frac()))
                &&& (res.num.n == 0) == (frac_add(self.val_frac(), rhs.val_frac()).n == 0)
                &&& (res.num.n != 0 ==> exists|k1: int, k2: int|
                    #![trigger norm_rel(Val::sum_mantissa(*self, *rhs), res.num, k1), norm_rel(Val::add_reference(*self, *rhs).unit.mult.frac(), res.unit.mult, k2)]
                    {
                        &&& norm_rel(Val::sum_mantissa(*self, *rhs), res.num, k1)
                        &&& norm_rel(Val::add_reference(*self, *rhs).unit.mult.frac(), res.unit.mult, k2)
                        &&& res.unit.exp == Val::add_reference(*self, *rhs).unit.exp + k1 + k2
                    })
                &&& (res.num.n != 0 && Val::add_reference(*self, *rhs).unit.mult.unit_range()
                    && Val::add_reference(*self, *rhs).unit.mult.reduced10() ==> {
                    &&& res.unit.mult == Val::add_reference(*self, *rhs).unit.mult
                    &&& exists|k1: int| #[trigger] norm_rel(Val::sum_mantissa(*self, *rhs), res.num, k1)
                        && res.unit.exp == Val::add_reference(*self, *rhs).unit.exp + k1
                })
                &&& (res.num.n == 0 ==> res.unit.mult == Val::add_reference(*self, *rhs).unit.mult
                    && res.unit.exp == Val::add_reference(*self, *rhs).unit.exp)
            },
    {
        if self.unit.equal_dimension(&rhs.unit) {
            Ok(self.add_core(rhs))
        } else {
            Err(ValError::IncompatibleDimension)
        }
    }

    /// Subtraction.  Operands must agree in dimension; the result is
    /// the exact difference of the two magnitudes, in canonical form.
    pub fn subtract(&self, rhs: &Val) -> (r: Result<Val, ValError>)
        requires
            self.wf(),
            rhs.wf(),
            self.unit.desc == rhs.unit.desc ==> {
                &&& self.num.within(COMP_LIMIT as int)
                &&& rhs.num.within(COMP_LIMIT as int)
                &&& self.unit.mult.within(COMP_LIMIT as int)
                &&& rhs.unit.mult.within(COMP_LIMIT as int)
                &&& -EXP_LIMIT <= self.unit.exp <= EXP_LIMIT
                &&& -EXP_LIMIT <= rhs.unit.exp <= EXP_LIMIT
                &&& -EXP_DIFF_LIMIT <= self.unit.exp - rhs.unit.exp <= EXP_DIFF_LIMIT
            },
        ensures
            (r is Ok) == (self.unit.desc == rhs.unit.desc),
            r matches Err(e) ==> e == ValError::IncompatibleDimension,
            r matches Ok(res) ==> {
                &&& res.wf()
                &&& res.unit.desc == self.unit.desc
                &&& res.canonical()
                &&& frac_eq(res.val_frac(), frac_sub(self.val_frac(), rhs.val_frac()))
                &&& (res.num.n == 0) == (frac_sub(self.val_frac(), rhs.val_frac()).n == 0)
                &&& (res.num.n != 0 ==> exists|k1: int, k2: int|
                    #![trigger norm_rel(Val::sum_mantissa(*self, Val::negated_of(*rhs)), res.num, k1), norm_rel(Val::add_reference(*self, *rhs).unit.mult.frac(), res.unit.mult, k2)]
                    {
                        &&& norm_rel(Val::sum_mantissa(*self, Val::negated_of(*rhs)), res.num, k1)
                        &&& norm_rel(Val::add_reference(*self, *rhs).unit.mult.frac(), res.unit.mult, k2)
                        &&& res.unit.exp == Val::add_reference(*self, *rhs).unit.exp + k1 + k2
                    })
                &&& (res.num.n == 0 ==> res.unit.mult == Val::add_reference(*self, *rhs).unit.mult
                    && res.unit.exp == Val::add_reference(*self, *rhs).unit.exp)
            },
    {
        if self.unit.equal_dimension(&rhs.unit) {
            let neg = Val { num: rhs.num.negated(), unit: rhs.unit };
            let res = self.add_core(&neg);
            proof {
                // Negating the mantissa negates the magnitude.
                let nb = rhs.num.frac();
                let sb = rhs.unit.scale();
                assert((-nb.n) * sb.n == -(nb.n * sb.n)) by (nonlinear_arith);
                assert(neg.val_frac() == frac_neg(rhs.val_frac()));
                assert(neg == Val::negated_of(*rhs));
                assert(Val::add_reference(*self, neg).unit == Val::add_reference(*self, *rhs).unit);
            }
            Ok(res)
        } else {
            Err(ValError::IncompatibleDimension)
        }
    }

    /// Multiplication.  Never fails: mantissas multiply exactly, units
    /// compose, and the result is canonical.
    pub fn multiply(&self, rhs: &Val) -> (r: Val)
        requires
            self.wf(),
            rhs.wf(),
            self.num.within(MUL_LIMIT as int),
            rhs.num.within(MUL_LIMIT as int),
            self.unit.mult.within(MUL_LIMIT as int),
            rhs.unit.mult.within(MUL_LIMIT as int),
            self.unit.desc.in_range(),
            rhs.unit.desc.in_range(),
            -EXP_LIMIT <= self.unit.exp <= EXP_LIMIT,
            -EXP_LIMIT <= rhs.unit.exp <= EXP_LIMIT,
        ensures
            r.wf(),
            r.unit.desc == (Dim {
                length: (self.unit.desc.length + rhs.unit.desc.length) as i64,
                mass: (self.unit.desc.mass + rhs.unit.desc.mass) as i64,
                time: (self.unit.desc.time + rhs.unit.desc.time) as i64,
            }),
            r.canonical(),
            frac_eq(r.val_frac(), frac_mul(self.val_frac(), rhs.val_frac())),
            (r.num.n == 0) == (self.num.n == 0 || rhs.num.n == 0),
            r.num.n != 0 ==> exists|k1: int, k2: int|
                #![trigger norm_rel(frac_mul(self.num.frac(), rhs.num.frac()), r.num, k1), norm_rel(frac_mul(self.unit.mult.frac(), rhs.unit.mult.frac()), r.unit.mult, k2)]
                {
                    &&& norm_rel(frac_mul(self.num.frac(), rhs.num.frac()), r.num, k1)
                    &&& norm_rel(frac_mul(self.unit.mult.frac(), rhs.unit.mult.frac()), r.unit.mult, k2)
                    &&& r.unit.exp == self.unit.exp + rhs.unit.exp + k1 + k2
                },
            r.num.n == 0 ==> r.num.frac() == frac_mul(self.num.frac(), rhs.num.frac())
                && r.unit.mult.frac() == frac_mul(self.unit.mult.frac(), rhs.unit.mult.frac())
                && r.unit.exp == self.unit.exp + rhs.unit.exp,
    {
        proof {
            lemma_mul_bounds(
                self.num.n as int,
                rhs.num.n as int,
                MUL_LIMIT as int,
                MUL_LIMIT as int,
            );
            lemma_mul_bounds(
                self.num.d as int,
                rhs.num.d as int,
                MUL_LIMIT as int,
                MUL_LIMIT as int,
            );
        }
        let num = self.num.times(rhs.num);
        let u = self.unit.multiply(rhs.unit);
        let pre = Val { num, unit: u };
        proof {
            lemma_mul_bounds(
                self.unit.mult.n as int,
                rhs.unit.mult.n as int,
                MUL_LIMIT as int,
                MUL_LIMIT as int,
            );
            lemma_mul_bounds(
                self.unit.mult.d as int,
                rhs.unit.mult.d as int,
                MUL_LIMIT as int,
                MUL_LIMIT as int,
            );
            let na = self.num.frac();
            let nb = rhs.num.frac();
            let sa = self.unit.scale();
            let sb = rhs.unit.scale();
            self.unit.lemma_scale_pos();
            rhs.unit.lemma_scale_pos();
            u.lemma_scale_pos();
            assert(frac_eq(frac_mul(na, nb), frac_mul(na, nb)));
            lemma_frac_mul_cong(frac_mul(na, nb), u.scale(), frac_mul(na, nb), frac_mul(sa, sb));
            let mid = frac_mul(frac_mul(na, nb), frac_mul(sa, sb));
            assert((na.n * nb.n) * (sa.n * sb.n) == (na.n * sa.n) * (nb.n * sb.n)) by (nonlinear_arith);
            assert((na.d * nb.d) * (sa.d * sb.d) == (na.d * sa.d) * (nb.d * sb.d)) by (nonlinear_arith);
            assert(frac_eq(mid, frac_mul(self.val_frac(), rhs.val_frac())));
            lemma_pos2(na.d, nb.d);
            lemma_pos2(sa.d, sb.d);
            lemma_pos2(na.d * nb.d, sa.d * sb.d);
            lemma_frac_eq_trans(pre.val_frac(), mid, frac_mul(self.val_frac(), rhs.val_frac()));
            // Zero exactly when one mantissa is zero.
            assert((na.n * nb.n == 0) == (na.n == 0 || nb.n == 0)) by (nonlinear_arith);
        }
        let res = pre.clamp_num();
        proof {
            pre.lemma_val_frac_pos();
            self.lemma_val_frac_pos();
            rhs.lemma_val_frac_pos();
            lemma_pos2(self.val_frac().d, rhs.val_frac().d);
            lemma_frac_eq_trans(
                res.val_frac(),
                pre.val_frac(),
                frac_mul(self.val_frac(), rhs.val_frac()),
            );
            if res.num.n != 0 {
                let (k1, k2) = choose|k1: int, k2: int|
                    #![trigger norm_rel(pre.num.frac(), res.num, k1), norm_rel(pre.unit.mult.frac(), res.unit.mult, k2)]
                    {
                        &&& norm_rel(pre.num.frac(), res.num, k1)
                        &&& norm_rel(pre.unit.mult.frac(), res.unit.mult, k2)
                        &&& res.unit.exp == pre.unit.exp + k1 + k2
                    };
                assert(norm_rel(frac_mul(self.num.frac(), rhs.num.frac()), res.num, k1)
                    && norm_rel(frac_mul(self.unit.mult.frac(), rhs.unit.mult.frac()), res.unit.mult, k2)
                    && res.unit.exp == self.unit.exp + rhs.unit.exp + k1 + k2);
            }
        }
        res
    }

    /// Division.  The divisor's mantissa must be nonzero (a latent
    /// precondition: the engine does not guard it).  The result times
    /// the divisor denotes the dividend, dimensions subtract.
    pub fn divide(&self, rhs: &Val) -> (r: Val)
        requires
            self.wf(),
            rhs.wf(),
            rhs.num.n != 0,
            self.num.within(MUL_LIMIT as int),
            rhs.num.within(MUL_LIMIT as int),
            self.unit.mult.within(MUL_LIMIT as int),
            rhs.unit.mult.within(MUL_LIMIT as int),
            self.unit.desc.in_range(),
            rhs.unit.desc.in_range(),
            -EXP_LIMIT <= self.unit.exp <= EXP_LIMIT,
            -EXP_LIMIT <= rhs.unit.exp <= EXP_LIMIT,
        ensures
            r.wf(),
            r.unit.desc == (Dim {
                length: (self.unit.desc.length - rhs.unit.desc.length) as i64,
                mass: (self.unit.desc.mass - rhs.unit.desc.mass) as i64,
                time: (self.unit.desc.time - rhs.unit.desc.time) as i64,
            }),
            r.canonical(),
            frac_eq(frac_mul(r.val_frac(), rhs.val_frac()), self.val_frac()),
            (r.num.n == 0) == (self.num.n == 0),
    {
        let br = rhs.num.recip();
        proof {
            lemma_mul_bounds(
                self.num.n as int,
                br.n as int,
                MUL_LIMIT as int,
                MUL_LIMIT as int,
            );
            lemma_mul_bounds(
                self.num.d as int,
                br.d as int,
                MUL_LIMIT as int,
                MUL_LIMIT as int,
            );
        }
        let num = self.num.times(br);
        let u = self.unit.divide(rhs.unit);
        let pre = Val { num, unit: u };
        proof {
            lemma_mul_bounds(
                self.unit.mult.n as int,
                rhs.unit.mult.d as int,
                MUL_LIMIT as int,
                MUL_LIMIT as int,
            );
            lemma_mul_bounds(
                self.unit.mult.d as int,
                rhs.unit.mult.n as int,
                MUL_LIMIT as int,
                MUL_LIMIT as int,
            );
        }
        let res = pre.clamp_num();
        proof {
            let na = self.num.frac();
            let nb = rhs.num.frac();
            let bf = br.frac();
            let sa = self.unit.scale();
            let sb = rhs.unit.scale();
            let sq = u.scale();
            self.unit.lemma_scale_pos();
            rhs.unit.lemma_scale_pos();
            u.lemma_scale_pos();
            pre.lemma_val_frac_pos();
            res.lemma_val_frac_pos();
            self.lemma_val_frac_pos();
            rhs.lemma_val_frac_pos();
            // Carry the clamp across the multiplication by the divisor.
            assert(frac_eq(rhs.val_frac(), rhs.val_frac()));
            lemma_frac_mul_cong(res.val_frac(), rhs.val_frac(), pre.val_frac(), rhs.val_frac());
            // Regroup `((na * br) * sq) * (nb * sb)`.
            let x = frac_mul(pre.val_frac(), rhs.val_frac());
            let y = frac_mul(frac_mul(na, frac_mul(bf, nb)), frac_mul(sq, sb));
            assert(((na.n * bf.n) * sq.n) * (nb.n * sb.n) == (na.n * (bf.n * nb.n)) * (sq.n * sb.n))
                by (nonlinear_arith);
            assert(((na.d * bf.d) * sq.d) * (nb.d * sb.d) == (na.d * (bf.d * nb.d)) * (sq.d * sb.d))
                by (nonlinear_arith);
            assert(x.n == y.n);
            assert(x.d == y.d);
            // The reciprocal cancels the divisor's mantissa, and the
            // quotient scale times the divisor's scale is the dividend's.
            lemma_frac_mul_cong(na, frac_mul(bf, nb), na, Frac { n: 1, d: 1 });
            lemma_frac_mul_cong(
                frac_mul(na, frac_mul(bf, nb)),
                frac_mul(sq, sb),
                frac_mul(na, Frac { n: 1, d: 1 }),
                sa,
            );
            assert(frac_mul(na, Frac { n: 1, d: 1 }) == na);
            // Chain everything.
            lemma_pos2(pre.val_frac().d, rhs.val_frac().d);
            lemma_pos2(bf.d, nb.d);
            lemma_pos2(na.d, bf.d * nb.d);
            lemma_pos2(sq.d, sb.d);
            lemma_pos2(na.d * (bf.d * nb.d), sq.d * sb.d);
            lemma_frac_eq_trans(frac_mul(res.val_frac(), rhs.val_frac()), x, y);
            lemma_frac_eq_trans(frac_mul(res.val_frac(), rhs.val_frac()), y, self.val_frac());
            // Zero exactly when the dividend's mantissa is zero.
            assert((na.n * bf.n == 0) == (na.n == 0)) by (nonlinear_arith)
                requires
                    bf.n != 0,
            ;
        }
        res
    }

    /// Canonicalization: returns an equivalent value whose mantissa and
    /// unit multiplier have magnitude in [1,10), every removed order of
    /// ten folded into the unit's exponent.  An exactly zero mantissa
    /// is returned unchanged, and so is a value already in canonical
    /// form.
    pub fn clamp_num(&self) -> (r: Val)
        requires
            self.wf(),
            self.num.within(RAT_LIMIT as int),
            self.unit.mult.within(RAT_LIMIT as int),
            -3 * EXP_LIMIT <= self.unit.exp <= 3 * EXP_LIMIT,
        ensures
            r.wf(),
            r.unit.desc == self.unit.desc,
            frac_eq(r.val_frac(), self.val_frac()),
            r.canonical(),
            (r.num.n == 0) == (self.num.n == 0),
            self.num.n == 0 ==> r == *self,
            self.canonical() ==> r == *self,
            -3 * EXP_LIMIT - 80 <= r.unit.exp <= 3 * EXP_LIMIT + 80,
            (r.num.n > 0) == (self.num.n > 0),
            self.num.n != 0 ==> exists|k1: int, k2: int|
                #![trigger norm_rel(self.num.frac(), r.num, k1), norm_rel(self.unit.mult.frac(), r.unit.mult, k2)]
                {
                    &&& norm_rel(self.num.frac(), r.num, k1)
                    &&& norm_rel(self.unit.mult.frac(), r.unit.mult, k2)
                    &&& r.unit.exp == self.unit.exp + k1 + k2
                },
            self.num.n != 0 && self.unit.mult.unit_range() && self.unit.mult.reduced10() ==> {
                &&& r.unit.mult == self.unit.mult
                &&& exists|k1: int| #[trigger] norm_rel(self.num.frac(), r.num, k1)
                    && r.unit.exp == self.unit.exp + k1
            },
            r.num.d <= self.num.d || r.num.d as int <= absi(self.num.n as int),
            r.unit.mult.d <= self.unit.mult.d || r.unit.mult.d <= self.unit.mult.n,
    {
        if self.num.n == 0 {
            return *self;
        }
        let (m1, k1) = self.num.normalize();
        let (m2, k2) = self.unit.mult.normalize();
        let e2 = self.unit.exp + (k1 as i64) + (k2 as i64);
        let r = Val { num: m1, unit: Unit { desc: self.unit.desc, mult: m2, exp: e2 } };
        proof {
            Val::lemma_clamp_value(
                m1.frac(),
                k1 as int,
                self.num.frac(),
                m2.frac(),
                k2 as int,
                self.unit.mult.frac(),
                self.unit.exp as int,
            );
            assert(norm_rel(self.num.frac(), r.num, k1 as int)
                && norm_rel(self.unit.mult.frac(), r.unit.mult, k2 as int)
                && r.unit.exp == self.unit.exp + k1 as int + k2 as int);
            if self.unit.mult.unit_range() && self.unit.mult.reduced10() {
                assert(m2 == self.unit.mult && k2 == 0);
                assert(norm_rel(self.num.frac(), r.num, k1 as int)
                    && r.unit.exp == self.unit.exp + k1 as int);
            }
        }
        r
    }

    /// The effective power an exponent operand denotes: its mantissa
    /// scaled by its own power of ten (the multiplier is not consulted).
    pub open spec fn pow_operand(self) -> Frac {
        frac_mul(self.num.frac(), p10f(self.unit.exp as int))
    }

    /// Raising componentwise to an integer power commutes with
    /// assembling the magnitude from mantissa, multiplier and exponent.
    proof fn lemma_powz_val(nf: Frac, mf: Frac, e: int, p: int)
        ensures
            frac_mul(frac_powz(nf, p), frac_mul(frac_powz(mf, p), p10f(e * p)))
                == frac_powz(frac_mul(nf, frac_mul(mf, p10f(e))), p),
    {
        let pe = p10f(e);
        if p >= 0 {
            let k = p as nat;
            lemma_powi_distributes(nf.n, mf.n * pe.n, k);
            lemma_powi_distributes(mf.n, pe.n, k);
            lemma_powi_distributes(nf.d, mf.d * pe.d, k);
            lemma_powi_distributes(mf.d, pe.d, k);
            lemma_powi_one(k);
            if e >= 0 {
                assert(e * p >= 0) by (nonlinear_arith)
                    requires
                        e >= 0,
                        p >= 0,
                ;
                lemma_powi_multiplies(10, e as nat, k);
                assert((e as nat) * k == (e * p) as nat) by (nonlinear_arith)
                    requires
                        e >= 0,
                        p >= 0,
                        k == p,
                ;
                assert(powi(pe.n, k) == p10((e * p) as nat));
                assert(powi(pe.d, k) == 1);
            } else {
                lemma_powi_multiplies(10, (-e) as nat, k);
                assert(((-e) as nat) * k == -(e * p)) by (nonlinear_arith)
                    requires
                        e < 0,
                        p >= 0,
                        k == p,
                ;
                assert(e * p <= 0) by (nonlinear_arith)
                    requires
                        e < 0,
                        p >= 0,
                ;
                if e * p == 0 {
                    assert(p == 0) by (nonlinear_arith)
                        requires
                            e < 0,
                            p >= 0,
                            e * p == 0,
                    ;
                    assert(powi(pe.d, 0) == 1);
                    assert(powi(pe.n, 0) == 1);
                } else {
                    assert(powi(pe.d, k) == p10((-(e * p)) as nat));
                    assert(powi(pe.n, k) == 1);
                }
            }
            assert(frac_mul(frac_powz(nf, p), frac_mul(frac_powz(mf, p), p10f(e * p))).n
                == frac_powz(frac_mul(nf, frac_mul(mf, pe)), p).n);
            assert(frac_mul(frac_powz(nf, p), frac_mul(frac_powz(mf, p), p10f(e * p))).d
                == frac_powz(frac_mul(nf, frac_mul(mf, pe)), p).d);
        } else {
            let k = (-p) as nat;
            lemma_powi_distributes(nf.n, mf.n * pe.n, k);
            lemma_powi_distributes(mf.n, pe.n, k);
            lemma_powi_distributes(nf.d, mf.d * pe.d, k);
            lemma_powi_distributes(mf.d, pe.d, k);
            lemma_powi_one(k);
            if e >= 0 {
                assert(e * p <= 0) by (nonlinear_arith)
                    requires
                        e >= 0,
                        p < 0,
                ;
                lemma_powi_multiplies(10, e as nat, k);
                assert((e as nat) * k == -(e * p)) by (nonlinear_arith)
                    requires
                        e >= 0,
                        p < 0,
                        k == -p,
                ;
                if e * p == 0 {
                    assert(e == 0) by (nonlinear_arith)
                        requires
                            e >= 0,
                            p < 0,
                            e * p == 0,
                    ;
                    assert(powi(pe.n, k) == 1);
                    assert(powi(pe.d, k) == 1);
                } else {
                    assert(powi(pe.n, k) == p10((-(e * p)) as nat));
                    assert(powi(pe.d, k) == 1);
                }
            } else {
                assert(e * p > 0) by (nonlinear_arith)
                    requires
                        e < 0,
                        p < 0,
                ;
                lemma_powi_multiplies(10, (-e) as nat, k);
                assert(((-e) as nat) * k == e * p) by (nonlinear_arith)
                    requires
                        e < 0,
                        p < 0,
                        k == -p,
                ;
                assert(powi(pe.d, k) == p10((e * p) as nat));
                assert(powi(pe.n, k) == 1);
            }
            assert(frac_mul(frac_powz(nf, p), frac_mul(frac_powz(mf, p), p10f(e * p))).n
                == frac_powz(frac_mul(nf, frac_mul(mf, pe)), p).n);
            assert(frac_mul(frac_powz(nf, p), frac_mul(frac_powz(mf, p), p10f(e * p))).d
                == frac_powz(frac_mul(nf, frac_mul(mf, pe)), p).d);
        }
    }

    /// Exponentiation.  The exponent operand must be dimensionless or
    /// have a whole mantissa; the base's unit is raised to the whole
    /// effective power and the mantissa to the same power, exactly,
    /// then the result is re-canonicalized.
    ///
    /// Restriction: the effective power must itself be a whole number.
    /// A dimensionless fractional power (say one half) has an
    /// irrational result in general, which an exact rational engine
    /// cannot hold; such a call returns `InvalidExponent` rather than
    /// an approximation.  A caller that wants the approximate real
    /// power must compute it in floating point outside this library.
    pub fn pow(&self, rhs: &Val) -> (r: Result<Val, ValError>)
        requires
            self.wf(),
            rhs.wf(),
            self.unit.desc.in_range(),
            self.num.within(RAT_LIMIT as int),
            self.unit.mult.within(RAT_LIMIT as int),
            rhs.num.within(MUL_LIMIT as int),
            -18 <= rhs.unit.exp <= 18,
            -EXP_LIMIT <= self.unit.exp <= EXP_LIMIT,
            frac_is_whole(rhs.pow_operand()) ==> ({
                let p = frac_whole(rhs.pow_operand());
                &&& -32 <= p <= 32
                &&& powi(absi(self.num.n as int), absi(p) as nat) <= RAT_LIMIT
                &&& powi(self.num.d as int, absi(p) as nat) <= RAT_LIMIT
                &&& powi(self.unit.mult.n as int, absi(p) as nat) <= RAT_LIMIT
                &&& powi(self.unit.mult.d as int, absi(p) as nat) <= RAT_LIMIT
                &&& -EXP_LIMIT <= self.unit.exp * p <= EXP_LIMIT
                &&& (p < 0 ==> self.num.n != 0)
            }),
        ensures
            (r is Ok) == ({
                &&& rhs.unit.desc == (Dim { length: 0, mass: 0, time: 0 })
                    || frac_is_whole(rhs.num.frac())
                &&& frac_is_whole(rhs.pow_operand())
            }),
            r matches Err(e) ==> e == ValError::InvalidExponent,
            r matches Ok(res) ==> ({
                let p = frac_whole(rhs.pow_operand());
                &&& res.wf()
                &&& res.canonical()
                &&& res.unit.desc == (Dim {
                    length: (self.unit.desc.length * p) as i64,
                    mass: (self.unit.desc.mass * p) as i64,
                    time: (self.unit.desc.time * p) as i64,
                })
                &&& frac_eq(res.val_frac(), frac_powz(self.val_frac(), p))
                &&& (res.num.n != 0 && (p >= 0 || self.num.n > 0) ==> exists|k1: int, k2: int|
                    #![trigger norm_rel(frac_powz(self.num.frac(), p), res.num, k1), norm_rel(frac_powz(self.unit.mult.frac(), p), res.unit.mult, k2)]
                    {
                        &&& norm_rel(frac_powz(self.num.frac(), p), res.num, k1)
                        &&& norm_rel(frac_powz(self.unit.mult.frac(), p), res.unit.mult, k2)
                        &&& res.unit.exp == self.unit.exp * p + k1 + k2
                    })
            }),
    {
        let dimless = self.is_dimless_rhs(rhs);
        let rna = if rhs.num.n < 0 { -rhs.num.n } else { rhs.num.n };
        let mant_int = rna % rhs.num.d == 0;
        proof {
            if rhs.num.n < 0 {
                if rna as int % (rhs.num.d as int) == 0 {
                    lemma_exact_div_neg(rna as int, rhs.num.d as int);
                } else if rhs.num.n as int % (rhs.num.d as int) == 0 {
                    lemma_exact_div_neg(rhs.num.n as int, rhs.num.d as int);
                }
            }
            assert(mant_int == frac_is_whole(rhs.num.frac()));
        }
        if !(dimless || mant_int) {
            return Err(ValError::InvalidExponent);
        }
        proof {
            lemma_p10_consts();
        }
        let e = rhs.unit.exp;
        let (tn, td) = if e >= 0 {
            let pw = pow10_i128(e as u32);
            proof {
                lemma_powi_increases(10, e as nat, 18);
                lemma_mul_bounds(
                    rhs.num.n as int,
                    pw as int,
                    MUL_LIMIT as int,
                    MUL_LIMIT as int,
                );
            }
            (rhs.num.n * pw, rhs.num.d)
        } else {
            let pw = pow10_i128((-e) as u32);
            proof {
                lemma_powi_increases(10, (-e) as nat, 18);
                lemma_mul_bounds(
                    rhs.num.d as int,
                    pw as int,
                    MUL_LIMIT as int,
                    MUL_LIMIT as int,
                );
                lemma_pos2(rhs.num.d as int, pw as int);
            }
            (rhs.num.n, rhs.num.d * pw)
        };
        proof {
            let op = rhs.pow_operand();
            if e >= 0 {
                assert(op.d == rhs.num.d as int * 1);
            } else {
                assert(op.n == rhs.num.n as int * 1);
            }
            assert(tn as int == op.n && td as int == op.d);
        }
        let ta = if tn < 0 { -tn } else { tn };
        let divisible = ta % td == 0;
        proof {
            let op = rhs.pow_operand();
            if tn < 0 {
                if ta as int % (td as int) == 0 {
                    lemma_exact_div_neg(ta as int, td as int);
                } else if op.n % op.d == 0 {
                    lemma_exact_div_neg(op.n, op.d);
                }
            }
            assert(divisible == frac_is_whole(op));
        }
        if !divisible {
            return Err(ValError::InvalidExponent);
        }
        let q = ta / td;
        let p128: i128 = if tn < 0 { -q } else { q };
        proof {
            let op = rhs.pow_operand();
            if tn < 0 {
                lemma_exact_div_neg(ta as int, td as int);
                assert(op.n / op.d == -(ta as int / (td as int)));
            }
            assert(p128 as int == frac_whole(op));
        }
        let pi: i64 = p128 as i64;
        let numv = self.num.powz(pi);
        let u = self.unit.pow(pi);
        let pre = Val { num: numv, unit: u };
        let res = pre.clamp_num();
        proof {
            let nf = self.num.frac();
            let mf = self.unit.mult.frac();
            let p = pi as int;
            Val::lemma_powz_val(nf, mf, self.unit.exp as int, p);
            assert(u.exp as int == self.unit.exp as int * p);
            let rest = frac_mul(frac_powz(mf, p), p10f(self.unit.exp as int * p));
            assert(pre.val_frac() == frac_mul(numv.frac(), rest));
            assert(frac_eq(rest, rest));
            lemma_frac_mul_cong(numv.frac(), rest, frac_powz(nf, p), rest);
            // The middle term's denominator is nonzero.
            let k = absi(p) as nat;
            lemma_p10f_pos(self.unit.exp as int * p);
            if p >= 0 {
                lemma_powi_pos(nf.d, k);
                assert(frac_powz(nf, p).d >= 1);
            } else {
                lemma_powi_abs(nf.n, k);
                lemma_powi_pos(absi(nf.n), k);
                assert(frac_powz(nf, p).d != 0);
            }
            if p >= 0 {
                lemma_powi_pos(mf.d, k);
            } else {
                lemma_powi_pos(mf.n, k);
            }
            assert(rest.d >= 1) by (nonlinear_arith)
                requires
                    frac_powz(mf, p).d >= 1,
                    p10f(self.unit.exp as int * p).d >= 1,
                    rest.d == frac_powz(mf, p).d * p10f(self.unit.exp as int * p).d,
            ;
            let mid = frac_mul(frac_powz(nf, p), rest);
            assert(mid.d != 0) by (nonlinear_arith)
                requires
                    frac_powz(nf, p).d != 0,
                    rest.d >= 1,
                    mid.d == frac_powz(nf, p).d * rest.d,
            ;
            pre.lemma_val_frac_pos();
            lemma_frac_eq_trans(res.val_frac(), pre.val_frac(), mid);
            assert(mid == frac_powz(self.val_frac(), p));
            if res.num.n != 0 && (p >= 0 || self.num.n > 0) {
                if self.num.n == 0 {
                    assert(p == 0 && numv == (Rat { n: 1int as i128, d: 1int as i128 }));
                    assert(frac_powz(nf, 0) == (Frac { n: powi(nf.n, 0), d: powi(nf.d, 0) }));
                }
                assert(numv.frac() == frac_powz(nf, p));
                let (k1, k2) = choose|k1: int, k2: int|
                    #![trigger norm_rel(pre.num.frac(), res.num, k1), norm_rel(pre.unit.mult.frac(), res.unit.mult, k2)]
                    {
                        &&& norm_rel(pre.num.frac(), res.num, k1)
                        &&& norm_rel(pre.unit.mult.frac(), res.unit.mult, k2)
                        &&& res.unit.exp == pre.unit.exp + k1 + k2
                    };
                assert(norm_rel(frac_powz(nf, p), res.num, k1)
                    && norm_rel(frac_powz(mf, p), res.unit.mult, k2)
                    && res.unit.exp == self.unit.exp * p + k1 + k2);
            }
        }
        Ok(res)
    }

    /// Whether the exponent operand is dimensionless.
    fn is_dimless_rhs(&self, rhs: &Val) -> (r: bool)
        ensures
            r == (rhs.unit.desc == (Dim { length: 0, mass: 0, time: 0 })),
    {
        rhs.unit.desc.is_none()
    }

    /// The display text of a value: an optional minus sign, the
    /// decimal digits of the integer part of the expanded magnitude
    /// `num * mult * 10^exp`, a point and up to 24 fraction digits with
    /// trailing zeros trimmed when the fraction is non-empty, and, for
    /// a dimensioned value, a space and the unit's symbol.
    pub open spec fn display_seq(v: Val) -> Seq<char> {
        let nn0 = v.num.n as int * v.unit.mult.n as int;
        let dd0 = v.num.d as int * v.unit.mult.d as int;
        let e = v.unit.exp as int;
        let nn = if e >= 0 { nn0 * p10(e as nat) } else { nn0 };
        let dd = if e >= 0 { dd0 } else { dd0 * p10((-e) as nat) };
        let a = absi(nn);
        let f = trimz(frac_seq(a % dd, dd, 24));
        let numpart = (if nn < 0 { seq!['-'] } else { Seq::<char>::empty() })
            + dec_seq(a / dd)
            + (if f.len() > 0 { seq!['.'] + f } else { Seq::<char>::empty() });
        if v.unit.desc == (Dim { length: 0, mass: 0, time: 0 }) {
            numpart
        } else {
            numpart + seq![' '] + sym_seq(v.unit.desc)
        }
    }

    /// Renders the fully-expanded decimal magnitude
    /// (`num * mult * 10^exp`) followed by the unit's symbol, trimmed.
    /// The fraction is cut off after 24 digits, so the text is lossy
    /// for non-terminating decimals and is not the primary form.
    pub fn to_display_string(&self) -> (r: String)
        requires
            self.wf(),
            self.unit.desc.in_range(),
            -MUL_LIMIT <= self.num.n * self.unit.mult.n <= MUL_LIMIT,
            self.num.d * self.unit.mult.d <= MUL_LIMIT,
            -18 <= self.unit.exp <= 18,
        ensures
            r@ == Val::display_seq(*self),
    {
        proof {
            lemma_p10_consts();
            lemma_pos2(self.num.d as int, self.unit.mult.d as int);
        }
        let mut nn = self.num.n * self.unit.mult.n;
        let mut dd = self.num.d * self.unit.mult.d;
        let e = self.unit.exp;
        if e >= 0 {
            let pw = pow10_i128(e as u32);
            proof {
                lemma_powi_increases(10, e as nat, 18);
                lemma_mul_bounds(nn as int, pw as int, MUL_LIMIT as int, MUL_LIMIT as int);
            }
            nn = nn * pw;
        } else {
            let pw = pow10_i128((-e) as u32);
            proof {
                lemma_powi_increases(10, (-e) as nat, 18);
                lemma_mul_bounds(dd as int, pw as int, MUL_LIMIT as int, MUL_LIMIT as int);
                lemma_pos2(dd as int, pw as int);
            }
            dd = dd * pw;
        }
        proof {
            assert(nn as int == (if self.unit.exp >= 0 {
                (self.num.n as int * self.unit.mult.n as int) * p10(self.unit.exp as nat)
            } else {
                self.num.n as int * self.unit.mult.n as int
            }));
            assert(dd as int == (if self.unit.exp >= 0 {
                self.num.d as int * self.unit.mult.d as int
            } else {
                (self.num.d as int * self.unit.mult.d as int) * p10((-self.unit.exp) as nat)
            }));
        }
        let neg = nn < 0;
        let a = if neg { -nn } else { nn };
        let q = a / dd;
        let mut rem = a % dd;
        let ghost rem0: int = rem as int;
        let mut out = String::new();
        if neg {
            crate::text::push_char(&mut out, '-');
        }
        let ghost sign_part = out@;
        crate::text::push_decimal(&mut out, q);
        let ghost int_part = out@;
        let mut frac: Vec<u8> = Vec::new();
        let mut i: usize = 0;
        proof {
            assert(0 <= (a as int) % (dd as int) < dd as int) by (nonlinear_arith)
                requires
                    dd >= 1,
                    a >= 0,
            ;
        }
        while i < 24 && rem != 0
            invariant
                0 <= rem < dd,
                1 <= dd <= 1_000_000_000_000_000_000_000_000_000_000_000_000i128,
                0 <= i <= 24,
                frac@.map_values(|x: u8| dchar(x as int))
                    + frac_seq(rem as int, dd as int, (24 - i) as nat)
                    == frac_seq(rem0, dd as int, 24),
                forall|t: int| 0 <= t < frac@.len() ==> frac@[t] <= 9,
            decreases 24 - i,
        {
            let ghost frac_pre = frac@;
            let sc = rem * 10;
            let d = sc / dd;
            proof {
                assert(0 <= (sc as int) / (dd as int) < 10 && 0 <= (sc as int) % (dd as int) < dd as int)
                    by (nonlinear_arith)
                    requires
                        dd >= 1,
                        0 <= sc < 10 * (dd as int),
                ;
            }
            frac.push(d as u8);
            proof {
                assert(frac@.map_values(|x: u8| dchar(x as int))
                    =~= frac_pre.map_values(|x: u8| dchar(x as int)).push(dchar(d as int)));
                assert(frac_seq(rem as int, dd as int, (24 - i) as nat)
                    == seq![dchar(d as int)] + frac_seq((sc as int) % (dd as int), dd as int, (24 - (i + 1)) as nat));
                assert(frac@.map_values(|x: u8| dchar(x as int))
                    + frac_seq((sc as int) % (dd as int), dd as int, (24 - (i + 1)) as nat)
                    =~= frac_pre.map_values(|x: u8| dchar(x as int))
                        + frac_seq(rem as int, dd as int, (24 - i) as nat));
            }
            rem = sc % dd;
            i = i + 1;
        }
        proof {
            assert(frac_seq(rem as int, dd as int, (24 - i) as nat) =~= Seq::<char>::empty());
            assert(frac@.map_values(|x: u8| dchar(x as int)) =~= frac_seq(rem0, dd as int, 24));
        }
        let ghost full_digits = frac@.map_values(|x: u8| dchar(x as int));
        while frac.len() > 0 && frac[frac.len() - 1] == 0
            invariant
                trimz(frac@.map_values(|x: u8| dchar(x as int))) == trimz(full_digits),
                forall|t: int| 0 <= t < frac@.len() ==> frac@[t] <= 9,
            decreases frac.len(),
        {
            let ghost frac_pre = frac@;
            frac.pop();
            proof {
                assert(frac@ =~= frac_pre.drop_last());
                assert(frac@.map_values(|x: u8| dchar(x as int))
                    =~= frac_pre.map_values(|x: u8| dchar(x as int)).drop_last());
                assert(frac_pre.map_values(|x: u8| dchar(x as int)).last() == '0');
            }
        }
        proof {
            let cur = frac@.map_values(|x: u8| dchar(x as int));
            if frac@.len() > 0 {
                assert(frac@.last() != 0);
                assert(cur.last() == dchar(frac@.last() as int));
                assert(cur.last() != '0');
            }
            assert(trimz(cur) == cur);
        }
        if frac.len() > 0 {
            crate::text::push_char(&mut out, '.');
            let ghost dot_part = out@;
            let mut j: usize = 0;
            while j < frac.len()
                invariant
                    0 <= j <= frac@.len(),
                    out@ == dot_part + frac@.map_values(|x: u8| dchar(x as int)).take(j as int),
                    forall|t: int| 0 <= t < frac@.len() ==> frac@[t] <= 9,
                    dot_part == int_part.push('.'),
                decreases frac@.len() - j,
            {
                crate::text::push_char(&mut out, crate::text::digit_char(frac[j]));
                proof {
                    assert(out@ =~= dot_part
                        + frac@.map_values(|x: u8| dchar(x as int)).take(j as int + 1));
                }
                j = j + 1;
            }
            proof {
                assert(frac@.map_values(|x: u8| dchar(x as int)).take(frac@.len() as int)
                    =~= frac@.map_values(|x: u8| dchar(x as int)));
            }
        }
        let ghost num_part = out@;
        if !self.unit.desc.is_none() {
            crate::text::push_char(&mut out, ' ');
            self.unit.push_symbol(&mut out);
        }
        proof {
            let cur = frac@.map_values(|x: u8| dchar(x as int));
            assert(cur == trimz(frac_seq(rem0, dd as int, 24)));
            assert(sign_part =~= (if (nn as int) < 0 { seq!['-'] } else { Seq::<char>::empty() }));
            assert(int_part =~= sign_part + dec_seq((a as int) / (dd as int)));
            assert(num_part =~= sign_part + dec_seq((a as int) / (dd as int))
                + (if cur.len() > 0 { seq!['.'] + cur } else { Seq::<char>::empty() }));
            assert(out@ =~= Val::display_seq(*self));
        }
        out
    }

    /// Commutativity of addition: any two values that satisfy the
    /// contract of `add` for `(a, b)` and for `(b, a)` denote the same
    /// magnitude.
    pub proof fn lemma_add_commutative(a: Val, b: Val, r1: Val, r2: Val)
        requires
            a.wf(),
            b.wf(),
            r1.wf(),
            r2.wf(),
            frac_eq(r1.val_frac(), frac_add(a.val_frac(), b.val_frac())),
            frac_eq(r2.val_frac(), frac_add(b.val_frac(), a.val_frac())),
        ensures
            frac_eq(r1.val_frac(), r2.val_frac()),
    {
        let va = a.val_frac();
        let vb = b.val_frac();
        a.lemma_val_frac_pos();
        b.lemma_val_frac_pos();
        assert(va.d * vb.d == vb.d * va.d) by (nonlinear_arith);
        assert(frac_add(va, vb) == frac_add(vb, va));
        lemma_pos2(va.d, vb.d);
        lemma_frac_eq_trans(r1.val_frac(), frac_add(va, vb), r2.val_frac());
    }
}

} // verus!
