//! Units: a dimension descriptor together with a base-10 scale.
//!
//! A `Unit` scales the mantissa of a value by `mult * 10^exp` and gives
//! it the physical dimension `desc`.  Units compose under
//! multiplication, division and integer powers; dimensional
//! compatibility is equality of descriptors.

use vstd::prelude::*;
use crate::dim::{BaseUnit, Dim};
use crate::text::{dchar, dec_seq, push_decimal};
use crate::rat::{
    absi, frac_eq, frac_mul, frac_powz, lemma_frac_eq_trans, lemma_frac_mul_cong,
    lemma_p10f_adds, lemma_p10f_pos, lemma_pos2, lemma_powi_pos, p10f, powi, Frac, Rat,
    RAT_LIMIT,
};

verus! {

/// Bound on the exponent field accepted by the unit and value
/// operations; far from the `i64` range so that canonicalization can
/// always fold a few more orders of ten into it.
pub const EXP_LIMIT: i64 = 1_000_000_000_000_000;

/// An immutable descriptor of a physical dimension and its base-10
/// scale: the scale factor is `mult * 10^exp`.
#[derive(Clone, Copy, Debug, PartialEq, Eq, Structural)]
pub struct Unit {
    pub desc: Dim,
    pub mult: Rat,
    pub exp: i64,
}

/// The text of one base-unit factor of a symbol: a `*` separator
/// unless it is the first factor, the base unit's letter, and `^`
/// with the signed power when the power is not one.
pub open spec fn sym_part(sym: char, p: int, first: bool) -> Seq<char> {
    let head = (if first {
        Seq::<char>::empty()
    } else {
        seq!['*']
    }).push(sym);
    if p == 1 {
        head
    } else if p >= 0 {
        head.push('^') + dec_seq(p)
    } else {
        head.push('^').push('-') + dec_seq(-p)
    }
}

/// The text of a descriptor's symbol: its base units with nonzero
/// powers, in the fixed base-unit order.
pub open spec fn sym_seq(d: Dim) -> Seq<char> {
    (if d.length != 0 {
        sym_part('m', d.length as int, true)
    } else {
        Seq::<char>::empty()
    }) + (if d.mass != 0 {
        sym_part('g', d.mass as int, d.length == 0)
    } else {
        Seq::<char>::empty()
    }) + (if d.time != 0 {
        sym_part('s', d.time as int, d.length == 0 && d.mass == 0)
    } else {
        Seq::<char>::empty()
    })
}

impl Unit {
    /// Positive multiplier over a positive denominator.
    pub open spec fn wf(self) -> bool {
        &&& self.mult.wf()
        &&& self.mult.n >= 1
    }

    /// The scale factor `mult * 10^exp` as a spec rational.
    pub open spec fn scale(self) -> Frac {
        frac_mul(self.mult.frac(), p10f(self.exp as int))
    }

    /// The scale factor's numerator and denominator are positive.
    pub proof fn lemma_scale_pos(self)
        requires
            self.wf(),
        ensures
            self.scale().n >= 1,
            self.scale().d >= 1,
    {
        lemma_p10f_pos(self.exp as int);
        lemma_pos2(self.mult.n as int, p10f(self.exp as int).n);
        lemma_pos2(self.mult.d as int, p10f(self.exp as int).d);
    }

    /// The dimensionless unit: identity for multiply and divide.
    pub fn empty() -> (r: Unit)
        ensures
            r == (Unit { desc: Dim { length: 0, mass: 0, time: 0 }, mult: Rat { n: 1, d: 1 }, exp: 0 }),
            r.wf(),
    {
        Unit { desc: Dim::none(), mult: Rat::one(), exp: 0 }
    }

    /// The unit of a single atomic base unit: multiplier one, exponent zero.
    pub fn base(b: BaseUnit) -> (r: Unit)
        ensures
            r.desc == Dim::of_base_spec(b),
            r.mult == (Rat { n: 1, d: 1 }),
            r.exp == 0,
            r.wf(),
            r.desc.in_range(),
    {
        Unit { desc: Dim::of_base(b), mult: Rat::one(), exp: 0 }
    }

    /// Dimensional compatibility: equality of descriptors, ignoring
    /// `mult` and `exp`.
    pub fn equal_dimension(&self, other: &Unit) -> (r: bool)
        ensures
            r == (self.desc == other.desc),
    {
        self.desc == other.desc
    }

    /// Composition of units: descriptors compose, multipliers multiply,
    /// exponents add.  The combined scale factor is the product of the
    /// two scale factors.
    pub fn multiply(self, other: Unit) -> (r: Unit)
        requires
            self.wf(),
            other.wf(),
            self.desc.in_range(),
            other.desc.in_range(),
            self.mult.within(crate::rat::MUL_LIMIT as int),
            other.mult.within(crate::rat::MUL_LIMIT as int),
            -EXP_LIMIT <= self.exp <= EXP_LIMIT,
            -EXP_LIMIT <= other.exp <= EXP_LIMIT,
        ensures
            r.wf(),
            r.desc == (Dim {
                length: (self.desc.length + other.desc.length) as i64,
                mass: (self.desc.mass + other.desc.mass) as i64,
                time: (self.desc.time + other.desc.time) as i64,
            }),
            r.mult.frac() == frac_mul(self.mult.frac(), other.mult.frac()),
            r.exp == self.exp + other.exp,
            frac_eq(r.scale(), frac_mul(self.scale(), other.scale())),
    {
        proof {
            crate::rat::lemma_mul_bounds(
                self.mult.n as int,
                other.mult.n as int,
                crate::rat::MUL_LIMIT as int,
                crate::rat::MUL_LIMIT as int,
            );
            crate::rat::lemma_mul_bounds(
                self.mult.d as int,
                other.mult.d as int,
                crate::rat::MUL_LIMIT as int,
                crate::rat::MUL_LIMIT as int,
            );
            lemma_pos2(self.mult.n as int, other.mult.n as int);
        }
        let mult = self.mult.times(other.mult);
        let r = Unit { desc: self.desc.compose(other.desc), mult, exp: self.exp + other.exp };
        proof {
            self.lemma_scale_mul(other, r);
        }
        r
    }

    /// The combined scale of `multiply` denotes the product of the scales.
    proof fn lemma_scale_mul(self, other: Unit, r: Unit)
        requires
            self.wf(),
            other.wf(),
            r.mult.frac() == frac_mul(self.mult.frac(), other.mult.frac()),
            r.exp == self.exp + other.exp,
            r.mult.wf(),
        ensures
            frac_eq(r.scale(), frac_mul(self.scale(), other.scale())),
    {
        let m1 = self.mult.frac();
        let m2 = other.mult.frac();
        let pa = p10f(self.exp as int);
        let pb = p10f(other.exp as int);
        let pc = p10f(r.exp as int);
        let m = frac_mul(m1, m2);
        lemma_p10f_pos(self.exp as int);
        lemma_p10f_pos(other.exp as int);
        lemma_p10f_pos(r.exp as int);
        lemma_p10f_adds(self.exp as int, other.exp as int);
        // r.scale() == frac_mul(m, pc) and pc denotes frac_mul(pa, pb).
        assert(frac_eq(m, m));
        lemma_frac_mul_cong(m, pc, m, frac_mul(pa, pb));
        // Regroup the product of four factors.
        let mid = frac_mul(m, frac_mul(pa, pb));
        assert((m1.n * m2.n) * (pa.n * pb.n) == (m1.n * pa.n) * (m2.n * pb.n)) by (nonlinear_arith);
        assert((m1.d * m2.d) * (pa.d * pb.d) == (m1.d * pa.d) * (m2.d * pb.d)) by (nonlinear_arith);
        assert(mid.n == frac_mul(frac_mul(m1, pa), frac_mul(m2, pb)).n);
        assert(mid.d == frac_mul(frac_mul(m1, pa), frac_mul(m2, pb)).d);
        assert(frac_eq(mid, frac_mul(self.scale(), other.scale())));
        lemma_pos2(m1.d, m2.d);
        lemma_pos2(pa.d, pb.d);
        lemma_pos2(m1.d * m2.d, pa.d * pb.d);
        lemma_frac_eq_trans(frac_mul(m, pc), mid, frac_mul(self.scale(), other.scale()));
    }

    /// Division of units: descriptors subtract, multipliers divide,
    /// exponents subtract.  The quotient's scale times the divisor's
    /// scale is the dividend's scale.
    pub fn divide(self, other: Unit) -> (r: Unit)
        requires
            self.wf(),
            other.wf(),
            self.desc.in_range(),
            other.desc.in_range(),
            self.mult.within(crate::rat::MUL_LIMIT as int),
            other.mult.within(crate::rat::MUL_LIMIT as int),
            -EXP_LIMIT <= self.exp <= EXP_LIMIT,
            -EXP_LIMIT <= other.exp <= EXP_LIMIT,
        ensures
            r.wf(),
            r.desc == (Dim {
                length: (self.desc.length - other.desc.length) as i64,
                mass: (self.desc.mass - other.desc.mass) as i64,
                time: (self.desc.time - other.desc.time) as i64,
            }),
            r.mult.frac() == (Frac {
                n: self.mult.n * other.mult.d,
                d: self.mult.d * other.mult.n,
            }),
            r.exp == self.exp - other.exp,
            frac_eq(frac_mul(r.scale(), other.scale()), self.scale()),
    {
        proof {
            crate::rat::lemma_mul_bounds(
                self.mult.n as int,
                other.mult.d as int,
                crate::rat::MUL_LIMIT as int,
                crate::rat::MUL_LIMIT as int,
            );
            crate::rat::lemma_mul_bounds(
                self.mult.d as int,
                other.mult.n as int,
                crate::rat::MUL_LIMIT as int,
                crate::rat::MUL_LIMIT as int,
            );
            lemma_pos2(self.mult.d as int, other.mult.n as int);
            lemma_pos2(self.mult.n as int, other.mult.d as int);
        }
        let mult = Rat { n: self.mult.n * other.mult.d, d: self.mult.d * other.mult.n };
        let r = Unit { desc: self.desc.quotient(other.desc), mult, exp: self.exp - other.exp };
        proof {
            self.lemma_scale_div(other, r);
        }
        r
    }

    /// The quotient scale of `divide`, multiplied back by the divisor's
    /// scale, denotes the dividend's scale.
    proof fn lemma_scale_div(self, other: Unit, r: Unit)
        requires
            self.wf(),
            other.wf(),
            r.mult.frac() == (Frac {
                n: self.mult.n * other.mult.d,
                d: self.mult.d * other.mult.n,
            }),
            r.exp == self.exp - other.exp,
            r.mult.wf(),
        ensures
            frac_eq(frac_mul(r.scale(), other.scale()), self.scale()),
    {
        let m1 = self.mult.frac();
        let m2 = other.mult.frac();
        let pa = p10f(self.exp as int);
        let pb = p10f(other.exp as int);
        let pr = p10f(r.exp as int);
        lemma_p10f_pos(self.exp as int);
        lemma_p10f_pos(other.exp as int);
        lemma_p10f_pos(r.exp as int);
        lemma_p10f_adds(r.exp as int, other.exp as int);
        // frac_mul(pr, pb) denotes pa.
        let x = frac_mul(r.scale(), other.scale());
        let cancel = Frac { n: m1.n * (m2.d * m2.n), d: m1.d * (m2.n * m2.d) };
        let mid = frac_mul(cancel, frac_mul(pr, pb));
        assert(((m1.n * m2.d) * pr.n) * (m2.n * pb.n) == (m1.n * (m2.d * m2.n)) * (pr.n * pb.n))
            by (nonlinear_arith);
        assert(((m1.d * m2.n) * pr.d) * (m2.d * pb.d) == (m1.d * (m2.n * m2.d)) * (pr.d * pb.d))
            by (nonlinear_arith);
        assert(x.n == mid.n);
        assert(x.d == mid.d);
        assert(frac_eq(x, mid));
        // The m2 factors cancel, and the powers of ten collapse to pa.
        assert((m1.n * (m2.d * m2.n)) * m1.d == m1.n * (m1.d * (m2.n * m2.d))) by (nonlinear_arith);
        assert(frac_eq(cancel, m1));
        lemma_frac_mul_cong(cancel, frac_mul(pr, pb), m1, pa);
        lemma_pos2(m2.n, m2.d);
        lemma_pos2(m1.d, m2.n * m2.d);
        lemma_pos2(pr.d, pb.d);
        lemma_pos2(m1.d * (m2.n * m2.d), pr.d * pb.d);
        lemma_frac_eq_trans(x, mid, self.scale());
    }

    /// Appends this unit's symbol: each base unit with a nonzero power,
    /// with `^` for powers other than one and `*` between factors.
    pub fn push_symbol(&self, out: &mut String)
        requires
            self.desc.in_range(),
        ensures
            final(out)@ == old(out)@ + sym_seq(self.desc),
    {
        let ghost pre = out@;
        let mut first = true;
        if self.desc.length != 0 {
            Unit::push_base(out, 'm', self.desc.length, first);
            first = false;
        }
        let ghost mid1 = out@;
        if self.desc.mass != 0 {
            Unit::push_base(out, 'g', self.desc.mass, first);
            first = false;
        }
        let ghost mid2 = out@;
        if self.desc.time != 0 {
            Unit::push_base(out, 's', self.desc.time, first);
        }
        proof {
            assert(out@ =~= pre + sym_seq(self.desc));
        }
    }

    /// Appends one base-unit factor of a symbol.
    fn push_base(out: &mut String, sym: char, p: i64, first: bool)
        requires
            -crate::dim::DIM_POW_LIMIT <= p <= crate::dim::DIM_POW_LIMIT,
        ensures
            final(out)@ == old(out)@ + sym_part(sym, p as int, first),
    {
        if !first {
            crate::text::push_char(out, '*');
        }
        crate::text::push_char(out, sym);
        if p != 1 {
            crate::text::push_char(out, '^');
            if p < 0 {
                crate::text::push_char(out, '-');
                push_decimal(out, -(p as i128));
            } else {
                push_decimal(out, p as i128);
            }
        }
        proof {
            assert(out@ =~= old(out)@ + sym_part(sym, p as int, first));
        }
    }

    /// Raising to an integer power: descriptor powers scale, the
    /// multiplier is raised to the power, the exponent is multiplied.
    pub fn pow(self, p: i64) -> (r: Unit)
        requires
            self.wf(),
            self.desc.in_range(),
            -32 <= p <= 32,
            powi(self.mult.n as int, absi(p as int) as nat) <= RAT_LIMIT,
            powi(self.mult.d as int, absi(p as int) as nat) <= RAT_LIMIT,
            -EXP_LIMIT <= self.exp <= EXP_LIMIT,
            -EXP_LIMIT <= self.exp * p <= EXP_LIMIT,
        ensures
            r.wf(),
            r.desc == (Dim {
                length: (self.desc.length * p) as i64,
                mass: (self.desc.mass * p) as i64,
                time: (self.desc.time * p) as i64,
            }),
            r.exp == self.exp * p,
            r.mult.frac() == frac_powz(self.mult.frac(), p as int),
            r.mult.within(RAT_LIMIT as int),
    {
        proof {
            assert(absi(self.mult.n as int) == self.mult.n as int);
            let k = absi(p as int) as nat;
            lemma_powi_pos(self.mult.n as int, k);
            lemma_powi_pos(self.mult.d as int, k);
        }
        let mult = self.mult.powz(p);
        let desc = self.desc.scaled(p);
        Unit { desc, mult, exp: self.exp * p }
    }
}

} // verus!
