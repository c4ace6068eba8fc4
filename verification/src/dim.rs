//! Dimension descriptors: symbolic compositions of atomic base units
//! with integer powers.  Two units are dimensionally compatible exactly
//! when their descriptors are equal.

use vstd::prelude::*;

verus! {

/// An atomic base unit that a dimension descriptor is built from.
#[derive(Clone, Copy, Debug, PartialEq, Eq, Structural)]
pub enum BaseUnit {
    Meter,
    Gram,
    Second,
}

/// A dimension descriptor: the integer power of each atomic base unit.
/// The zero descriptor is the dimensionless one.
#[derive(Clone, Copy, Debug, PartialEq, Eq, Structural)]
pub struct Dim {
    pub length: i64,
    pub mass: i64,
    pub time: i64,
}

/// Bound on descriptor powers accepted by the composition operations;
/// far larger than any physically meaningful power, and small enough
/// that composing two in-range descriptors can never overflow.
pub const DIM_POW_LIMIT: i64 = 1_000_000_000_000;

impl Dim {
    /// Every power within `DIM_POW_LIMIT` in magnitude.
    pub open spec fn in_range(self) -> bool {
        &&& -DIM_POW_LIMIT <= self.length <= DIM_POW_LIMIT
        &&& -DIM_POW_LIMIT <= self.mass <= DIM_POW_LIMIT
        &&& -DIM_POW_LIMIT <= self.time <= DIM_POW_LIMIT
    }

    /// The dimensionless descriptor: no base unit occurs in it.
    pub fn none() -> (r: Dim)
        ensures
            r == (Dim { length: 0, mass: 0, time: 0 }),
    {
        Dim { length: 0, mass: 0, time: 0 }
    }

    /// The descriptor of a single atomic base unit, in specifications.
    pub open spec fn of_base_spec(b: BaseUnit) -> Dim {
        match b {
            BaseUnit::Meter => Dim { length: 1, mass: 0, time: 0 },
            BaseUnit::Gram => Dim { length: 0, mass: 1, time: 0 },
            BaseUnit::Second => Dim { length: 0, mass: 0, time: 1 },
        }
    }

    /// The descriptor of a single atomic base unit, to the first power.
    pub fn of_base(b: BaseUnit) -> (r: Dim)
        ensures
            r == Dim::of_base_spec(b),
            r.in_range(),
    {
        match b {
            BaseUnit::Meter => Dim { length: 1, mass: 0, time: 0 },
            BaseUnit::Gram => Dim { length: 0, mass: 1, time: 0 },
            BaseUnit::Second => Dim { length: 0, mass: 0, time: 1 },
        }
    }

    /// Composition under multiplication: per-base-unit powers add.
    pub fn compose(self, other: Dim) -> (r: Dim)
        requires
            self.in_range(),
            other.in_range(),
        ensures
            r == (Dim {
                length: (self.length + other.length) as i64,
                mass: (self.mass + other.mass) as i64,
                time: (self.time + other.time) as i64,
            }),
    {
        Dim {
            length: self.length + other.length,
            mass: self.mass + other.mass,
            time: self.time + other.time,
        }
    }

    /// Composition under division: per-base-unit powers subtract.
    pub fn quotient(self, other: Dim) -> (r: Dim)
        requires
            self.in_range(),
            other.in_range(),
        ensures
            r == (Dim {
                length: (self.length - other.length) as i64,
                mass: (self.mass - other.mass) as i64,
                time: (self.time - other.time) as i64,
            }),
    {
        Dim {
            length: self.length - other.length,
            mass: self.mass - other.mass,
            time: self.time - other.time,
        }
    }

    /// Raising to an integer power: every per-base-unit power is scaled by `p`.
    pub fn scaled(self, p: i64) -> (r: Dim)
        requires
            self.in_range(),
            -1_000_000 <= p <= 1_000_000,
        ensures
            r == (Dim {
                length: (self.length * p) as i64,
                mass: (self.mass * p) as i64,
                time: (self.time * p) as i64,
            }),
    {
        proof {
            assert(-0x7fff_ffff_ffff_ffff <= self.length * p <= 0x7fff_ffff_ffff_ffff)
                by (nonlinear_arith)
                requires
                    -DIM_POW_LIMIT <= self.length <= DIM_POW_LIMIT,
                    -1_000_000 <= p <= 1_000_000,
            ;
            assert(-0x7fff_ffff_ffff_ffff <= self.mass * p <= 0x7fff_ffff_ffff_ffff)
                by (nonlinear_arith)
                requires
                    -DIM_POW_LIMIT <= self.mass <= DIM_POW_LIMIT,
                    -1_000_000 <= p <= 1_000_000,
            ;
            assert(-0x7fff_ffff_ffff_ffff <= self.time * p <= 0x7fff_ffff_ffff_ffff)
                by (nonlinear_arith)
                requires
                    -DIM_POW_LIMIT <= self.time <= DIM_POW_LIMIT,
                    -1_000_000 <= p <= 1_000_000,
            ;
        }
        Dim {
            length: self.length * p,
            mass: self.mass * p,
            time: self.time * p,
        }
    }

    /// Whether this is the dimensionless descriptor.
    pub fn is_none(self) -> (r: bool)
        ensures
            r == (self == (Dim { length: 0, mass: 0, time: 0 })),
    {
        self.length == 0 && self.mass == 0 && self.time == 0
    }
}

} // verus!
