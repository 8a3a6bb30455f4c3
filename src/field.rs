//! Elements of the inner scalar field and points of the embedded group.
use vstd::prelude::*;

verus! {

/// Order of the inner scalar field (the scalar field of BLS12-377).
pub open spec fn field_modulus() -> int {
    0x12ab655e9a2ca556 * limb_base() * limb_base() * limb_base()
        + 0x60b44d1e5c37b001 * limb_base() * limb_base()
        + 0x59aa76fed0000001 * limb_base()
        + 0x0a11800000000001
}

/// The weight of one 64-bit limb.
pub open spec fn limb_base() -> int {
    0x1_0000_0000_0000_0000
}

/// The integer with the given four little-endian 64-bit limbs.
pub open spec fn limbs_value(l: Seq<u64>) -> int {
    l[0] as int + l[1] as int * limb_base() + l[2] as int * limb_base() * limb_base() + l[3] as int
        * limb_base() * limb_base() * limb_base()
}

/// `a - b` in the field.
pub open spec fn field_sub(a: int, b: int) -> int {
    (a - b) % field_modulus()
}

/// An element of the inner scalar field, in canonical form, as four
/// little-endian 64-bit limbs.
#[derive(Clone, Copy, Debug, PartialEq, Eq, Structural)]
pub struct Fe {
    l0: u64,
    l1: u64,
    l2: u64,
    l3: u64,
}

impl Fe {
    /// The integer this element stands for.
    pub closed spec fn val(self) -> int {
        self.l0 as int + self.l1 as int * limb_base() + self.l2 as int * limb_base() * limb_base()
            + self.l3 as int * limb_base() * limb_base() * limb_base()
    }

    pub fn from_u64(v: u64) -> (r: Fe)
        ensures
            r.val() == v as int,
    {
        Fe { l0: v, l1: 0, l2: 0, l3: 0 }
    }

    pub fn zero() -> (r: Fe)
        ensures
            r.val() == 0,
    {
        Fe::from_u64(0)
    }

    pub fn one() -> (r: Fe)
        ensures
            r.val() == 1,
    {
        Fe::from_u64(1)
    }

    /// The element whose canonical form has the given four little-endian
    /// limbs.
    pub fn from_limbs(l: [u64; 4]) -> (r: Fe)
        requires
            limbs_value(l@) < field_modulus(),
        ensures
            r.val() == limbs_value(l@),
    {
        Fe { l0: l[0], l1: l[1], l2: l[2], l3: l[3] }
    }

    /// The four little-endian limbs.
    pub fn limbs(&self) -> (r: [u64; 4])
        ensures
            self.val() == limbs_value(r@),
    {
        [self.l0, self.l1, self.l2, self.l3]
    }
}

/// The values of a list of field elements.
pub open spec fn fe_values(v: Seq<Fe>) -> Seq<int> {
    v.map_values(|f: Fe| f.val())
}

/// A point of the embedded group, in affine coordinates.
#[derive(Clone, Copy, Debug, PartialEq, Eq, Structural)]
pub struct Point {
    pub x: Fe,
    pub y: Fe,
}

impl Point {
    pub open spec fn coords(self) -> (int, int) {
        (self.x.val(), self.y.val())
    }

    /// The neutral element of the twisted Edwards group, `(0, 1)`.
    pub fn neutral() -> (r: Point)
        ensures
            r.coords() == neutral_coords(),
    {
        Point { x: Fe::zero(), y: Fe::one() }
    }
}

/// Coordinates of the neutral point.
pub open spec fn neutral_coords() -> (int, int) {
    (0, 1)
}

} // verus!
