//! A constraint system: wires, gates, and what it means for an assignment of
//! field values to satisfy them.
use crate::field::{Fe, Point, fe_values, field_sub};
use vstd::prelude::*;

verus! {

/// How a wire gets its value.
#[derive(Clone, Copy, Debug)]
pub enum Wire {
    /// A private value chosen by the prover.
    Witness(Fe),
    /// A value that is part of the public input vector.
    Public(Fe),
    /// A value fixed by the circuit itself.
    Constant(Fe),
    /// A value that a gate determines.
    Derived,
}

/// The cryptographic gadgets a backend has to provide.
#[derive(Clone, Copy, Debug, PartialEq, Eq, Structural)]
pub enum GadgetKind {
    /// Commitment of a record opening: `[addr, data.., is_dummy, pid_birth,
    /// pid_death, nonce, blinding]` to one element.
    RecordCommitment,
    /// Nullifier of a record opening: the opening's fields, then `nk`.
    Nullifier,
    /// Root of an accumulator path: `[uid, leaf, siblings..]`.
    MerkleRoot,
    /// Diversified address: `[ak.x, ak.y, nk, randomizer]`.
    Diversifier,
    /// Group addition on the embedded curve: `[p.x, p.y, q.x, q.y]` to two
    /// coordinates.
    EccAdd,
    /// Sponge hash without padding; the first squeezed element.
    Sponge,
    /// Commitment `[blinding, msg..]` to one element.
    Commit,
}

/// One constraint of the system, over wire indices.
#[derive(Clone, Debug)]
pub enum Gate {
    /// The wire holds 0 or 1.
    Bool { a: usize },
    /// The two wires are equal.
    Equal { a: usize, b: usize },
    /// `out = a - b` in the field.
    Sub { a: usize, b: usize, out: usize },
    /// `out` is 1 when the two wires are equal, 0 otherwise.
    CheckEqual { a: usize, b: usize, out: usize },
    /// `out` is 1 when `a` is zero, 0 otherwise.
    IsZero { a: usize, out: usize },
    /// `out = 1 - a`.
    Not { a: usize, out: usize },
    /// At least one of the two wires holds 1.
    Or { a: usize, b: usize },
    /// The output wires hold what the gadget gives on the input wires.
    Gadget { kind: GadgetKind, ins: Vec<usize>, outs: Vec<usize> },
}

/// What a gate constrains, as wire indices: a gate with its lists of wires
/// read as sequences.
pub enum GateView {
    Bool { a: usize },
    Equal { a: usize, b: usize },
    Sub { a: usize, b: usize, out: usize },
    CheckEqual { a: usize, b: usize, out: usize },
    IsZero { a: usize, out: usize },
    Not { a: usize, out: usize },
    Or { a: usize, b: usize },
    Gadget { kind: GadgetKind, ins: Seq<usize>, outs: Seq<usize> },
}

/// The view of a gate.
pub open spec fn gate_view(g: Gate) -> GateView {
    match g {
        Gate::Bool { a } => GateView::Bool { a },
        Gate::Equal { a, b } => GateView::Equal { a, b },
        Gate::Sub { a, b, out } => GateView::Sub { a, b, out },
        Gate::CheckEqual { a, b, out } => GateView::CheckEqual { a, b, out },
        Gate::IsZero { a, out } => GateView::IsZero { a, out },
        Gate::Not { a, out } => GateView::Not { a, out },
        Gate::Or { a, b } => GateView::Or { a, b },
        Gate::Gadget { kind, ins, outs } => GateView::Gadget { kind, ins: ins@, outs: outs@ },
    }
}

/// The wires `base`, `base + 1`, ..., `base + len - 1`.
pub open spec fn wire_range(base: int, len: int) -> Seq<usize> {
    Seq::new(len as nat, |j: int| (base + j) as usize)
}

/// A pair of wires holding the coordinates of a group element.
#[derive(Clone, Copy, Debug, PartialEq, Eq, Structural)]
pub struct PointVar {
    pub x: usize,
    pub y: usize,
}

/// What the gadgets compute: a gadget and the values on its input wires give
/// the values of its output wires.
pub type Primitives = spec_fn(GadgetKind, Seq<int>) -> Seq<int>;

/// The values of the given wires under an assignment.
pub open spec fn values_of(wires: Seq<usize>, vals: Seq<int>) -> Seq<int> {
    wires.map_values(|w: usize| vals[w as int])
}

/// The value a wire is fixed to, if any.
pub open spec fn fixed_value(w: Wire) -> Option<int> {
    match w {
        Wire::Witness(v) => Some(v.val()),
        Wire::Public(v) => Some(v.val()),
        Wire::Constant(v) => Some(v.val()),
        Wire::Derived => None,
    }
}

/// Whether one gate holds under an assignment.
pub open spec fn gate_holds(g: Gate, prim: Primitives, vals: Seq<int>) -> bool {
    match g {
        Gate::Bool { a } => vals[a as int] == 0 || vals[a as int] == 1,
        Gate::Equal { a, b } => vals[a as int] == vals[b as int],
        Gate::Sub { a, b, out } => vals[out as int] == field_sub(vals[a as int], vals[b as int]),
        Gate::CheckEqual { a, b, out } => vals[out as int] == eq_bit(vals[a as int], vals[b as int]),
        Gate::IsZero { a, out } => vals[out as int] == eq_bit(vals[a as int], 0),
        Gate::Not { a, out } => vals[out as int] == 1 - vals[a as int],
        Gate::Or { a, b } => vals[a as int] == 1 || vals[b as int] == 1,
        Gate::Gadget { kind, ins, outs } => forall|j: int|
            0 <= j < outs@.len() ==> #[trigger] vals[outs@[j] as int] == prim(
                kind,
                values_of(ins@, vals),
            )[j],
    }
}

/// Every wire `g` reads or sets is below `n`.
pub open spec fn gate_in_range(g: Gate, n: int) -> bool {
    match g {
        Gate::Bool { a } => a < n,
        Gate::Equal { a, b } => a < n && b < n,
        Gate::Sub { a, b, out } => a < n && b < n && out < n,
        Gate::CheckEqual { a, b, out } => a < n && b < n && out < n,
        Gate::IsZero { a, out } => a < n && out < n,
        Gate::Not { a, out } => a < n && out < n,
        Gate::Or { a, b } => a < n && b < n,
        Gate::Gadget { kind, ins, outs } => (forall|j: int| 0 <= j < ins@.len()
            ==> #[trigger] ins@[j] < n) && (
        forall|j: int| 0 <= j < outs@.len() ==> #[trigger] outs@[j] < n),
    }
}

/// 1 when `x` and `y` are equal, 0 otherwise.
pub open spec fn eq_bit(x: int, y: int) -> int {
    if x == y {
        1
    } else {
        0
    }
}

/// The first `n` outputs a gadget gives on the given values.
pub open spec fn gadget_outputs(prim: Primitives, kind: GadgetKind, ins: Seq<int>, n: int) -> Seq<int> {
    Seq::new(n as nat, |j: int| prim(kind, ins)[j])
}

/// Whether `g` is the gadget gate `kind` from `ins` to `outs`.
pub open spec fn is_gadget(g: Gate, kind: GadgetKind, ins: Seq<usize>, outs: Seq<usize>) -> bool {
    match g {
        Gate::Gadget { kind: k, ins: i, outs: o } => k == kind && i@ == ins && o@ == outs,
        _ => false,
    }
}

/// The first output a gadget gives on the given values.
pub open spec fn gadget_value(prim: Primitives, kind: GadgetKind, ins: Seq<int>) -> int {
    prim(kind, ins)[0]
}

/// A constraint system under construction. Wires and gates are only ever
/// appended.
pub struct ConstraintSystem {
    wires: Vec<Wire>,
    gates: Vec<Gate>,
    public_wires: Vec<usize>,
}

impl ConstraintSystem {
    pub closed spec fn wires(&self) -> Seq<Wire> {
        self.wires@
    }

    pub closed spec fn gates(&self) -> Seq<Gate> {
        self.gates@
    }

    /// The gates, as views.
    pub open spec fn gate_views(&self) -> Seq<GateView> {
        self.gates().map_values(|g: Gate| gate_view(g))
    }

    /// The wires of the public input vector, in order.
    pub closed spec fn public_wires(&self) -> Seq<usize> {
        self.public_wires@
    }

    /// Wire 0 holds the constant 0 and wire 1 the constant 1; public wires
    /// are public.
    pub open spec fn wf(&self) -> bool {
        &&& self.wires().len() >= 2
        &&& fixed_value(self.wires()[0]) == Some(0int)
        &&& fixed_value(self.wires()[1]) == Some(1int)
        &&& forall|i: int|
            0 <= i < self.public_wires().len() ==> #[trigger] self.public_wires()[i]
                < self.wires().len() && self.wires()[self.public_wires()[i] as int] is Public
        &&& forall|k: int| 0 <= k < self.gates().len()
            ==> gate_in_range(#[trigger] self.gates()[k], self.wires().len() as int)
    }

    /// `vals` assigns each wire, agrees with every fixed wire, and meets
    /// every gate.
    pub open spec fn satisfied_by(&self, prim: Primitives, vals: Seq<int>) -> bool {
        &&& vals.len() >= self.wires().len()
        &&& forall|i: int|
            0 <= i < self.wires().len() && #[trigger] fixed_value(self.wires()[i]) is Some
                ==> vals[i] == fixed_value(self.wires()[i])->0
        &&& forall|k: int| 0 <= k < self.gates().len() ==> gate_holds(#[trigger] self.gates()[k], prim, vals)
    }

    /// Some assignment of exactly the wires of the system, extending `vals`,
    /// satisfies it.
    pub open spec fn completes(&self, prim: Primitives, vals: Seq<int>) -> bool {
        exists|v2: Seq<int>| self.satisfied_by(prim, v2) && v2.len() == self.wires().len() && agrees(v2, vals)
    }

    /// Some assignment satisfies the system.
    pub open spec fn satisfiable(&self, prim: Primitives) -> bool {
        exists|vals: Seq<int>| self.satisfied_by(prim, vals)
    }

    /// `self` is `old` with wires, gates and public wires appended.
    pub open spec fn extends(&self, old: &ConstraintSystem) -> bool {
        &&& old.wires().len() <= self.wires().len()
        &&& old.gates().len() <= self.gates().len()
        &&& old.public_wires().len() <= self.public_wires().len()
        &&& forall|i: int| 0 <= i < old.wires().len() ==> #[trigger] self.wires()[i] == old.wires()[i]
        &&& forall|k: int| 0 <= k < old.gates().len() ==> #[trigger] self.gates()[k] == old.gates()[k]
        &&& forall|i: int|
            0 <= i < old.public_wires().len() ==> #[trigger] self.public_wires()[i]
                == old.public_wires()[i]
    }

    /// `self` is well formed and is `old` with `n` more gates and the same
    /// public input vector.
    pub open spec fn grew(&self, old: &ConstraintSystem, n: int) -> bool {
        &&& self.wf()
        &&& self.extends(old)
        &&& self.gates().len() == old.gates().len() + n
        &&& self.public_wires() == old.public_wires()
    }

    /// The wire is fixed to `v`.
    pub open spec fn holds_value(&self, w: usize, v: int) -> bool {
        w < self.wires().len() && fixed_value(self.wires()[w as int]) == Some(v)
    }

    /// Each of `ws` is fixed to the matching value of `vs`.
    pub open spec fn holds_values(&self, ws: Seq<usize>, vs: Seq<int>) -> bool {
        ws.len() == vs.len() && forall|j: int| 0 <= j < ws.len() ==> self.holds_value(#[trigger] ws[j], vs[j])
    }

    /// The values of the public input vector.
    pub open spec fn public_values(&self) -> Seq<int> {
        self.public_wires().map_values(|w: usize| fixed_value(self.wires()[w as int])->0)
    }

    pub fn new() -> (r: ConstraintSystem)
        ensures
            r.wf(),
            r.wires().len() == 2,
            r.gates().len() == 0,
            r.public_wires().len() == 0,
    {
        let mut wires: Vec<Wire> = Vec::new();
        wires.push(Wire::Constant(Fe::zero()));
        wires.push(Wire::Constant(Fe::one()));
        ConstraintSystem { wires, gates: Vec::new(), public_wires: Vec::new() }
    }

    pub fn num_gates(&self) -> (r: usize)
        ensures
            r == self.gates().len(),
    {
        self.gates.len()
    }

    pub fn num_wires(&self) -> (r: usize)
        ensures
            r == self.wires().len(),
    {
        self.wires.len()
    }

    pub fn wire(&self, i: usize) -> (r: Wire)
        requires
            i < self.wires().len(),
        ensures
            r == self.wires()[i as int],
    {
        self.wires[i]
    }

    pub fn gate(&self, k: usize) -> (r: &Gate)
        requires
            k < self.gates().len(),
        ensures
            *r == self.gates()[k as int],
    {
        &self.gates[k]
    }

    /// The wires of the public input vector, in order.
    pub fn public_input_wires(&self) -> (r: &Vec<usize>)
        ensures
            r@ == self.public_wires(),
    {
        &self.public_wires
    }

    /// The wire that holds the constant 0.
    pub fn zero(&self) -> (r: usize)
        requires
            self.wf(),
        ensures
            r == 0,
            self.holds_value(r, 0),
    {
        0
    }

    /// The wire that holds the constant 1.
    pub fn one(&self) -> (r: usize)
        requires
            self.wf(),
        ensures
            r == 1,
            self.holds_value(r, 1),
    {
        1
    }

    fn push_wire(&mut self, w: Wire) -> (r: usize)
        requires
            old(self).wf(),
        ensures
            final(self).wf(),
            final(self).extends(old(self)),
            r == old(self).wires().len(),
            final(self).wires() == old(self).wires().push(w),
            final(self).gates() == old(self).gates(),
            final(self).public_wires() == old(self).public_wires(),
    {
        let r = self.wires.len();
        self.wires.push(w);
        proof {
            assert forall|k: int| 0 <= k < self.gates().len() implies gate_in_range(
                #[trigger] self.gates()[k],
                self.wires().len() as int,
            ) by {
                assert(self.gates()[k] == old(self).gates()[k]);
                lemma_gate_in_range_mono(self.gates()[k], old(self).wires().len() as int, self.wires().len() as int);
            }
        }
        r
    }

    fn push_gate(&mut self, g: Gate)
        requires
            old(self).wf(),
            gate_in_range(g, old(self).wires().len() as int),
        ensures
            final(self).wf(),
            final(self).extends(old(self)),
            final(self).wires() == old(self).wires(),
            final(self).gates() == old(self).gates().push(g),
            final(self).public_wires() == old(self).public_wires(),
    {
        self.gates.push(g);
        proof {
            assert forall|k: int| 0 <= k < self.gates().len() implies gate_in_range(
                #[trigger] self.gates()[k],
                self.wires().len() as int,
            ) by {
                if k < old(self).gates().len() {
                    assert(self.gates()[k] == old(self).gates()[k]);
                }
            }
        }
    }

    /// A new private wire holding `v`.
    pub fn create_variable(&mut self, v: Fe) -> (r: usize)
        requires
            old(self).wf(),
        ensures
            final(self).wf(),
            final(self).extends(old(self)),
            r == old(self).wires().len(),
            final(self).holds_value(r, v.val()),
            final(self).wires().len() == old(self).wires().len() + 1,
            final(self).gates() == old(self).gates(),
            final(self).public_wires() == old(self).public_wires(),
            forall|prim: Primitives, vals: Seq<int>|
                #[trigger] old(self).satisfied_by(prim, vals) && vals.len() == old(self).wires().len()
                    ==> final(self).satisfied_by(prim, vals.push(v.val())),
    {
        let r = self.push_wire(Wire::Witness(v));
        proof {
            assert forall|prim: Primitives, vals: Seq<int>|
                #[trigger] old(self).satisfied_by(prim, vals) && vals.len() == old(self).wires().len()
                    implies self.satisfied_by(prim, vals.push(v.val())) by {
                lemma_satisfied_extend(self, old(self), prim, vals, vals.push(v.val()));
            }
        }
        r
    }

    /// A new wire holding `v`, appended to the public input vector.
    pub fn create_public_variable(&mut self, v: Fe) -> (r: usize)
        requires
            old(self).wf(),
        ensures
            final(self).wf(),
            final(self).extends(old(self)),
            r == old(self).wires().len(),
            final(self).holds_value(r, v.val()),
            final(self).wires().len() == old(self).wires().len() + 1,
            final(self).gates() == old(self).gates(),
            final(self).public_wires() == old(self).public_wires().push(r),
    {
        let r = self.push_wire(Wire::Public(v));
        self.public_wires.push(r);
        r
    }

    /// A new wire fixed to the constant `v`.
    pub fn create_constant_variable(&mut self, v: Fe) -> (r: usize)
        requires
            old(self).wf(),
        ensures
            final(self).wf(),
            final(self).extends(old(self)),
            r == old(self).wires().len(),
            final(self).holds_value(r, v.val()),
            final(self).wires().len() == old(self).wires().len() + 1,
            final(self).gates() == old(self).gates(),
            final(self).public_wires() == old(self).public_wires(),
    {
        self.push_wire(Wire::Constant(v))
    }

    /// New private wires for the coordinates of `p`.
    pub fn create_point_variable(&mut self, p: Point) -> (r: PointVar)
        requires
            old(self).wf(),
        ensures
            final(self).wf(),
            final(self).extends(old(self)),
            r.x == old(self).wires().len() && r.y == old(self).wires().len() + 1,
            final(self).holds_value(r.x, p.x.val()),
            final(self).holds_value(r.y, p.y.val()),
            final(self).wires().len() == old(self).wires().len() + 2,
            final(self).gates() == old(self).gates(),
            final(self).public_wires() == old(self).public_wires(),
    {
        let x = self.create_variable(p.x);
        let y = self.create_variable(p.y);
        PointVar { x, y }
    }

    /// New public wires for the coordinates of `p`, x first.
    pub fn create_public_point_variable(&mut self, p: Point) -> (r: PointVar)
        requires
            old(self).wf(),
        ensures
            final(self).wf(),
            final(self).extends(old(self)),
            r.x == old(self).wires().len() && r.y == old(self).wires().len() + 1,
            final(self).holds_value(r.x, p.x.val()),
            final(self).holds_value(r.y, p.y.val()),
            final(self).wires().len() == old(self).wires().len() + 2,
            final(self).gates() == old(self).gates(),
            final(self).public_wires() == old(self).public_wires().push(r.x).push(r.y),
    {
        let x = self.create_public_variable(p.x);
        let y = self.create_public_variable(p.y);
        PointVar { x, y }
    }

    /// The neutral point `(0, 1)`, on the constant wires.
    pub fn neutral_point_variable(&self) -> (r: PointVar)
        requires
            self.wf(),
        ensures
            r.x == 0,
            r.y == 1,
            self.holds_value(r.x, 0),
            self.holds_value(r.y, 1),
    {
        PointVar { x: 0, y: 1 }
    }

    /// Constrains wire `a` to hold 0 or 1.
    pub fn bool_gate(&mut self, a: usize)
        requires
            old(self).wf(),
            a < old(self).wires().len(),
        ensures
            final(self).wf(),
            final(self).extends(old(self)),
            final(self).wires() == old(self).wires(),
            final(self).gates() == old(self).gates().push(Gate::Bool { a }),
            final(self).public_wires() == old(self).public_wires(),
            forall|prim: Primitives, vals: Seq<int>|
                #[trigger] old(self).satisfied_by(prim, vals) && vals.len() == old(self).wires().len()
                    && (vals[a as int] == 0 || vals[a as int] == 1)
                    ==> final(self).satisfied_by(prim, vals),
    {
        self.push_gate(Gate::Bool { a });
        proof {
            assert forall|prim: Primitives, vals: Seq<int>|
                #[trigger] old(self).satisfied_by(prim, vals) && vals.len() == old(self).wires().len() && (vals[a as int] == 0 || vals[a as int] == 1)
                    implies self.satisfied_by(prim, vals) by {
                lemma_satisfied_extend(self, old(self), prim, vals, vals);
            }
        }
    }

    /// Constrains two wires to be equal.
    pub fn equal_gate(&mut self, a: usize, b: usize)
        requires
            old(self).wf(),
            a < old(self).wires().len(),
            b < old(self).wires().len(),
        ensures
            final(self).wf(),
            final(self).extends(old(self)),
            final(self).wires() == old(self).wires(),
            final(self).gates() == old(self).gates().push(Gate::Equal { a, b }),
            final(self).public_wires() == old(self).public_wires(),
            forall|prim: Primitives, vals: Seq<int>|
                #[trigger] old(self).satisfied_by(prim, vals) && vals.len() == old(self).wires().len()
                    && vals[a as int] == vals[b as int]
                    ==> final(self).satisfied_by(prim, vals),
    {
        self.push_gate(Gate::Equal { a, b });
        proof {
            assert forall|prim: Primitives, vals: Seq<int>|
                #[trigger] old(self).satisfied_by(prim, vals) && vals.len() == old(self).wires().len() && vals[a as int] == vals[b as int]
                    implies self.satisfied_by(prim, vals) by {
                lemma_satisfied_extend(self, old(self), prim, vals, vals);
            }
        }
    }

    /// Constrains two points to be equal, coordinate by coordinate.
    pub fn point_equal_gate(&mut self, p: PointVar, q: PointVar)
        requires
            old(self).wf(),
            p.x < old(self).wires().len(),
            p.y < old(self).wires().len(),
            q.x < old(self).wires().len(),
            q.y < old(self).wires().len(),
        ensures
            final(self).wf(),
            final(self).extends(old(self)),
            final(self).wires() == old(self).wires(),
            final(self).gates() == old(self).gates().push(Gate::Equal { a: p.x, b: q.x }).push(
                Gate::Equal { a: p.y, b: q.y },
            ),
            final(self).public_wires() == old(self).public_wires(),
            forall|prim: Primitives, vals: Seq<int>|
                #[trigger] old(self).satisfied_by(prim, vals) && vals.len() == old(self).wires().len()
                    && vals[p.x as int] == vals[q.x as int] && vals[p.y as int] == vals[q.y as int]
                    ==> final(self).satisfied_by(prim, vals),
    {
        let ghost c0 = *self;
        self.equal_gate(p.x, q.x);
        let ghost c1 = *self;
        self.equal_gate(p.y, q.y);
        proof {
            assert forall|prim: Primitives, vals: Seq<int>|
                #[trigger] c0.satisfied_by(prim, vals) && vals.len() == c0.wires().len()
                    && vals[p.x as int] == vals[q.x as int] && vals[p.y as int] == vals[q.y as int]
                implies self.satisfied_by(prim, vals) by {
                assert(c1.satisfied_by(prim, vals));
            }
        }
    }

    /// A new wire `out = a - b`.
    pub fn sub(&mut self, a: usize, b: usize) -> (out: usize)
        requires
            old(self).wf(),
            a < old(self).wires().len(),
            b < old(self).wires().len(),
        ensures
            final(self).wf(),
            final(self).extends(old(self)),
            out == old(self).wires().len(),
            final(self).wires() == old(self).wires().push(Wire::Derived),
            final(self).gates() == old(self).gates().push(Gate::Sub { a, b, out }),
            final(self).public_wires() == old(self).public_wires(),
            forall|prim: Primitives, vals: Seq<int>|
                #[trigger] old(self).satisfied_by(prim, vals) && vals.len() == old(self).wires().len()
                    ==> final(self).satisfied_by(prim, vals.push(field_sub(vals[a as int], vals[b as int]))),
    {
        let out = self.push_wire(Wire::Derived);
        self.push_gate(Gate::Sub { a, b, out });
        proof {
            assert forall|prim: Primitives, vals: Seq<int>|
                #[trigger] old(self).satisfied_by(prim, vals) && vals.len() == old(self).wires().len()
                    implies self.satisfied_by(prim, vals.push(field_sub(vals[a as int], vals[b as int]))) by {
                lemma_satisfied_extend(self, old(self), prim, vals, vals.push(field_sub(vals[a as int], vals[b as int])));
            }
        }
        out
    }

    /// A new boolean wire, 1 exactly when `a` and `b` are equal.
    pub fn check_equal(&mut self, a: usize, b: usize) -> (out: usize)
        requires
            old(self).wf(),
            a < old(self).wires().len(),
            b < old(self).wires().len(),
        ensures
            final(self).wf(),
            final(self).extends(old(self)),
            out == old(self).wires().len(),
            final(self).wires() == old(self).wires().push(Wire::Derived),
            final(self).gates() == old(self).gates().push(Gate::CheckEqual { a, b, out }),
            final(self).public_wires() == old(self).public_wires(),
            forall|prim: Primitives, vals: Seq<int>|
                #[trigger] old(self).satisfied_by(prim, vals) && vals.len() == old(self).wires().len()
                    ==> final(self).satisfied_by(prim, vals.push(eq_bit(vals[a as int], vals[b as int]))),
    {
        let out = self.push_wire(Wire::Derived);
        self.push_gate(Gate::CheckEqual { a, b, out });
        proof {
            assert forall|prim: Primitives, vals: Seq<int>|
                #[trigger] old(self).satisfied_by(prim, vals) && vals.len() == old(self).wires().len()
                    implies self.satisfied_by(prim, vals.push(eq_bit(vals[a as int], vals[b as int]))) by {
                lemma_satisfied_extend(self, old(self), prim, vals, vals.push(eq_bit(vals[a as int], vals[b as int])));
            }
        }
        out
    }

    /// A new boolean wire, 1 exactly when `a` is zero.
    pub fn check_is_zero(&mut self, a: usize) -> (out: usize)
        requires
            old(self).wf(),
            a < old(self).wires().len(),
        ensures
            final(self).wf(),
            final(self).extends(old(self)),
            out == old(self).wires().len(),
            final(self).wires() == old(self).wires().push(Wire::Derived),
            final(self).gates() == old(self).gates().push(Gate::IsZero { a, out }),
            final(self).public_wires() == old(self).public_wires(),
            forall|prim: Primitives, vals: Seq<int>|
                #[trigger] old(self).satisfied_by(prim, vals) && vals.len() == old(self).wires().len()
                    ==> final(self).satisfied_by(prim, vals.push(eq_bit(vals[a as int], 0))),
    {
        let out = self.push_wire(Wire::Derived);
        self.push_gate(Gate::IsZero { a, out });
        proof {
            assert forall|prim: Primitives, vals: Seq<int>|
                #[trigger] old(self).satisfied_by(prim, vals) && vals.len() == old(self).wires().len()
                    implies self.satisfied_by(prim, vals.push(eq_bit(vals[a as int], 0))) by {
                lemma_satisfied_extend(self, old(self), prim, vals, vals.push(eq_bit(vals[a as int], 0)));
            }
        }
        out
    }

    /// A new wire `out = 1 - a`, the negation of a boolean wire.
    pub fn logic_neg(&mut self, a: usize) -> (out: usize)
        requires
            old(self).wf(),
            a < old(self).wires().len(),
        ensures
            final(self).wf(),
            final(self).extends(old(self)),
            out == old(self).wires().len(),
            final(self).wires() == old(self).wires().push(Wire::Derived),
            final(self).gates() == old(self).gates().push(Gate::Not { a, out }),
            final(self).public_wires() == old(self).public_wires(),
            forall|prim: Primitives, vals: Seq<int>|
                #[trigger] old(self).satisfied_by(prim, vals) && vals.len() == old(self).wires().len()
                    ==> final(self).satisfied_by(prim, vals.push(1 - vals[a as int])),
    {
        let out = self.push_wire(Wire::Derived);
        self.push_gate(Gate::Not { a, out });
        proof {
            assert forall|prim: Primitives, vals: Seq<int>|
                #[trigger] old(self).satisfied_by(prim, vals) && vals.len() == old(self).wires().len()
                    implies self.satisfied_by(prim, vals.push(1 - vals[a as int])) by {
                lemma_satisfied_extend(self, old(self), prim, vals, vals.push(1 - vals[a as int]));
            }
        }
        out
    }

    /// Constrains `a ∨ b` to hold: one of the two boolean wires is 1.
    pub fn logic_or_gate(&mut self, a: usize, b: usize)
        requires
            old(self).wf(),
            a < old(self).wires().len(),
            b < old(self).wires().len(),
        ensures
            final(self).wf(),
            final(self).extends(old(self)),
            final(self).wires() == old(self).wires(),
            final(self).gates() == old(self).gates().push(Gate::Or { a, b }),
            final(self).public_wires() == old(self).public_wires(),
            forall|prim: Primitives, vals: Seq<int>|
                #[trigger] old(self).satisfied_by(prim, vals) && vals.len() == old(self).wires().len()
                    && (vals[a as int] == 1 || vals[b as int] == 1)
                    ==> final(self).satisfied_by(prim, vals),
    {
        self.push_gate(Gate::Or { a, b });
        proof {
            assert forall|prim: Primitives, vals: Seq<int>|
                #[trigger] old(self).satisfied_by(prim, vals) && vals.len() == old(self).wires().len() && (vals[a as int] == 1 || vals[b as int] == 1)
                    implies self.satisfied_by(prim, vals) by {
                lemma_satisfied_extend(self, old(self), prim, vals, vals);
            }
        }
    }

    /// New wires for the `n_out` outputs of a gadget applied to `ins`.
    pub fn gadget(&mut self, kind: GadgetKind, ins: Vec<usize>, n_out: usize) -> (outs: Vec<usize>)
        requires
            old(self).wf(),
            forall|j: int| 0 <= j < ins@.len() ==> #[trigger] ins@[j] < old(self).wires().len(),
        ensures
            final(self).wf(),
            final(self).extends(old(self)),
            outs@.len() == n_out,
            forall|j: int| 0 <= j < n_out ==> #[trigger] outs@[j] == old(self).wires().len() + j,
            final(self).wires().len() == old(self).wires().len() + n_out,
            forall|j: int|
                old(self).wires().len() <= j < final(self).wires().len() ==> #[trigger] final(self).wires()[j]
                    is Derived,
            final(self).gates().len() == old(self).gates().len() + 1,
            is_gadget(final(self).gates().last(), kind, ins@, outs@),
            final(self).gate_views() == old(self).gate_views().push(GateView::Gadget { kind, ins: ins@, outs: outs@ }),
            final(self).public_wires() == old(self).public_wires(),
            forall|prim: Primitives, vals: Seq<int>|
                #[trigger] old(self).satisfied_by(prim, vals) && vals.len() == old(self).wires().len()
                    ==> final(self).satisfied_by(prim, vals + gadget_outputs(prim, kind, values_of(ins@, vals), n_out as int)),
    {
        let mut outs: Vec<usize> = Vec::new();
        let mut j: usize = 0;
        while j < n_out
            invariant
                self.wf(),
                self.extends(old(self)),
                j <= n_out,
                outs@.len() == j,
                forall|t: int| 0 <= t < j ==> #[trigger] outs@[t] == old(self).wires().len() + t,
                self.wires().len() == old(self).wires().len() + j,
                forall|t: int|
                    old(self).wires().len() <= t < self.wires().len() ==> #[trigger] self.wires()[t]
                        is Derived,
                self.gates() == old(self).gates(),
                self.public_wires() == old(self).public_wires(),
            decreases n_out - j,
        {
            let w = self.push_wire(Wire::Derived);
            outs.push(w);
            j = j + 1;
        }
        let ghost ins_view = ins@;
        let ghost outs_view = outs@;
        let ghost c_w = *self;
        assert(forall|j: int| 0 <= j < ins_view.len() ==> #[trigger] ins_view[j] < self.wires().len());
        let ghost c_before = *self;
        self.push_gate(Gate::Gadget { kind, ins, outs: outs.clone() });
        assert(is_gadget(self.gates().last(), kind, ins_view, outs_view));
        proof {
            lemma_views_push(self, &c_before, self.gates().last());
            assert(gate_view(self.gates().last()) == GateView::Gadget { kind, ins: ins_view, outs: outs_view });
        }
        proof {
            assert forall|prim: Primitives, vals: Seq<int>|
                #[trigger] old(self).satisfied_by(prim, vals) && vals.len() == old(self).wires().len()
                implies self.satisfied_by(prim, vals + gadget_outputs(prim, kind, values_of(ins_view, vals), n_out as int)) by {
                let v2 = vals + gadget_outputs(prim, kind, values_of(ins_view, vals), n_out as int);
                assert(values_of(ins_view, v2) =~= values_of(ins_view, vals));
                let k = self.gates().len() - 1;
                assert forall|j: int| 0 <= j < outs_view.len()
                    implies #[trigger] v2[outs_view[j] as int] == prim(
                    kind,
                    values_of(ins_view, v2),
                )[j] by {
                    assert(outs_view[j] == vals.len() + j);
                }
                assert(gate_holds(self.gates()[k], prim, v2));
                lemma_satisfied_extend(self, old(self), prim, vals, v2);
            }
        }
        outs
    }
    /// New private wires holding `vs`, in order.
    pub fn create_variables(&mut self, vs: &Vec<Fe>) -> (r: Vec<usize>)
        requires
            old(self).wf(),
        ensures
            final(self).wf(),
            final(self).extends(old(self)),
            r@ == wire_range(old(self).wires().len() as int, vs@.len() as int),
            final(self).holds_values(r@, fe_values(vs@)),
            final(self).wires().len() == old(self).wires().len() + vs@.len(),
            final(self).gates() == old(self).gates(),
            final(self).public_wires() == old(self).public_wires(),
    {
        let mut r: Vec<usize> = Vec::new();
        let mut i: usize = 0;
        while i < vs.len()
            invariant
                self.wf(),
                self.extends(old(self)),
                i <= vs@.len(),
                r@.len() == i,
                forall|t: int| 0 <= t < i ==> self.holds_value(#[trigger] r@[t], vs@[t].val()),
                self.wires().len() == old(self).wires().len() + i,
                r@ == wire_range(old(self).wires().len() as int, i as int),
                self.gates() == old(self).gates(),
                self.public_wires() == old(self).public_wires(),
            decreases vs@.len() - i,
        {
            let ghost before = *self;
            let w = self.create_variable(vs[i]);
            assert forall|t: int| 0 <= t < i implies self.holds_value(#[trigger] r@[t], vs@[t].val()) by {
                assert(before.holds_value(r@[t], vs@[t].val()));
                assert(self.wires()[r@[t] as int] == before.wires()[r@[t] as int]);
            }
            r.push(w);
            i = i + 1;
            assert(r@ =~= wire_range(old(self).wires().len() as int, i as int));
        }
        r
    }

    /// New public wires holding `vs`, appended in order to the public input
    /// vector.
    pub fn create_public_variables(&mut self, vs: &Vec<Fe>) -> (r: Vec<usize>)
        requires
            old(self).wf(),
        ensures
            final(self).wf(),
            final(self).extends(old(self)),
            r@ == wire_range(old(self).wires().len() as int, vs@.len() as int),
            final(self).holds_values(r@, fe_values(vs@)),
            final(self).wires().len() == old(self).wires().len() + vs@.len(),
            final(self).gates() == old(self).gates(),
            final(self).public_wires() == old(self).public_wires() + r@,
    {
        let mut r: Vec<usize> = Vec::new();
        let mut i: usize = 0;
        while i < vs.len()
            invariant
                self.wf(),
                self.extends(old(self)),
                i <= vs@.len(),
                r@.len() == i,
                forall|t: int| 0 <= t < i ==> self.holds_value(#[trigger] r@[t], vs@[t].val()),
                self.wires().len() == old(self).wires().len() + i,
                r@ == wire_range(old(self).wires().len() as int, i as int),
                self.gates() == old(self).gates(),
                self.public_wires() == old(self).public_wires() + r@,
            decreases vs@.len() - i,
        {
            let ghost before = *self;
            let w = self.create_public_variable(vs[i]);
            assert forall|t: int| 0 <= t < i implies self.holds_value(#[trigger] r@[t], vs@[t].val()) by {
                assert(before.holds_value(r@[t], vs@[t].val()));
                assert(self.wires()[r@[t] as int] == before.wires()[r@[t] as int]);
            }
            r.push(w);
            i = i + 1;
            assert(r@ =~= wire_range(old(self).wires().len() as int, i as int));
        }
        r
    }

    /// A new wire for the single output of a gadget applied to `ins`.
    pub fn gadget_output(&mut self, kind: GadgetKind, ins: Vec<usize>) -> (r: usize)
        requires
            old(self).wf(),
            forall|j: int| 0 <= j < ins@.len() ==> #[trigger] ins@[j] < old(self).wires().len(),
        ensures
            final(self).wf(),
            final(self).extends(old(self)),
            r == old(self).wires().len(),
            final(self).wires().len() == old(self).wires().len() + 1,
            final(self).gates().len() == old(self).gates().len() + 1,
            final(self).gate_views() == old(self).gate_views().push(GateView::Gadget { kind, ins: ins@, outs: seq![r] }),
            final(self).public_wires() == old(self).public_wires(),
            forall|prim: Primitives, vals: Seq<int>|
                #[trigger] final(self).satisfied_by(prim, vals) ==> vals[r as int] == gadget_value(
                    prim,
                    kind,
                    values_of(ins@, vals),
                ),
            forall|prim: Primitives, vals: Seq<int>|
                #[trigger] old(self).satisfied_by(prim, vals) && vals.len() == old(self).wires().len()
                    ==> final(self).satisfied_by(prim, vals.push(gadget_value(prim, kind, values_of(ins@, vals)))),
    {
        let ghost ins_view = ins@;
        let outs = self.gadget(kind, ins, 1);
        let r = outs[0];
        assert(outs@ =~= seq![r]);
        proof {
            let k = self.gates().len() - 1;
            assert forall|prim: Primitives, vals: Seq<int>| #[trigger]
                self.satisfied_by(prim, vals) implies vals[r as int] == gadget_value(
                prim,
                kind,
                values_of(ins_view, vals),
            ) by {
                assert(gate_holds(self.gates()[k], prim, vals));
                assert(outs@[0] == r);
            }
            assert forall|prim: Primitives, vals: Seq<int>|
                #[trigger] old(self).satisfied_by(prim, vals) && vals.len() == old(self).wires().len()
                implies self.satisfied_by(prim, vals.push(gadget_value(prim, kind, values_of(ins_view, vals)))) by {
                assert(vals + gadget_outputs(prim, kind, values_of(ins_view, vals), 1) =~= vals.push(
                    gadget_value(prim, kind, values_of(ins_view, vals)),
                ));
            }
        }
        r
    }

}

/// Appending a gate appends its view.
pub proof fn lemma_views_push(c2: &ConstraintSystem, c1: &ConstraintSystem, g: Gate)
    requires
        c2.gates() == c1.gates().push(g),
    ensures
        c2.gate_views() == c1.gate_views().push(gate_view(g)),
{
    assert(c2.gate_views() =~= c1.gate_views().push(gate_view(g)));
}

/// A gate within `n` wires is within any larger number.
pub proof fn lemma_gate_in_range_mono(g: Gate, n: int, m: int)
    requires
        gate_in_range(g, n),
        n <= m,
    ensures
        gate_in_range(g, m),
{
    match g {
        Gate::Gadget { kind, ins, outs } => {
            assert forall|j: int| 0 <= j < ins@.len() implies #[trigger] ins@[j] < m by {
                assert(ins@[j] < n);
            }
            assert forall|j: int| 0 <= j < outs@.len() implies #[trigger] outs@[j] < m by {
                assert(outs@[j] < n);
            }
        },
        _ => {},
    }
}

/// A gate reads the same on two assignments that agree below `n`.
pub proof fn lemma_gate_holds_agree(g: Gate, prim: Primitives, v1: Seq<int>, v2: Seq<int>, n: int)
    requires
        gate_in_range(g, n),
        n <= v1.len(),
        n <= v2.len(),
        forall|i: int| 0 <= i < n ==> #[trigger] v1[i] == v2[i],
    ensures
        gate_holds(g, prim, v1) == gate_holds(g, prim, v2),
{
    match g {
        Gate::Gadget { kind, ins, outs } => {
            assert forall|j: int| 0 <= j < ins@.len()
                implies #[trigger] values_of(ins@, v1)[j] == values_of(ins@, v2)[j] by {
                assert(ins@[j] < n);
            }
            assert(values_of(ins@, v1) =~= values_of(ins@, v2));
            assert forall|j: int| 0 <= j < outs@.len()
                implies #[trigger] v1[outs@[j] as int] == v2[outs@[j] as int] by {
                assert(outs@[j] < n);
            }
            if gate_holds(g, prim, v1) {
                assert forall|j: int| 0 <= j < outs@.len() implies #[trigger] v2[outs@[j] as int] == prim(
                    kind,
                    values_of(ins@, v2),
                )[j] by {
                    assert(v1[outs@[j] as int] == v2[outs@[j] as int]);
                }
            }
            if gate_holds(g, prim, v2) {
                assert forall|j: int| 0 <= j < outs@.len() implies #[trigger] v1[outs@[j] as int] == prim(
                    kind,
                    values_of(ins@, v1),
                )[j] by {
                    assert(v1[outs@[j] as int] == v2[outs@[j] as int]);
                }
            }
        },
        _ => {},
    }
}

/// An assignment that covers exactly the wires of `c1` and satisfies it
/// extends to one of `c2` that agrees with the new fixed wires and meets the
/// new gates.
pub proof fn lemma_satisfied_extend(
    c2: &ConstraintSystem,
    c1: &ConstraintSystem,
    prim: Primitives,
    v1: Seq<int>,
    v2: Seq<int>,
)
    requires
        c1.wf(),
        c2.extends(c1),
        c1.satisfied_by(prim, v1),
        v1.len() == c1.wires().len(),
        v2.len() == c2.wires().len(),
        forall|i: int| 0 <= i < v1.len() ==> #[trigger] v2[i] == v1[i],
        forall|i: int|
            c1.wires().len() <= i < c2.wires().len() && #[trigger] fixed_value(c2.wires()[i]) is Some
                ==> v2[i] == fixed_value(c2.wires()[i])->0,
        forall|k: int| c1.gates().len() <= k < c2.gates().len()
            ==> gate_holds(#[trigger] c2.gates()[k], prim, v2),
    ensures
        c2.satisfied_by(prim, v2),
{
    assert forall|k: int| 0 <= k < c2.gates().len()
        implies gate_holds(#[trigger] c2.gates()[k], prim, v2) by {
        if k < c1.gates().len() {
            assert(c2.gates()[k] == c1.gates()[k]);
            assert(gate_holds(c1.gates()[k], prim, v1));
            lemma_gate_holds_agree(c1.gates()[k], prim, v1, v2, c1.wires().len() as int);
        }
    }
    assert forall|i: int|
        0 <= i < c2.wires().len() && #[trigger] fixed_value(c2.wires()[i]) is Some
        implies v2[i] == fixed_value(c2.wires()[i])->0 by {
        if i < c1.wires().len() {
            assert(c2.wires()[i] == c1.wires()[i]);
            assert(fixed_value(c1.wires()[i]) is Some);
        }
    }
}

/// `v2` extends the assignment `v1`.
pub open spec fn agrees(v2: Seq<int>, v1: Seq<int>) -> bool {
    v1.len() <= v2.len() && forall|i: int| 0 <= i < v1.len() ==> #[trigger] v2[i] == v1[i]
}

/// Wires read the same on an assignment and on any extension of it.
pub proof fn lemma_values_of_agree(ws: Seq<usize>, v1: Seq<int>, v2: Seq<int>)
    requires
        agrees(v2, v1),
        forall|j: int| 0 <= j < ws.len() ==> #[trigger] ws[j] < v1.len(),
    ensures
        values_of(ws, v2) == values_of(ws, v1),
{
    assert forall|j: int| 0 <= j < ws.len()
        implies #[trigger] values_of(ws, v2)[j] == values_of(ws, v1)[j] by {
        assert(ws[j] < v1.len());
    }
    assert(values_of(ws, v2) =~= values_of(ws, v1));
}

/// A satisfying assignment of a system satisfies every system it extends.
pub proof fn lemma_satisfied_prefix(
    c2: &ConstraintSystem,
    c1: &ConstraintSystem,
    prim: Primitives,
    vals: Seq<int>,
)
    requires
        c2.extends(c1),
        c2.satisfied_by(prim, vals),
    ensures
        c1.satisfied_by(prim, vals),
{
    assert forall|k: int| 0 <= k < c1.gates().len()
        implies gate_holds(#[trigger] c1.gates()[k], prim, vals) by {
        assert(c2.gates()[k] == c1.gates()[k]);
    }
    assert forall|i: int|
        0 <= i < c1.wires().len() && #[trigger] fixed_value(c1.wires()[i]) is Some
        implies vals[i] == fixed_value(c1.wires()[i])->0 by {
        assert(c2.wires()[i] == c1.wires()[i]);
    }
}

/// Growth of a system is transitive.
pub proof fn lemma_extends_trans(c3: &ConstraintSystem, c2: &ConstraintSystem, c1: &ConstraintSystem)
    requires
        c3.extends(c2),
        c2.extends(c1),
    ensures
        c3.extends(c1),
{
    assert forall|i: int| 0 <= i < c1.wires().len() implies #[trigger] c3.wires()[i] == c1.wires()[i] by {
        assert(c3.wires()[i] == c2.wires()[i]);
    }
    assert forall|k: int| 0 <= k < c1.gates().len() implies #[trigger] c3.gates()[k] == c1.gates()[k] by {
        assert(c3.gates()[k] == c2.gates()[k]);
    }
    assert forall|i: int| 0 <= i < c1.public_wires().len() implies #[trigger] c3.public_wires()[i]
        == c1.public_wires()[i] by {
        assert(c3.public_wires()[i] == c2.public_wires()[i]);
    }
}

/// A satisfying assignment gives a fixed wire its value.
pub proof fn lemma_fixed_value(c: &ConstraintSystem, prim: Primitives, vals: Seq<int>, w: usize, v: int)
    requires
        c.satisfied_by(prim, vals),
        c.holds_value(w, v),
    ensures
        vals[w as int] == v,
{
    assert(fixed_value(c.wires()[w as int]) is Some);
}

/// A satisfying assignment gives the fixed wires their values.
pub proof fn lemma_fixed_values(c: &ConstraintSystem, prim: Primitives, vals: Seq<int>, ws: Seq<usize>, vs: Seq<int>)
    requires
        c.satisfied_by(prim, vals),
        c.holds_values(ws, vs),
    ensures
        values_of(ws, vals) == vs,
{
    assert forall|j: int| 0 <= j < ws.len() implies #[trigger] values_of(ws, vals)[j] == vs[j] by {
        assert(c.holds_value(ws[j], vs[j]));
        assert(fixed_value(c.wires()[ws[j] as int]) is Some);
    }
    assert(values_of(ws, vals) =~= vs);
}

/// A fixed wire stays fixed as a system grows.
pub proof fn lemma_holds_value_extend(c2: &ConstraintSystem, c1: &ConstraintSystem, w: usize, v: int)
    requires
        c2.extends(c1),
        c1.holds_value(w, v),
    ensures
        c2.holds_value(w, v),
{
    assert(c2.wires()[w as int] == c1.wires()[w as int]);
}

/// Fixed wires stay fixed as a system grows.
pub proof fn lemma_holds_values_extend(c2: &ConstraintSystem, c1: &ConstraintSystem, ws: Seq<usize>, vs: Seq<int>)
    requires
        c2.extends(c1),
        c1.holds_values(ws, vs),
    ensures
        c2.holds_values(ws, vs),
{
    assert forall|j: int| 0 <= j < ws.len() implies c2.holds_value(#[trigger] ws[j], vs[j]) by {
        assert(c1.holds_value(ws[j], vs[j]));
        assert(c2.wires()[ws[j] as int] == c1.wires()[ws[j] as int]);
    }
}

} // verus!
