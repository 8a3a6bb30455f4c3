//! Wires for records and spent notes, and the gadgets over them.
use crate::circuit::{
    ConstraintSystem, GadgetKind, GateView, PointVar, Primitives, gadget_value,
    lemma_fixed_values, lemma_holds_value_extend, lemma_holds_values_extend, values_of, wire_range,
};
use crate::field::fe_values;
use crate::records::{NoteInput, RecordOpening, bool_value};
use vstd::prelude::*;

verus! {

/// Commitment of a record opening.
pub open spec fn record_commitment(prim: Primitives, ro: RecordOpening) -> int {
    gadget_value(prim, GadgetKind::RecordCommitment, ro.field_values())
}

/// Nullifier of a record opening under the nullifier key `nk`.
pub open spec fn nullifier(prim: Primitives, ro: RecordOpening, nk: int) -> int {
    gadget_value(prim, GadgetKind::Nullifier, ro.field_values().push(nk))
}

/// Root reached from leaf `leaf` at index `uid` along the sibling values `path`.
pub open spec fn merkle_root(prim: Primitives, uid: int, leaf: int, path: Seq<int>) -> int {
    gadget_value(prim, GadgetKind::MerkleRoot, seq![uid, leaf] + path)
}

/// Diversified address of the key `(ak, nk)` under the randomizer `rho`.
pub open spec fn diversified_address(prim: Primitives, ak: (int, int), nk: int, rho: int) -> int {
    gadget_value(prim, GadgetKind::Diversifier, seq![ak.0, ak.1, nk, rho])
}

/// `p + q` in the embedded group.
pub open spec fn group_add(prim: Primitives, p: (int, int), q: (int, int)) -> (int, int) {
    let r = prim(GadgetKind::EccAdd, seq![p.0, p.1, q.0, q.1]);
    (r[0], r[1])
}

/// The sponge hash of `msg`, without padding.
pub open spec fn sponge(prim: Primitives, msg: Seq<int>) -> int {
    gadget_value(prim, GadgetKind::Sponge, msg)
}

/// The commitment to `msg` under `blinding`.
pub open spec fn commitment(prim: Primitives, msg: Seq<int>, blinding: int) -> int {
    gadget_value(prim, GadgetKind::Commit, seq![blinding] + msg)
}

/// The coordinates of the point on a pair of wires.
pub open spec fn point_values(p: PointVar, vals: Seq<int>) -> (int, int) {
    (vals[p.x as int], vals[p.y as int])
}

/// Wires holding a record opening.
#[derive(Clone, Debug)]
pub struct RecordOpeningVar {
    pub addr: usize,
    pub data: Vec<usize>,
    pub is_dummy: usize,
    pub pid_birth: usize,
    pub pid_death: usize,
    pub nonce: usize,
    pub blinding: usize,
}

impl RecordOpeningVar {
    /// The wires in the order of `RecordOpening::field_values`.
    pub open spec fn fields(&self) -> Seq<usize> {
        seq![self.addr] + self.data@ + seq![
            self.is_dummy,
            self.pid_birth,
            self.pid_death,
            self.nonce,
            self.blinding,
        ]
    }

    /// Every wire is below `n`.
    pub open spec fn in_range(&self, n: int) -> bool {
        forall|j: int| 0 <= j < self.fields().len() ==> #[trigger] self.fields()[j] < n
    }

    /// The wires hold `ro`.
    pub open spec fn holds(&self, c: &ConstraintSystem, ro: RecordOpening) -> bool {
        &&& self.data@.len() == ro.payload.data@.len()
        &&& c.holds_values(self.fields(), ro.field_values())
    }

    /// New private wires for the fields of `ro`.
    pub fn new(c: &mut ConstraintSystem, ro: &RecordOpening) -> (r: RecordOpeningVar)
        requires
            old(c).wf(),
        ensures
            final(c).wf(),
            final(c).extends(old(c)),
            r.holds(final(c), *ro),
            r.fields() == wire_range(old(c).wires().len() as int, ro.payload.data@.len() as int + 6),
            final(c).wires().len() == old(c).wires().len() + ro.payload.data@.len() + 6,
            final(c).gates() == old(c).gates(),
            final(c).public_wires() == old(c).public_wires(),
    {
        let addr = c.create_variable(ro.addr);
        let mut data: Vec<usize> = Vec::new();
        let mut i: usize = 0;
        while i < ro.payload.data.len()
            invariant
                c.wf(),
                c.extends(old(c)),
                i <= ro.payload.data@.len(),
                data@.len() == i,
                c.holds_value(addr, ro.addr.val()),
                forall|t: int| 0 <= t < i ==> c.holds_value(#[trigger] data@[t], ro.payload.data@[t].val()),
                c.wires().len() == old(c).wires().len() + 1 + i,
                addr == old(c).wires().len(),
                data@ == wire_range(old(c).wires().len() as int + 1, i as int),
                c.gates() == old(c).gates(),
                c.public_wires() == old(c).public_wires(),
            decreases ro.payload.data@.len() - i,
        {
            let ghost before = *c;
            let w = c.create_variable(ro.payload.data[i]);
            assert forall|t: int| 0 <= t < i
                implies c.holds_value(#[trigger] data@[t], ro.payload.data@[t].val()) by {
                assert(before.holds_value(data@[t], ro.payload.data@[t].val()));
                assert(c.wires()[data@[t] as int] == before.wires()[data@[t] as int]);
            }
            assert(c.wires()[addr as int] == before.wires()[addr as int]);
            data.push(w);
            i = i + 1;
            assert(data@ =~= wire_range(old(c).wires().len() as int + 1, i as int));
        }
        let ghost mid = *c;
        let is_dummy = c.create_variable(crate::field::Fe::from_u64(if ro.payload.is_dummy { 1 } else { 0 }));
        let pid_birth = c.create_variable(ro.pid_birth);
        let pid_death = c.create_variable(ro.pid_death);
        let nonce = c.create_variable(ro.nonce);
        let blinding = c.create_variable(ro.blinding);
        let r = RecordOpeningVar { addr, data, is_dummy, pid_birth, pid_death, nonce, blinding };
        assert(r.fields() =~= wire_range(old(c).wires().len() as int, ro.payload.data@.len() as int + 6));
        proof {
            assert forall|j: int| 0 <= j < r.fields().len() implies c.holds_value(
                #[trigger] r.fields()[j],
                ro.field_values()[j],
            ) by {
                if j == 0 {
                    assert(c.wires()[addr as int] == mid.wires()[addr as int]);
                } else if j <= r.data@.len() {
                    let w = r.data@[j - 1];
                    assert(mid.holds_value(w, ro.payload.data@[j - 1].val()));
                    assert(c.wires()[w as int] == mid.wires()[w as int]);
                }
            }
        }
        r
    }
}

/// The wires of a spent note, as indices.
pub struct NoteWires {
    pub fields: Seq<usize>,
    pub uid: usize,
    pub path: Seq<usize>,
    pub ak: PointVar,
    pub nk: usize,
    pub rand: PointVar,
    pub rho: usize,
}

/// The wires of a note allocated from wire `base` on, with `p` payload
/// elements and a path of `l` siblings.
pub open spec fn note_wires_at(base: int, p: int, l: int) -> NoteWires {
    NoteWires {
        fields: wire_range(base, p + 6),
        uid: (base + p + 6) as usize,
        path: wire_range(base + p + 7, l),
        ak: PointVar { x: (base + p + l + 7) as usize, y: (base + p + l + 8) as usize },
        nk: (base + p + l + 9) as usize,
        rand: PointVar { x: (base + p + l + 10) as usize, y: (base + p + l + 11) as usize },
        rho: (base + p + l + 12) as usize,
    }
}

/// Wires holding a spent note.
#[derive(Clone, Debug)]
pub struct NoteInputVar {
    pub record_opening_var: RecordOpeningVar,
    pub uid: usize,
    pub merkle_path: Vec<usize>,
    pub ak: PointVar,
    pub nk: usize,
    pub authorization_randomizer_var: PointVar,
    pub diversifier_randomizer_var: usize,
}

impl NoteInputVar {
    /// The wires, as indices.
    pub open spec fn wires(&self) -> NoteWires {
        NoteWires {
            fields: self.record_opening_var.fields(),
            uid: self.uid,
            path: self.merkle_path@,
            ak: self.ak,
            nk: self.nk,
            rand: self.authorization_randomizer_var,
            rho: self.diversifier_randomizer_var,
        }
    }

    /// Every wire is below `n`.
    pub open spec fn in_range(&self, n: int) -> bool {
        &&& self.record_opening_var.in_range(n)
        &&& self.uid < n
        &&& forall|j: int| 0 <= j < self.merkle_path@.len() ==> #[trigger] self.merkle_path@[j] < n
        &&& self.ak.x < n && self.ak.y < n && self.nk < n
        &&& self.authorization_randomizer_var.x < n && self.authorization_randomizer_var.y < n
        &&& self.diversifier_randomizer_var < n
    }

    /// The wires hold `input`.
    pub open spec fn holds(&self, c: &ConstraintSystem, input: NoteInput) -> bool {
        &&& self.record_opening_var.holds(c, input.ro)
        &&& c.holds_value(self.uid, input.acc_member_witness.uid.val())
        &&& c.holds_values(self.merkle_path@, fe_values(input.acc_member_witness.merkle_path@))
        &&& c.holds_value(self.ak.x, input.proof_gen_key.ak.x.val())
        &&& c.holds_value(self.ak.y, input.proof_gen_key.ak.y.val())
        &&& c.holds_value(self.nk, input.proof_gen_key.nk.val())
        &&& c.holds_value(self.authorization_randomizer_var.x, input.authorization_randomizer.x.val())
        &&& c.holds_value(self.authorization_randomizer_var.y, input.authorization_randomizer.y.val())
        &&& c.holds_value(self.diversifier_randomizer_var, input.diversifier_randomizer.val())
    }
}

impl RecordOpeningVar {
    /// The wires in the order of `fields`.
    pub fn fields_vec(&self) -> (r: Vec<usize>)
        ensures
            r@ == self.fields(),
    {
        let mut r: Vec<usize> = Vec::new();
        r.push(self.addr);
        let mut i: usize = 0;
        while i < self.data.len()
            invariant
                i <= self.data@.len(),
                r@ == seq![self.addr] + self.data@.subrange(0, i as int),
            decreases self.data@.len() - i,
        {
            r.push(self.data[i]);
            i = i + 1;
            assert(self.data@.subrange(0, i as int) == self.data@.subrange(0, i - 1).push(
                self.data@[i - 1],
            ));
        }
        assert(self.data@.subrange(0, self.data@.len() as int) == self.data@);
        r.push(self.is_dummy);
        r.push(self.pid_birth);
        r.push(self.pid_death);
        r.push(self.nonce);
        r.push(self.blinding);
        assert(r@ =~= self.fields());
        r
    }

    /// A new wire for the commitment of the record on these wires.
    pub fn derive_record_commitment_var(&self, c: &mut ConstraintSystem) -> (r: usize)
        requires
            old(c).wf(),
            self.in_range(old(c).wires().len() as int),
        ensures
            final(c).grew(old(c), 1),
            final(c).gate_views() == old(c).gate_views().push(GateView::Gadget { kind: GadgetKind::RecordCommitment, ins: self.fields(), outs: seq![r] }),
            final(c).wires().len() == old(c).wires().len() + 1,
            r == old(c).wires().len(),
            forall|prim: Primitives, vals: Seq<int>| #[trigger]
                final(c).satisfied_by(prim, vals) ==> vals[r as int] == gadget_value(
                    prim,
                    GadgetKind::RecordCommitment,
                    values_of(self.fields(), vals),
                ),
            forall|prim: Primitives, vals: Seq<int>|
                #[trigger] old(c).satisfied_by(prim, vals) && vals.len() == old(c).wires().len()
                    ==> final(c).satisfied_by(prim, vals.push(gadget_value(prim, GadgetKind::RecordCommitment, values_of(self.fields(), vals)))),
    {
        c.gadget_output(GadgetKind::RecordCommitment, self.fields_vec())
    }

    /// A new wire for the nullifier of the record on these wires under the
    /// key on wire `nk`.
    pub fn nullify(&self, c: &mut ConstraintSystem, nk: usize) -> (r: usize)
        requires
            old(c).wf(),
            self.in_range(old(c).wires().len() as int),
            nk < old(c).wires().len(),
        ensures
            final(c).grew(old(c), 1),
            final(c).gate_views() == old(c).gate_views().push(GateView::Gadget { kind: GadgetKind::Nullifier, ins: self.fields().push(nk), outs: seq![r] }),
            final(c).wires().len() == old(c).wires().len() + 1,
            r == old(c).wires().len(),
            forall|prim: Primitives, vals: Seq<int>| #[trigger]
                final(c).satisfied_by(prim, vals) ==> vals[r as int] == gadget_value(
                    prim,
                    GadgetKind::Nullifier,
                    values_of(self.fields().push(nk), vals),
                ),
            forall|prim: Primitives, vals: Seq<int>|
                #[trigger] old(c).satisfied_by(prim, vals) && vals.len() == old(c).wires().len()
                    ==> final(c).satisfied_by(prim, vals.push(gadget_value(prim, GadgetKind::Nullifier, values_of(self.fields().push(nk), vals)))),
    {
        let mut ins = self.fields_vec();
        ins.push(nk);
        assert(ins@ == self.fields().push(nk));
        c.gadget_output(GadgetKind::Nullifier, ins)
    }
}

impl NoteInputVar {
    /// New private wires for `input`.
    pub fn new(c: &mut ConstraintSystem, input: &NoteInput) -> (r: NoteInputVar)
        requires
            old(c).wf(),
        ensures
            final(c).wf(),
            final(c).extends(old(c)),
            r.holds(final(c), *input),
            r.wires() == note_wires_at(
                old(c).wires().len() as int,
                input.ro.payload.data@.len() as int,
                input.acc_member_witness.merkle_path@.len() as int,
            ),
            final(c).wires().len() == old(c).wires().len() + input.ro.payload.data@.len()
                + input.acc_member_witness.merkle_path@.len() + 13,
            final(c).gates() == old(c).gates(),
            final(c).public_wires() == old(c).public_wires(),
    {
        let record_opening_var = RecordOpeningVar::new(c, &input.ro);
        let ghost c1 = *c;
        let uid = c.create_variable(input.acc_member_witness.uid);
        let merkle_path = c.create_variables(&input.acc_member_witness.merkle_path);
        let ghost c2 = *c;
        let ak = c.create_point_variable(input.proof_gen_key.ak);
        let nk = c.create_variable(input.proof_gen_key.nk);
        let authorization_randomizer_var = c.create_point_variable(input.authorization_randomizer);
        let diversifier_randomizer_var = c.create_variable(input.diversifier_randomizer);
        let r = NoteInputVar {
            record_opening_var,
            uid,
            merkle_path,
            ak,
            nk,
            authorization_randomizer_var,
            diversifier_randomizer_var,
        };
        proof {
            lemma_holds_values_extend(c, &c1, r.record_opening_var.fields(), input.ro.field_values());
            lemma_holds_values_extend(c, &c2, r.merkle_path@, fe_values(input.acc_member_witness.merkle_path@));
            lemma_holds_values_extend(c, &c2, seq![uid], seq![input.acc_member_witness.uid.val()]);
            assert(c.holds_value(seq![uid][0], seq![input.acc_member_witness.uid.val()][0]));
        }
        r
    }
}

/// A new wire for the root reached from the leaf on wire `elem`, at the index
/// on wire `uid`, along the sibling wires `path`.
pub fn compute_merkle_root(c: &mut ConstraintSystem, uid: usize, elem: usize, path: &Vec<usize>) -> (r: usize)
    requires
        old(c).wf(),
uid < old(c).wires().len(),
elem < old(c).wires().len(),
forall|j: int| 0 <= j < path@.len() ==> #[trigger] path@[j] < old(c).wires().len(),
    ensures
        final(c).grew(old(c), 1),
        final(c).gate_views() == old(c).gate_views().push(GateView::Gadget { kind: GadgetKind::MerkleRoot, ins: seq![uid, elem] + path@, outs: seq![r] }),
        final(c).wires().len() == old(c).wires().len() + 1,
        r == old(c).wires().len(),
        forall|prim: Primitives, vals: Seq<int>| #[trigger]
            final(c).satisfied_by(prim, vals) ==> vals[r as int] == merkle_root(
                prim,
                vals[uid as int],
                vals[elem as int],
                values_of(path@, vals),
            ),
            forall|prim: Primitives, vals: Seq<int>|
                #[trigger] old(c).satisfied_by(prim, vals) && vals.len() == old(c).wires().len()
                    ==> final(c).satisfied_by(prim, vals.push(merkle_root(prim, vals[uid as int], vals[elem as int], values_of(path@, vals)))),
{
    let mut ins: Vec<usize> = Vec::new();
    ins.push(uid);
    ins.push(elem);
    let mut i: usize = 0;
    while i < path.len()
        invariant
            i <= path@.len(),
            ins@ == seq![uid, elem] + path@.subrange(0, i as int),
        decreases path@.len() - i,
    {
        ins.push(path[i]);
        i = i + 1;
        assert(path@.subrange(0, i as int) == path@.subrange(0, i - 1).push(path@[i - 1]));
    }
    assert(path@.subrange(0, path@.len() as int) == path@);
    let ghost ins_view = ins@;
    let r = c.gadget_output(GadgetKind::MerkleRoot, ins);
    proof {
        assert forall|prim: Primitives, vals: Seq<int>| #[trigger]
            c.satisfied_by(prim, vals) implies vals[r as int] == merkle_root(
            prim,
            vals[uid as int],
            vals[elem as int],
            values_of(path@, vals),
        ) by {
            assert(values_of(ins_view, vals) =~= seq![vals[uid as int], vals[elem as int]] + values_of(path@, vals));
        }
        assert forall|prim: Primitives, vals: Seq<int>|
            #[trigger] old(c).satisfied_by(prim, vals) && vals.len() == old(c).wires().len()
            implies c.satisfied_by(prim, vals.push(merkle_root(prim, vals[uid as int], vals[elem as int], values_of(path@, vals)))) by {
            assert(values_of(ins_view, vals) =~= seq![vals[uid as int], vals[elem as int]] + values_of(path@, vals));
        }
    }
    r
}

/// A new wire for the diversified address of the key `(ak, nk)` under the
/// randomizer on wire `rho`.
pub fn derive_diversifier(c: &mut ConstraintSystem, ak: PointVar, nk: usize, rho: usize) -> (r: usize)
    requires
        old(c).wf(),
ak.x < old(c).wires().len(),
ak.y < old(c).wires().len(),
nk < old(c).wires().len(),
rho < old(c).wires().len(),
    ensures
        final(c).grew(old(c), 1),
        final(c).gate_views() == old(c).gate_views().push(GateView::Gadget { kind: GadgetKind::Diversifier, ins: seq![ak.x, ak.y, nk, rho], outs: seq![r] }),
        final(c).wires().len() == old(c).wires().len() + 1,
        r == old(c).wires().len(),
        forall|prim: Primitives, vals: Seq<int>| #[trigger]
            final(c).satisfied_by(prim, vals) ==> vals[r as int] == diversified_address(
                prim,
                point_values(ak, vals),
                vals[nk as int],
                vals[rho as int],
            ),
            forall|prim: Primitives, vals: Seq<int>|
                #[trigger] old(c).satisfied_by(prim, vals) && vals.len() == old(c).wires().len()
                    ==> final(c).satisfied_by(prim, vals.push(diversified_address(prim, point_values(ak, vals), vals[nk as int], vals[rho as int]))),
{
    let ins = vec![ak.x, ak.y, nk, rho];
    let ghost ins_view = ins@;
    assert(ins_view =~= seq![ak.x, ak.y, nk, rho]);
    let r = c.gadget_output(GadgetKind::Diversifier, ins);
    proof {
        assert forall|prim: Primitives, vals: Seq<int>| #[trigger]
            c.satisfied_by(prim, vals) implies vals[r as int] == diversified_address(
            prim,
            point_values(ak, vals),
            vals[nk as int],
            vals[rho as int],
        ) by {
            assert(values_of(ins_view, vals) =~= seq![vals[ak.x as int], vals[ak.y as int], vals[nk as int], vals[rho as int]]);
        }
    }
    r
}

/// New wires for `p + q` in the embedded group.
pub fn ecc_add(c: &mut ConstraintSystem, p: PointVar, q: PointVar) -> (r: PointVar)
    requires
        old(c).wf(),
        p.x < old(c).wires().len(),
        p.y < old(c).wires().len(),
        q.x < old(c).wires().len(),
        q.y < old(c).wires().len(),
    ensures
        final(c).grew(old(c), 1),
        final(c).gate_views() == old(c).gate_views().push(GateView::Gadget { kind: GadgetKind::EccAdd, ins: seq![p.x, p.y, q.x, q.y], outs: seq![r.x, r.y] }),
        final(c).wires().len() == old(c).wires().len() + 2,
        r.x == old(c).wires().len(),
        r.y == old(c).wires().len() + 1,
        forall|prim: Primitives, vals: Seq<int>| #[trigger]
            final(c).satisfied_by(prim, vals) ==> point_values(r, vals) == group_add(
                prim,
                point_values(p, vals),
                point_values(q, vals),
            ),
        forall|prim: Primitives, vals: Seq<int>|
            #[trigger] old(c).satisfied_by(prim, vals) && vals.len() == old(c).wires().len()
                ==> final(c).satisfied_by(
                prim,
                vals.push(group_add(prim, point_values(p, vals), point_values(q, vals)).0).push(
                    group_add(prim, point_values(p, vals), point_values(q, vals)).1,
                ),
            ),
{
    let ins = vec![p.x, p.y, q.x, q.y];
    let ghost ins_view = ins@;
    let outs = c.gadget(GadgetKind::EccAdd, ins, 2);
    let r = PointVar { x: outs[0], y: outs[1] };
    assert(outs@ =~= seq![r.x, r.y]);
    assert(ins_view =~= seq![p.x, p.y, q.x, q.y]);
    proof {
        let k = c.gates().len() - 1;
        assert forall|prim: Primitives, vals: Seq<int>| #[trigger]
            c.satisfied_by(prim, vals) implies point_values(r, vals) == group_add(
            prim,
            point_values(p, vals),
            point_values(q, vals),
        ) by {
            assert(crate::circuit::gate_holds(c.gates()[k], prim, vals));
            assert(values_of(ins_view, vals) =~= seq![vals[p.x as int], vals[p.y as int], vals[q.x as int], vals[q.y as int]]);
            assert(vals[outs@[0] as int] == prim(GadgetKind::EccAdd, values_of(ins_view, vals))[0]);
            assert(vals[outs@[1] as int] == prim(GadgetKind::EccAdd, values_of(ins_view, vals))[1]);
        }
        assert forall|prim: Primitives, vals: Seq<int>|
            #[trigger] old(c).satisfied_by(prim, vals) && vals.len() == old(c).wires().len()
            implies c.satisfied_by(
            prim,
            vals.push(group_add(prim, point_values(p, vals), point_values(q, vals)).0).push(
                group_add(prim, point_values(p, vals), point_values(q, vals)).1,
            ),
        ) by {
            assert(values_of(ins_view, vals) =~= seq![vals[p.x as int], vals[p.y as int], vals[q.x as int], vals[q.y as int]]);
            assert(vals + crate::circuit::gadget_outputs(prim, GadgetKind::EccAdd, values_of(ins_view, vals), 2) =~= vals.push(
                group_add(prim, point_values(p, vals), point_values(q, vals)).0,
            ).push(group_add(prim, point_values(p, vals), point_values(q, vals)).1));
        }
    }
    r
}

/// A new wire for the sponge hash of the wires `msg`, without padding.
pub fn rescue_sponge_no_padding(c: &mut ConstraintSystem, msg: Vec<usize>) -> (r: usize)
    requires
        old(c).wf(),
forall|j: int| 0 <= j < msg@.len() ==> #[trigger] msg@[j] < old(c).wires().len(),
    ensures
        final(c).grew(old(c), 1),
        final(c).gate_views() == old(c).gate_views().push(GateView::Gadget { kind: GadgetKind::Sponge, ins: msg@, outs: seq![r] }),
        final(c).wires().len() == old(c).wires().len() + 1,
        r == old(c).wires().len(),
        forall|prim: Primitives, vals: Seq<int>| #[trigger]
            final(c).satisfied_by(prim, vals) ==> vals[r as int] == sponge(prim, values_of(msg@, vals)),
            forall|prim: Primitives, vals: Seq<int>|
                #[trigger] old(c).satisfied_by(prim, vals) && vals.len() == old(c).wires().len()
                    ==> final(c).satisfied_by(prim, vals.push(sponge(prim, values_of(msg@, vals)))),
{
    c.gadget_output(GadgetKind::Sponge, msg)
}

/// A new wire for the commitment to the wires `msg` under the blinding on
/// wire `blinding`.
pub fn commit(c: &mut ConstraintSystem, msg: &Vec<usize>, blinding: usize) -> (r: usize)
    requires
        old(c).wf(),
forall|j: int| 0 <= j < msg@.len() ==> #[trigger] msg@[j] < old(c).wires().len(),
blinding < old(c).wires().len(),
    ensures
        final(c).grew(old(c), 1),
        final(c).gate_views() == old(c).gate_views().push(GateView::Gadget { kind: GadgetKind::Commit, ins: seq![blinding] + msg@, outs: seq![r] }),
        final(c).wires().len() == old(c).wires().len() + 1,
        r == old(c).wires().len(),
        forall|prim: Primitives, vals: Seq<int>| #[trigger]
            final(c).satisfied_by(prim, vals) ==> vals[r as int] == commitment(
                prim,
                values_of(msg@, vals),
                vals[blinding as int],
            ),
            forall|prim: Primitives, vals: Seq<int>|
                #[trigger] old(c).satisfied_by(prim, vals) && vals.len() == old(c).wires().len()
                    ==> final(c).satisfied_by(prim, vals.push(commitment(prim, values_of(msg@, vals), vals[blinding as int]))),
{
    let mut ins: Vec<usize> = Vec::new();
    ins.push(blinding);
    let mut i: usize = 0;
    while i < msg.len()
        invariant
            i <= msg@.len(),
            ins@ == seq![blinding] + msg@.subrange(0, i as int),
        decreases msg@.len() - i,
    {
        ins.push(msg[i]);
        i = i + 1;
        assert(msg@.subrange(0, i as int) == msg@.subrange(0, i - 1).push(msg@[i - 1]));
    }
    assert(msg@.subrange(0, msg@.len() as int) == msg@);
    let ghost ins_view = ins@;
    let r = c.gadget_output(GadgetKind::Commit, ins);
    proof {
        assert forall|prim: Primitives, vals: Seq<int>| #[trigger]
            c.satisfied_by(prim, vals) implies vals[r as int] == commitment(
            prim,
            values_of(msg@, vals),
            vals[blinding as int],
        ) by {
            assert(values_of(ins_view, vals) =~= seq![vals[blinding as int]] + values_of(msg@, vals));
        }
        assert forall|prim: Primitives, vals: Seq<int>|
            #[trigger] old(c).satisfied_by(prim, vals) && vals.len() == old(c).wires().len()
            implies c.satisfied_by(prim, vals.push(commitment(prim, values_of(msg@, vals), vals[blinding as int]))) by {
            assert(values_of(ins_view, vals) =~= seq![vals[blinding as int]] + values_of(msg@, vals));
        }
    }
    r
}

/// Wires that hold a record keep holding it as the system grows.
pub proof fn lemma_record_var_extend(c2: &ConstraintSystem, c1: &ConstraintSystem, rv: RecordOpeningVar, ro: RecordOpening)
    requires
        c2.extends(c1),
        rv.holds(c1, ro),
    ensures
        rv.holds(c2, ro),
{
    lemma_holds_values_extend(c2, c1, rv.fields(), ro.field_values());
}

/// Wires that hold a note keep holding it as the system grows.
pub proof fn lemma_note_var_extend(c2: &ConstraintSystem, c1: &ConstraintSystem, iv: NoteInputVar, input: NoteInput)
    requires
        c2.extends(c1),
        iv.holds(c1, input),
    ensures
        iv.holds(c2, input),
{
    lemma_record_var_extend(c2, c1, iv.record_opening_var, input.ro);
    lemma_holds_values_extend(c2, c1, iv.merkle_path@, fe_values(input.acc_member_witness.merkle_path@));
    lemma_holds_value_extend(c2, c1, iv.uid, input.acc_member_witness.uid.val());
    lemma_holds_value_extend(c2, c1, iv.ak.x, input.proof_gen_key.ak.x.val());
    lemma_holds_value_extend(c2, c1, iv.ak.y, input.proof_gen_key.ak.y.val());
    lemma_holds_value_extend(c2, c1, iv.nk, input.proof_gen_key.nk.val());
    lemma_holds_value_extend(c2, c1, iv.authorization_randomizer_var.x, input.authorization_randomizer.x.val());
    lemma_holds_value_extend(c2, c1, iv.authorization_randomizer_var.y, input.authorization_randomizer.y.val());
    lemma_holds_value_extend(c2, c1, iv.diversifier_randomizer_var, input.diversifier_randomizer.val());
}

/// A satisfying assignment gives the wires of a record the record's values.
pub proof fn lemma_record_values(c: &ConstraintSystem, prim: Primitives, vals: Seq<int>, rv: RecordOpeningVar, ro: RecordOpening)
    requires
        c.satisfied_by(prim, vals),
        rv.holds(c, ro),
    ensures
        values_of(rv.fields(), vals) == ro.field_values(),
        vals[rv.addr as int] == ro.addr.val(),
        vals[rv.is_dummy as int] == bool_value(ro.payload.is_dummy),
        vals[rv.pid_birth as int] == ro.pid_birth.val(),
        vals[rv.pid_death as int] == ro.pid_death.val(),
        vals[rv.nonce as int] == ro.nonce.val(),
        forall|i: int| 0 <= i < rv.data@.len()
            ==> vals[#[trigger] rv.data@[i] as int] == ro.payload.data@[i].val(),
{
    lemma_fixed_values(c, prim, vals, rv.fields(), ro.field_values());
    let f = rv.fields();
    let v = ro.field_values();
    let len = rv.data@.len() as int;
    assert(values_of(f, vals)[0] == v[0]);
    assert(values_of(f, vals)[len + 1] == v[len + 1]);
    assert(values_of(f, vals)[len + 2] == v[len + 2]);
    assert(values_of(f, vals)[len + 3] == v[len + 3]);
    assert(values_of(f, vals)[len + 4] == v[len + 4]);
    assert forall|i: int| 0 <= i < rv.data@.len()
        implies vals[#[trigger] rv.data@[i] as int] == ro.payload.data@[i].val() by {
        assert(values_of(f, vals)[i + 1] == v[i + 1]);
        assert(f[i + 1] == rv.data@[i]);
    }
}

/// A satisfying assignment gives the wires of a note the note's values.
pub proof fn lemma_note_values(c: &ConstraintSystem, prim: Primitives, vals: Seq<int>, iv: NoteInputVar, input: NoteInput)
    requires
        c.satisfied_by(prim, vals),
        iv.holds(c, input),
    ensures
        values_of(iv.record_opening_var.fields(), vals) == input.ro.field_values(),
        values_of(iv.merkle_path@, vals) == fe_values(input.acc_member_witness.merkle_path@),
        vals[iv.uid as int] == input.acc_member_witness.uid.val(),
        point_values(iv.ak, vals) == input.proof_gen_key.ak.coords(),
        vals[iv.nk as int] == input.proof_gen_key.nk.val(),
        point_values(iv.authorization_randomizer_var, vals) == input.authorization_randomizer.coords(),
        vals[iv.diversifier_randomizer_var as int] == input.diversifier_randomizer.val(),
{
    lemma_record_values(c, prim, vals, iv.record_opening_var, input.ro);
    lemma_fixed_values(c, prim, vals, iv.merkle_path@, fe_values(input.acc_member_witness.merkle_path@));
    lemma_fixed_values(
        c,
        prim,
        vals,
        seq![iv.uid, iv.ak.x, iv.ak.y, iv.nk, iv.authorization_randomizer_var.x, iv.authorization_randomizer_var.y, iv.diversifier_randomizer_var],
        seq![
            input.acc_member_witness.uid.val(),
            input.proof_gen_key.ak.x.val(),
            input.proof_gen_key.ak.y.val(),
            input.proof_gen_key.nk.val(),
            input.authorization_randomizer.x.val(),
            input.authorization_randomizer.y.val(),
            input.diversifier_randomizer.val(),
        ],
    );
    let ws = seq![iv.uid, iv.ak.x, iv.ak.y, iv.nk, iv.authorization_randomizer_var.x, iv.authorization_randomizer_var.y, iv.diversifier_randomizer_var];
    assert(values_of(ws, vals)[0] == vals[iv.uid as int]);
    assert(values_of(ws, vals)[1] == vals[iv.ak.x as int]);
    assert(values_of(ws, vals)[2] == vals[iv.ak.y as int]);
    assert(values_of(ws, vals)[3] == vals[iv.nk as int]);
    assert(values_of(ws, vals)[4] == vals[iv.authorization_randomizer_var.x as int]);
    assert(values_of(ws, vals)[5] == vals[iv.authorization_randomizer_var.y as int]);
    assert(values_of(ws, vals)[6] == vals[iv.diversifier_randomizer_var as int]);
}

/// Wires that hold a record are wires of the system.
pub proof fn lemma_record_holds_in_range(c: &ConstraintSystem, rv: RecordOpeningVar, ro: RecordOpening)
    requires
        rv.holds(c, ro),
    ensures
        rv.in_range(c.wires().len() as int),
{
    assert forall|j: int| 0 <= j < rv.fields().len() implies #[trigger] rv.fields()[j] < c.wires().len() by {
        assert(c.holds_value(rv.fields()[j], ro.field_values()[j]));
    }
}

/// Wires that hold a note are wires of the system.
pub proof fn lemma_note_holds_in_range(c: &ConstraintSystem, iv: NoteInputVar, input: NoteInput)
    requires
        iv.holds(c, input),
    ensures
        iv.in_range(c.wires().len() as int),
{
    lemma_record_holds_in_range(c, iv.record_opening_var, input.ro);
    assert forall|j: int| 0 <= j < iv.merkle_path@.len()
        implies #[trigger] iv.merkle_path@[j] < c.wires().len() by {
        assert(c.holds_value(iv.merkle_path@[j], fe_values(input.acc_member_witness.merkle_path@)[j]));
    }
}

/// Wires below `n` are below any larger number.
pub proof fn lemma_note_in_range_mono(iv: NoteInputVar, n: int, m: int)
    requires
        iv.in_range(n),
        n <= m,
    ensures
        iv.in_range(m),
{
    assert forall|j: int| 0 <= j < iv.record_opening_var.fields().len()
        implies #[trigger] iv.record_opening_var.fields()[j] < m by {
        assert(iv.record_opening_var.fields()[j] < n);
    }
    assert forall|j: int| 0 <= j < iv.merkle_path@.len() implies #[trigger] iv.merkle_path@[j] < m by {
        assert(iv.merkle_path@[j] < n);
    }
}

/// Wires below `n` are below any larger number.
pub proof fn lemma_record_in_range_mono(rv: RecordOpeningVar, n: int, m: int)
    requires
        rv.in_range(n),
        n <= m,
    ensures
        rv.in_range(m),
{
    assert forall|j: int| 0 <= j < rv.fields().len() implies #[trigger] rv.fields()[j] < m by {
        assert(rv.fields()[j] < n);
    }
}

} // verus!
