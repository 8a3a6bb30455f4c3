//! The UTXO transaction circuit.
use crate::circuit::{
    ConstraintSystem, Gate, GadgetKind, GateView, lemma_views_push, wire_range, PointVar, Primitives, agrees, eq_bit, fixed_value,
    gadget_value, gate_holds, lemma_extends_trans, lemma_fixed_value, lemma_fixed_values,
    lemma_holds_value_extend, lemma_holds_values_extend, lemma_satisfied_prefix,
    lemma_values_of_agree, values_of,
};
use crate::errors::DPCApiError;
use crate::field::{Fe, Point, fe_values, field_sub, neutral_coords};
use crate::gadgets::{
    NoteInputVar, NoteWires, RecordOpeningVar, commit, note_wires_at, commitment, compute_merkle_root, derive_diversifier,
    diversified_address, ecc_add, group_add, lemma_note_holds_in_range, lemma_note_in_range_mono,
    lemma_note_values, lemma_note_var_extend, lemma_record_holds_in_range,
    lemma_record_in_range_mono, lemma_record_values, lemma_record_var_extend, merkle_root,
    nullifier, point_values, record_commitment, rescue_sponge_no_padding, sponge,
};
use crate::records::{
    DPCUtxoPublicInput, DPCUtxoWitness, MEMO_LEN, NoteInput, RecordOpening, native_asset_code,
    native_asset_code_fe, zeroed_scalars, PAYLOAD_DATA_LEN, MERKLE_PATH_LEN,
};
use vstd::prelude::*;

verus! {

/// A spent note meets the spend rules under public nullifier `nf` and root
/// `root`: the fee input is a real record of the native asset, and a real
/// record is accumulated under `root`, has nullifier `nf`, and has the
/// address its key derives.
pub open spec fn spend_valid(prim: Primitives, input: NoteInput, nf: int, root: int, is_fee: bool) -> bool {
    let ro = input.ro;
    let pgk = input.proof_gen_key;
    &&& is_fee ==> !ro.is_dummy() && ro.asset_type() == native_asset_code()
    &&& !ro.is_dummy() ==> merkle_root(
        prim,
        input.acc_member_witness.uid.val(),
        record_commitment(prim, ro),
        fe_values(input.acc_member_witness.merkle_path@),
    ) == root
    &&& !ro.is_dummy() ==> nullifier(prim, ro, pgk.nk.val()) == nf
    &&& !ro.is_dummy() ==> diversified_address(
        prim,
        pgk.ak.coords(),
        pgk.nk.val(),
        input.diversifier_randomizer.val(),
    ) == ro.addr.val()
}

/// The randomized authorization key of a note: `ak + randomizer`.
pub open spec fn randomized_key(prim: Primitives, input: NoteInput) -> (int, int) {
    group_add(prim, input.proof_gen_key.ak.coords(), input.authorization_randomizer.coords())
}

/// The sum, from the neutral point, of the randomized keys of `inputs`.
pub open spec fn aggregated_key(prim: Primitives, inputs: Seq<NoteInput>) -> (int, int)
    decreases inputs.len(),
{
    if inputs.len() == 0 {
        neutral_coords()
    } else {
        group_add(prim, aggregated_key(prim, inputs.drop_last()), randomized_key(prim, inputs.last()))
    }
}

/// An output at `position` meets the output rules under public commitment
/// `rc` and first nullifier `nf0`: the fee change is a real record of the
/// native asset, and a real record has the nonce derived from its position
/// and `nf0`, and the commitment `rc`.
pub open spec fn output_valid(prim: Primitives, ro: RecordOpening, rc: int, is_fee_chg: bool, position: int, nf0: int) -> bool {
    &&& is_fee_chg ==> !ro.is_dummy() && ro.asset_type() == native_asset_code()
    &&& !ro.is_dummy() ==> ro.nonce.val() == sponge(prim, seq![position, nf0, 1])
    &&& !ro.is_dummy() ==> record_commitment(prim, ro) == rc
}

/// Input `i` meets the spend rules; input 0 is the fee input.
pub open spec fn input_valid(prim: Primitives, w: DPCUtxoWitness, p: DPCUtxoPublicInput, i: int) -> bool {
    spend_valid(prim, w.entire_inputs@[i], p.input_nullifiers@[i].val(), p.root.val(), i == 0)
}

/// Output `j` meets the output rules; output 0 is the fee change.
pub open spec fn output_valid_at(prim: Primitives, w: DPCUtxoWitness, p: DPCUtxoPublicInput, j: int) -> bool {
    output_valid(
        prim,
        w.entire_output_records_openings@[j],
        p.output_commitments@[j].val(),
        j == 0,
        j,
        p.input_nullifiers@[0].val(),
    )
}

/// The local data: the commitments of the inputs, the public output
/// commitments, and the memo.
pub open spec fn local_data(prim: Primitives, w: DPCUtxoWitness, p: DPCUtxoPublicInput) -> Seq<int> {
    w.entire_inputs@.map_values(|input: NoteInput| record_commitment(prim, input.ro)) + fe_values(
        p.output_commitments@,
    ) + fe_values(p.memo@)
}

/// The death predicates of the non-fee inputs, then the birth predicates of
/// the non-fee outputs.
pub open spec fn predicate_ids(w: DPCUtxoWitness) -> Seq<int> {
    w.entire_inputs@.skip(1).map_values(|input: NoteInput| input.ro.pid_death.val())
        + w.entire_output_records_openings@.skip(1).map_values(|ro: RecordOpening| ro.pid_birth.val())
}

/// Everything a satisfied circuit establishes of a transaction, given what
/// the gadgets compute: each input passes the spend rules and each output
/// the output rules, the randomized keys add up to the authorization
/// verification key, the fee is the fee input's amount minus the fee
/// change's, and the two commitments open to the local data and the
/// predicate identifiers.
pub open spec fn transaction_holds(prim: Primitives, w: DPCUtxoWitness, p: DPCUtxoPublicInput) -> bool {
    &&& records_valid(prim, w, p)
    &&& auth_key_aggregates(prim, w, p)
    &&& fee_balances(w, p)
    &&& commitments_open(prim, w, p)
}

/// Each input passes the spend rules and each output the output rules.
pub open spec fn records_valid(prim: Primitives, w: DPCUtxoWitness, p: DPCUtxoPublicInput) -> bool {
    &&& forall|i: int| 0 <= i < w.entire_inputs@.len() ==> #[trigger] input_valid(prim, w, p, i)
    &&& forall|j: int| 0 <= j < w.entire_output_records_openings@.len()
        ==> #[trigger] output_valid_at(prim, w, p, j)
}

/// The randomized keys of the inputs add up to the authorization
/// verification key.
pub open spec fn auth_key_aggregates(prim: Primitives, w: DPCUtxoWitness, p: DPCUtxoPublicInput) -> bool {
    aggregated_key(prim, w.entire_inputs@) == p.authorization_verification_key.coords()
}

/// The fee is the fee input's amount minus the fee change's, in the field.
pub open spec fn fee_balances(w: DPCUtxoWitness, p: DPCUtxoPublicInput) -> bool {
    p.fee as int == field_sub(
        w.entire_inputs@[0].ro.amount(),
        w.entire_output_records_openings@[0].amount(),
    )
}

/// The local-data and predicates commitments open to the local data and the
/// predicate identifiers.
pub open spec fn commitments_open(prim: Primitives, w: DPCUtxoWitness, p: DPCUtxoPublicInput) -> bool {
    &&& p.commitment_local_data.val() == commitment(prim, local_data(prim, w, p), w.blinding_local_data.val())
    &&& p.commitment_predicates.val() == commitment(prim, predicate_ids(w), w.blinding_predicates.val())
}

/// Witness and public input have the sizes the circuit is laid out for.
pub open spec fn well_shaped(w: DPCUtxoWitness, p: DPCUtxoPublicInput) -> bool {
    w.well_shaped() && p.well_shaped(w.entire_inputs@.len() as int)
}

/// Gates of the circuit for `n` records on each side.
pub open spec fn utxo_gate_count(n: int) -> int {
    21 * n + 12
}

/// Length of the public input vector for `n` records on each side.
pub open spec fn utxo_public_len(n: int) -> int {
    2 * n + 6 + MEMO_LEN
}

/// Gates that the spend of one input adds.
pub open spec fn spend_gate_count(is_fee: bool) -> int {
    if is_fee {
        14
    } else {
        12
    }
}

/// Gates that the check of one output adds.
pub open spec fn output_gate_count(is_fee_chg: bool) -> int {
    if is_fee_chg {
        10
    } else {
        8
    }
}

/// What a satisfying assignment `vals` tells of a spent note on the wires
/// `iv`: its dummy flag is a bit; `rc` holds its record commitment; the fee
/// input is a real record of the native asset; and a real record reaches the
/// root on wire `root`, has the nullifier on wire `nf`, and has an address
/// derived from its key.
pub open spec fn spend_checks(
    prim: Primitives,
    vals: Seq<int>,
    iv: NoteInputVar,
    nf: usize,
    root: usize,
    is_fee: bool,
    native: usize,
    rc: usize,
) -> bool {
    let rov = iv.record_opening_var;
    let d = vals[rov.is_dummy as int];
    &&& d == 0 || d == 1
    &&& vals[rc as int] == gadget_value(prim, GadgetKind::RecordCommitment, values_of(rov.fields(), vals))
    &&& is_fee ==> d == 0 && vals[rov.data@[0] as int] == vals[native as int]
    &&& d != 1 ==> vals[root as int] == merkle_root(
        prim,
        vals[iv.uid as int],
        vals[rc as int],
        values_of(iv.merkle_path@, vals),
    )
    &&& d != 1 ==> vals[nf as int] == gadget_value(
        prim,
        GadgetKind::Nullifier,
        values_of(rov.fields().push(iv.nk), vals),
    )
    &&& d != 1 ==> vals[rov.addr as int] == diversified_address(
        prim,
        point_values(iv.ak, vals),
        vals[iv.nk as int],
        vals[iv.diversifier_randomizer_var as int],
    )
}

/// The randomized authorization key of the note on the wires `iv`:
/// `ak + randomizer`.
pub open spec fn randomized_key_values(prim: Primitives, vals: Seq<int>, iv: NoteInputVar) -> (int, int) {
    group_add(prim, point_values(iv.ak, vals), point_values(iv.authorization_randomizer_var, vals))
}

/// `spend_checks`, and `ak_rand` holds the randomized authorization key.
pub open spec fn spend_holds(
    prim: Primitives,
    vals: Seq<int>,
    iv: NoteInputVar,
    nf: usize,
    root: usize,
    is_fee: bool,
    native: usize,
    rc: usize,
    ak_rand: PointVar,
) -> bool {
    &&& spend_checks(prim, vals, iv, nf, root, is_fee, native, rc)
    &&& point_values(ak_rand, vals) == randomized_key_values(prim, vals, iv)
}

/// What `vals` has to give the wires of a note, and the wires `nf`, `root`
/// and `native`, for the spend constraints to be met: the same as
/// `spend_checks`, over the commitment the gadget gives.
pub open spec fn spend_ready(
    prim: Primitives,
    vals: Seq<int>,
    iv: NoteInputVar,
    nf: usize,
    root: usize,
    is_fee: bool,
    native: usize,
) -> bool {
    let rov = iv.record_opening_var;
    let d = vals[rov.is_dummy as int];
    let rc = gadget_value(prim, GadgetKind::RecordCommitment, values_of(rov.fields(), vals));
    &&& d == 0 || d == 1
    &&& is_fee ==> d == 0 && vals[rov.data@[0] as int] == vals[native as int]
    &&& d != 1 ==> vals[root as int] == merkle_root(prim, vals[iv.uid as int], rc, values_of(iv.merkle_path@, vals))
    &&& d != 1 ==> vals[nf as int] == gadget_value(
        prim,
        GadgetKind::Nullifier,
        values_of(rov.fields().push(iv.nk), vals),
    )
    &&& d != 1 ==> vals[rov.addr as int] == diversified_address(
        prim,
        point_values(iv.ak, vals),
        vals[iv.nk as int],
        vals[iv.diversifier_randomizer_var as int],
    )
}

/// What a satisfying assignment `vals` tells of an output on the wires `ov`:
/// a real output has the nonce derived from its position and the first
/// nullifier, and the commitment on wire `rc`; the fee change is a real
/// record of the native asset.
pub open spec fn output_holds(
    prim: Primitives,
    vals: Seq<int>,
    ov: RecordOpeningVar,
    rc: usize,
    is_fee_chg: bool,
    native: usize,
    position: int,
    first_nullifier: usize,
) -> bool {
    let d = vals[ov.is_dummy as int];
    &&& d == 0 ==> vals[ov.nonce as int] == sponge(prim, seq![position, vals[first_nullifier as int], 1])
    &&& d == 0 ==> vals[rc as int] == gadget_value(
        prim,
        GadgetKind::RecordCommitment,
        values_of(ov.fields(), vals),
    )
    &&& is_fee_chg ==> d == 0 && vals[ov.data@[0] as int] == vals[native as int]
}

/// The gates that mark a fee record as real and of the native asset, or
/// none for another record.
pub open spec fn fee_views(is_fee: bool, is_dummy: usize, asset: usize, native: usize) -> Seq<GateView> {
    if is_fee {
        seq![GateView::Equal { a: is_dummy, b: 0 }, GateView::Equal { a: asset, b: native }]
    } else {
        seq![]
    }
}

/// The dummy-flag wire among a record's field wires.
pub open spec fn dummy_wire(f: Seq<usize>) -> usize {
    f[f.len() - 5]
}

/// The gates the spend of the note on wires `nw` adds to a system of `base`
/// wires; the new wires are `base` to `base + 8`.
pub open spec fn spend_gate_views(
    nw: NoteWires,
    nf: usize,
    root: usize,
    is_fee: bool,
    native: usize,
    base: int,
) -> Seq<GateView> {
    let f = nw.fields;
    let d = dummy_wire(f);
    let w = |k: int| (base + k) as usize;
    seq![
        GateView::Bool { a: d },
        GateView::Gadget { kind: GadgetKind::RecordCommitment, ins: f, outs: seq![w(0)] },
        GateView::Gadget { kind: GadgetKind::MerkleRoot, ins: seq![nw.uid, w(0)] + nw.path, outs: seq![w(1)] },
    ] + fee_views(is_fee, d, f[1], native) + seq![
        GateView::CheckEqual { a: w(1), b: root, out: w(2) },
        GateView::Or { a: d, b: w(2) },
        GateView::Gadget { kind: GadgetKind::Nullifier, ins: f.push(nw.nk), outs: seq![w(3)] },
        GateView::CheckEqual { a: w(3), b: nf, out: w(4) },
        GateView::Or { a: d, b: w(4) },
        GateView::Gadget {
            kind: GadgetKind::EccAdd,
            ins: seq![nw.ak.x, nw.ak.y, nw.rand.x, nw.rand.y],
            outs: seq![w(5), w(6)],
        },
        GateView::Gadget { kind: GadgetKind::Diversifier, ins: seq![nw.ak.x, nw.ak.y, nw.nk, nw.rho], outs: seq![w(7)] },
        GateView::CheckEqual { a: w(7), b: f[0], out: w(8) },
        GateView::Or { a: d, b: w(8) },
    ]
}

/// The gates the check of the output on field wires `f` adds to a system of
/// `base` wires; the new wires are `base` to `base + 6`.
pub open spec fn output_gate_views(
    f: Seq<usize>,
    rc: usize,
    is_fee_chg: bool,
    native: usize,
    first_nullifier: usize,
    base: int,
) -> Seq<GateView> {
    let d = dummy_wire(f);
    let w = |k: int| (base + k) as usize;
    seq![
        GateView::IsZero { a: d, out: w(0) },
        GateView::Not { a: w(0), out: w(1) },
        GateView::Gadget { kind: GadgetKind::Sponge, ins: seq![w(2), first_nullifier, 1], outs: seq![w(3)] },
        GateView::CheckEqual { a: w(3), b: f[f.len() - 2], out: w(4) },
        GateView::Or { a: w(4), b: w(1) },
        GateView::Gadget { kind: GadgetKind::RecordCommitment, ins: f, outs: seq![w(5)] },
        GateView::CheckEqual { a: w(5), b: rc, out: w(6) },
        GateView::Or { a: w(6), b: w(1) },
    ] + fee_views(is_fee_chg, d, f[1], native)
}

/// For a fee record, constrains its dummy flag to 0 and its asset type to the
/// native one; for another record, adds nothing.
fn fee_slot_gates(c: &mut ConstraintSystem, is_fee: bool, is_dummy: usize, asset: usize, native: usize)
    requires
        old(c).wf(),
        is_dummy < old(c).wires().len(),
        asset < old(c).wires().len(),
        native < old(c).wires().len(),
    ensures
        final(c).grew(old(c), if is_fee { 2int } else { 0int }),
        final(c).wires() == old(c).wires(),
        final(c).gate_views() == old(c).gate_views() + fee_views(is_fee, is_dummy, asset, native),
        forall|prim: Primitives, vals: Seq<int>| #[trigger]
            final(c).satisfied_by(prim, vals) ==> (is_fee ==> vals[is_dummy as int] == 0 && vals[asset as int]
                == vals[native as int]),
        forall|prim: Primitives, vals: Seq<int>|
            #[trigger] old(c).satisfied_by(prim, vals) && vals.len() == old(c).wires().len() && (is_fee
                ==> vals[is_dummy as int] == 0 && vals[asset as int] == vals[native as int])
                ==> final(c).satisfied_by(prim, vals),
{
    if !is_fee {
        assert(c.gate_views() =~= c.gate_views() + fee_views(is_fee, is_dummy, asset, native));
    }
    if is_fee {
        let ghost c0 = *c;
        let zero = c.zero();
        c.equal_gate(is_dummy, zero);
        let ghost c1 = *c;
        c.equal_gate(asset, native);
        proof {
            let c0v = c0;
            lemma_views_push(&c1, &c0v, Gate::Equal { a: is_dummy, b: 0 });
            lemma_views_push(c, &c1, Gate::Equal { a: asset, b: native });
            assert(c.gate_views() =~= c0.gate_views() + fee_views(is_fee, is_dummy, asset, native));
            let k = c0.gates().len() as int;
            assert forall|prim: Primitives, vals: Seq<int>| #[trigger]
                c.satisfied_by(prim, vals)
                    implies vals[is_dummy as int] == 0 && vals[asset as int] == vals[native as int] by {
                assert(gate_holds(c.gates()[k], prim, vals));
                assert(gate_holds(c.gates()[k + 1], prim, vals));
                lemma_fixed_value(c, prim, vals, 0, 0);
            }
            assert forall|prim: Primitives, vals: Seq<int>|
                #[trigger] c0.satisfied_by(prim, vals) && vals.len() == c0.wires().len()
                    && vals[is_dummy as int] == 0
                    && vals[asset as int] == vals[native as int] implies c.satisfied_by(prim, vals) by {
                lemma_fixed_value(&c0, prim, vals, 0, 0);
                assert(c1.satisfied_by(prim, vals));
            }
        }
    }
}

/// What `vals` has to give the wires of an output, and the wires `rc`,
/// `native` and `first_nullifier`, for the output constraints to be met:
/// what `output_holds` says of it.
pub open spec fn output_ready(
    prim: Primitives,
    vals: Seq<int>,
    ov: RecordOpeningVar,
    rc: usize,
    is_fee_chg: bool,
    native: usize,
    position: int,
    first_nullifier: usize,
) -> bool {
    output_holds(prim, vals, ov, rc, is_fee_chg, native, position, first_nullifier)
}

impl DPCUtxoCircuit {
    /// The constraints of spending one input: the dummy flag is a bit, the
    /// record is accumulated under `public_root` and has nullifier
    /// `public_nullifier` and an address derived from its key, unless it is a
    /// dummy; the fee input can be neither dummy nor of another asset. Returns
    /// the wires of the record commitment and of the randomized authorization
    /// key.
    pub fn prove_spend(
        c: &mut ConstraintSystem,
        input: &NoteInputVar,
        public_nullifier: usize,
        public_root: usize,
        is_fee_input: bool,
        native_asset_type: usize,
    ) -> (r: (usize, PointVar))
        requires
            old(c).wf(),
            input.record_opening_var.data@.len() >= 1,
            input.in_range(old(c).wires().len() as int),
            public_nullifier < old(c).wires().len(),
            public_root < old(c).wires().len(),
            native_asset_type < old(c).wires().len(),
        ensures
            final(c).grew(old(c), spend_gate_count(is_fee_input)),
            final(c).wires().len() == old(c).wires().len() + 9,
            r.0 == old(c).wires().len(),
            r.1 == (PointVar { x: (old(c).wires().len() + 5) as usize, y: (old(c).wires().len() + 6) as usize }),
            final(c).gate_views() == old(c).gate_views() + spend_gate_views(
                input.wires(),
                public_nullifier,
                public_root,
                is_fee_input,
                native_asset_type,
                old(c).wires().len() as int,
            ),
            r.0 < final(c).wires().len(),
            r.1.x < final(c).wires().len(),
            r.1.y < final(c).wires().len(),
            forall|prim: Primitives, vals: Seq<int>| #[trigger]
                final(c).satisfied_by(prim, vals) ==> spend_holds(
                    prim,
                    vals,
                    *input,
                    public_nullifier,
                    public_root,
                    is_fee_input,
                    native_asset_type,
                    r.0,
                    r.1,
                ),
            forall|prim: Primitives, vals: Seq<int>|
                #[trigger] old(c).satisfied_by(prim, vals) && vals.len() == old(c).wires().len() && spend_ready(
                    prim,
                    vals,
                    *input,
                    public_nullifier,
                    public_root,
                    is_fee_input,
                    native_asset_type,
                ) ==> final(c).completes(prim, vals),
    {
        let ghost c0 = *c;
        let rov = &input.record_opening_var;
        let is_dummy = rov.is_dummy;
        proof {
            let len = rov.data@.len() as int;
            assert(rov.fields()[0] == rov.addr);
            assert(rov.fields()[1] == rov.data@[0]);
            assert(rov.fields()[len + 1] == rov.is_dummy);
        }
        c.bool_gate(is_dummy);
        let ghost c1 = *c;
        let record_commitment = rov.derive_record_commitment_var(c);
        let ghost c2 = *c;
        let derived_root = compute_merkle_root(c, input.uid, record_commitment, &input.merkle_path);
        let ghost c3 = *c;
        fee_slot_gates(c, is_fee_input, is_dummy, rov.data[0], native_asset_type);
        let ghost c4 = *c;
        let is_in_acc = c.check_equal(derived_root, public_root);
        let ghost c4a = *c;
        c.logic_or_gate(is_dummy, is_in_acc);
        let ghost c5 = *c;
        let nullifier = rov.nullify(c, input.nk);
        let ghost c6 = *c;
        let correct_nullifier = c.check_equal(nullifier, public_nullifier);
        let ghost c6a = *c;
        c.logic_or_gate(is_dummy, correct_nullifier);
        let ghost c7 = *c;
        let rand_auth_key = ecc_add(c, input.ak, input.authorization_randomizer_var);
        let ghost c8 = *c;
        let diversifier = derive_diversifier(c, input.ak, input.nk, input.diversifier_randomizer_var);
        let ghost c9 = *c;
        let correct_diversifier = c.check_equal(diversifier, rov.addr);
        let ghost c9a = *c;
        c.logic_or_gate(is_dummy, correct_diversifier);
        proof {
            let cf = *c;
            lemma_extends_trans(&cf, &c9, &c8);
            lemma_extends_trans(&cf, &c8, &c7);
            lemma_extends_trans(&cf, &c7, &c6);
            lemma_extends_trans(&cf, &c6, &c5);
            lemma_extends_trans(&cf, &c5, &c4);
            lemma_extends_trans(&cf, &c4, &c3);
            lemma_extends_trans(&cf, &c3, &c2);
            lemma_extends_trans(&cf, &c2, &c1);
            lemma_extends_trans(&cf, &c1, &c0);
            let k0 = c0.gates().len() as int;
            let k4 = c4.gates().len() as int;
            let k6 = c6.gates().len() as int;
            let k9 = c9.gates().len() as int;
            // the gates, as views
            lemma_views_push(&c1, &c0, Gate::Bool { a: is_dummy });
            lemma_views_push(&c4a, &c4, Gate::CheckEqual { a: derived_root, b: public_root, out: is_in_acc });
            lemma_views_push(&c5, &c4a, Gate::Or { a: is_dummy, b: is_in_acc });
            lemma_views_push(&c6a, &c6, Gate::CheckEqual { a: nullifier, b: public_nullifier, out: correct_nullifier });
            lemma_views_push(&c7, &c6a, Gate::Or { a: is_dummy, b: correct_nullifier });
            lemma_views_push(&c9a, &c9, Gate::CheckEqual { a: diversifier, b: rov.addr, out: correct_diversifier });
            lemma_views_push(&cf, &c9a, Gate::Or { a: is_dummy, b: correct_diversifier });
            assert(cf.gate_views() =~= c0.gate_views() + spend_gate_views(
                input.wires(),
                public_nullifier,
                public_root,
                is_fee_input,
                native_asset_type,
                c0.wires().len() as int,
            ));
            assert forall|prim: Primitives, vals: Seq<int>| #[trigger]
                cf.satisfied_by(prim, vals) implies spend_holds(
                prim,
                vals,
                *input,
                public_nullifier,
                public_root,
                is_fee_input,
                native_asset_type,
                record_commitment,
                rand_auth_key,
            ) by {
                lemma_satisfied_prefix(&cf, &c2, prim, vals);
                lemma_satisfied_prefix(&cf, &c3, prim, vals);
                lemma_satisfied_prefix(&cf, &c4, prim, vals);
                lemma_satisfied_prefix(&cf, &c6, prim, vals);
                lemma_satisfied_prefix(&cf, &c8, prim, vals);
                lemma_satisfied_prefix(&cf, &c9, prim, vals);
                assert(gate_holds(cf.gates()[k0], prim, vals));
                assert(cf.gates()[k0] == Gate::Bool { a: is_dummy });
                assert(gate_holds(cf.gates()[k4], prim, vals));
                assert(gate_holds(cf.gates()[k4 + 1], prim, vals));
                assert(cf.gates()[k4] == Gate::CheckEqual { a: derived_root, b: public_root, out: is_in_acc });
                assert(cf.gates()[k4 + 1] == Gate::Or { a: is_dummy, b: is_in_acc });
                assert(gate_holds(cf.gates()[k6], prim, vals));
                assert(gate_holds(cf.gates()[k6 + 1], prim, vals));
                assert(cf.gates()[k6] == Gate::CheckEqual { a: nullifier, b: public_nullifier, out: correct_nullifier });
                assert(cf.gates()[k6 + 1] == Gate::Or { a: is_dummy, b: correct_nullifier });
                assert(gate_holds(cf.gates()[k9], prim, vals));
                assert(gate_holds(cf.gates()[k9 + 1], prim, vals));
                assert(cf.gates()[k9] == Gate::CheckEqual { a: diversifier, b: rov.addr, out: correct_diversifier });
                assert(cf.gates()[k9 + 1] == Gate::Or { a: is_dummy, b: correct_diversifier });
            }
            // a ready assignment extends, one wire at a time, to the whole system
            assert forall|prim: Primitives, vals: Seq<int>|
                #[trigger] c0.satisfied_by(prim, vals) && vals.len() == c0.wires().len() && spend_ready(
                    prim,
                    vals,
                    *input,
                    public_nullifier,
                    public_root,
                    is_fee_input,
                    native_asset_type,
                ) implies cf.completes(prim, vals) by {
                let d = vals[is_dummy as int];
                let v0 = vals;
                assert(c1.satisfied_by(prim, v0));
                let rcv = gadget_value(prim, GadgetKind::RecordCommitment, values_of(rov.fields(), v0));
                let v1 = v0.push(rcv);
                assert(c2.satisfied_by(prim, v1));
                lemma_values_of_agree(input.merkle_path@, v0, v1);
                let v2 = v1.push(merkle_root(prim, v1[input.uid as int], v1[record_commitment as int], values_of(input.merkle_path@, v1)));
                assert(c3.satisfied_by(prim, v2));
                assert(c4.satisfied_by(prim, v2));
                let v3 = v2.push(eq_bit(v2[derived_root as int], v2[public_root as int]));
                assert(c4a.satisfied_by(prim, v3));
                assert(c5.satisfied_by(prim, v3));
                lemma_values_of_agree(rov.fields().push(input.nk), v0, v3);
                let nfv = gadget_value(prim, GadgetKind::Nullifier, values_of(rov.fields().push(input.nk), v3));
                let v4 = v3.push(nfv);
                assert(c6.satisfied_by(prim, v4));
                let v5 = v4.push(eq_bit(v4[nullifier as int], v4[public_nullifier as int]));
                assert(c6a.satisfied_by(prim, v5));
                assert(c7.satisfied_by(prim, v5));
                let g = group_add(prim, point_values(input.ak, v5), point_values(input.authorization_randomizer_var, v5));
                let v6 = v5.push(g.0).push(g.1);
                assert(c8.satisfied_by(prim, v6));
                let dv = diversified_address(prim, point_values(input.ak, v6), v6[input.nk as int], v6[input.diversifier_randomizer_var as int]);
                let v7 = v6.push(dv);
                assert(c9.satisfied_by(prim, v7));
                let v8 = v7.push(eq_bit(v7[diversifier as int], v7[rov.addr as int]));
                assert(c9a.satisfied_by(prim, v8));
                assert(cf.satisfied_by(prim, v8));
                assert(agrees(v8, v0));
            }
        }
        (record_commitment, rand_auth_key)
    }
}

impl DPCUtxoCircuit {
    /// The constraints of one output at `position_in_note`: unless it is a
    /// dummy, its nonce is the sponge hash of its position, the first nullifier
    /// and 1, and its commitment is `output_rc_var`; the fee change can be
    /// neither dummy nor of another asset.
    pub fn prove_output(
        c: &mut ConstraintSystem,
        output: &RecordOpeningVar,
        output_rc_var: usize,
        is_fee_chg: bool,
        native_asset_type: usize,
        position_in_note: usize,
        first_nullifier: usize,
    )
        requires
            old(c).wf(),
            output.data@.len() >= 1,
            output.in_range(old(c).wires().len() as int),
            output_rc_var < old(c).wires().len(),
            native_asset_type < old(c).wires().len(),
            first_nullifier < old(c).wires().len(),
        ensures
            final(c).grew(old(c), output_gate_count(is_fee_chg)),
            final(c).wires().len() == old(c).wires().len() + 7,
            final(c).gate_views() == old(c).gate_views() + output_gate_views(
                output.fields(),
                output_rc_var,
                is_fee_chg,
                native_asset_type,
                first_nullifier,
                old(c).wires().len() as int,
            ),
            forall|prim: Primitives, vals: Seq<int>| #[trigger]
                final(c).satisfied_by(prim, vals) ==> output_holds(
                    prim,
                    vals,
                    *output,
                    output_rc_var,
                    is_fee_chg,
                    native_asset_type,
                    position_in_note as int,
                    first_nullifier,
                ),
            forall|prim: Primitives, vals: Seq<int>|
                #[trigger] old(c).satisfied_by(prim, vals) && vals.len() == old(c).wires().len() && output_ready(
                    prim,
                    vals,
                    *output,
                    output_rc_var,
                    is_fee_chg,
                    native_asset_type,
                    position_in_note as int,
                    first_nullifier,
                ) ==> final(c).completes(prim, vals),
    {
        let ghost c0 = *c;
        proof {
            let len = output.data@.len() as int;
            assert(output.fields()[1] == output.data@[0]);
            assert(output.fields()[len + 1] == output.is_dummy);
            assert(output.fields()[len + 4] == output.nonce);
        }
        let is_not_dummy = c.check_is_zero(output.is_dummy);
        let ghost ca = *c;
        let is_dummy = c.logic_neg(is_not_dummy);
        let ghost cb = *c;
        let i_var = c.create_variable(Fe::from_u64(position_in_note as u64));
        let one = c.one();
        let msg = vec![i_var, first_nullifier, one];
        let ghost c1 = *c;
        let derived_nonce = rescue_sponge_no_padding(c, msg);
        let ghost c2 = *c;
        let correct_nonce = c.check_equal(derived_nonce, output.nonce);
        let ghost c2a = *c;
        c.logic_or_gate(correct_nonce, is_dummy);
        let ghost c3 = *c;
        let derived_output_rc = output.derive_record_commitment_var(c);
        let ghost c4 = *c;
        let correct_rc = c.check_equal(derived_output_rc, output_rc_var);
        let ghost c4a = *c;
        c.logic_or_gate(correct_rc, is_dummy);
        let ghost c5 = *c;
        fee_slot_gates(c, is_fee_chg, output.is_dummy, output.data[0], native_asset_type);
        proof {
            let cf = *c;
            lemma_extends_trans(&cf, &c5, &c4);
            lemma_extends_trans(&cf, &c4, &c3);
            lemma_extends_trans(&cf, &c3, &c2);
            lemma_extends_trans(&cf, &c2, &c1);
            lemma_extends_trans(&cf, &c1, &c0);
            let k0 = c0.gates().len() as int;
            let k2 = c2.gates().len() as int;
            let k4 = c4.gates().len() as int;
            // the gates, as views
            lemma_views_push(&ca, &c0, Gate::IsZero { a: output.is_dummy, out: is_not_dummy });
            lemma_views_push(&cb, &ca, Gate::Not { a: is_not_dummy, out: is_dummy });
            lemma_views_push(&c2a, &c2, Gate::CheckEqual { a: derived_nonce, b: output.nonce, out: correct_nonce });
            lemma_views_push(&c3, &c2a, Gate::Or { a: correct_nonce, b: is_dummy });
            lemma_views_push(&c4a, &c4, Gate::CheckEqual { a: derived_output_rc, b: output_rc_var, out: correct_rc });
            lemma_views_push(&c5, &c4a, Gate::Or { a: correct_rc, b: is_dummy });
            assert(msg@ =~= seq![i_var, first_nullifier, 1usize]);
            assert(cf.gate_views() =~= c0.gate_views() + output_gate_views(
                output.fields(),
                output_rc_var,
                is_fee_chg,
                native_asset_type,
                first_nullifier,
                c0.wires().len() as int,
            ));
            assert forall|prim: Primitives, vals: Seq<int>| #[trigger]
                cf.satisfied_by(prim, vals) implies output_holds(
                prim,
                vals,
                *output,
                output_rc_var,
                is_fee_chg,
                native_asset_type,
                position_in_note as int,
                first_nullifier,
            ) by {
                lemma_satisfied_prefix(&cf, &c2, prim, vals);
                lemma_satisfied_prefix(&cf, &c4, prim, vals);
                assert(gate_holds(cf.gates()[k0], prim, vals));
                assert(gate_holds(cf.gates()[k0 + 1], prim, vals));
                assert(cf.gates()[k0] == Gate::IsZero { a: output.is_dummy, out: is_not_dummy });
                assert(cf.gates()[k0 + 1] == Gate::Not { a: is_not_dummy, out: is_dummy });
                assert(gate_holds(cf.gates()[k2], prim, vals));
                assert(gate_holds(cf.gates()[k2 + 1], prim, vals));
                assert(cf.gates()[k2] == Gate::CheckEqual { a: derived_nonce, b: output.nonce, out: correct_nonce });
                assert(cf.gates()[k2 + 1] == Gate::Or { a: correct_nonce, b: is_dummy });
                assert(gate_holds(cf.gates()[k4], prim, vals));
                assert(gate_holds(cf.gates()[k4 + 1], prim, vals));
                assert(cf.gates()[k4] == Gate::CheckEqual { a: derived_output_rc, b: output_rc_var, out: correct_rc });
                assert(cf.gates()[k4 + 1] == Gate::Or { a: correct_rc, b: is_dummy });
                lemma_fixed_value(&cf, prim, vals, i_var, position_in_note as int);
                lemma_fixed_value(&cf, prim, vals, 1, 1);
                assert(values_of(msg@, vals) =~= seq![position_in_note as int, vals[first_nullifier as int], 1]);
            }
            // a ready assignment extends, one wire at a time, to the whole system
            assert forall|prim: Primitives, vals: Seq<int>|
                #[trigger] c0.satisfied_by(prim, vals) && vals.len() == c0.wires().len() && output_ready(
                    prim,
                    vals,
                    *output,
                    output_rc_var,
                    is_fee_chg,
                    native_asset_type,
                    position_in_note as int,
                    first_nullifier,
                ) implies cf.completes(prim, vals) by {
                let v0 = vals;
                lemma_fixed_value(&c0, prim, v0, 1, 1);
                let v1 = v0.push(eq_bit(v0[output.is_dummy as int], 0));
                assert(ca.satisfied_by(prim, v1));
                let v2 = v1.push(1 - v1[is_not_dummy as int]);
                assert(cb.satisfied_by(prim, v2));
                let v3 = v2.push(position_in_note as int);
                assert(c1.satisfied_by(prim, v3));
                assert(values_of(msg@, v3) =~= seq![position_in_note as int, v0[first_nullifier as int], 1]);
                let v4 = v3.push(sponge(prim, values_of(msg@, v3)));
                assert(c2.satisfied_by(prim, v4));
                let v5 = v4.push(eq_bit(v4[derived_nonce as int], v4[output.nonce as int]));
                assert(c2a.satisfied_by(prim, v5));
                assert(c3.satisfied_by(prim, v5));
                lemma_values_of_agree(output.fields(), v0, v5);
                let v6 = v5.push(gadget_value(prim, GadgetKind::RecordCommitment, values_of(output.fields(), v5)));
                assert(c4.satisfied_by(prim, v6));
                let v7 = v6.push(eq_bit(v6[derived_output_rc as int], v6[output_rc_var as int]));
                assert(c4a.satisfied_by(prim, v7));
                assert(c5.satisfied_by(prim, v7));
                assert(cf.satisfied_by(prim, v7));
                assert(agrees(v7, v0));
            }
        }
    }
}

/// Wires a note takes: its record's fields, the index, the path, the key,
/// the randomizers.
pub open spec fn note_width() -> int {
    PAYLOAD_DATA_LEN + MERKLE_PATH_LEN + 13
}

/// Wires a record takes.
pub open spec fn record_width() -> int {
    PAYLOAD_DATA_LEN + 6
}

/// Every record has the system's payload size and every path its length.
pub open spec fn records_sized(w: DPCUtxoWitness) -> bool {
    &&& forall|i: int| 0 <= i < w.entire_inputs@.len() ==> #[trigger] w.entire_inputs@[i].well_shaped()
    &&& forall|j: int|
        0 <= j < w.entire_output_records_openings@.len() ==> #[trigger] w.entire_output_records_openings@[j].well_shaped()
}

/// Wires holding a transaction's witness.
pub struct DPCUtxoWitnessVar {
    pub inputs: Vec<NoteInputVar>,
    pub output_records_openings: Vec<RecordOpeningVar>,
    pub blinding_local_data: usize,
    pub blinding_predicates: usize,
}

impl DPCUtxoWitnessVar {
    /// The wires hold `w`.
    pub open spec fn holds(&self, c: &ConstraintSystem, w: DPCUtxoWitness) -> bool {
        &&& self.inputs@.len() == w.entire_inputs@.len()
        &&& self.output_records_openings@.len() == w.entire_output_records_openings@.len()
        &&& forall|i: int| 0 <= i < self.inputs@.len()
            ==> #[trigger] self.inputs@[i].holds(c, w.entire_inputs@[i])
        &&& forall|j: int|
            0 <= j < self.output_records_openings@.len()
                ==> #[trigger] self.output_records_openings@[j].holds(
                c,
                w.entire_output_records_openings@[j],
            )
        &&& c.holds_value(self.blinding_local_data, w.blinding_local_data.val())
        &&& c.holds_value(self.blinding_predicates, w.blinding_predicates.val())
    }

    /// New private wires for `witness`.
    pub fn new(c: &mut ConstraintSystem, witness: &DPCUtxoWitness) -> (r: DPCUtxoWitnessVar)
        requires
            old(c).wf(),
        ensures
            final(c).wf(),
            final(c).extends(old(c)),
            r.holds(final(c), *witness),
            final(c).gates() == old(c).gates(),
            final(c).public_wires() == old(c).public_wires(),
            records_sized(*witness) ==> {
                let b = old(c).wires().len() as int;
                let n_in = witness.entire_inputs@.len() as int;
                let n_out = witness.entire_output_records_openings@.len() as int;
                &&& forall|i: int| 0 <= i < n_in ==> #[trigger] r.inputs@[i].wires() == note_wires_at(
                    b + i * note_width(),
                    PAYLOAD_DATA_LEN as int,
                    MERKLE_PATH_LEN as int,
                )
                &&& forall|j: int| 0 <= j < n_out ==> #[trigger] r.output_records_openings@[j].fields() == wire_range(
                    b + n_in * note_width() + j * record_width(),
                    record_width(),
                )
                &&& r.blinding_local_data == b + n_in * note_width() + n_out * record_width()
                &&& r.blinding_predicates == b + n_in * note_width() + n_out * record_width() + 1
                &&& final(c).wires().len() == b + n_in * note_width() + n_out * record_width() + 2
            },
    {
        let mut inputs: Vec<NoteInputVar> = Vec::new();
        let mut i: usize = 0;
        while i < witness.entire_inputs.len()
            invariant
                c.wf(),
                c.extends(old(c)),
                i <= witness.entire_inputs@.len(),
                inputs@.len() == i,
                forall|t: int| 0 <= t < i ==> #[trigger] inputs@[t].holds(c, witness.entire_inputs@[t]),
                records_sized(*witness) ==> c.wires().len() == old(c).wires().len() + i * note_width(),
                records_sized(*witness) ==> forall|t: int| 0 <= t < i ==> #[trigger] inputs@[t].wires() == note_wires_at(
                    old(c).wires().len() + t * note_width(),
                    PAYLOAD_DATA_LEN as int,
                    MERKLE_PATH_LEN as int,
                ),
                c.gates() == old(c).gates(),
                c.public_wires() == old(c).public_wires(),
            decreases witness.entire_inputs@.len() - i,
        {
            let ghost before = *c;
            let v = NoteInputVar::new(c, &witness.entire_inputs[i]);
            proof {
                if records_sized(*witness) {
                    assert(witness.entire_inputs@[i as int].well_shaped());
                    assert((i + 1) * note_width() == i * note_width() + note_width()) by (nonlinear_arith);
                }
            }
            proof {
                assert forall|t: int| 0 <= t < i
                    implies #[trigger] inputs@[t].holds(c, witness.entire_inputs@[t]) by {
                    lemma_note_var_extend(c, &before, inputs@[t], witness.entire_inputs@[t]);
                }
            }
            inputs.push(v);
            i = i + 1;
        }
        let mut output_records_openings: Vec<RecordOpeningVar> = Vec::new();
        let mut j: usize = 0;
        let ghost c_in = *c;
        while j < witness.entire_output_records_openings.len()
            invariant
                c.wf(),
                c.extends(old(c)),
                c.extends(&c_in),
                j <= witness.entire_output_records_openings@.len(),
                output_records_openings@.len() == j,
                forall|t: int|
                    0 <= t < j ==> #[trigger] output_records_openings@[t].holds(
                        c,
                        witness.entire_output_records_openings@[t],
                    ),
                records_sized(*witness) ==> c.wires().len() == c_in.wires().len() + j * record_width(),
                records_sized(*witness) ==> forall|t: int| 0 <= t < j ==> #[trigger] output_records_openings@[t].fields() == wire_range(
                    c_in.wires().len() + t * record_width(),
                    record_width(),
                ),
                c.gates() == old(c).gates(),
                c.public_wires() == old(c).public_wires(),
            decreases witness.entire_output_records_openings@.len() - j,
        {
            let ghost before = *c;
            let v = RecordOpeningVar::new(c, &witness.entire_output_records_openings[j]);
            proof {
                if records_sized(*witness) {
                    assert(witness.entire_output_records_openings@[j as int].well_shaped());
                    assert((j + 1) * record_width() == j * record_width() + record_width()) by (nonlinear_arith);
                }
            }
            proof {
                lemma_extends_trans(c, &before, &c_in);
                assert forall|t: int| 0 <= t < j implies #[trigger] output_records_openings@[t].holds(
                    c,
                    witness.entire_output_records_openings@[t],
                ) by {
                    lemma_record_var_extend(c, &before, output_records_openings@[t], witness.entire_output_records_openings@[t]);
                }
            }
            output_records_openings.push(v);
            j = j + 1;
        }
        let ghost c_out = *c;
        let blinding_local_data = c.create_variable(witness.blinding_local_data);
        let blinding_predicates = c.create_variable(witness.blinding_predicates);
        let r = DPCUtxoWitnessVar { inputs, output_records_openings, blinding_local_data, blinding_predicates };
        proof {
            lemma_extends_trans(c, &c_out, &c_in);
            assert forall|t: int| 0 <= t < r.inputs@.len()
                implies #[trigger] r.inputs@[t].holds(c, witness.entire_inputs@[t]) by {
                lemma_note_var_extend(c, &c_in, r.inputs@[t], witness.entire_inputs@[t]);
            }
            assert forall|t: int| 0 <= t < r.output_records_openings@.len()
                implies #[trigger] r.output_records_openings@[t].holds(
                c,
                witness.entire_output_records_openings@[t],
            ) by {
                lemma_record_var_extend(c, &c_out, r.output_records_openings@[t], witness.entire_output_records_openings@[t]);
            }
        }
        r
    }
}

/// Wires holding a transaction's public input.
pub struct DPCUtxoPubInputVar {
    pub nullifiers: Vec<usize>,
    pub output_commitments: Vec<usize>,
    pub predicates_commitment: usize,
    pub local_data_commitment: usize,
    pub root: usize,
    pub fee: usize,
    pub memo: Vec<usize>,
    pub authorization_verification_key: PointVar,
}

impl DPCUtxoPubInputVar {
    /// The wires in the order of the public input vector.
    pub open spec fn layout(&self) -> Seq<usize> {
        self.nullifiers@ + self.output_commitments@ + seq![
            self.predicates_commitment,
            self.local_data_commitment,
            self.root,
            self.fee,
        ] + self.memo@ + seq![
            self.authorization_verification_key.x,
            self.authorization_verification_key.y,
        ]
    }

    /// The wires hold `p`.
    pub open spec fn holds(&self, c: &ConstraintSystem, p: DPCUtxoPublicInput) -> bool {
        &&& c.holds_values(self.nullifiers@, fe_values(p.input_nullifiers@))
        &&& c.holds_values(self.output_commitments@, fe_values(p.output_commitments@))
        &&& c.holds_value(self.predicates_commitment, p.commitment_predicates.val())
        &&& c.holds_value(self.local_data_commitment, p.commitment_local_data.val())
        &&& c.holds_value(self.root, p.root.val())
        &&& c.holds_value(self.fee, p.fee as int)
        &&& c.holds_values(self.memo@, fe_values(p.memo@))
        &&& c.holds_value(self.authorization_verification_key.x, p.authorization_verification_key.x.val())
        &&& c.holds_value(self.authorization_verification_key.y, p.authorization_verification_key.y.val())
    }

    /// New public wires for `public_input`, laid out as its public input
    /// vector.
    #[verifier::rlimit(40)]
    pub fn new(c: &mut ConstraintSystem, public_input: &DPCUtxoPublicInput) -> (r: DPCUtxoPubInputVar)
        requires
            old(c).wf(),
        ensures
            final(c).wf(),
            final(c).extends(old(c)),
            r.holds(final(c), *public_input),
            final(c).holds_values(r.layout(), public_input.scalars()),
            r.layout() == wire_range(old(c).wires().len() as int, public_input.scalars().len() as int),
            final(c).wires().len() == old(c).wires().len() + public_input.scalars().len(),
            final(c).gates() == old(c).gates(),
            final(c).public_wires() == old(c).public_wires() + r.layout(),
    {
        let nullifiers = c.create_public_variables(&public_input.input_nullifiers);
        let ghost c1 = *c;
        let output_commitments = c.create_public_variables(&public_input.output_commitments);
        let ghost c2 = *c;
        let predicates_commitment = c.create_public_variable(public_input.commitment_predicates);
        let local_data_commitment = c.create_public_variable(public_input.commitment_local_data);
        let root = c.create_public_variable(public_input.root);
        let fee = c.create_public_variable(Fe::from_u64(public_input.fee));
        let ghost c3 = *c;
        let memo = c.create_public_variables(&public_input.memo);
        let ghost c4 = *c;
        let authorization_verification_key = c.create_public_point_variable(
            public_input.authorization_verification_key,
        );
        let r = DPCUtxoPubInputVar {
            nullifiers,
            output_commitments,
            predicates_commitment,
            local_data_commitment,
            root,
            fee,
            memo,
            authorization_verification_key,
        };
        proof {
            let cf = *c;
            lemma_extends_trans(&cf, &c4, &c3);
            lemma_extends_trans(&cf, &c3, &c2);
            lemma_extends_trans(&cf, &c2, &c1);
            lemma_holds_values_extend(&cf, &c1, r.nullifiers@, fe_values(public_input.input_nullifiers@));
            lemma_holds_values_extend(&cf, &c2, r.output_commitments@, fe_values(public_input.output_commitments@));
            lemma_holds_values_extend(&cf, &c4, r.memo@, fe_values(public_input.memo@));
            lemma_holds_value_extend(&cf, &c3, predicates_commitment, public_input.commitment_predicates.val());
            lemma_holds_value_extend(&cf, &c3, local_data_commitment, public_input.commitment_local_data.val());
            lemma_holds_value_extend(&cf, &c3, root, public_input.root.val());
            lemma_holds_value_extend(&cf, &c3, fee, public_input.fee as int);
            let lay = r.layout();
            let sc = public_input.scalars();
            let a = r.nullifiers@.len() as int;
            let b = a + r.output_commitments@.len();
            let m = b + 4 + r.memo@.len();
            assert(lay.len() == sc.len());
            assert forall|j: int| 0 <= j < lay.len() implies cf.holds_value(#[trigger] lay[j], sc[j]) by {
                if j < a {
                    assert(lay[j] == r.nullifiers@[j]);
                    assert(cf.holds_value(r.nullifiers@[j], fe_values(public_input.input_nullifiers@)[j]));
                } else if j < b {
                    assert(lay[j] == r.output_commitments@[j - a]);
                    assert(cf.holds_value(r.output_commitments@[j - a], fe_values(public_input.output_commitments@)[j - a]));
                } else if j < b + 4 {
                } else if j < m {
                    assert(lay[j] == r.memo@[j - b - 4]);
                    assert(cf.holds_value(r.memo@[j - b - 4], fe_values(public_input.memo@)[j - b - 4]));
                } else {
                }
            }
            assert(cf.public_wires() =~= old(c).public_wires() + lay);
            assert(lay =~= wire_range(old(c).wires().len() as int, sc.len() as int));
        }
        r
    }
}

/// The sum, from the neutral point, of the randomized keys of the notes on
/// the wires `ivs`.
pub open spec fn aggregated_key_values(prim: Primitives, vals: Seq<int>, ivs: Seq<NoteInputVar>) -> (int, int)
    decreases ivs.len(),
{
    if ivs.len() == 0 {
        neutral_coords()
    } else {
        group_add(
            prim,
            aggregated_key_values(prim, vals, ivs.drop_last()),
            randomized_key_values(prim, vals, ivs.last()),
        )
    }
}

/// `spend_checks` of input `t`, whose commitment is on wire `ld[t]`.
pub open spec fn spend_checks_at(
    prim: Primitives,
    vals: Seq<int>,
    wv: DPCUtxoWitnessVar,
    pv: DPCUtxoPubInputVar,
    native: usize,
    ld: Seq<usize>,
    t: int,
) -> bool {
    spend_checks(prim, vals, wv.inputs@[t], pv.nullifiers@[t], pv.root, t == 0, native, ld[t])
}

/// `output_holds` of output `t`.
pub open spec fn output_holds_at(
    prim: Primitives,
    vals: Seq<int>,
    wv: DPCUtxoWitnessVar,
    pv: DPCUtxoPubInputVar,
    native: usize,
    t: int,
) -> bool {
    output_holds(
        prim,
        vals,
        wv.output_records_openings@[t],
        pv.output_commitments@[t],
        t == 0,
        native,
        t,
        pv.nullifiers@[0],
    )
}

/// What a satisfying assignment tells of the wires of a note is what the
/// spend rules ask of the note itself.
proof fn lemma_input_valid(
    c: &ConstraintSystem,
    prim: Primitives,
    vals: Seq<int>,
    iv: NoteInputVar,
    input: NoteInput,
    nf: usize,
    nf_val: int,
    root: usize,
    root_val: int,
    is_fee: bool,
    native: usize,
    rc: usize,
)
    requires
        c.satisfied_by(prim, vals),
        iv.holds(c, input),
        iv.record_opening_var.data@.len() >= 1,
        c.holds_value(nf, nf_val),
        c.holds_value(root, root_val),
        c.holds_value(native, native_asset_code()),
        spend_checks(prim, vals, iv, nf, root, is_fee, native, rc),
    ensures
        spend_valid(prim, input, nf_val, root_val, is_fee),
        vals[rc as int] == record_commitment(prim, input.ro),
        randomized_key_values(prim, vals, iv) == randomized_key(prim, input),
{
    lemma_note_values(c, prim, vals, iv, input);
    lemma_record_values(c, prim, vals, iv.record_opening_var, input.ro);
    lemma_fixed_value(c, prim, vals, nf, nf_val);
    lemma_fixed_value(c, prim, vals, root, root_val);
    lemma_fixed_value(c, prim, vals, native, native_asset_code());
    let rov = iv.record_opening_var;
    assert(values_of(rov.fields().push(iv.nk), vals) =~= values_of(rov.fields(), vals).push(vals[iv.nk as int]));
    assert(vals[rov.data@[0] as int] == input.ro.payload.data@[0].val());
}

/// What a satisfying assignment tells of the wires of an output is what the
/// output rules ask of the record itself.
proof fn lemma_output_valid(
    c: &ConstraintSystem,
    prim: Primitives,
    vals: Seq<int>,
    ov: RecordOpeningVar,
    ro: RecordOpening,
    rc: usize,
    rc_val: int,
    is_fee_chg: bool,
    native: usize,
    position: int,
    nf0: usize,
    nf0_val: int,
)
    requires
        c.satisfied_by(prim, vals),
        ov.holds(c, ro),
        ov.data@.len() >= 1,
        c.holds_value(rc, rc_val),
        c.holds_value(nf0, nf0_val),
        c.holds_value(native, native_asset_code()),
        output_holds(prim, vals, ov, rc, is_fee_chg, native, position, nf0),
    ensures
        output_valid(prim, ro, rc_val, is_fee_chg, position, nf0_val),
{
    lemma_record_values(c, prim, vals, ov, ro);
    lemma_fixed_value(c, prim, vals, rc, rc_val);
    lemma_fixed_value(c, prim, vals, nf0, nf0_val);
    lemma_fixed_value(c, prim, vals, native, native_asset_code());
    assert(vals[ov.data@[0] as int] == ro.payload.data@[0].val());
}

/// Where each note's wires carry its randomized key, the sums agree.
proof fn lemma_aggregated_key(prim: Primitives, vals: Seq<int>, ivs: Seq<NoteInputVar>, inputs: Seq<NoteInput>)
    requires
        ivs.len() == inputs.len(),
        forall|t: int| 0 <= t < ivs.len()
            ==> #[trigger] randomized_key_values(prim, vals, ivs[t]) == randomized_key(
            prim,
            inputs[t],
        ),
    ensures
        aggregated_key_values(prim, vals, ivs) == aggregated_key(prim, inputs),
    decreases ivs.len(),
{
    if ivs.len() > 0 {
        let k = ivs.len() - 1;
        assert(randomized_key_values(prim, vals, ivs[k]) == randomized_key(prim, inputs[k]));
        lemma_aggregated_key(prim, vals, ivs.drop_last(), inputs.drop_last());
    }
}

/// The values of a concatenation of wire lists.
proof fn lemma_values_of_concat(a: Seq<usize>, b: Seq<usize>, vals: Seq<int>)
    ensures
        values_of(a + b, vals) == values_of(a, vals) + values_of(b, vals),
{
    assert(values_of(a + b, vals) =~= values_of(a, vals) + values_of(b, vals));
}

/// The UTXO circuit of one transaction.
pub struct DPCUtxoCircuit(pub ConstraintSystem);

impl DPCUtxoCircuit {
    /// Whatever the gadgets compute, an assignment that satisfies the
    /// circuit makes the transaction `(w, p)` valid.
    pub open spec fn sound_for(&self, w: DPCUtxoWitness, p: DPCUtxoPublicInput) -> bool {
        forall|prim: Primitives, vals: Seq<int>| #[trigger]
            self.0.satisfied_by(prim, vals) ==> transaction_holds(prim, w, p)
    }

    /// Whatever the gadgets compute, a transaction `(w, p)` that is valid
    /// under them has an assignment that satisfies the circuit.
    pub open spec fn complete_for(&self, w: DPCUtxoWitness, p: DPCUtxoPublicInput) -> bool {
        forall|prim: Primitives| #[trigger] transaction_holds(prim, w, p) ==> self.0.satisfiable(prim)
    }

    /// The constraint system.
    pub fn circuit(&self) -> (r: &ConstraintSystem)
        ensures
            *r == self.0,
    {
        &self.0
    }
}

/// Whether witness and public input have the sizes the circuit is laid out
/// for.
pub fn check_shape(witness: &DPCUtxoWitness, public_input: &DPCUtxoPublicInput) -> (r: bool)
    ensures
        r == well_shaped(*witness, *public_input),
{
    let n = witness.entire_inputs.len();
    if n < 1 || witness.entire_output_records_openings.len() != n || public_input.input_nullifiers.len() != n
        || public_input.output_commitments.len() != n || public_input.memo.len() != MEMO_LEN {
        return false;
    }
    let mut i: usize = 0;
    while i < n
        invariant
            n == witness.entire_inputs@.len(),
            n == witness.entire_output_records_openings@.len(),
            i <= n,
            forall|t: int| 0 <= t < i ==> #[trigger] witness.entire_inputs@[t].well_shaped(),
            forall|t: int| 0 <= t < i ==> #[trigger] witness.entire_output_records_openings@[t].well_shaped(),
        decreases n - i,
    {
        let input = &witness.entire_inputs[i];
        if input.ro.payload.data.len() != crate::records::PAYLOAD_DATA_LEN
            || input.acc_member_witness.merkle_path.len() != crate::records::MERKLE_PATH_LEN
            || witness.entire_output_records_openings[i].payload.data.len() != crate::records::PAYLOAD_DATA_LEN {
            assert(!witness.entire_inputs@[i as int].well_shaped() || !witness.entire_output_records_openings@[i as int].well_shaped());
            return false;
        }
        i = i + 1;
    }
    true
}

impl DPCUtxoWitnessVar {
    /// Every wire is below `n`.
    pub open spec fn in_range(&self, n: int) -> bool {
        &&& forall|t: int| 0 <= t < self.inputs@.len() ==> #[trigger] self.inputs@[t].in_range(n)
        &&& forall|t: int|
            0 <= t < self.output_records_openings@.len()
                ==> #[trigger] self.output_records_openings@[t].in_range(n)
        &&& self.blinding_local_data < n
        &&& self.blinding_predicates < n
    }
}

impl DPCUtxoPubInputVar {
    /// Every wire is below `n`.
    pub open spec fn in_range(&self, n: int) -> bool {
        forall|t: int| 0 <= t < self.layout().len() ==> #[trigger] self.layout()[t] < n
    }
}

/// Every record has the payload size of the system.
pub open spec fn payloads_sized(wv: DPCUtxoWitnessVar) -> bool {
    &&& forall|t: int| 0 <= t < wv.inputs@.len() ==> #[trigger] wv.inputs@[t].record_opening_var.data@.len()
        == crate::records::PAYLOAD_DATA_LEN
    &&& forall|t: int| 0 <= t < wv.output_records_openings@.len()
        ==> #[trigger] wv.output_records_openings@[t].data@.len()
        == crate::records::PAYLOAD_DATA_LEN
}

/// Wires below `n` are below any larger number.
proof fn lemma_vars_in_range_mono(wv: DPCUtxoWitnessVar, pv: DPCUtxoPubInputVar, n: int, m: int)
    requires
        wv.in_range(n),
        pv.in_range(n),
        n <= m,
    ensures
        wv.in_range(m),
        pv.in_range(m),
{
    assert forall|t: int| 0 <= t < wv.inputs@.len() implies #[trigger] wv.inputs@[t].in_range(m) by {
        lemma_note_in_range_mono(wv.inputs@[t], n, m);
    }
    assert forall|t: int| 0 <= t < wv.output_records_openings@.len()
        implies #[trigger] wv.output_records_openings@[t].in_range(m) by {
        lemma_record_in_range_mono(wv.output_records_openings@[t], n, m);
    }
    assert forall|t: int| 0 <= t < pv.layout().len() implies #[trigger] pv.layout()[t] < m by {
        assert(pv.layout()[t] < n);
    }
}

/// `spend_ready` of input `t`.
pub open spec fn spend_ready_at(
    prim: Primitives,
    vals: Seq<int>,
    wv: DPCUtxoWitnessVar,
    pv: DPCUtxoPubInputVar,
    native: usize,
    t: int,
) -> bool {
    spend_ready(prim, vals, wv.inputs@[t], pv.nullifiers@[t], pv.root, t == 0, native)
}

/// Whether a note is ready to be spent depends only on the wires it reads.
proof fn lemma_spend_ready_agree(
    prim: Primitives,
    vals: Seq<int>,
    v: Seq<int>,
    iv: NoteInputVar,
    nf: usize,
    root: usize,
    is_fee: bool,
    native: usize,
)
    requires
        agrees(v, vals),
        iv.in_range(vals.len() as int),
        iv.record_opening_var.data@.len() >= 1,
        nf < vals.len(),
        root < vals.len(),
        native < vals.len(),
    ensures
        spend_ready(prim, v, iv, nf, root, is_fee, native) == spend_ready(prim, vals, iv, nf, root, is_fee, native),
{
    let rov = iv.record_opening_var;
    let len = rov.data@.len() as int;
    assert(rov.fields()[0] == rov.addr);
    assert(rov.fields()[1] == rov.data@[0]);
    assert(rov.fields()[len + 1] == rov.is_dummy);
    lemma_values_of_agree(rov.fields(), vals, v);
    lemma_values_of_agree(iv.merkle_path@, vals, v);
    assert forall|j: int| 0 <= j < rov.fields().push(iv.nk).len()
        implies #[trigger] rov.fields().push(iv.nk)[j] < vals.len() by {
        if j < rov.fields().len() {
            assert(rov.fields()[j] < vals.len());
        }
    }
    lemma_values_of_agree(rov.fields().push(iv.nk), vals, v);
}

/// The wires of the running sum of randomized keys after `k` spends, in a
/// system whose spends start at wire `base`: the neutral point first.
pub open spec fn agg_wires(base: int, k: int) -> PointVar {
    if k == 0 {
        PointVar { x: 0, y: 1 }
    } else {
        PointVar { x: (base + 11 * k - 2) as usize, y: (base + 11 * k - 1) as usize }
    }
}

/// The gates of the first `k` spends, from wire `base` on: each spend, then
/// the addition of its randomized key to the running sum.
pub open spec fn spends_views(
    notes: Seq<NoteWires>,
    nfs: Seq<usize>,
    root: usize,
    native: usize,
    base: int,
    k: int,
) -> Seq<GateView>
    decreases k,
{
    if k <= 0 {
        seq![]
    } else {
        let i = k - 1;
        let b = base + 11 * i;
        let agg = agg_wires(base, i);
        spends_views(notes, nfs, root, native, base, i) + spend_gate_views(notes[i], nfs[i], root, i == 0, native, b)
            + seq![
            GateView::Gadget {
                kind: GadgetKind::EccAdd,
                ins: seq![agg.x, agg.y, (b + 5) as usize, (b + 6) as usize],
                outs: seq![(b + 9) as usize, (b + 10) as usize],
            },
        ]
    }
}

/// The wires of the notes of `wv`.
pub open spec fn note_wires(wv: DPCUtxoWitnessVar) -> Seq<NoteWires> {
    wv.inputs@.map_values(|iv: NoteInputVar| iv.wires())
}

/// The spends of all inputs, the first one as the fee input. Returns the
/// wires of the record commitments and of the sum of the randomized
/// authorization keys.
fn spend_all(
    c: &mut ConstraintSystem,
    witness_var: &DPCUtxoWitnessVar,
    public_input_var: &DPCUtxoPubInputVar,
    native_asset_type_var: usize,
) -> (r: (Vec<usize>, PointVar))
    requires
        old(c).wf(),
        witness_var.in_range(old(c).wires().len() as int),
        public_input_var.in_range(old(c).wires().len() as int),
        native_asset_type_var < old(c).wires().len(),
        payloads_sized(*witness_var),
        witness_var.inputs@.len() == public_input_var.nullifiers@.len(),
    ensures
        final(c).grew(old(c), if witness_var.inputs@.len() == 0 { 0int } else { 13 * witness_var.inputs@.len() as int + 2 }),
        r.0@.len() == witness_var.inputs@.len(),
        final(c).wires().len() == old(c).wires().len() + 11 * witness_var.inputs@.len(),
        r.0@ == Seq::new(witness_var.inputs@.len(), |t: int| (old(c).wires().len() + 11 * t) as usize),
        r.1 == agg_wires(old(c).wires().len() as int, witness_var.inputs@.len() as int),
        final(c).gate_views() == old(c).gate_views() + spends_views(
            note_wires(*witness_var),
            public_input_var.nullifiers@,
            public_input_var.root,
            native_asset_type_var,
            old(c).wires().len() as int,
            witness_var.inputs@.len() as int,
        ),
        forall|t: int| 0 <= t < r.0@.len() ==> #[trigger] r.0@[t] < final(c).wires().len(),
        r.1.x < final(c).wires().len(),
        r.1.y < final(c).wires().len(),
        forall|prim: Primitives, vals: Seq<int>| #[trigger]
            final(c).satisfied_by(prim, vals) ==> {
                &&& forall|t: int| 0 <= t < witness_var.inputs@.len() ==> #[trigger] spend_checks_at(
                    prim,
                    vals,
                    *witness_var,
                    *public_input_var,
                    native_asset_type_var,
                    r.0@,
                    t,
                )
                &&& point_values(r.1, vals) == aggregated_key_values(prim, vals, witness_var.inputs@)
            },
        forall|prim: Primitives, vals: Seq<int>|
            #[trigger] old(c).satisfied_by(prim, vals) && vals.len() == old(c).wires().len()
                && (forall|t: int|
                0 <= t < witness_var.inputs@.len() ==> #[trigger] spend_ready_at(
                    prim,
                    vals,
                    *witness_var,
                    *public_input_var,
                    native_asset_type_var,
                    t,
                )) ==> final(c).completes(prim, vals),
{
    let ghost c_a = *c;
    let n = witness_var.inputs.len();
    let mut compressed_local_data: Vec<usize> = Vec::new();
    let mut derived_authorization_key = c.neutral_point_variable();
    proof {
        assert(witness_var.inputs@.take(0).len() == 0);
        assert forall|prim: Primitives, vals: Seq<int>| #[trigger]
            c.satisfied_by(prim, vals)
                implies point_values(derived_authorization_key, vals) == aggregated_key_values(
            prim,
            vals,
            witness_var.inputs@.take(0),
        ) by {
            lemma_fixed_value(c, prim, vals, 0, 0);
            lemma_fixed_value(c, prim, vals, 1, 1);
        }
    }
    proof {
        assert forall|prim: Primitives, vals: Seq<int>|
            #[trigger] c_a.satisfied_by(prim, vals) && vals.len() == c_a.wires().len()
                implies c.completes(prim, vals) by {
            assert(agrees(vals, vals));
        }
    }
    let mut is_fee_ro = true;
    let mut i: usize = 0;
    while i < n
        invariant
            c.wf(),
            c.extends(&c_a),
            c.public_wires() == c_a.public_wires(),
            c.gates().len() == c_a.gates().len() + if i == 0 { 0int } else { 13 * i + 2 },
            i <= n,
            n == witness_var.inputs@.len(),
            n == public_input_var.nullifiers@.len(),
            compressed_local_data@.len() == i,
            is_fee_ro == (i == 0),
            c.wires().len() == c_a.wires().len() + 11 * i,
            compressed_local_data@ == Seq::new(i as nat, |t: int| (c_a.wires().len() + 11 * t) as usize),
            derived_authorization_key == agg_wires(c_a.wires().len() as int, i as int),
            c.gate_views() == c_a.gate_views() + spends_views(
                note_wires(*witness_var),
                public_input_var.nullifiers@,
                public_input_var.root,
                native_asset_type_var,
                c_a.wires().len() as int,
                i as int,
            ),
            payloads_sized(*witness_var),
            witness_var.in_range(c_a.wires().len() as int),
            public_input_var.in_range(c_a.wires().len() as int),
            native_asset_type_var < c_a.wires().len(),
            derived_authorization_key.x < c.wires().len(),
            derived_authorization_key.y < c.wires().len(),
            forall|t: int| 0 <= t < i ==> #[trigger] compressed_local_data@[t] < c.wires().len(),
            forall|prim: Primitives, vals: Seq<int>| #[trigger]
                c.satisfied_by(prim, vals) ==> {
                    &&& forall|t: int| 0 <= t < i ==> #[trigger] spend_checks_at(
                        prim,
                        vals,
                        *witness_var,
                        *public_input_var,
                        native_asset_type_var,
                        compressed_local_data@,
                        t,
                    )
                    &&& point_values(derived_authorization_key, vals) == aggregated_key_values(
                        prim,
                        vals,
                        witness_var.inputs@.take(i as int),
                    )
                },
            forall|prim: Primitives, vals: Seq<int>|
                #[trigger] c_a.satisfied_by(prim, vals) && vals.len() == c_a.wires().len() && (forall|t: int|
                    0 <= t < n ==> #[trigger] spend_ready_at(
                        prim,
                        vals,
                        *witness_var,
                        *public_input_var,
                        native_asset_type_var,
                        t,
                    )) ==> c.completes(prim, vals),
        decreases n - i,
    {
        let ghost c_before = *c;
        let ghost ld_before = compressed_local_data@;
        proof {
            assert(witness_var.inputs@[i as int].in_range(c_a.wires().len() as int));
            lemma_note_in_range_mono(witness_var.inputs@[i as int], c_a.wires().len() as int, c.wires().len() as int);
            let lay = public_input_var.layout();
            assert(lay[i as int] == public_input_var.nullifiers@[i as int]);
            let a = (public_input_var.nullifiers@.len() + public_input_var.output_commitments@.len()) as int;
            assert(lay[a + 2] == public_input_var.root);
        }
        let (record_commitment, rand_auth_key) = DPCUtxoCircuit::prove_spend(
            c,
            &witness_var.inputs[i],
            public_input_var.nullifiers[i],
            public_input_var.root,
            is_fee_ro,
            native_asset_type_var,
        );
        let ghost c_mid = *c;
        let ghost agg_before = derived_authorization_key;
        is_fee_ro = false;
        compressed_local_data.push(record_commitment);
        derived_authorization_key = ecc_add(c, derived_authorization_key, rand_auth_key);
        proof {
            assert(note_wires(*witness_var)[i as int] == witness_var.inputs@[i as int].wires());
            assert(compressed_local_data@ =~= Seq::new((i + 1) as nat, |t: int| (c_a.wires().len() + 11 * t) as usize));
            assert(c.gate_views() =~= c_a.gate_views() + spends_views(
                note_wires(*witness_var),
                public_input_var.nullifiers@,
                public_input_var.root,
                native_asset_type_var,
                c_a.wires().len() as int,
                i + 1,
            ));
        }
        proof {
            let lay = public_input_var.layout();
            let a = (public_input_var.nullifiers@.len() + public_input_var.output_commitments@.len()) as int;
            assert(lay[i as int] == public_input_var.nullifiers@[i as int]);
            assert(lay[a + 2] == public_input_var.root);
            assert forall|prim: Primitives, vals: Seq<int>|
                #[trigger] c_a.satisfied_by(prim, vals) && vals.len() == c_a.wires().len() && (forall|t: int|
                    0 <= t < n ==> #[trigger] spend_ready_at(
                        prim,
                        vals,
                        *witness_var,
                        *public_input_var,
                        native_asset_type_var,
                        t,
                    )) implies c.completes(prim, vals) by {
                assert(c_before.completes(prim, vals));
                let v = choose|v: Seq<int>| c_before.satisfied_by(prim, v)
                    && v.len() == c_before.wires().len() && agrees(v, vals);
                assert(spend_ready_at(prim, vals, *witness_var, *public_input_var, native_asset_type_var, i as int));
                lemma_spend_ready_agree(
                    prim,
                    vals,
                    v,
                    witness_var.inputs@[i as int],
                    public_input_var.nullifiers@[i as int],
                    public_input_var.root,
                    i == 0,
                    native_asset_type_var,
                );
                assert(c_mid.completes(prim, v));
                let v2 = choose|v2: Seq<int>| c_mid.satisfied_by(prim, v2)
                    && v2.len() == c_mid.wires().len() && agrees(v2, v);
                let g = group_add(prim, point_values(agg_before, v2), point_values(rand_auth_key, v2));
                let v3 = v2.push(g.0).push(g.1);
                assert(c.satisfied_by(prim, v3));
                assert(agrees(v3, vals));
            }
        }
        proof {
            lemma_extends_trans(c, &c_mid, &c_before);
            lemma_extends_trans(c, &c_before, &c_a);
            let ivs = witness_var.inputs@;
            assert(ivs.take(i + 1).drop_last() =~= ivs.take(i as int));
            assert(ivs.take(i + 1).last() == ivs[i as int]);
            assert forall|prim: Primitives, vals: Seq<int>| #[trigger]
                c.satisfied_by(prim, vals) implies {
                    &&& forall|t: int| 0 <= t < i + 1 ==> #[trigger] spend_checks_at(
                        prim,
                        vals,
                        *witness_var,
                        *public_input_var,
                        native_asset_type_var,
                        compressed_local_data@,
                        t,
                    )
                    &&& point_values(derived_authorization_key, vals) == aggregated_key_values(
                        prim,
                        vals,
                        witness_var.inputs@.take(i + 1),
                    )
                } by {
                lemma_satisfied_prefix(c, &c_mid, prim, vals);
                lemma_satisfied_prefix(c, &c_before, prim, vals);
                assert forall|t: int| 0 <= t < i + 1 implies #[trigger] spend_checks_at(
                    prim,
                    vals,
                    *witness_var,
                    *public_input_var,
                    native_asset_type_var,
                    compressed_local_data@,
                    t,
                ) by {
                    if t < i {
                        assert(spend_checks_at(prim, vals, *witness_var, *public_input_var, native_asset_type_var, ld_before, t));
                        assert(compressed_local_data@[t] == ld_before[t]);
                    } else {
                        assert(compressed_local_data@[t] == record_commitment);
                    }
                }
            }
        }
        i = i + 1;
    }
    proof {
        assert(witness_var.inputs@.take(n as int) =~= witness_var.inputs@);
        assert(compressed_local_data@ =~= Seq::new(n as nat, |t: int| (c_a.wires().len() + 11 * t) as usize));
    }
    (compressed_local_data, derived_authorization_key)
}

/// `output_ready` of output `t`.
pub open spec fn output_ready_at(
    prim: Primitives,
    vals: Seq<int>,
    wv: DPCUtxoWitnessVar,
    pv: DPCUtxoPubInputVar,
    native: usize,
    t: int,
) -> bool {
    output_ready(
        prim,
        vals,
        wv.output_records_openings@[t],
        pv.output_commitments@[t],
        t == 0,
        native,
        t,
        pv.nullifiers@[0],
    )
}

/// Whether an output is ready depends only on the wires it reads.
proof fn lemma_output_ready_agree(
    prim: Primitives,
    vals: Seq<int>,
    v: Seq<int>,
    ov: RecordOpeningVar,
    rc: usize,
    is_fee_chg: bool,
    native: usize,
    position: int,
    nf0: usize,
)
    requires
        agrees(v, vals),
        ov.in_range(vals.len() as int),
        ov.data@.len() >= 1,
        rc < vals.len(),
        native < vals.len(),
        nf0 < vals.len(),
    ensures
        output_ready(prim, v, ov, rc, is_fee_chg, native, position, nf0) == output_ready(
            prim,
            vals,
            ov,
            rc,
            is_fee_chg,
            native,
            position,
            nf0,
        ),
{
    let len = ov.data@.len() as int;
    assert(ov.fields()[1] == ov.data@[0]);
    assert(ov.fields()[len + 1] == ov.is_dummy);
    assert(ov.fields()[len + 4] == ov.nonce);
    lemma_values_of_agree(ov.fields(), vals, v);
}

/// The gates of the first `k` output checks, from wire `base` on.
pub open spec fn outputs_views(
    outs: Seq<Seq<usize>>,
    ocs: Seq<usize>,
    native: usize,
    first_nullifier: usize,
    base: int,
    k: int,
) -> Seq<GateView>
    decreases k,
{
    if k <= 0 {
        seq![]
    } else {
        let j = k - 1;
        outputs_views(outs, ocs, native, first_nullifier, base, j) + output_gate_views(
            outs[j],
            ocs[j],
            j == 0,
            native,
            first_nullifier,
            base + 7 * j,
        )
    }
}

/// The field wires of the outputs of `wv`.
pub open spec fn output_wires(wv: DPCUtxoWitnessVar) -> Seq<Seq<usize>> {
    wv.output_records_openings@.map_values(|ov: RecordOpeningVar| ov.fields())
}

/// The checks of all outputs, the first one as the fee change.
fn check_outputs(
    c: &mut ConstraintSystem,
    witness_var: &DPCUtxoWitnessVar,
    public_input_var: &DPCUtxoPubInputVar,
    native_asset_type_var: usize,
)
    requires
        old(c).wf(),
        witness_var.in_range(old(c).wires().len() as int),
        public_input_var.in_range(old(c).wires().len() as int),
        native_asset_type_var < old(c).wires().len(),
        payloads_sized(*witness_var),
        witness_var.output_records_openings@.len() == public_input_var.output_commitments@.len(),
        witness_var.output_records_openings@.len() == public_input_var.nullifiers@.len(),
        public_input_var.nullifiers@.len() >= 1,
    ensures
        final(c).wires().len() == old(c).wires().len() + 7 * witness_var.output_records_openings@.len(),
        final(c).gate_views() == old(c).gate_views() + outputs_views(
            output_wires(*witness_var),
            public_input_var.output_commitments@,
            native_asset_type_var,
            public_input_var.nullifiers@[0],
            old(c).wires().len() as int,
            witness_var.output_records_openings@.len() as int,
        ),
        final(c).grew(
            old(c),
            if witness_var.output_records_openings@.len() == 0 { 0int } else { 8 * witness_var.output_records_openings@.len() as int + 2 },
        ),
        forall|prim: Primitives, vals: Seq<int>| #[trigger]
            final(c).satisfied_by(prim, vals) ==> forall|t: int|
                0 <= t < witness_var.output_records_openings@.len() ==> #[trigger] output_holds_at(
                    prim,
                    vals,
                    *witness_var,
                    *public_input_var,
                    native_asset_type_var,
                    t,
                ),
        forall|prim: Primitives, vals: Seq<int>|
            #[trigger] old(c).satisfied_by(prim, vals) && vals.len() == old(c).wires().len()
                && (forall|t: int|
                0 <= t < witness_var.output_records_openings@.len() ==> #[trigger] output_ready_at(
                    prim,
                    vals,
                    *witness_var,
                    *public_input_var,
                    native_asset_type_var,
                    t,
                )) ==> final(c).completes(prim, vals),
{
    let ghost c_b = *c;
    proof {
        assert forall|prim: Primitives, vals: Seq<int>|
            #[trigger] c_b.satisfied_by(prim, vals) && vals.len() == c_b.wires().len()
                implies c.completes(prim, vals) by {
            assert(agrees(vals, vals));
        }
    }
    let n = witness_var.output_records_openings.len();
    let mut is_fee_chg_ro = true;
    let mut j: usize = 0;
    while j < n
        invariant
            c.wf(),
            c.extends(&c_b),
            c.public_wires() == c_b.public_wires(),
            c.gates().len() == c_b.gates().len() + if j == 0 { 0int } else { 8 * j + 2 },
            j <= n,
            n >= 1,
            n == witness_var.output_records_openings@.len(),
            n == public_input_var.output_commitments@.len(),
            n == public_input_var.nullifiers@.len(),
            is_fee_chg_ro == (j == 0),
            c.wires().len() == c_b.wires().len() + 7 * j,
            c.gate_views() == c_b.gate_views() + outputs_views(
                output_wires(*witness_var),
                public_input_var.output_commitments@,
                native_asset_type_var,
                public_input_var.nullifiers@[0],
                c_b.wires().len() as int,
                j as int,
            ),
            payloads_sized(*witness_var),
            witness_var.in_range(c_b.wires().len() as int),
            public_input_var.in_range(c_b.wires().len() as int),
            native_asset_type_var < c_b.wires().len(),
            forall|prim: Primitives, vals: Seq<int>| #[trigger]
                c.satisfied_by(prim, vals) ==> forall|t: int| 0 <= t < j ==> #[trigger] output_holds_at(
                    prim,
                    vals,
                    *witness_var,
                    *public_input_var,
                    native_asset_type_var,
                    t,
                ),
            forall|prim: Primitives, vals: Seq<int>|
                #[trigger] c_b.satisfied_by(prim, vals) && vals.len() == c_b.wires().len() && (forall|t: int|
                    0 <= t < n ==> #[trigger] output_ready_at(
                        prim,
                        vals,
                        *witness_var,
                        *public_input_var,
                        native_asset_type_var,
                        t,
                    )) ==> c.completes(prim, vals),
        decreases n - j,
    {
        let ghost c_before = *c;
        proof {
            assert(witness_var.output_records_openings@[j as int].in_range(c_b.wires().len() as int));
            lemma_record_in_range_mono(witness_var.output_records_openings@[j as int], c_b.wires().len() as int, c.wires().len() as int);
            let lay = public_input_var.layout();
            assert(lay[0] == public_input_var.nullifiers@[0]);
            assert(lay[n + j] == public_input_var.output_commitments@[j as int]);
        }
        DPCUtxoCircuit::prove_output(
            c,
            &witness_var.output_records_openings[j],
            public_input_var.output_commitments[j],
            is_fee_chg_ro,
            native_asset_type_var,
            j,
            public_input_var.nullifiers[0],
        );
        is_fee_chg_ro = false;
        proof {
            assert(output_wires(*witness_var)[j as int] == witness_var.output_records_openings@[j as int].fields());
            assert(c.gate_views() =~= c_b.gate_views() + outputs_views(
                output_wires(*witness_var),
                public_input_var.output_commitments@,
                native_asset_type_var,
                public_input_var.nullifiers@[0],
                c_b.wires().len() as int,
                j + 1,
            ));
        }
        proof {
            let lay = public_input_var.layout();
            assert(lay[0] == public_input_var.nullifiers@[0]);
            assert(lay[n + j] == public_input_var.output_commitments@[j as int]);
            assert forall|prim: Primitives, vals: Seq<int>|
                #[trigger] c_b.satisfied_by(prim, vals) && vals.len() == c_b.wires().len() && (forall|t: int|
                    0 <= t < n ==> #[trigger] output_ready_at(
                        prim,
                        vals,
                        *witness_var,
                        *public_input_var,
                        native_asset_type_var,
                        t,
                    )) implies c.completes(prim, vals) by {
                assert(c_before.completes(prim, vals));
                let v = choose|v: Seq<int>| c_before.satisfied_by(prim, v)
                    && v.len() == c_before.wires().len() && agrees(v, vals);
                assert(output_ready_at(prim, vals, *witness_var, *public_input_var, native_asset_type_var, j as int));
                lemma_output_ready_agree(
                    prim,
                    vals,
                    v,
                    witness_var.output_records_openings@[j as int],
                    public_input_var.output_commitments@[j as int],
                    j == 0,
                    native_asset_type_var,
                    j as int,
                    public_input_var.nullifiers@[0],
                );
                assert(c.completes(prim, v));
                let v2 = choose|v2: Seq<int>| c.satisfied_by(prim, v2) && v2.len() == c.wires().len()
                    && agrees(v2, v);
                assert(agrees(v2, vals));
            }
            lemma_extends_trans(c, &c_before, &c_b);
            assert forall|prim: Primitives, vals: Seq<int>| #[trigger]
                c.satisfied_by(prim, vals)
                    implies forall|t: int| 0 <= t < j + 1 ==> #[trigger] output_holds_at(
                prim,
                vals,
                *witness_var,
                *public_input_var,
                native_asset_type_var,
                t,
            ) by {
                lemma_satisfied_prefix(c, &c_before, prim, vals);
            }
        }
        j = j + 1;
    }
}

/// The predicate wires: the death predicates of the non-fee inputs, then the
/// birth predicates of the non-fee outputs.
pub open spec fn predicate_wires(wv: DPCUtxoWitnessVar) -> Seq<usize> {
    wv.inputs@.skip(1).map_values(|iv: NoteInputVar| iv.record_opening_var.pid_death)
        + wv.output_records_openings@.skip(1).map_values(|ov: RecordOpeningVar| ov.pid_birth)
}

/// The gates of the fee balance and of the two commitment bindings, from
/// wire `base` on.
pub open spec fn bind_views(
    base: int,
    in_amount: usize,
    out_amount: usize,
    fee: usize,
    local_data: Seq<usize>,
    blinding_local_data: usize,
    local_data_commitment: usize,
    pids: Seq<usize>,
    blinding_predicates: usize,
    predicates_commitment: usize,
) -> Seq<GateView> {
    let w = |k: int| (base + k) as usize;
    seq![
        GateView::Sub { a: in_amount, b: out_amount, out: w(0) },
        GateView::Equal { a: w(0), b: fee },
        GateView::Gadget { kind: GadgetKind::Commit, ins: seq![blinding_local_data] + local_data, outs: seq![w(1)] },
        GateView::Equal { a: w(1), b: local_data_commitment },
        GateView::Gadget { kind: GadgetKind::Commit, ins: seq![blinding_predicates] + pids, outs: seq![w(2)] },
        GateView::Equal { a: w(2), b: predicates_commitment },
    ]
}

/// The fee balance, and the bindings of the local data (`local_data`, then
/// the memo) and of the predicate identifiers to their public commitments.
fn bind_fee_and_commitments(
    c: &mut ConstraintSystem,
    witness_var: &DPCUtxoWitnessVar,
    public_input_var: &DPCUtxoPubInputVar,
    local_data: Vec<usize>,
)
    requires
        old(c).wf(),
        witness_var.in_range(old(c).wires().len() as int),
        public_input_var.in_range(old(c).wires().len() as int),
        payloads_sized(*witness_var),
        witness_var.inputs@.len() >= 1,
        witness_var.output_records_openings@.len() >= 1,
        forall|t: int| 0 <= t < local_data@.len() ==> #[trigger] local_data@[t] < old(c).wires().len(),
    ensures
        final(c).grew(old(c), 6),
        final(c).wires().len() == old(c).wires().len() + 3,
        final(c).gate_views() == old(c).gate_views() + bind_views(
            old(c).wires().len() as int,
            witness_var.inputs@[0].record_opening_var.data@[1],
            witness_var.output_records_openings@[0].data@[1],
            public_input_var.fee,
            local_data@ + public_input_var.memo@,
            witness_var.blinding_local_data,
            public_input_var.local_data_commitment,
            predicate_wires(*witness_var),
            witness_var.blinding_predicates,
            public_input_var.predicates_commitment,
        ),
        forall|prim: Primitives, vals: Seq<int>| #[trigger]
            final(c).satisfied_by(prim, vals) ==> {
                &&& vals[public_input_var.fee as int] == field_sub(
                    vals[witness_var.inputs@[0].record_opening_var.data@[1] as int],
                    vals[witness_var.output_records_openings@[0].data@[1] as int],
                )
                &&& vals[public_input_var.local_data_commitment as int] == commitment(
                    prim,
                    values_of(local_data@ + public_input_var.memo@, vals),
                    vals[witness_var.blinding_local_data as int],
                )
                &&& vals[public_input_var.predicates_commitment as int] == commitment(
                    prim,
                    values_of(predicate_wires(*witness_var), vals),
                    vals[witness_var.blinding_predicates as int],
                )
            },
        forall|prim: Primitives, vals: Seq<int>|
            #[trigger] old(c).satisfied_by(prim, vals) && vals.len() == old(c).wires().len()
                && vals[public_input_var.fee as int]
                == field_sub(
                vals[witness_var.inputs@[0].record_opening_var.data@[1] as int],
                vals[witness_var.output_records_openings@[0].data@[1] as int],
            ) && vals[public_input_var.local_data_commitment as int] == commitment(
                prim,
                values_of(local_data@ + public_input_var.memo@, vals),
                vals[witness_var.blinding_local_data as int],
            ) && vals[public_input_var.predicates_commitment as int] == commitment(
                prim,
                values_of(predicate_wires(*witness_var), vals),
                vals[witness_var.blinding_predicates as int],
            ) ==> final(c).completes(prim, vals),
{
    let ghost c0 = *c;
    let n = witness_var.inputs.len();
    let m = witness_var.output_records_openings.len();
    proof {
        let r0 = witness_var.inputs@[0].record_opening_var;
        let o0 = witness_var.output_records_openings@[0];
        assert(r0.fields()[2] == r0.data@[1]);
        assert(o0.fields()[2] == o0.data@[1]);
        assert(witness_var.inputs@[0].in_range(c.wires().len() as int));
        assert(o0.in_range(c.wires().len() as int));
        let lay = public_input_var.layout();
        let a = (public_input_var.nullifiers@.len() + public_input_var.output_commitments@.len()) as int;
        assert(lay[a + 3] == public_input_var.fee);
        assert(lay[a] == public_input_var.predicates_commitment);
        assert(lay[a + 1] == public_input_var.local_data_commitment);
        assert forall|t: int| 0 <= t < public_input_var.memo@.len()
            implies #[trigger] public_input_var.memo@[t]
            < c.wires().len() by {
            assert(lay[a + 4 + t] == public_input_var.memo@[t]);
        }
    }
    // the fee is the fee input's amount minus the fee change's
    let diff = c.sub(
        witness_var.inputs[0].record_opening_var.data[1],
        witness_var.output_records_openings[0].data[1],
    );
    let ghost c_sub = *c;
    c.equal_gate(diff, public_input_var.fee);
    let ghost c_fee = *c;
    // the local data: what the caller gathered, then the memo
    let mut compressed_local_data = local_data;
    let mut k: usize = 0;
    while k < public_input_var.memo.len()
        invariant
            k <= public_input_var.memo@.len(),
            compressed_local_data@ == local_data@ + public_input_var.memo@.take(k as int),
        decreases public_input_var.memo@.len() - k,
    {
        compressed_local_data.push(public_input_var.memo[k]);
        k = k + 1;
        assert(public_input_var.memo@.take(k as int) =~= public_input_var.memo@.take(k - 1).push(
            public_input_var.memo@[k - 1],
        ));
    }
    proof {
        assert(public_input_var.memo@.take(public_input_var.memo@.len() as int) =~= public_input_var.memo@);
        assert forall|t: int| 0 <= t < compressed_local_data@.len()
            implies #[trigger] compressed_local_data@[t]
            < c.wires().len() by {
            if t >= local_data@.len() {
                assert(compressed_local_data@[t] == public_input_var.memo@[t - local_data@.len()]);
            }
        }
    }
    let derived_ldata_com = commit(c, &compressed_local_data, witness_var.blinding_local_data);
    let ghost c_ld = *c;
    c.equal_gate(derived_ldata_com, public_input_var.local_data_commitment);
    let ghost c_ld_eq = *c;
    let ghost ld_all = compressed_local_data@;
    proof {
        lemma_vars_in_range_mono(*witness_var, *public_input_var, c0.wires().len() as int, c.wires().len() as int);
    }
    // the predicates of the non-fee records: input deaths, then output births
    let mut pids: Vec<usize> = Vec::new();
    let mut t: usize = 1;
    while t < n
        invariant
            1 <= t <= n,
            n == witness_var.inputs@.len(),
            witness_var.in_range(c.wires().len() as int),
            pids@ == witness_var.inputs@.subrange(1, t as int).map_values(
                |iv: NoteInputVar| iv.record_opening_var.pid_death,
            ),
            forall|s: int| 0 <= s < pids@.len() ==> #[trigger] pids@[s] < c.wires().len(),
        decreases n - t,
    {
        proof {
            let rv = witness_var.inputs@[t as int].record_opening_var;
            assert(witness_var.inputs@[t as int].in_range(c.wires().len() as int));
            assert(rv.fields()[rv.data@.len() as int + 3] == rv.pid_death);
        }
        pids.push(witness_var.inputs[t].record_opening_var.pid_death);
        t = t + 1;
        assert(witness_var.inputs@.subrange(1, t as int).map_values(
            |iv: NoteInputVar| iv.record_opening_var.pid_death,
        ) =~= witness_var.inputs@.subrange(1, t - 1).map_values(
            |iv: NoteInputVar| iv.record_opening_var.pid_death,
        ).push(witness_var.inputs@[t - 1].record_opening_var.pid_death));
    }
    let ghost pids_in = pids@;
    let mut t: usize = 1;
    while t < m
        invariant
            1 <= t <= m,
            m == witness_var.output_records_openings@.len(),
            witness_var.in_range(c.wires().len() as int),
            pids@ == pids_in + witness_var.output_records_openings@.subrange(1, t as int).map_values(
                |ov: RecordOpeningVar| ov.pid_birth,
            ),
            forall|s: int| 0 <= s < pids@.len() ==> #[trigger] pids@[s] < c.wires().len(),
        decreases m - t,
    {
        proof {
            let ov = witness_var.output_records_openings@[t as int];
            assert(ov.in_range(c.wires().len() as int));
            assert(ov.fields()[ov.data@.len() as int + 2] == ov.pid_birth);
        }
        pids.push(witness_var.output_records_openings[t].pid_birth);
        t = t + 1;
        assert(witness_var.output_records_openings@.subrange(1, t as int).map_values(
            |ov: RecordOpeningVar| ov.pid_birth,
        ) =~= witness_var.output_records_openings@.subrange(1, t - 1).map_values(
            |ov: RecordOpeningVar| ov.pid_birth,
        ).push(witness_var.output_records_openings@[t - 1].pid_birth));
    }
    proof {
        assert(witness_var.inputs@.subrange(1, n as int) =~= witness_var.inputs@.skip(1));
        assert(witness_var.output_records_openings@.subrange(1, m as int) =~= witness_var.output_records_openings@.skip(1));
        assert(pids@ =~= predicate_wires(*witness_var));
    }
    let derived_predicates_commitment = commit(c, &pids, witness_var.blinding_predicates);
    let ghost c_pc = *c;
    c.equal_gate(derived_predicates_commitment, public_input_var.predicates_commitment);
    proof {
        let cf = *c;
        lemma_extends_trans(&cf, &c_pc, &c_ld);
        lemma_extends_trans(&cf, &c_ld, &c_fee);
        lemma_extends_trans(&cf, &c_fee, &c0);
        let kf = c0.gates().len() as int;
        let kl = c_ld.gates().len() as int;
        let kc = c_pc.gates().len() as int;
        lemma_views_push(&c_sub, &c0, Gate::Sub {
            a: witness_var.inputs@[0].record_opening_var.data@[1],
            b: witness_var.output_records_openings@[0].data@[1],
            out: diff,
        });
        lemma_views_push(&c_fee, &c_sub, Gate::Equal { a: diff, b: public_input_var.fee });
        lemma_views_push(&c_ld_eq, &c_ld, Gate::Equal { a: derived_ldata_com, b: public_input_var.local_data_commitment });
        lemma_views_push(&cf, &c_pc, Gate::Equal { a: derived_predicates_commitment, b: public_input_var.predicates_commitment });
        assert(cf.gate_views() =~= c0.gate_views() + bind_views(
            c0.wires().len() as int,
            witness_var.inputs@[0].record_opening_var.data@[1],
            witness_var.output_records_openings@[0].data@[1],
            public_input_var.fee,
            local_data@ + public_input_var.memo@,
            witness_var.blinding_local_data,
            public_input_var.local_data_commitment,
            predicate_wires(*witness_var),
            witness_var.blinding_predicates,
            public_input_var.predicates_commitment,
        ));
        assert forall|prim: Primitives, vals: Seq<int>| #[trigger] cf.satisfied_by(prim, vals) implies {
            &&& vals[public_input_var.fee as int] == field_sub(
                vals[witness_var.inputs@[0].record_opening_var.data@[1] as int],
                vals[witness_var.output_records_openings@[0].data@[1] as int],
            )
            &&& vals[public_input_var.local_data_commitment as int] == commitment(
                prim,
                values_of(local_data@ + public_input_var.memo@, vals),
                vals[witness_var.blinding_local_data as int],
            )
            &&& vals[public_input_var.predicates_commitment as int] == commitment(
                prim,
                values_of(predicate_wires(*witness_var), vals),
                vals[witness_var.blinding_predicates as int],
            )
        } by {
            lemma_satisfied_prefix(&cf, &c_ld, prim, vals);
            lemma_satisfied_prefix(&cf, &c_pc, prim, vals);
            assert(gate_holds(cf.gates()[kf], prim, vals));
            assert(gate_holds(cf.gates()[kf + 1], prim, vals));
            assert(gate_holds(cf.gates()[kl], prim, vals));
            assert(gate_holds(cf.gates()[kc], prim, vals));
        }
        // an assignment meeting the three equations extends to the whole system
        let r0 = witness_var.inputs@[0].record_opening_var;
        let o0 = witness_var.output_records_openings@[0];
        assert forall|prim: Primitives, vals: Seq<int>|
            #[trigger] c0.satisfied_by(prim, vals) && vals.len() == c0.wires().len()
                && vals[public_input_var.fee as int]
                == field_sub(vals[r0.data@[1] as int], vals[o0.data@[1] as int])
                && vals[public_input_var.local_data_commitment as int] == commitment(
                prim,
                values_of(local_data@ + public_input_var.memo@, vals),
                vals[witness_var.blinding_local_data as int],
            ) && vals[public_input_var.predicates_commitment as int] == commitment(
                prim,
                values_of(predicate_wires(*witness_var), vals),
                vals[witness_var.blinding_predicates as int],
            ) implies cf.completes(prim, vals) by {
            let v0 = vals;
            let v1 = v0.push(field_sub(v0[r0.data@[1] as int], v0[o0.data@[1] as int]));
            assert(c_sub.satisfied_by(prim, v1));
            assert(c_fee.satisfied_by(prim, v1));
            lemma_values_of_agree(ld_all, v0, v1);
            let v2 = v1.push(commitment(prim, values_of(ld_all, v1), v1[witness_var.blinding_local_data as int]));
            assert(c_ld.satisfied_by(prim, v2));
            assert(c_ld_eq.satisfied_by(prim, v2));
            assert forall|j: int| 0 <= j < pids@.len() implies #[trigger] pids@[j] < v0.len() by {
                assert(pids@ == predicate_wires(*witness_var));
                lemma_predicate_wires_in_range(*witness_var, c0.wires().len() as int, j);
            }
            lemma_values_of_agree(pids@, v0, v2);
            let v3 = v2.push(commitment(prim, values_of(pids@, v2), v2[witness_var.blinding_predicates as int]));
            assert(c_pc.satisfied_by(prim, v3));
            assert(cf.satisfied_by(prim, v3));
            assert(agrees(v3, v0));
        }
    }
}

/// The predicate wires are wires of a system the witness wires are in.
proof fn lemma_predicate_wires_in_range(wv: DPCUtxoWitnessVar, n: int, j: int)
    requires
        wv.in_range(n),
        wv.inputs@.len() >= 1,
        wv.output_records_openings@.len() >= 1,
        0 <= j < predicate_wires(wv).len(),
    ensures
        predicate_wires(wv)[j] < n,
{
    let a = wv.inputs@.skip(1).map_values(|iv: NoteInputVar| iv.record_opening_var.pid_death);
    if j < a.len() {
        let rv = wv.inputs@[j + 1].record_opening_var;
        assert(wv.inputs@[j + 1].in_range(n));
        assert(rv.fields()[rv.data@.len() as int + 3] == rv.pid_death);
    } else {
        let ov = wv.output_records_openings@[j - a.len() + 1];
        assert(ov.in_range(n));
        assert(ov.fields()[ov.data@.len() as int + 2] == ov.pid_birth);
    }
}

/// What the circuit's wire-level facts say of the transaction on its wires.
proof fn lemma_build_sound(
    cf: &ConstraintSystem,
    prim: Primitives,
    vals: Seq<int>,
    w: DPCUtxoWitness,
    p: DPCUtxoPublicInput,
    wv: DPCUtxoWitnessVar,
    pv: DPCUtxoPubInputVar,
    native: usize,
    ld_in: Seq<usize>,
    agg: PointVar,
)
    requires
        cf.satisfied_by(prim, vals),
        well_shaped(w, p),
        wv.holds(cf, w),
        pv.holds(cf, p),
        cf.holds_value(native, native_asset_code()),
        payloads_sized(wv),
        ld_in.len() == w.entire_inputs@.len(),
        forall|t: int| 0 <= t < w.entire_inputs@.len()
            ==> #[trigger] spend_checks_at(prim, vals, wv, pv, native, ld_in, t),
        point_values(agg, vals) == aggregated_key_values(prim, vals, wv.inputs@),
        vals[pv.authorization_verification_key.x as int] == vals[agg.x as int],
        vals[pv.authorization_verification_key.y as int] == vals[agg.y as int],
        forall|t: int| 0 <= t < w.entire_inputs@.len()
            ==> #[trigger] output_holds_at(prim, vals, wv, pv, native, t),
        vals[pv.fee as int] == field_sub(
            vals[wv.inputs@[0].record_opening_var.data@[1] as int],
            vals[wv.output_records_openings@[0].data@[1] as int],
        ),
        vals[pv.local_data_commitment as int] == commitment(
            prim,
            values_of(ld_in + pv.output_commitments@ + pv.memo@, vals),
            vals[wv.blinding_local_data as int],
        ),
        vals[pv.predicates_commitment as int] == commitment(
            prim,
            values_of(predicate_wires(wv), vals),
            vals[wv.blinding_predicates as int],
        ),
    ensures
        transaction_holds(prim, w, p),
{
    let n = w.entire_inputs@.len() as int;
    lemma_fixed_value(cf, prim, vals, pv.nullifiers@[0], p.input_nullifiers@[0].val());
    // inputs
    assert forall|t: int| 0 <= t < n implies #[trigger] input_valid(prim, w, p, t)
        && vals[ld_in[t] as int] == record_commitment(prim, w.entire_inputs@[t].ro)
        && randomized_key_values(prim, vals, wv.inputs@[t]) == randomized_key(prim, w.entire_inputs@[t]) by {
        assert(spend_checks_at(prim, vals, wv, pv, native, ld_in, t));
        assert(cf.holds_value(pv.nullifiers@[t], fe_values(p.input_nullifiers@)[t]));
        assert(wv.inputs@[t].holds(cf, w.entire_inputs@[t]));
        lemma_input_valid(
            cf,
            prim,
            vals,
            wv.inputs@[t],
            w.entire_inputs@[t],
            pv.nullifiers@[t],
            p.input_nullifiers@[t].val(),
            pv.root,
            p.root.val(),
            t == 0,
            native,
            ld_in[t],
        );
    }
    assert forall|t: int| 0 <= t < n implies #[trigger] randomized_key_values(prim, vals, wv.inputs@[t])
        == randomized_key(prim, w.entire_inputs@[t]) by {
        assert(input_valid(prim, w, p, t));
    }
    assert forall|t: int| 0 <= t < n
        implies #[trigger] values_of(ld_in, vals)[t] == w.entire_inputs@.map_values(
        |input: NoteInput| record_commitment(prim, input.ro),
    )[t] by {
        assert(input_valid(prim, w, p, t));
    }
    // the authorization key
    lemma_aggregated_key(prim, vals, wv.inputs@, w.entire_inputs@);
    lemma_fixed_value(cf, prim, vals, pv.authorization_verification_key.x, p.authorization_verification_key.x.val());
    lemma_fixed_value(cf, prim, vals, pv.authorization_verification_key.y, p.authorization_verification_key.y.val());
    // outputs
    assert forall|t: int| 0 <= t < n implies #[trigger] output_valid_at(prim, w, p, t) by {
        assert(output_holds_at(prim, vals, wv, pv, native, t));
        assert(cf.holds_value(pv.output_commitments@[t], fe_values(p.output_commitments@)[t]));
        assert(wv.output_records_openings@[t].holds(cf, w.entire_output_records_openings@[t]));
        lemma_output_valid(
            cf,
            prim,
            vals,
            wv.output_records_openings@[t],
            w.entire_output_records_openings@[t],
            pv.output_commitments@[t],
            p.output_commitments@[t].val(),
            t == 0,
            native,
            t,
            pv.nullifiers@[0],
            p.input_nullifiers@[0].val(),
        );
    }
    // the fee
    assert(wv.inputs@[0].holds(cf, w.entire_inputs@[0]));
    assert(wv.output_records_openings@[0].holds(cf, w.entire_output_records_openings@[0]));
    lemma_record_values(cf, prim, vals, wv.inputs@[0].record_opening_var, w.entire_inputs@[0].ro);
    lemma_record_values(cf, prim, vals, wv.output_records_openings@[0], w.entire_output_records_openings@[0]);
    assert(vals[wv.inputs@[0].record_opening_var.data@[1] as int] == w.entire_inputs@[0].ro.amount());
    assert(vals[wv.output_records_openings@[0].data@[1] as int] == w.entire_output_records_openings@[0].amount());
    lemma_fixed_value(cf, prim, vals, pv.fee, p.fee as int);
    // the local data and the predicates
    lemma_fixed_value(cf, prim, vals, pv.local_data_commitment, p.commitment_local_data.val());
    lemma_fixed_value(cf, prim, vals, wv.blinding_local_data, w.blinding_local_data.val());
    lemma_fixed_value(cf, prim, vals, pv.predicates_commitment, p.commitment_predicates.val());
    lemma_fixed_value(cf, prim, vals, wv.blinding_predicates, w.blinding_predicates.val());
    lemma_committed_values(cf, prim, vals, w, p, wv, pv, native, ld_in);
}

/// On a satisfying assignment that meets the spend checks, the local data and
/// the predicate wires carry the transaction's local data and predicate
/// identifiers.
proof fn lemma_committed_values(
    cf: &ConstraintSystem,
    prim: Primitives,
    vals: Seq<int>,
    w: DPCUtxoWitness,
    p: DPCUtxoPublicInput,
    wv: DPCUtxoWitnessVar,
    pv: DPCUtxoPubInputVar,
    native: usize,
    ld_in: Seq<usize>,
)
    requires
        cf.satisfied_by(prim, vals),
        well_shaped(w, p),
        wv.holds(cf, w),
        pv.holds(cf, p),
        cf.holds_value(native, native_asset_code()),
        payloads_sized(wv),
        ld_in.len() == w.entire_inputs@.len(),
        forall|t: int| 0 <= t < w.entire_inputs@.len()
            ==> #[trigger] spend_checks_at(prim, vals, wv, pv, native, ld_in, t),
    ensures
        values_of(ld_in + pv.output_commitments@ + pv.memo@, vals) == local_data(prim, w, p),
        values_of(predicate_wires(wv), vals) == predicate_ids(w),
{
    let n = w.entire_inputs@.len() as int;
    assert forall|t: int| 0 <= t < n
        implies #[trigger] values_of(ld_in, vals)[t] == w.entire_inputs@.map_values(
        |input: NoteInput| record_commitment(prim, input.ro),
    )[t] by {
        assert(spend_checks_at(prim, vals, wv, pv, native, ld_in, t));
        assert(wv.inputs@[t].holds(cf, w.entire_inputs@[t]));
        lemma_note_values(cf, prim, vals, wv.inputs@[t], w.entire_inputs@[t]);
    }
    lemma_fixed_values(cf, prim, vals, pv.output_commitments@, fe_values(p.output_commitments@));
    lemma_fixed_values(cf, prim, vals, pv.memo@, fe_values(p.memo@));
    lemma_values_of_concat(ld_in, pv.output_commitments@, vals);
    lemma_values_of_concat(ld_in + pv.output_commitments@, pv.memo@, vals);
    assert(values_of(ld_in, vals) =~= w.entire_inputs@.map_values(|input: NoteInput| record_commitment(prim, input.ro)));
    assert(values_of(ld_in + pv.output_commitments@ + pv.memo@, vals) =~= local_data(prim, w, p));
    assert(values_of(predicate_wires(wv), vals) =~= predicate_ids(w)) by {
        let a = wv.inputs@.skip(1).map_values(|iv: NoteInputVar| iv.record_opening_var.pid_death);
        let b = wv.output_records_openings@.skip(1).map_values(|ov: RecordOpeningVar| ov.pid_birth);
        lemma_values_of_concat(a, b, vals);
        assert forall|t: int| 0 <= t < a.len() implies #[trigger] values_of(a, vals)[t]
            == w.entire_inputs@.skip(1).map_values(|input: NoteInput| input.ro.pid_death.val())[t] by {
            assert(wv.inputs@[t + 1].holds(cf, w.entire_inputs@[t + 1]));
            lemma_record_values(cf, prim, vals, wv.inputs@[t + 1].record_opening_var, w.entire_inputs@[t + 1].ro);
        }
        assert forall|t: int| 0 <= t < b.len() implies #[trigger] values_of(b, vals)[t]
            == w.entire_output_records_openings@.skip(1).map_values(|ro: RecordOpening| ro.pid_birth.val())[t] by {
            assert(wv.output_records_openings@[t + 1].holds(cf, w.entire_output_records_openings@[t + 1]));
            lemma_record_values(cf, prim, vals, wv.output_records_openings@[t + 1], w.entire_output_records_openings@[t + 1]);
        }
        assert(values_of(a, vals) =~= w.entire_inputs@.skip(1).map_values(|input: NoteInput| input.ro.pid_death.val()));
        assert(values_of(b, vals) =~= w.entire_output_records_openings@.skip(1).map_values(|ro: RecordOpening| ro.pid_birth.val()));
    }
}

/// What the spend rules ask of a note is what `spend_ready` asks of its
/// wires.
proof fn lemma_input_ready(
    c: &ConstraintSystem,
    prim: Primitives,
    vals: Seq<int>,
    iv: NoteInputVar,
    input: NoteInput,
    nf: usize,
    nf_val: int,
    root: usize,
    root_val: int,
    is_fee: bool,
    native: usize,
)
    requires
        c.satisfied_by(prim, vals),
        iv.holds(c, input),
        iv.record_opening_var.data@.len() >= 1,
        c.holds_value(nf, nf_val),
        c.holds_value(root, root_val),
        c.holds_value(native, native_asset_code()),
        spend_valid(prim, input, nf_val, root_val, is_fee),
    ensures
        spend_ready(prim, vals, iv, nf, root, is_fee, native),
{
    lemma_note_values(c, prim, vals, iv, input);
    lemma_record_values(c, prim, vals, iv.record_opening_var, input.ro);
    lemma_fixed_value(c, prim, vals, nf, nf_val);
    lemma_fixed_value(c, prim, vals, root, root_val);
    lemma_fixed_value(c, prim, vals, native, native_asset_code());
    let rov = iv.record_opening_var;
    assert(values_of(rov.fields().push(iv.nk), vals) =~= values_of(rov.fields(), vals).push(vals[iv.nk as int]));
    assert(vals[rov.data@[0] as int] == input.ro.payload.data@[0].val());
}

/// What the output rules ask of a record is what `output_ready` asks of its
/// wires.
proof fn lemma_output_ready(
    c: &ConstraintSystem,
    prim: Primitives,
    vals: Seq<int>,
    ov: RecordOpeningVar,
    ro: RecordOpening,
    rc: usize,
    rc_val: int,
    is_fee_chg: bool,
    native: usize,
    position: int,
    nf0: usize,
    nf0_val: int,
)
    requires
        c.satisfied_by(prim, vals),
        ov.holds(c, ro),
        ov.data@.len() >= 1,
        c.holds_value(rc, rc_val),
        c.holds_value(nf0, nf0_val),
        c.holds_value(native, native_asset_code()),
        output_valid(prim, ro, rc_val, is_fee_chg, position, nf0_val),
    ensures
        output_ready(prim, vals, ov, rc, is_fee_chg, native, position, nf0),
{
    lemma_record_values(c, prim, vals, ov, ro);
    lemma_fixed_value(c, prim, vals, rc, rc_val);
    lemma_fixed_value(c, prim, vals, nf0, nf0_val);
    lemma_fixed_value(c, prim, vals, native, native_asset_code());
    assert(vals[ov.data@[0] as int] == ro.payload.data@[0].val());
}

/// A valid transaction has an assignment that satisfies its circuit: the
/// steps of `build`, each of which extends a ready assignment, chained.
proof fn lemma_build_complete(
    c_a: &ConstraintSystem,
    c_in: &ConstraintSystem,
    c_b: &ConstraintSystem,
    c_out: &ConstraintSystem,
    cf: &ConstraintSystem,
    prim: Primitives,
    w: DPCUtxoWitness,
    p: DPCUtxoPublicInput,
    wv: DPCUtxoWitnessVar,
    pv: DPCUtxoPubInputVar,
    native: usize,
    ld_in: Seq<usize>,
    agg: PointVar,
)
    requires
        transaction_holds(prim, w, p),
        well_shaped(w, p),
        c_a.wf(),
        c_a.gates().len() == 0,
        wv.holds(c_a, w),
        pv.holds(c_a, p),
        c_a.holds_value(native, native_asset_code()),
        payloads_sized(wv),
        ld_in.len() == w.entire_inputs@.len(),
        c_in.extends(c_a),
        c_b.extends(c_in),
        c_out.extends(c_b),
        forall|prim: Primitives, vals: Seq<int>| #[trigger]
            c_in.satisfied_by(prim, vals) ==> {
                &&& forall|t: int| 0 <= t < wv.inputs@.len()
                    ==> #[trigger] spend_checks_at(prim, vals, wv, pv, native, ld_in, t)
                &&& point_values(agg, vals) == aggregated_key_values(prim, vals, wv.inputs@)
            },
        forall|prim: Primitives, vals: Seq<int>|
            #[trigger] c_a.satisfied_by(prim, vals) && vals.len() == c_a.wires().len() && (forall|t: int|
                0 <= t < wv.inputs@.len() ==> #[trigger] spend_ready_at(prim, vals, wv, pv, native, t))
                ==> c_in.completes(prim, vals),
        forall|prim: Primitives, vals: Seq<int>|
            #[trigger] c_in.satisfied_by(prim, vals) && vals.len() == c_in.wires().len()
                && vals[pv.authorization_verification_key.x as int] == vals[agg.x as int]
                && vals[pv.authorization_verification_key.y as int] == vals[agg.y as int]
                    ==> c_b.satisfied_by(prim, vals),
        forall|prim: Primitives, vals: Seq<int>|
            #[trigger] c_b.satisfied_by(prim, vals) && vals.len() == c_b.wires().len() && (forall|t: int|
                0 <= t < wv.output_records_openings@.len()
                    ==> #[trigger] output_ready_at(prim, vals, wv, pv, native, t))
                ==> c_out.completes(prim, vals),
        forall|prim: Primitives, vals: Seq<int>|
            #[trigger] c_out.satisfied_by(prim, vals) && vals.len() == c_out.wires().len()
                && vals[pv.fee as int]
                == field_sub(
                vals[wv.inputs@[0].record_opening_var.data@[1] as int],
                vals[wv.output_records_openings@[0].data@[1] as int],
            ) && vals[pv.local_data_commitment as int] == commitment(
                prim,
                values_of(ld_in + pv.output_commitments@ + pv.memo@, vals),
                vals[wv.blinding_local_data as int],
            ) && vals[pv.predicates_commitment as int] == commitment(
                prim,
                values_of(predicate_wires(wv), vals),
                vals[wv.blinding_predicates as int],
            ) ==> cf.completes(prim, vals),
    ensures
        cf.satisfiable(prim),
{
    let n = w.entire_inputs@.len() as int;
    lemma_extends_trans(c_b, c_in, c_a);
    lemma_extends_trans(c_out, c_b, c_a);
    lemma_vars_hold_extend(c_in, c_a, wv, w, pv, p);
    lemma_vars_hold_extend(c_b, c_a, wv, w, pv, p);
    lemma_vars_hold_extend(c_out, c_a, wv, w, pv, p);
    lemma_holds_value_extend(c_in, c_a, native, native_asset_code());
    lemma_holds_value_extend(c_b, c_a, native, native_asset_code());
    lemma_holds_value_extend(c_out, c_a, native, native_asset_code());
    // the fixed values alone satisfy the system before its first gate
    let v0 = Seq::new(c_a.wires().len() as nat, |i: int| fixed_value(c_a.wires()[i])->0);
    assert(c_a.satisfied_by(prim, v0));
    // the spends
    assert forall|t: int| 0 <= t < n implies #[trigger] spend_ready_at(prim, v0, wv, pv, native, t) by {
        assert(input_valid(prim, w, p, t));
        assert(wv.inputs@[t].holds(c_a, w.entire_inputs@[t]));
        assert(c_a.holds_value(pv.nullifiers@[t], fe_values(p.input_nullifiers@)[t]));
        lemma_input_ready(
            c_a,
            prim,
            v0,
            wv.inputs@[t],
            w.entire_inputs@[t],
            pv.nullifiers@[t],
            p.input_nullifiers@[t].val(),
            pv.root,
            p.root.val(),
            t == 0,
            native,
        );
    }
    assert(c_in.completes(prim, v0));
    let v1 = choose|v1: Seq<int>| c_in.satisfied_by(prim, v1) && v1.len() == c_in.wires().len()
        && agrees(v1, v0);
    // the authorization key
    assert forall|t: int| 0 <= t < n
        implies #[trigger] randomized_key_values(prim, v1, wv.inputs@[t]) == randomized_key(
        prim,
        w.entire_inputs@[t],
    ) by {
        assert(wv.inputs@[t].holds(c_in, w.entire_inputs@[t]));
        lemma_note_values(c_in, prim, v1, wv.inputs@[t], w.entire_inputs@[t]);
    }
    lemma_aggregated_key(prim, v1, wv.inputs@, w.entire_inputs@);
    lemma_fixed_value(c_in, prim, v1, pv.authorization_verification_key.x, p.authorization_verification_key.x.val());
    lemma_fixed_value(c_in, prim, v1, pv.authorization_verification_key.y, p.authorization_verification_key.y.val());
    assert(c_b.satisfied_by(prim, v1));
    // the outputs
    lemma_fixed_value(c_b, prim, v1, pv.nullifiers@[0], p.input_nullifiers@[0].val());
    assert forall|t: int| 0 <= t < n implies #[trigger] output_ready_at(prim, v1, wv, pv, native, t) by {
        assert(output_valid_at(prim, w, p, t));
        assert(wv.output_records_openings@[t].holds(c_b, w.entire_output_records_openings@[t]));
        assert(c_b.holds_value(pv.output_commitments@[t], fe_values(p.output_commitments@)[t]));
        assert(c_b.holds_value(pv.nullifiers@[0], fe_values(p.input_nullifiers@)[0]));
        lemma_output_ready(
            c_b,
            prim,
            v1,
            wv.output_records_openings@[t],
            w.entire_output_records_openings@[t],
            pv.output_commitments@[t],
            p.output_commitments@[t].val(),
            t == 0,
            native,
            t,
            pv.nullifiers@[0],
            p.input_nullifiers@[0].val(),
        );
    }
    assert(c_out.completes(prim, v1));
    let v2 = choose|v2: Seq<int>| c_out.satisfied_by(prim, v2) && v2.len() == c_out.wires().len()
        && agrees(v2, v1);
    // the fee and the commitments
    lemma_satisfied_prefix(c_out, c_in, prim, v2);
    lemma_committed_values(c_out, prim, v2, w, p, wv, pv, native, ld_in);
    assert(wv.inputs@[0].holds(c_out, w.entire_inputs@[0]));
    assert(wv.output_records_openings@[0].holds(c_out, w.entire_output_records_openings@[0]));
    lemma_record_values(c_out, prim, v2, wv.inputs@[0].record_opening_var, w.entire_inputs@[0].ro);
    lemma_record_values(c_out, prim, v2, wv.output_records_openings@[0], w.entire_output_records_openings@[0]);
    lemma_fixed_value(c_out, prim, v2, pv.fee, p.fee as int);
    lemma_fixed_value(c_out, prim, v2, pv.local_data_commitment, p.commitment_local_data.val());
    lemma_fixed_value(c_out, prim, v2, wv.blinding_local_data, w.blinding_local_data.val());
    lemma_fixed_value(c_out, prim, v2, pv.predicates_commitment, p.commitment_predicates.val());
    lemma_fixed_value(c_out, prim, v2, wv.blinding_predicates, w.blinding_predicates.val());
    assert(cf.completes(prim, v2));
    let v3 = choose|v3: Seq<int>| cf.satisfied_by(prim, v3) && v3.len() == cf.wires().len() && agrees(v3, v2);
    assert(cf.satisfied_by(prim, v3));
}

/// Wires that hold the witness and the public input keep holding them as
/// the system grows.
proof fn lemma_vars_hold_extend(
    c2: &ConstraintSystem,
    c1: &ConstraintSystem,
    wv: DPCUtxoWitnessVar,
    w: DPCUtxoWitness,
    pv: DPCUtxoPubInputVar,
    p: DPCUtxoPublicInput,
)
    requires
        c2.extends(c1),
        wv.holds(c1, w),
        pv.holds(c1, p),
    ensures
        wv.holds(c2, w),
        pv.holds(c2, p),
{
    assert forall|t: int| 0 <= t < wv.inputs@.len()
        implies #[trigger] wv.inputs@[t].holds(c2, w.entire_inputs@[t]) by {
        lemma_note_var_extend(c2, c1, wv.inputs@[t], w.entire_inputs@[t]);
    }
    assert forall|t: int| 0 <= t < wv.output_records_openings@.len()
        implies #[trigger] wv.output_records_openings@[t].holds(
        c2,
        w.entire_output_records_openings@[t],
    ) by {
        lemma_record_var_extend(c2, c1, wv.output_records_openings@[t], w.entire_output_records_openings@[t]);
    }
    lemma_holds_value_extend(c2, c1, wv.blinding_local_data, w.blinding_local_data.val());
    lemma_holds_value_extend(c2, c1, wv.blinding_predicates, w.blinding_predicates.val());
    lemma_holds_values_extend(c2, c1, pv.nullifiers@, fe_values(p.input_nullifiers@));
    lemma_holds_values_extend(c2, c1, pv.output_commitments@, fe_values(p.output_commitments@));
    lemma_holds_values_extend(c2, c1, pv.memo@, fe_values(p.memo@));
    lemma_holds_value_extend(c2, c1, pv.predicates_commitment, p.commitment_predicates.val());
    lemma_holds_value_extend(c2, c1, pv.local_data_commitment, p.commitment_local_data.val());
    lemma_holds_value_extend(c2, c1, pv.root, p.root.val());
    lemma_holds_value_extend(c2, c1, pv.fee, p.fee as int);
    lemma_holds_value_extend(c2, c1, pv.authorization_verification_key.x, p.authorization_verification_key.x.val());
    lemma_holds_value_extend(c2, c1, pv.authorization_verification_key.y, p.authorization_verification_key.y.val());
}

/// The gates of the circuit for `n` records on each side, as views. Wires
/// are laid out as `build` allocates them: the constants 0 and 1, the inputs'
/// notes, the outputs' records, the two blindings, the public input vector,
/// the native asset code; then the wires each step of the circuit adds.
pub open spec fn utxo_gate_views(n: int) -> Seq<GateView> {
    let p = PAYLOAD_DATA_LEN as int;
    let m = MEMO_LEN as int;
    let bld = 2 + n * (note_width() + record_width());
    let pb = bld + 2;
    let notes = Seq::new(n as nat, |i: int| note_wires_at(2 + i * note_width(), p, MERKLE_PATH_LEN as int));
    let outs = Seq::new(n as nat, |j: int| wire_range(2 + n * note_width() + j * record_width(), record_width()));
    let nfs = wire_range(pb, n);
    let ocs = wire_range(pb + n, n);
    let memo = wire_range(pb + 2 * n + 4, m);
    let native = pb + 2 * n + 6 + m;
    let a = native + 1;
    let agg = agg_wires(a, n);
    let ld = Seq::new(n as nat, |i: int| (a + 11 * i) as usize) + ocs;
    let pids = Seq::new((n - 1) as nat, |i: int| notes[i + 1].fields[p + 3]) + Seq::new(
        (n - 1) as nat,
        |j: int| outs[j + 1][p + 2],
    );
    spends_views(notes, nfs, (pb + 2 * n + 2) as usize, native as usize, a, n) + seq![
        GateView::Equal { a: (pb + 2 * n + 4 + m) as usize, b: agg.x },
        GateView::Equal { a: (pb + 2 * n + 5 + m) as usize, b: agg.y },
    ] + outputs_views(outs, ocs, native as usize, nfs[0], a + 11 * n, n) + bind_views(
        a + 18 * n,
        notes[0].fields[2],
        outs[0][2],
        (pb + 2 * n + 3) as usize,
        ld + memo,
        bld as usize,
        (pb + 2 * n + 1) as usize,
        pids,
        (bld + 1) as usize,
        (pb + 2 * n) as usize,
    )
}

/// The gates `build` lays out, given where it put the wires, are those of
/// `utxo_gate_views`.
proof fn lemma_build_views(
    w: DPCUtxoWitness,
    p: DPCUtxoPublicInput,
    wv: DPCUtxoWitnessVar,
    pv: DPCUtxoPubInputVar,
    native: usize,
    ld_in: Seq<usize>,
    local_data: Seq<usize>,
    agg: PointVar,
    c_a: &ConstraintSystem,
    c_in: &ConstraintSystem,
    c_b: &ConstraintSystem,
    c_out: &ConstraintSystem,
    cf: &ConstraintSystem,
)
    requires
        well_shaped(w, p),
        payloads_sized(wv),
        wv.inputs@.len() == w.entire_inputs@.len(),
        wv.output_records_openings@.len() == w.entire_inputs@.len(),
        pv.nullifiers@.len() == w.entire_inputs@.len(),
        pv.output_commitments@.len() == w.entire_inputs@.len(),
        pv.memo@.len() == MEMO_LEN,
        local_data == ld_in + pv.output_commitments@,
        c_a.gates().len() == 0,
        c_in.gate_views() == c_a.gate_views() + spends_views(
            note_wires(wv),
            pv.nullifiers@,
            pv.root,
            native,
            c_a.wires().len() as int,
            w.entire_inputs@.len() as int,
        ),
        c_b.gates() == c_in.gates().push(Gate::Equal { a: pv.authorization_verification_key.x, b: agg.x }).push(
            Gate::Equal { a: pv.authorization_verification_key.y, b: agg.y },
        ),
        c_out.gate_views() == c_b.gate_views() + outputs_views(
            output_wires(wv),
            pv.output_commitments@,
            native,
            pv.nullifiers@[0],
            c_b.wires().len() as int,
            w.entire_inputs@.len() as int,
        ),
        cf.gate_views() == c_out.gate_views() + bind_views(
            c_out.wires().len() as int,
            wv.inputs@[0].record_opening_var.data@[1],
            wv.output_records_openings@[0].data@[1],
            pv.fee,
            local_data + pv.memo@,
            wv.blinding_local_data,
            pv.local_data_commitment,
            predicate_wires(wv),
            wv.blinding_predicates,
            pv.predicates_commitment,
        ),
        ({
            let n = w.entire_inputs@.len() as int;
            let bld = 2 + n * (note_width() + record_width());
            let pb = bld + 2;
            let a = pb + 2 * n + 7 + MEMO_LEN;
            &&& forall|i: int| 0 <= i < n ==> #[trigger] wv.inputs@[i].wires() == note_wires_at(
                2 + i * note_width(),
                PAYLOAD_DATA_LEN as int,
                MERKLE_PATH_LEN as int,
            )
            &&& forall|j: int| 0 <= j < n ==> #[trigger] wv.output_records_openings@[j].fields() == wire_range(
                2 + n * note_width() + j * record_width(),
                record_width(),
            )
            &&& wv.blinding_local_data == bld
            &&& wv.blinding_predicates == bld + 1
            &&& pv.layout() == wire_range(pb, 2 * n + 6 + MEMO_LEN)
            &&& native == a - 1
            &&& c_a.wires().len() == a
            &&& c_in.wires().len() == a + 11 * n
            &&& c_b.wires().len() == a + 11 * n
            &&& c_out.wires().len() == a + 18 * n
            &&& ld_in == Seq::new(n as nat, |t: int| (a + 11 * t) as usize)
            &&& agg == agg_wires(a, n)
        }),
    ensures
        cf.gate_views() == utxo_gate_views(w.entire_inputs@.len() as int),
{
    let nn = w.entire_inputs@.len() as int;
    let p = PAYLOAD_DATA_LEN as int;
    let m = MEMO_LEN as int;
    let bld = 2 + nn * (note_width() + record_width());
    let pb = bld + 2;
    let notes = Seq::new(nn as nat, |i: int| note_wires_at(2 + i * note_width(), p, MERKLE_PATH_LEN as int));
    let outs = Seq::new(nn as nat, |j: int| wire_range(2 + nn * note_width() + j * record_width(), record_width()));
    let nfs = wire_range(pb, nn);
    let ocs = wire_range(pb + nn, nn);
    let memo = wire_range(pb + 2 * nn + 4, m);
    let native = pb + 2 * nn + 6 + m;
    let lay = pv.layout();
    assert forall|i: int| 0 <= i < nn implies #[trigger] pv.nullifiers@[i] == nfs[i] by {
        assert(lay[i] == pv.nullifiers@[i]);
    }
    assert forall|i: int| 0 <= i < nn implies #[trigger] pv.output_commitments@[i] == ocs[i] by {
        assert(lay[nn + i] == pv.output_commitments@[i]);
    }
    assert forall|i: int| 0 <= i < m implies #[trigger] pv.memo@[i] == memo[i] by {
        assert(lay[2 * nn + 4 + i] == pv.memo@[i]);
    }
    assert(pv.nullifiers@ =~= nfs);
    assert(pv.output_commitments@ =~= ocs);
    assert(pv.memo@ =~= memo);
    assert(lay[2 * nn] == pv.predicates_commitment);
    assert(lay[2 * nn + 1] == pv.local_data_commitment);
    assert(lay[2 * nn + 2] == pv.root);
    assert(lay[2 * nn + 3] == pv.fee);
    assert(lay[2 * nn + 4 + m] == pv.authorization_verification_key.x);
    assert(lay[2 * nn + 5 + m] == pv.authorization_verification_key.y);
    assert(note_wires(wv) =~= notes);
    assert(output_wires(wv) =~= outs);
    assert(wv.inputs@[0].wires() == notes[0]);
    assert(wv.inputs@[0].record_opening_var.fields()[2] == wv.inputs@[0].record_opening_var.data@[1]);
    assert(wv.output_records_openings@[0].fields()[2] == wv.output_records_openings@[0].data@[1]);
    assert(wv.output_records_openings@[0].fields() == outs[0]);
    assert forall|i: int| 0 <= i < nn - 1 implies #[trigger] predicate_wires(wv)[i] == notes[i + 1].fields[p + 3] by {
        let rv = wv.inputs@[i + 1].record_opening_var;
        assert(rv.data@.len() == p);
        assert(wv.inputs@[i + 1].wires() == notes[i + 1]);
        assert(rv.fields()[p + 3] == rv.pid_death);
    }
    assert forall|j: int| 0 <= j < nn - 1 implies #[trigger] predicate_wires(wv)[nn - 1 + j] == outs[j + 1][p + 2] by {
        let ov = wv.output_records_openings@[j + 1];
        assert(ov.data@.len() == p);
        assert(ov.fields() == outs[j + 1]);
        assert(ov.fields()[p + 2] == ov.pid_birth);
    }
    assert(predicate_wires(wv) =~= Seq::new((nn - 1) as nat, |i: int| notes[i + 1].fields[p + 3]) + Seq::new(
        (nn - 1) as nat,
        |j: int| outs[j + 1][p + 2],
    ));
    assert(c_a.gate_views() =~= Seq::<GateView>::empty());
    assert(c_b.gate_views() =~= c_in.gate_views().push(GateView::Equal { a: pv.authorization_verification_key.x, b: agg.x }).push(
        GateView::Equal { a: pv.authorization_verification_key.y, b: agg.y },
    ));
    assert(cf.gate_views() =~= utxo_gate_views(nn));
}

impl DPCUtxoCircuit {
    /// Lays out the circuit of a transaction: the spend of each input, the sum of
    /// the randomized authorization keys, the check of each output, the fee
    /// balance, and the local-data and predicate commitments.
    ///
    /// Fails with `InternalError` exactly when witness and public input do not
    /// have the sizes the circuit is laid out for. The public input vector of the
    /// circuit is `public_input.to_scalars()`, and its gate count depends on the
    /// number of records alone. Whatever the gadgets compute, an assignment that
    /// satisfies the circuit makes the transaction valid.
    #[verifier::rlimit(100)]
    pub fn build(witness: &DPCUtxoWitness, public_input: &DPCUtxoPublicInput) -> (r: Result<DPCUtxoCircuit, DPCApiError>)
        ensures
            r is Ok <==> well_shaped(*witness, *public_input),
            r matches Err(e) ==> e is InternalError,
            r matches Ok(circ) ==> {
                &&& circ.0.wf()
                &&& circ.0.public_values() == public_input.scalars()
                &&& circ.0.gates().len() == utxo_gate_count(witness.entire_inputs@.len() as int)
                &&& circ.0.gate_views() == utxo_gate_views(witness.entire_inputs@.len() as int)
                &&& circ.sound_for(*witness, *public_input)
                &&& circ.complete_for(*witness, *public_input)
            },
    {
        if !check_shape(witness, public_input) {
            return Err(DPCApiError::InternalError("utxo circuit: records, nullifiers, commitments or memo of the wrong size".to_owned()));
        }
        let mut c = ConstraintSystem::new();
        let witness_var = DPCUtxoWitnessVar::new(&mut c, witness);
        let ghost c_w = c;
        let public_input_var = DPCUtxoPubInputVar::new(&mut c, public_input);
        let ghost c_vars = c;
        let native_asset_type_var = c.create_constant_variable(native_asset_code_fe());
        let ghost c_a = c;
        let n = witness_var.inputs.len();
        proof {
            assert forall|t: int| 0 <= t < n
                implies #[trigger] witness_var.inputs@[t].record_opening_var.data@.len()
                == crate::records::PAYLOAD_DATA_LEN
                    && witness_var.inputs@[t].in_range(c_a.wires().len() as int) by {
                assert(witness.entire_inputs@[t].well_shaped());
                assert(witness_var.inputs@[t].holds(&c_w, witness.entire_inputs@[t]));
                lemma_note_holds_in_range(&c_w, witness_var.inputs@[t], witness.entire_inputs@[t]);
                lemma_note_in_range_mono(witness_var.inputs@[t], c_w.wires().len() as int, c_a.wires().len() as int);
            }
            assert forall|t: int| 0 <= t < n
                implies #[trigger] witness_var.output_records_openings@[t].data@.len()
                == crate::records::PAYLOAD_DATA_LEN
                    && witness_var.output_records_openings@[t].in_range(c_a.wires().len() as int) by {
                assert(witness.entire_output_records_openings@[t].well_shaped());
                assert(witness_var.output_records_openings@[t].holds(&c_w, witness.entire_output_records_openings@[t]));
                lemma_record_holds_in_range(&c_w, witness_var.output_records_openings@[t], witness.entire_output_records_openings@[t]);
                lemma_record_in_range_mono(witness_var.output_records_openings@[t], c_w.wires().len() as int, c_a.wires().len() as int);
            }
            assert forall|t: int| 0 <= t < public_input_var.layout().len()
                implies #[trigger] public_input_var.layout()[t]
                < c_a.wires().len() by {
                assert(c_vars.holds_value(public_input_var.layout()[t], public_input.scalars()[t]));
            }
            assert(witness_var.in_range(c_a.wires().len() as int));
        }
        let (ld_in_vec, derived_authorization_key) = spend_all(&mut c, &witness_var, &public_input_var, native_asset_type_var);
        let ghost c_in = c;
        let ghost ld_in = ld_in_vec@;
        // the randomized keys add up to the public authorization key
        proof {
            let lay = public_input_var.layout();
            let m = lay.len() - 2;
            assert(lay[m] == public_input_var.authorization_verification_key.x);
            assert(lay[m + 1] == public_input_var.authorization_verification_key.y);
        }
        c.point_equal_gate(public_input_var.authorization_verification_key, derived_authorization_key);
        let ghost c_b = c;
        proof {
            lemma_vars_in_range_mono(witness_var, public_input_var, c_a.wires().len() as int, c.wires().len() as int);
        }
        check_outputs(&mut c, &witness_var, &public_input_var, native_asset_type_var);
        let ghost c_out = c;
        let mut local_data = ld_in_vec;
        let mut j: usize = 0;
        while j < n
            invariant
                j <= n,
                n == public_input_var.output_commitments@.len(),
                local_data@ == ld_in + public_input_var.output_commitments@.take(j as int),
            decreases n - j,
        {
            local_data.push(public_input_var.output_commitments[j]);
            j = j + 1;
            assert(public_input_var.output_commitments@.take(j as int) =~= public_input_var.output_commitments@.take(
                j - 1,
            ).push(public_input_var.output_commitments@[j - 1]));
        }
        proof {
            assert(public_input_var.output_commitments@.take(n as int) =~= public_input_var.output_commitments@);
            lemma_vars_in_range_mono(witness_var, public_input_var, c_a.wires().len() as int, c.wires().len() as int);
            let lay = public_input_var.layout();
            assert forall|t: int| 0 <= t < local_data@.len()
                implies #[trigger] local_data@[t] < c.wires().len() by {
                if t >= n {
                    assert(lay[n + (t - n)] == public_input_var.output_commitments@[t - n]);
                }
            }
        }
        bind_fee_and_commitments(&mut c, &witness_var, &public_input_var, local_data);
        proof {
            let cf = c;
            lemma_extends_trans(&cf, &c_out, &c_b);
            lemma_extends_trans(&cf, &c_b, &c_in);
            lemma_extends_trans(&cf, &c_in, &c_a);
            lemma_extends_trans(&cf, &c_a, &c_vars);
            lemma_extends_trans(&cf, &c_vars, &c_w);
            lemma_holds_value_extend(&cf, &c_a, native_asset_type_var, native_asset_code());
            assert(public_input_var.holds(&c_a, *public_input)) by {
                let pv = public_input_var;
                let p = *public_input;
                lemma_holds_values_extend(&c_a, &c_vars, pv.nullifiers@, fe_values(p.input_nullifiers@));
                lemma_holds_values_extend(&c_a, &c_vars, pv.output_commitments@, fe_values(p.output_commitments@));
                lemma_holds_values_extend(&c_a, &c_vars, pv.memo@, fe_values(p.memo@));
                lemma_holds_value_extend(&c_a, &c_vars, pv.predicates_commitment, p.commitment_predicates.val());
                lemma_holds_value_extend(&c_a, &c_vars, pv.local_data_commitment, p.commitment_local_data.val());
                lemma_holds_value_extend(&c_a, &c_vars, pv.root, p.root.val());
                lemma_holds_value_extend(&c_a, &c_vars, pv.fee, p.fee as int);
                lemma_holds_value_extend(&c_a, &c_vars, pv.authorization_verification_key.x, p.authorization_verification_key.x.val());
                lemma_holds_value_extend(&c_a, &c_vars, pv.authorization_verification_key.y, p.authorization_verification_key.y.val());
            }
            lemma_holds_values_extend(&cf, &c_vars, public_input_var.layout(), public_input.scalars());
            assert(witness_var.holds(&c_a, *witness)) by {
                lemma_extends_trans(&c_a, &c_vars, &c_w);
                assert forall|t: int| 0 <= t < n
                    implies #[trigger] witness_var.inputs@[t].holds(&c_a, witness.entire_inputs@[t]) by {
                    lemma_note_var_extend(&c_a, &c_w, witness_var.inputs@[t], witness.entire_inputs@[t]);
                }
                assert forall|t: int| 0 <= t < n implies #[trigger] witness_var.output_records_openings@[t].holds(
                    &c_a,
                    witness.entire_output_records_openings@[t],
                ) by {
                    lemma_record_var_extend(&c_a, &c_w, witness_var.output_records_openings@[t], witness.entire_output_records_openings@[t]);
                }
                lemma_holds_value_extend(&c_a, &c_w, witness_var.blinding_local_data, witness.blinding_local_data.val());
                lemma_holds_value_extend(&c_a, &c_w, witness_var.blinding_predicates, witness.blinding_predicates.val());
            }
            lemma_vars_hold_extend(&cf, &c_a, witness_var, *witness, public_input_var, *public_input);
            // the public input vector
            assert(cf.public_wires() =~= public_input_var.layout());
            assert(cf.public_values() =~= public_input.scalars()) by {
                let lay = public_input_var.layout();
                assert forall|j: int| 0 <= j < lay.len()
                    implies #[trigger] cf.public_values()[j] == public_input.scalars()[j] by {
                    assert(cf.holds_value(lay[j], public_input.scalars()[j]));
                }
            }

            assert(records_sized(*witness));
            lemma_public_len(*public_input);
            assert(n * note_width() + n * record_width() == n * (note_width() + record_width())) by (nonlinear_arith);
            assert(c_w.wires().len() == 2 + n * (note_width() + record_width()) + 2);
            assert(witness_var.blinding_local_data == 2 + n * (note_width() + record_width()));
            assert(public_input_var.layout() == wire_range(c_w.wires().len() as int, 2 * n + 6 + MEMO_LEN));
            assert(c_out.wires().len() == c_a.wires().len() + 18 * n);
            assert(ld_in =~= Seq::new(
                n as nat,
                |t: int| (2 + n * (note_width() + record_width()) + 2 + 2 * n + 7 + MEMO_LEN + 11 * t) as usize,
            ));
            assert(forall|i: int| 0 <= i < n ==> #[trigger] witness_var.inputs@[i].wires() == note_wires_at(
                2 + i * note_width(),
                PAYLOAD_DATA_LEN as int,
                MERKLE_PATH_LEN as int,
            ));
            assert(forall|j: int| 0 <= j < n ==> #[trigger] witness_var.output_records_openings@[j].fields() == wire_range(
                2 + n * note_width() + j * record_width(),
                record_width(),
            ));
            assert(native_asset_type_var == 2 + n * (note_width() + record_width()) + 2 + 2 * n + 6 + MEMO_LEN);
            assert(derived_authorization_key == agg_wires(c_a.wires().len() as int, n as int));
            // the gates, as views
            lemma_build_views(
                *witness,
                *public_input,
                witness_var,
                public_input_var,
                native_asset_type_var,
                ld_in,
                local_data@,
                derived_authorization_key,
                &c_a,
                &c_in,
                &c_b,
                &c_out,
                &cf,
            );
            assert(cf.gates().len() == utxo_gate_count(n as int));
            // what a satisfying assignment establishes
            let kp = c_in.gates().len() as int;
            assert forall|prim: Primitives, vals: Seq<int>| #[trigger]
                cf.satisfied_by(prim, vals) implies transaction_holds(prim, *witness, *public_input) by {
                lemma_satisfied_prefix(&cf, &c_in, prim, vals);
                lemma_satisfied_prefix(&cf, &c_out, prim, vals);
                assert(gate_holds(cf.gates()[kp], prim, vals));
                assert(gate_holds(cf.gates()[kp + 1], prim, vals));
                lemma_build_sound(
                    &cf,
                    prim,
                    vals,
                    *witness,
                    *public_input,
                    witness_var,
                    public_input_var,
                    native_asset_type_var,
                    ld_in,
                    derived_authorization_key,
                );
            }
            // a valid transaction has a satisfying assignment
            assert(c_a.gates().len() == 0);
            assert(local_data@ == ld_in + public_input_var.output_commitments@);
            assert forall|prim: Primitives| #[trigger] transaction_holds(prim, *witness, *public_input)
                implies cf.satisfiable(
                prim,
            ) by {
                lemma_build_complete(
                    &c_a,
                    &c_in,
                    &c_b,
                    &c_out,
                    &cf,
                    prim,
                    *witness,
                    *public_input,
                    witness_var,
                    public_input_var,
                    native_asset_type_var,
                    ld_in,
                    derived_authorization_key,
                );
            }
        }
        Ok(DPCUtxoCircuit(c))
    }
}

impl DPCUtxoCircuit {
    /// Lays out the circuit for `non_fee_input_size` records besides the fee
    /// records, on a dummy witness and a zeroed public input. Its gate count
    /// and public input length are those of every circuit `build` lays out for
    /// as many records.
    pub fn build_for_preprocessing(non_fee_input_size: usize) -> (r: Result<DPCUtxoCircuit, DPCApiError>)
        ensures
            r is Ok <==> non_fee_input_size < usize::MAX,
            r matches Err(e) ==> e matches DPCApiError::InternalError(m) && names_preprocessing(m@),
            r matches Ok(circ) ==> {
                &&& circ.0.wf()
                &&& circ.0.gates().len() == utxo_gate_count(non_fee_input_size + 1)
                &&& circ.0.gate_views() == utxo_gate_views(non_fee_input_size + 1)
                &&& circ.0.public_values() == zeroed_scalars(non_fee_input_size + 1)
            },
    {
        if non_fee_input_size == usize::MAX {
            let m = "preprocessing: too many non-fee inputs".to_owned();
            proof {
                reveal_strlit("preprocessing: too many non-fee inputs");
                reveal_strlit("preprocessing: ");
                assert(m@.subrange(0, 15) =~= "preprocessing: "@);
            }
            return Err(DPCApiError::InternalError(m));
        }
        let dummy_witness = DPCUtxoWitness::dummy(non_fee_input_size);
        let pub_input = DPCUtxoPublicInput::zeroed(non_fee_input_size + 1);
        let r = DPCUtxoCircuit::build(&dummy_witness, &pub_input);
        match r {
            Ok(circ) => Ok(circ),
            Err(_) => {
                let m = "preprocessing: the dummy transaction has the wrong shape".to_owned();
                proof {
                    reveal_strlit("preprocessing: the dummy transaction has the wrong shape");
                    reveal_strlit("preprocessing: ");
                    assert(m@.subrange(0, 15) =~= "preprocessing: "@);
                }
                Err(DPCApiError::InternalError(m))
            },
        }
    }
}

/// The message names preprocessing as where the error arose.
pub open spec fn names_preprocessing(m: Seq<char>) -> bool {
    m.len() >= 15 && m.subrange(0, 15) == "preprocessing: "@
}

/// The public input vector of a well-shaped public input for `n` records.
pub proof fn lemma_public_len(p: DPCUtxoPublicInput)
    requires
        p.well_shaped(p.input_nullifiers@.len() as int),
    ensures
        p.scalars().len() == utxo_public_len(p.input_nullifiers@.len() as int),
{
}

/// A satisfiable circuit makes its transaction valid.
proof fn lemma_satisfiable_holds(circ: &DPCUtxoCircuit, w: DPCUtxoWitness, p: DPCUtxoPublicInput, prim: Primitives)
    requires
        circ.sound_for(w, p),
        circ.0.satisfiable(prim),
    ensures
        transaction_holds(prim, w, p),
{
    let vals = choose|vals: Seq<int>| circ.0.satisfied_by(prim, vals);
    assert(circ.0.satisfied_by(prim, vals));
}

/// The fee slots are hard: a circuit whose fee input or fee change is a
/// dummy, or of another asset than the native one, cannot be satisfied.
pub proof fn lemma_fee_slot_hardness(circ: &DPCUtxoCircuit, w: DPCUtxoWitness, p: DPCUtxoPublicInput, prim: Primitives)
    requires
        circ.sound_for(w, p),
        w.well_shaped(),
        w.entire_inputs@[0].ro.is_dummy() || w.entire_inputs@[0].ro.asset_type() != native_asset_code()
            || w.entire_output_records_openings@[0].is_dummy()
            || w.entire_output_records_openings@[0].asset_type() != native_asset_code(),
    ensures
        !circ.0.satisfiable(prim),
{
    if circ.0.satisfiable(prim) {
        lemma_satisfiable_holds(circ, w, p, prim);
        assert(input_valid(prim, w, p, 0));
        assert(output_valid_at(prim, w, p, 0));
    }
}

/// Membership binds: a real input whose path does not lead to the public
/// root leaves the circuit unsatisfiable.
pub proof fn lemma_membership_binding(
    circ: &DPCUtxoCircuit,
    w: DPCUtxoWitness,
    p: DPCUtxoPublicInput,
    prim: Primitives,
    i: int,
)
    requires
        circ.sound_for(w, p),
        0 <= i < w.entire_inputs@.len(),
        !w.entire_inputs@[i].ro.is_dummy(),
        merkle_root(
            prim,
            w.entire_inputs@[i].acc_member_witness.uid.val(),
            record_commitment(prim, w.entire_inputs@[i].ro),
            fe_values(w.entire_inputs@[i].acc_member_witness.merkle_path@),
        ) != p.root.val(),
    ensures
        !circ.0.satisfiable(prim),
{
    if circ.0.satisfiable(prim) {
        lemma_satisfiable_holds(circ, w, p, prim);
        assert(input_valid(prim, w, p, i));
    }
}

/// Nullifiers bind: a real input whose nullifier is not the public one leaves
/// the circuit unsatisfiable.
pub proof fn lemma_nullifier_binding(
    circ: &DPCUtxoCircuit,
    w: DPCUtxoWitness,
    p: DPCUtxoPublicInput,
    prim: Primitives,
    i: int,
)
    requires
        circ.sound_for(w, p),
        0 <= i < w.entire_inputs@.len(),
        !w.entire_inputs@[i].ro.is_dummy(),
        nullifier(prim, w.entire_inputs@[i].ro, w.entire_inputs@[i].proof_gen_key.nk.val())
            != p.input_nullifiers@[i].val(),
    ensures
        !circ.0.satisfiable(prim),
{
    if circ.0.satisfiable(prim) {
        lemma_satisfiable_holds(circ, w, p, prim);
        assert(input_valid(prim, w, p, i));
    }
}

/// Completeness: a transaction that is valid under the gadgets has an
/// assignment that satisfies its circuit; in particular a dummy input need
/// not be accumulated, nor have the public nullifier.
pub proof fn lemma_completeness(circ: &DPCUtxoCircuit, w: DPCUtxoWitness, p: DPCUtxoPublicInput, prim: Primitives)
    requires
        circ.complete_for(w, p),
        transaction_holds(prim, w, p),
    ensures
        circ.0.satisfiable(prim),
{
}

/// Fee arithmetic: where everything else about the transaction holds, the
/// circuit is satisfiable exactly when the public fee is the fee input's
/// amount minus the fee change's, in the field.
pub proof fn lemma_fee_arithmetic(circ: &DPCUtxoCircuit, w: DPCUtxoWitness, p: DPCUtxoPublicInput, prim: Primitives)
    requires
        circ.sound_for(w, p),
        circ.complete_for(w, p),
        records_valid(prim, w, p),
        auth_key_aggregates(prim, w, p),
        commitments_open(prim, w, p),
    ensures
        circ.0.satisfiable(prim) <==> fee_balances(w, p),
{
    if circ.0.satisfiable(prim) {
        lemma_satisfiable_holds(circ, w, p, prim);
    }
    if fee_balances(w, p) {
        assert(transaction_holds(prim, w, p));
    }
}

/// Authorization keys aggregate: where everything else about the
/// transaction holds, the circuit is satisfiable exactly when the public
/// authorization verification key is the sum of the inputs' randomized keys.
pub proof fn lemma_auth_key_aggregation(circ: &DPCUtxoCircuit, w: DPCUtxoWitness, p: DPCUtxoPublicInput, prim: Primitives)
    requires
        circ.sound_for(w, p),
        circ.complete_for(w, p),
        records_valid(prim, w, p),
        fee_balances(w, p),
        commitments_open(prim, w, p),
    ensures
        circ.0.satisfiable(prim) <==> auth_key_aggregates(prim, w, p),
{
    if circ.0.satisfiable(prim) {
        lemma_satisfiable_holds(circ, w, p, prim);
    }
    if auth_key_aggregates(prim, w, p) {
        assert(transaction_holds(prim, w, p));
    }
}

/// Commitments bind: a public local-data or predicates commitment that is not
/// the commitment to the transaction's local data or predicate identifiers
/// leaves the circuit unsatisfiable.
pub proof fn lemma_commitment_binding(circ: &DPCUtxoCircuit, w: DPCUtxoWitness, p: DPCUtxoPublicInput, prim: Primitives)
    requires
        circ.sound_for(w, p),
        p.commitment_local_data.val() != commitment(prim, local_data(prim, w, p), w.blinding_local_data.val())
            || p.commitment_predicates.val() != commitment(prim, predicate_ids(w), w.blinding_predicates.val()),
    ensures
        !circ.0.satisfiable(prim),
{
    if circ.0.satisfiable(prim) {
        lemma_satisfiable_holds(circ, w, p, prim);
    }
}

/// Output nonces bind: a real output at position `j` whose nonce is not the
/// hash of `j`, the first nullifier and 1 leaves the circuit unsatisfiable.
pub proof fn lemma_output_nonce_binding(
    circ: &DPCUtxoCircuit,
    w: DPCUtxoWitness,
    p: DPCUtxoPublicInput,
    prim: Primitives,
    j: int,
)
    requires
        circ.sound_for(w, p),
        0 <= j < w.entire_output_records_openings@.len(),
        !w.entire_output_records_openings@[j].is_dummy(),
        w.entire_output_records_openings@[j].nonce.val() != sponge(
            prim,
            seq![j, p.input_nullifiers@[0].val(), 1],
        ),
    ensures
        !circ.0.satisfiable(prim),
{
    if circ.0.satisfiable(prim) {
        lemma_satisfiable_holds(circ, w, p, prim);
        assert(output_valid_at(prim, w, p, j));
    }
}

/// The shape is stable: the circuit `build` lays out for a transaction of
/// `n` records and the one `build_for_preprocessing` lays out for `n - 1`
/// non-fee records have the same gates, wired alike, and public input vectors
/// of the same length; so do any two circuits either lays out for `n`
/// records.
pub proof fn lemma_shape_stability(built: &DPCUtxoCircuit, pre: &DPCUtxoCircuit, w: DPCUtxoWitness, p: DPCUtxoPublicInput)
    requires
        well_shaped(w, p),
        built.0.gate_views() == utxo_gate_views(w.entire_inputs@.len() as int),
        built.0.public_values() == p.scalars(),
        pre.0.gate_views() == utxo_gate_views(w.entire_inputs@.len() as int),
        pre.0.public_values() == zeroed_scalars(w.entire_inputs@.len() as int),
    ensures
        built.0.gate_views() == pre.0.gate_views(),
        built.0.gates().len() == pre.0.gates().len(),
        built.0.public_values().len() == pre.0.public_values().len(),
{
    lemma_public_len(p);
    assert(built.0.gates().len() == built.0.gate_views().len());
    assert(pre.0.gates().len() == pre.0.gate_views().len());
}

} // verus!
