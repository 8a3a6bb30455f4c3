use dpc_utxo::circuit::{ConstraintSystem, Gate, GadgetKind, Wire};
use dpc_utxo::field::{Fe, Point};
use dpc_utxo::gadgets::{NoteInputVar, RecordOpeningVar};
use dpc_utxo::records::{
    native_asset_code_fe, AccMemberWitness, DPCUtxoPublicInput, DPCUtxoWitness, NoteInput, Payload,
    ProofGenerationKey, RecordOpening, MEMO_LEN, MERKLE_PATH_LEN, PAYLOAD_DATA_LEN, TREE_DEPTH,
};
use dpc_utxo::utxo::DPCUtxoCircuit;

// A stand-in for the cryptographic gadgets: deterministic mixing of the
// inputs into small field elements.

fn small(f: &Fe) -> u64 {
    let l = f.limbs();
    assert!(l[1] == 0 && l[2] == 0 && l[3] == 0, "stand-in gadgets work on small values");
    l[0]
}

fn mix(tag: u64, ins: &[u64]) -> u64 {
    let mut h: u64 = 0xcbf29ce484222325 ^ tag;
    for x in ins {
        h ^= *x;
        h = h.wrapping_mul(0x100000001b3);
        h ^= h >> 29;
    }
    h >> 2
}

fn hash3(a: u64, b: u64, c: u64) -> u64 {
    mix(3, &[a, b, c])
}

fn merkle_root(uid: u64, leaf: u64, path: &[u64]) -> u64 {
    let mut node = leaf;
    let mut pos = uid;
    for level in 0..TREE_DEPTH {
        let s0 = path[2 * level];
        let s1 = path[2 * level + 1];
        node = match pos % 3 {
            0 => hash3(node, s0, s1),
            1 => hash3(s0, node, s1),
            _ => hash3(s0, s1, node),
        };
        pos /= 3;
    }
    node
}

fn ecc_add(p: (u64, u64), q: (u64, u64)) -> (u64, u64) {
    (mix(5, &[p.0, p.1, q.0, q.1]), mix(6, &[p.0, p.1, q.0, q.1]))
}

fn gadget(kind: GadgetKind, ins: &[u64]) -> Vec<u64> {
    match kind {
        GadgetKind::RecordCommitment => vec![mix(1, ins)],
        GadgetKind::Nullifier => vec![mix(2, ins)],
        GadgetKind::MerkleRoot => vec![merkle_root(ins[0], ins[1], &ins[2..])],
        GadgetKind::Diversifier => vec![mix(4, ins)],
        GadgetKind::EccAdd => {
            let r = ecc_add((ins[0], ins[1]), (ins[2], ins[3]));
            vec![r.0, r.1]
        }
        GadgetKind::Sponge => vec![mix(7, ins)],
        GadgetKind::Commit => vec![mix(8, ins)],
    }
}

/// Fills every wire in gate order, then checks every gate. Each derived wire
/// is fixed by the one gate that creates it, so the system is satisfiable
/// exactly when this assignment meets every gate.
fn satisfiable(c: &ConstraintSystem) -> bool {
    evaluate(c).is_some()
}

/// The assignment that fills every wire in gate order, when it meets every
/// gate.
fn evaluate(c: &ConstraintSystem) -> Option<Vec<u64>> {
    let n = c.num_wires();
    let mut vals: Vec<Option<u64>> = vec![None; n];
    for i in 0..n {
        vals[i] = match c.wire(i) {
            Wire::Witness(v) | Wire::Public(v) | Wire::Constant(v) => Some(small(&v)),
            Wire::Derived => None,
        };
    }
    let get = |vals: &Vec<Option<u64>>, i: usize| vals[i].expect("wire read before it is set");
    for k in 0..c.num_gates() {
        match c.gate(k) {
            Gate::Sub { a, b, out } => {
                let (x, y) = (get(&vals, *a), get(&vals, *b));
                assert!(x >= y, "stand-in evaluation handles no wrap-around");
                vals[*out] = Some(x - y);
            }
            Gate::CheckEqual { a, b, out } => {
                vals[*out] = Some((get(&vals, *a) == get(&vals, *b)) as u64);
            }
            Gate::IsZero { a, out } => vals[*out] = Some((get(&vals, *a) == 0) as u64),
            Gate::Not { a, out } => {
                let x = get(&vals, *a);
                if x > 1 {
                    return None;
                }
                vals[*out] = Some(1 - x);
            }
            Gate::Gadget { kind, ins, outs } => {
                let xs: Vec<u64> = ins.iter().map(|i| get(&vals, *i)).collect();
                let ys = gadget(*kind, &xs);
                for (o, y) in outs.iter().zip(ys) {
                    vals[*o] = Some(y);
                }
            }
            _ => {}
        }
    }
    for k in 0..c.num_gates() {
        let ok = match c.gate(k) {
            Gate::Bool { a } => get(&vals, *a) <= 1,
            Gate::Equal { a, b } => get(&vals, *a) == get(&vals, *b),
            Gate::Or { a, b } => get(&vals, *a) == 1 || get(&vals, *b) == 1,
            _ => true,
        };
        if !ok {
            return None;
        }
    }
    Some(vals.into_iter().map(|v| v.unwrap_or(0)).collect())
}

fn fe(v: u64) -> Fe {
    Fe::from_u64(v)
}

fn record_values(ro: &RecordOpening) -> Vec<u64> {
    let mut v = vec![small(&ro.addr)];
    v.extend(ro.payload.data.iter().map(small));
    v.push(ro.payload.is_dummy as u64);
    v.extend([&ro.pid_birth, &ro.pid_death, &ro.nonce, &ro.blinding].into_iter().map(small));
    v
}

fn commitment_of(ro: &RecordOpening) -> u64 {
    gadget(GadgetKind::RecordCommitment, &record_values(ro))[0]
}

fn nullifier_of(ro: &RecordOpening, nk: &Fe) -> u64 {
    let mut v = record_values(ro);
    v.push(small(nk));
    gadget(GadgetKind::Nullifier, &v)[0]
}

fn nonce_for(position: u64, first_nullifier: u64) -> u64 {
    gadget(GadgetKind::Sponge, &[position, first_nullifier, 1])[0]
}

fn key() -> ProofGenerationKey {
    ProofGenerationKey { ak: Point { x: fe(32), y: fe(10) }, nk: fe(77) }
}

fn address(pgk: &ProofGenerationKey, rho: u64) -> Fe {
    fe(gadget(GadgetKind::Diversifier, &[small(&pgk.ak.x), small(&pgk.ak.y), small(&pgk.nk), rho])[0])
}

fn record(addr: Fe, asset: u64, amount: u64, nonce: u64, seed: u64, is_dummy: bool) -> RecordOpening {
    let mut data = vec![fe(0); PAYLOAD_DATA_LEN];
    data[0] = fe(asset);
    data[1] = fe(amount);
    RecordOpening {
        addr,
        payload: Payload { data, is_dummy },
        pid_birth: fe(seed + 100),
        pid_death: fe(seed + 200),
        nonce: fe(nonce),
        blinding: fe(seed + 300),
    }
}

const NATIVE: u64 = 1;

/// A ternary accumulator holding the given leaves at indices 0, 1, ...
/// (at most three), with zero siblings elsewhere.
fn accumulate(leaves: &[u64]) -> (u64, Vec<Vec<Fe>>) {
    let mut paths = Vec::new();
    for i in 0..leaves.len() {
        let others: Vec<u64> = (0..3).filter(|j| *j != i).map(|j| *leaves.get(j).unwrap_or(&0)).collect();
        let mut path = vec![fe(0); MERKLE_PATH_LEN];
        path[0] = fe(others[0]);
        path[1] = fe(others[1]);
        paths.push(path);
    }
    let path0: Vec<u64> = paths[0].iter().map(small).collect();
    (merkle_root(0, leaves[0], &path0), paths)
}

struct Tx {
    witness: DPCUtxoWitness,
    public: DPCUtxoPublicInput,
}

/// A transaction with a fee input, a real non-fee input of asset 3, a dummy
/// input, a fee change, a non-fee output of asset 3 and a dummy output,
/// consistent under the stand-in gadgets.
fn transaction(fee_in: u64, fee_change: u64, fee: u64) -> Tx {
    let pgk = key();
    let ro_fee = record(address(&pgk, 11), NATIVE, fee_in, 0, 1, false);
    let ro_src = record(address(&pgk, 12), 3, 20, 0, 2, false);
    let ro_dummy = record(fe(0), 0, 0, 0, 3, true);
    let (root, paths) = accumulate(&[commitment_of(&ro_fee), commitment_of(&ro_src)]);
    let note = |ro: &RecordOpening, uid: u64, path: Vec<Fe>, rho: u64, rand: (u64, u64)| NoteInput {
        ro: ro.clone(),
        acc_member_witness: AccMemberWitness { uid: fe(uid), merkle_path: path, root: fe(root) },
        proof_gen_key: pgk,
        authorization_randomizer: Point { x: fe(rand.0), y: fe(rand.1) },
        diversifier_randomizer: fe(rho),
    };
    let inputs = vec![
        note(&ro_fee, 0, paths[0].clone(), 11, (5, 6)),
        note(&ro_src, 1, paths[1].clone(), 12, (7, 8)),
        note(&ro_dummy, 2, vec![fe(0); MERKLE_PATH_LEN], 0, (9, 4)),
    ];
    let nf0 = nullifier_of(&ro_fee, &pgk.nk);
    let outputs = vec![
        record(address(&pgk, 11), NATIVE, fee_change, nonce_for(0, nf0), 4, false),
        record(address(&pgk, 13), 3, 20, nonce_for(1, nf0), 5, false),
        record(fe(0), 0, 0, 0, 6, true),
    ];
    let witness = DPCUtxoWitness {
        entire_inputs: inputs,
        entire_output_records_openings: outputs,
        blinding_local_data: fe(41),
        blinding_predicates: fe(42),
    };
    let input_nullifiers: Vec<Fe> =
        witness.entire_inputs.iter().map(|i| fe(nullifier_of(&i.ro, &i.proof_gen_key.nk))).collect();
    let output_commitments: Vec<Fe> =
        witness.entire_output_records_openings.iter().map(|ro| fe(commitment_of(ro))).collect();
    let mut agg = (0, 1);
    for i in &witness.entire_inputs {
        let k = ecc_add(
            (small(&i.proof_gen_key.ak.x), small(&i.proof_gen_key.ak.y)),
            (small(&i.authorization_randomizer.x), small(&i.authorization_randomizer.y)),
        );
        agg = ecc_add(agg, k);
    }
    let memo = vec![fe(0); MEMO_LEN];
    let mut local = vec![small(&witness.blinding_local_data)];
    local.extend(witness.entire_inputs.iter().map(|i| commitment_of(&i.ro)));
    local.extend(output_commitments.iter().map(small));
    local.extend(memo.iter().map(small));
    let mut pids = vec![small(&witness.blinding_predicates)];
    pids.extend(witness.entire_inputs.iter().skip(1).map(|i| small(&i.ro.pid_death)));
    pids.extend(witness.entire_output_records_openings.iter().skip(1).map(|ro| small(&ro.pid_birth)));
    let public = DPCUtxoPublicInput {
        input_nullifiers,
        output_commitments,
        commitment_predicates: fe(gadget(GadgetKind::Commit, &pids)[0]),
        commitment_local_data: fe(gadget(GadgetKind::Commit, &local)[0]),
        fee,
        root: fe(root),
        memo,
        authorization_verification_key: Point { x: fe(agg.0), y: fe(agg.1) },
    };
    Tx { witness, public }
}

/// Builds the circuit of `tx`, checks its public input vector against
/// `to_scalars`, and evaluates it.
fn satisfied(tx: &Tx) -> bool {
    let c = DPCUtxoCircuit::build(&tx.witness, &tx.public).unwrap();
    let publics: Vec<Fe> = c
        .circuit()
        .public_input_wires()
        .iter()
        .map(|w| match c.circuit().wire(*w) {
            Wire::Public(v) => v,
            _ => panic!("public input wire is not public"),
        })
        .collect();
    assert_eq!(publics, tx.public.to_scalars());
    satisfiable(c.circuit())
}

#[test]
fn happy_path() {
    assert!(satisfied(&transaction(15, 10, 5)));
}

#[test]
fn bad_fee() {
    assert!(!satisfied(&transaction(15, 10, 6)));
}

#[test]
fn zeroed_auth_vk() {
    let mut tx = transaction(15, 10, 5);
    tx.public.authorization_verification_key = Point::neutral();
    assert!(!satisfied(&tx));
}

#[test]
fn zeroed_local_data_commitment() {
    let mut tx = transaction(15, 10, 5);
    tx.public.commitment_local_data = Fe::zero();
    assert!(!satisfied(&tx));
}

#[test]
fn zeroed_predicates_commitment() {
    let mut tx = transaction(15, 10, 5);
    tx.public.commitment_predicates = Fe::zero();
    assert!(!satisfied(&tx));
}

#[test]
fn fee_input_dummy() {
    let mut tx = transaction(15, 10, 5);
    tx.witness.entire_inputs[0].ro.payload.is_dummy = true;
    assert!(!satisfied(&tx));
}

#[test]
fn test_circuit_build() {
    let fee = 10;
    let tx = transaction(15, 5, fee);
    assert!(satisfied(&tx));
    // 1. larger fee
    assert!(!satisfied(&transaction(15, 5, 11)));
    // 2. bad authorization verification key
    let mut bad = transaction(15, 5, fee);
    bad.public.authorization_verification_key = Point::neutral();
    assert!(!satisfied(&bad));
    // 3. bad commitment local data
    let mut bad = transaction(15, 5, fee);
    bad.public.commitment_local_data = Fe::zero();
    assert!(!satisfied(&bad));
    // 4. bad commitment predicates
    let mut bad = transaction(15, 5, fee);
    bad.public.commitment_predicates = Fe::zero();
    assert!(!satisfied(&bad));
}

fn spend_case(ro: &RecordOpening, bad_root: bool, is_fee: bool) -> bool {
    let pgk = key();
    let (root, paths) = accumulate(&[commitment_of(ro)]);
    let input = NoteInput {
        ro: ro.clone(),
        acc_member_witness: AccMemberWitness { uid: fe(0), merkle_path: paths[0].clone(), root: fe(root) },
        proof_gen_key: pgk,
        authorization_randomizer: Point::neutral(),
        diversifier_randomizer: fe(11),
    };
    let mut c = ConstraintSystem::new();
    let root_var = c.create_public_variable(fe(if bad_root { root ^ 0x55 } else { root }));
    let nullifier_var = c.create_public_variable(fe(nullifier_of(ro, &pgk.nk)));
    let input_var = NoteInputVar::new(&mut c, &input);
    let native_var = c.create_constant_variable(native_asset_code_fe());
    let (rc_var, _) = DPCUtxoCircuit::prove_spend(&mut c, &input_var, nullifier_var, root_var, is_fee, native_var);
    match evaluate(&c) {
        Some(vals) => {
            assert_eq!(vals[rc_var], commitment_of(ro));
            true
        }
        None => false,
    }
}

#[test]
fn test_spend() {
    let pgk = key();
    let addr = address(&pgk, 11);
    // a normal record
    let mut ro = record(addr, 3, 0, 7, 1, false);
    assert!(spend_case(&ro, false, false));
    // not a native asset record, so it cannot pay the fee
    assert!(!spend_case(&ro, false, true));
    // a bad root
    assert!(!spend_case(&ro, true, false));
    // a bad root, but the record is a dummy
    ro.payload.is_dummy = true;
    assert!(spend_case(&ro, true, false));
    // a fee record
    let ro = record(addr, NATIVE, 10, 0, 2, false);
    assert!(spend_case(&ro, false, true));
    // a dummy fee record fails
    let mut ro = record(addr, NATIVE, 10, 0, 2, false);
    ro.payload.is_dummy = true;
    assert!(!spend_case(&ro, false, true));
    // a non-fee dummy record passes whatever it holds
    let ro = record(fe(0), 0, 0, 0, 3, true);
    assert!(spend_case(&ro, false, false));
}

fn output_case(ro: &RecordOpening, position: usize, first_nullifier: u64, is_fee: bool) -> bool {
    let mut c = ConstraintSystem::new();
    let native_var = c.create_constant_variable(native_asset_code_fe());
    let rc_var = c.create_public_variable(fe(commitment_of(ro)));
    let ro_var = RecordOpeningVar::new(&mut c, ro);
    let nf_var = c.create_public_variable(fe(first_nullifier));
    DPCUtxoCircuit::prove_output(&mut c, &ro_var, rc_var, is_fee, native_var, position, nf_var);
    satisfiable(&c)
}

#[test]
fn test_prove_output() {
    let pgk = key();
    let addr = address(&pgk, 11);
    let first_nullifier = 4242;
    let position = 1;
    let ro = record(addr, 3, 0, nonce_for(position as u64, first_nullifier), 1, false);
    // passes
    assert!(output_case(&ro, position, first_nullifier, false));
    // fails as a fee change
    assert!(!output_case(&ro, position, first_nullifier, true));
    // fails at another position
    assert!(!output_case(&ro, position - 1, first_nullifier, false));
    assert!(!output_case(&ro, position + 1, first_nullifier, false));
    // fails under another first nullifier
    assert!(!output_case(&ro, 1, 999, true));
    assert!(!output_case(&ro, 1, 999, false));
    // a native asset output at position 0
    let position = 0;
    let mut ro = record(addr, NATIVE, 10, nonce_for(0, first_nullifier), 2, false);
    assert!(output_case(&ro, position, first_nullifier, false));
    assert!(output_case(&ro, position, first_nullifier, true));
    // not the native asset: fails as a fee change
    ro.payload.data[0] = fe(17);
    assert!(!output_case(&ro, position, first_nullifier, true));
    // a dummy output passes
    let ro = record(fe(0), 0, 0, 0, 3, true);
    assert!(output_case(&ro, position, first_nullifier, false));
}

#[test]
fn public_input_layout() {
    let tx = transaction(15, 10, 5);
    let s = tx.public.to_scalars();
    assert_eq!(s.len(), 2 * 3 + 6 + MEMO_LEN);
    assert_eq!(s[0], tx.public.input_nullifiers[0]);
    assert_eq!(s[3], tx.public.output_commitments[0]);
    assert_eq!(s[6], tx.public.commitment_predicates);
    assert_eq!(s[7], tx.public.commitment_local_data);
    assert_eq!(s[8], tx.public.root);
    assert_eq!(s[9], fe(5));
    assert_eq!(s[12], tx.public.authorization_verification_key.x);
    assert_eq!(s[13], tx.public.authorization_verification_key.y);
}

#[test]
fn gate_count_and_shape() {
    let tx = transaction(15, 10, 5);
    let c = DPCUtxoCircuit::build(&tx.witness, &tx.public).unwrap();
    assert_eq!(c.circuit().num_gates(), 21 * 3 + 12);
    let pre = DPCUtxoCircuit::build_for_preprocessing(2).unwrap();
    assert_eq!(pre.circuit().num_gates(), c.circuit().num_gates());
    assert_eq!(pre.circuit().public_input_wires().len(), c.circuit().public_input_wires().len());
    let pre1 = DPCUtxoCircuit::build_for_preprocessing(0).unwrap();
    assert_eq!(pre1.circuit().num_gates(), 21 + 12);
    assert_eq!(pre1.circuit().public_input_wires().len(), 2 + 6 + MEMO_LEN);
}

#[test]
fn preprocessing_rejects_overflowing_size() {
    let r = DPCUtxoCircuit::build_for_preprocessing(usize::MAX);
    assert!(matches!(r, Err(dpc_utxo::errors::DPCApiError::InternalError(_))));
}

#[test]
fn wrong_shapes_are_internal_errors() {
    let mut tx = transaction(15, 10, 5);
    tx.public.memo.push(fe(0));
    assert!(matches!(
        DPCUtxoCircuit::build(&tx.witness, &tx.public),
        Err(dpc_utxo::errors::DPCApiError::InternalError(_))
    ));
    let mut tx = transaction(15, 10, 5);
    tx.witness.entire_output_records_openings.pop();
    assert!(DPCUtxoCircuit::build(&tx.witness, &tx.public).is_err());
    let mut tx = transaction(15, 10, 5);
    tx.witness.entire_inputs[1].acc_member_witness.merkle_path.pop();
    assert!(DPCUtxoCircuit::build(&tx.witness, &tx.public).is_err());
    let empty = DPCUtxoWitness {
        entire_inputs: vec![],
        entire_output_records_openings: vec![],
        blinding_local_data: fe(0),
        blinding_predicates: fe(0),
    };
    assert!(DPCUtxoCircuit::build(&empty, &DPCUtxoPublicInput::zeroed(0)).is_err());
}

#[test]
fn fee_change_of_other_asset_is_unsatisfiable() {
    let mut tx = transaction(15, 10, 5);
    tx.witness.entire_output_records_openings[0].payload.data[0] = fe(3);
    assert!(!satisfied(&tx));
}

#[test]
fn bad_root_binds_real_inputs_only() {
    let mut tx = transaction(15, 10, 5);
    tx.public.root = fe(123456);
    assert!(!satisfied(&tx));
}

#[test]
fn bad_nullifier_is_unsatisfiable() {
    let mut tx = transaction(15, 10, 5);
    tx.public.input_nullifiers[1] = fe(987);
    assert!(!satisfied(&tx));
    // a dummy input's nullifier is not checked
    let mut tx = transaction(15, 10, 5);
    tx.public.input_nullifiers[2] = fe(987);
    assert!(satisfied(&tx));
}

#[test]
fn output_nonce_binds_position() {
    let mut tx = transaction(15, 10, 5);
    let nf0 = small(&tx.public.input_nullifiers[0]);
    tx.witness.entire_output_records_openings[1].nonce = fe(nonce_for(2, nf0));
    assert!(!satisfied(&tx));
}

#[test]
fn field_element_from_limbs() {
    let big = Fe::from_limbs([5, 6, 7, 8]);
    assert_eq!(big.limbs(), [5, 6, 7, 8]);
    assert_ne!(big, Fe::from_u64(5));
}

#[test]
fn field_element_limbs() {
    assert_eq!(Fe::from_u64(7).limbs(), [7, 0, 0, 0]);
    assert_eq!(Fe::one().limbs(), [1, 0, 0, 0]);
    assert_eq!(Point::neutral(), Point { x: Fe::zero(), y: Fe::one() });
    assert_eq!(native_asset_code_fe(), Fe::from_u64(NATIVE));
}

#[test]
fn serialization_error_converts() {
    let e = dpc_utxo::errors::DPCApiError::from(ark_serialize::SerializationError::InvalidData);
    assert!(matches!(
        e,
        dpc_utxo::errors::DPCApiError::FailedSerialization(ark_serialize::SerializationError::InvalidData)
    ));
}

fn gate_list(c: &ConstraintSystem) -> Vec<String> {
    (0..c.num_gates()).map(|k| format!("{:?}", c.gate(k))).collect()
}

#[test]
fn preprocessing_lays_out_the_gates_of_a_real_build() {
    let tx = transaction(15, 10, 5);
    let real = DPCUtxoCircuit::build(&tx.witness, &tx.public).unwrap();
    let pre = DPCUtxoCircuit::build_for_preprocessing(2).unwrap();
    let again = DPCUtxoCircuit::build_for_preprocessing(2).unwrap();
    assert_eq!(gate_list(real.circuit()), gate_list(pre.circuit()));
    assert_eq!(gate_list(pre.circuit()), gate_list(again.circuit()));
    let publics: Vec<Fe> = pre
        .circuit()
        .public_input_wires()
        .iter()
        .map(|w| match pre.circuit().wire(*w) {
            Wire::Public(v) => v,
            _ => panic!("public input wire is not public"),
        })
        .collect();
    let mut expected = vec![Fe::zero(); publics.len()];
    *expected.last_mut().unwrap() = Fe::one();
    assert_eq!(publics, expected);
}

#[test]
fn preprocessing_error_names_preprocessing() {
    match DPCUtxoCircuit::build_for_preprocessing(usize::MAX) {
        Err(dpc_utxo::errors::DPCApiError::InternalError(m)) => assert!(m.starts_with("preprocessing: ")),
        _ => panic!("expected an internal error"),
    }
}
