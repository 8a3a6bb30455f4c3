//! Records, spent notes, and the witness and public input of a transaction.
use crate::field::{Fe, Point, fe_values};
use vstd::prelude::*;

verus! {

/// Number of elements of a record's application payload.
pub const PAYLOAD_DATA_LEN: usize = 8;

/// Depth of the record accumulator.
pub const TREE_DEPTH: usize = 26;

/// Number of sibling values on an accumulator path: the tree is ternary, so
/// each level has two siblings.
pub const MERKLE_PATH_LEN: usize = 2 * TREE_DEPTH;

/// Number of field elements in a transaction memo.
pub const MEMO_LEN: usize = 2;

/// The asset type of the native asset, in which fees are paid.
pub open spec fn native_asset_code() -> int {
    1
}

/// The asset type of the native asset, in which fees are paid.
pub fn native_asset_code_fe() -> (r: Fe)
    ensures
        r.val() == native_asset_code(),
{
    Fe::from_u64(1)
}

/// 1 for `true`, 0 for `false`.
pub open spec fn bool_value(b: bool) -> int {
    if b {
        1
    } else {
        0
    }
}

/// A record's application payload: `data[0]` is the asset type and
/// `data[1]` the amount.
#[derive(Clone, Debug)]
pub struct Payload {
    pub data: Vec<Fe>,
    pub is_dummy: bool,
}

/// The cleartext of a record.
#[derive(Clone, Debug)]
pub struct RecordOpening {
    pub addr: Fe,
    pub payload: Payload,
    pub pid_birth: Fe,
    pub pid_death: Fe,
    pub nonce: Fe,
    pub blinding: Fe,
}

impl RecordOpening {
    pub open spec fn well_shaped(&self) -> bool {
        self.payload.data@.len() == PAYLOAD_DATA_LEN
    }

    pub open spec fn is_dummy(&self) -> bool {
        self.payload.is_dummy
    }

    pub open spec fn asset_type(&self) -> int {
        self.payload.data@[0].val()
    }

    pub open spec fn amount(&self) -> int {
        self.payload.data@[1].val()
    }

    /// The opening as the commitment reads it: `addr`, the payload data,
    /// `is_dummy`, `pid_birth`, `pid_death`, `nonce`, `blinding`.
    pub open spec fn field_values(&self) -> Seq<int> {
        seq![self.addr.val()] + fe_values(self.payload.data@) + seq![
            bool_value(self.payload.is_dummy),
            self.pid_birth.val(),
            self.pid_death.val(),
            self.nonce.val(),
            self.blinding.val(),
        ]
    }
}

/// The key that lets its holder spend records: `ak` authorizes, `nk`
/// derives nullifiers.
#[derive(Clone, Copy, Debug)]
pub struct ProofGenerationKey {
    pub ak: Point,
    pub nk: Fe,
}

/// Proof that a record commitment sits at leaf `uid` of the accumulator.
#[derive(Clone, Debug)]
pub struct AccMemberWitness {
    pub uid: Fe,
    pub merkle_path: Vec<Fe>,
    pub root: Fe,
}

/// A record being spent, with what its owner needs to spend it.
#[derive(Clone, Debug)]
pub struct NoteInput {
    pub ro: RecordOpening,
    pub acc_member_witness: AccMemberWitness,
    pub proof_gen_key: ProofGenerationKey,
    pub authorization_randomizer: Point,
    pub diversifier_randomizer: Fe,
}

impl NoteInput {
    pub open spec fn well_shaped(&self) -> bool {
        self.ro.well_shaped() && self.acc_member_witness.merkle_path@.len() == MERKLE_PATH_LEN
    }
}

/// The private part of a transaction. Index 0 of the inputs is the fee
/// input; index 0 of the outputs is the fee change.
#[derive(Clone, Debug)]
pub struct DPCUtxoWitness {
    pub entire_inputs: Vec<NoteInput>,
    pub entire_output_records_openings: Vec<RecordOpening>,
    pub blinding_local_data: Fe,
    pub blinding_predicates: Fe,
}

impl DPCUtxoWitness {
    /// At least one input, as many outputs as inputs, every record of the
    /// system's fixed sizes.
    pub open spec fn well_shaped(&self) -> bool {
        &&& self.entire_inputs@.len() >= 1
        &&& self.entire_output_records_openings@.len() == self.entire_inputs@.len()
        &&& forall|i: int| 0 <= i < self.entire_inputs@.len()
            ==> #[trigger] self.entire_inputs@[i].well_shaped()
        &&& forall|j: int|
            0 <= j < self.entire_output_records_openings@.len()
                ==> #[trigger] self.entire_output_records_openings@[j].well_shaped()
    }
}

/// A list of `len` zeros.
fn zeros(len: usize) -> (r: Vec<Fe>)
    ensures
        r@.len() == len,
        forall|i: int| 0 <= i < len ==> (#[trigger] r@[i]).val() == 0,
{
    let mut r: Vec<Fe> = Vec::new();
    let mut i: usize = 0;
    while i < len
        invariant
            i <= len,
            r@.len() == i,
            forall|t: int| 0 <= t < i ==> (#[trigger] r@[t]).val() == 0,
        decreases len - i,
    {
        r.push(Fe::zero());
        i = i + 1;
    }
    r
}

impl RecordOpening {
    /// A record with every field zero; a dummy unless `native` asks for a
    /// real record of the native asset.
    pub fn zeroed(native: bool) -> (r: RecordOpening)
        ensures
            r.well_shaped(),
            r.is_dummy() == !native,
            native ==> r.asset_type() == native_asset_code(),
    {
        let mut data = zeros(PAYLOAD_DATA_LEN);
        if native {
            data.set(0, native_asset_code_fe());
        }
        RecordOpening {
            addr: Fe::zero(),
            payload: Payload { data, is_dummy: !native },
            pid_birth: Fe::zero(),
            pid_death: Fe::zero(),
            nonce: Fe::zero(),
            blinding: Fe::zero(),
        }
    }
}

impl NoteInput {
    /// A note of `RecordOpening::zeroed(native)` with every other field zero
    /// or neutral.
    pub fn zeroed(native: bool) -> (r: NoteInput)
        ensures
            r.well_shaped(),
            r.ro.is_dummy() == !native,
            native ==> r.ro.asset_type() == native_asset_code(),
    {
        NoteInput {
            ro: RecordOpening::zeroed(native),
            acc_member_witness: AccMemberWitness {
                uid: Fe::zero(),
                merkle_path: zeros(MERKLE_PATH_LEN),
                root: Fe::zero(),
            },
            proof_gen_key: ProofGenerationKey { ak: Point::neutral(), nk: Fe::zero() },
            authorization_randomizer: Point::neutral(),
            diversifier_randomizer: Fe::zero(),
        }
    }
}

impl DPCUtxoWitness {
    /// A witness for `non_fee_input_size` dummy records on each side, after a
    /// fee input and a fee change of the native asset.
    pub fn dummy(non_fee_input_size: usize) -> (r: DPCUtxoWitness)
        requires
            non_fee_input_size < usize::MAX,
        ensures
            r.well_shaped(),
            r.entire_inputs@.len() == non_fee_input_size + 1,
            !r.entire_inputs@[0].ro.is_dummy(),
            !r.entire_output_records_openings@[0].is_dummy(),
            forall|i: int| 1 <= i <= non_fee_input_size ==> (#[trigger] r.entire_inputs@[i]).ro.is_dummy(),
            forall|i: int| 1 <= i <= non_fee_input_size
                ==> (#[trigger] r.entire_output_records_openings@[i]).is_dummy(),
    {
        let n = non_fee_input_size + 1;
        let mut entire_inputs: Vec<NoteInput> = Vec::new();
        let mut entire_output_records_openings: Vec<RecordOpening> = Vec::new();
        let mut i: usize = 0;
        while i < n
            invariant
                n == non_fee_input_size + 1,
                i <= n,
                entire_inputs@.len() == i,
                entire_output_records_openings@.len() == i,
                forall|t: int| 0 <= t < i ==> (#[trigger] entire_inputs@[t]).well_shaped(),
                forall|t: int| 0 <= t < i ==> (#[trigger] entire_output_records_openings@[t]).well_shaped(),
                forall|t: int| 0 <= t < i ==> (#[trigger] entire_inputs@[t]).ro.is_dummy() == (t != 0),
                forall|t: int| 0 <= t < i
                    ==> (#[trigger] entire_output_records_openings@[t]).is_dummy() == (t != 0),
            decreases n - i,
        {
            entire_inputs.push(NoteInput::zeroed(i == 0));
            entire_output_records_openings.push(RecordOpening::zeroed(i == 0));
            i = i + 1;
        }
        DPCUtxoWitness {
            entire_inputs,
            entire_output_records_openings,
            blinding_local_data: Fe::zero(),
            blinding_predicates: Fe::zero(),
        }
    }
}

/// The public input vector of `DPCUtxoPublicInput::zeroed(n)`: every value
/// zero (nullifiers, output commitments, both commitments, root, fee, memo)
/// but the last, the `y` coordinate 1 of the neutral authorization key.
pub open spec fn zeroed_scalars(n: int) -> Seq<int> {
    let len = 2 * n + 6 + MEMO_LEN;
    Seq::new(len as nat, |i: int| if i == len - 1 { 1 } else { 0 })
}

/// The public part of a transaction.
#[derive(Clone, Debug)]
pub struct DPCUtxoPublicInput {
    pub input_nullifiers: Vec<Fe>,
    pub output_commitments: Vec<Fe>,
    pub commitment_predicates: Fe,
    pub commitment_local_data: Fe,
    pub fee: u64,
    pub root: Fe,
    pub memo: Vec<Fe>,
    pub authorization_verification_key: Point,
}

impl DPCUtxoPublicInput {
    /// One nullifier and one output commitment per record, and a memo of
    /// the fixed length.
    pub open spec fn well_shaped(&self, n: int) -> bool {
        &&& self.input_nullifiers@.len() == n
        &&& self.output_commitments@.len() == n
        &&& self.memo@.len() == MEMO_LEN
    }

    /// The public input vector: nullifiers, output commitments, predicates
    /// commitment, local-data commitment, root, fee, memo, and the two
    /// coordinates of the authorization verification key.
    pub open spec fn scalars(&self) -> Seq<int> {
        fe_values(self.input_nullifiers@) + fe_values(self.output_commitments@) + seq![
            self.commitment_predicates.val(),
            self.commitment_local_data.val(),
            self.root.val(),
            self.fee as int,
        ] + fe_values(self.memo@) + seq![
            self.authorization_verification_key.x.val(),
            self.authorization_verification_key.y.val(),
        ]
    }

    /// A public input for `n` records on each side with every value zero,
    /// zero fee, a zero memo, and the neutral authorization key.
    pub fn zeroed(n: usize) -> (r: DPCUtxoPublicInput)
        ensures
            r.well_shaped(n as int),
            r.fee == 0,
            r.scalars() == zeroed_scalars(n as int),
    {
        let r = DPCUtxoPublicInput {
            input_nullifiers: zeros(n),
            output_commitments: zeros(n),
            commitment_predicates: Fe::zero(),
            commitment_local_data: Fe::zero(),
            fee: 0,
            root: Fe::zero(),
            memo: zeros(MEMO_LEN),
            authorization_verification_key: Point::neutral(),
        };
        assert(r.scalars() =~= zeroed_scalars(n as int));
        r
    }

    /// The public input vector, in the order the circuit lays it out.
    pub fn to_scalars(&self) -> (r: Vec<Fe>)
        ensures
            fe_values(r@) == self.scalars(),
    {
        let mut r: Vec<Fe> = Vec::new();
        append_all(&mut r, &self.input_nullifiers);
        append_all(&mut r, &self.output_commitments);
        r.push(self.commitment_predicates);
        r.push(self.commitment_local_data);
        r.push(self.root);
        r.push(Fe::from_u64(self.fee));
        append_all(&mut r, &self.memo);
        r.push(self.authorization_verification_key.x);
        r.push(self.authorization_verification_key.y);
        assert(fe_values(r@) =~= self.scalars());
        r
    }
}

fn append_all(r: &mut Vec<Fe>, v: &Vec<Fe>)
    ensures
        final(r)@ == old(r)@ + v@,
{
    let mut i: usize = 0;
    while i < v.len()
        invariant
            i <= v@.len(),
            r@ == old(r)@ + v@.subrange(0, i as int),
        decreases v@.len() - i,
    {
        r.push(v[i]);
        i = i + 1;
        assert(v@.subrange(0, i as int) == v@.subrange(0, i - 1).push(v@[i - 1]));
    }
    assert(v@.subrange(0, v@.len() as int) == v@);
}

} // verus!
