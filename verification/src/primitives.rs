//! Data model of the provisioner: relay-chain scheduling state, signed
//! availability bitfields, candidate receipts and dispute identifiers,
//! together with the spec-level views the contracts are stated over.
use vstd::prelude::*;

verus! {

/// Hash of a relay-chain block, the key of all per-parent state.
/// The chain hash is opaque to the provisioner: nothing but equality of
/// hashes is ever read, so it is carried as an opaque identifier.
#[derive(PartialEq, Eq, Structural, Clone, Copy, Debug, Hash)]
pub struct RelayHash {
    pub value: u64,
}

/// Content-derived hash of a parachain candidate; opaque, compared only
/// for equality.
#[derive(PartialEq, Eq, Structural, Clone, Copy, Debug, Hash)]
pub struct CandidateHash {
    pub value: u64,
}

/// Hash of a persisted-validation-data blob, as computed by the runtime.
#[derive(PartialEq, Eq, Structural, Clone, Copy, Debug, Hash)]
pub struct PvdHash {
    pub value: u64,
}

/// A validator's signature over a statement or bitfield. Signature
/// verification is out of scope; the value is carried through opaquely.
#[derive(PartialEq, Eq, Structural, Clone, Copy, Debug, Hash)]
pub struct ValidatorSignature {
    pub value: u64,
}

/// Index of a validator in the active set.
pub type ValidatorIndex = u32;

/// Index of a session.
pub type SessionIndex = u32;

/// A relay-chain block number.
pub type BlockNumber = u32;

/// Identifier of a parachain.
pub type ParaId = u32;

/// One validator's signed availability bitfield: one bit per scheduling
/// core, asserting availability of the candidate occupying that core.
#[derive(Debug)]
pub struct SignedAvailabilityBitfield {
    pub validator_index: ValidatorIndex,
    pub payload: Vec<bool>,
    pub signature: ValidatorSignature,
}

/// Mathematical view of a signed availability bitfield.
pub struct BitfieldView {
    pub validator_index: ValidatorIndex,
    pub payload: Seq<bool>,
    pub signature: ValidatorSignature,
}

impl View for SignedAvailabilityBitfield {
    type V = BitfieldView;

    open spec fn view(&self) -> BitfieldView {
        BitfieldView {
            validator_index: self.validator_index,
            payload: self.payload@,
            signature: self.signature,
        }
    }
}

impl Clone for SignedAvailabilityBitfield {
    fn clone(&self) -> (res: Self)
        ensures
            res@ == self@,
    {
        SignedAvailabilityBitfield {
            validator_index: self.validator_index,
            payload: self.payload.clone(),
            signature: self.signature,
        }
    }
}

/// The views of a sequence of signed bitfields.
pub open spec fn bf_views(s: Seq<SignedAvailabilityBitfield>) -> Seq<BitfieldView> {
    s.map_values(|b: SignedAvailabilityBitfield| b@)
}

/// A core scheduled for a parachain.
#[derive(PartialEq, Eq, Structural, Clone, Copy, Debug)]
pub struct ScheduledCore {
    pub para_id: ParaId,
}

/// A core occupied by a parachain candidate that is awaiting availability.
#[derive(Debug)]
pub struct OccupiedCore {
    pub para_id: ParaId,
    /// One bit per validator: whether that validator has made its chunk
    /// of the occupying candidate available.
    pub availability: Vec<bool>,
    /// What is scheduled next on this core if the candidate becomes available.
    pub next_up_on_available: Option<ScheduledCore>,
    /// What is scheduled next on this core if the candidate times out.
    pub next_up_on_time_out: Option<ScheduledCore>,
    /// The block number at which the occupying candidate times out.
    pub time_out_at: BlockNumber,
}

/// The state of one scheduling core at the relay parent.
#[derive(Debug)]
pub enum CoreState {
    Free,
    Scheduled(ScheduledCore),
    Occupied(OccupiedCore),
}

/// Mathematical view of a core's state.
pub enum CoreStateView {
    Free,
    Scheduled(ScheduledCore),
    Occupied {
        para_id: ParaId,
        availability: Seq<bool>,
        next_up_on_available: Option<ScheduledCore>,
        next_up_on_time_out: Option<ScheduledCore>,
        time_out_at: BlockNumber,
    },
}

impl View for CoreState {
    type V = CoreStateView;

    open spec fn view(&self) -> CoreStateView {
        match self {
            CoreState::Free => CoreStateView::Free,
            CoreState::Scheduled(s) => CoreStateView::Scheduled(*s),
            CoreState::Occupied(o) => CoreStateView::Occupied {
                para_id: o.para_id,
                availability: o.availability@,
                next_up_on_available: o.next_up_on_available,
                next_up_on_time_out: o.next_up_on_time_out,
                time_out_at: o.time_out_at,
            },
        }
    }
}

/// The views of a sequence of core states.
pub open spec fn core_views(s: Seq<CoreState>) -> Seq<CoreStateView> {
    s.map_values(|c: CoreState| c@)
}

/// A candidate receipt: the descriptor fields the provisioner reads, plus
/// the receipt's content-derived hash.
#[derive(PartialEq, Eq, Structural, Clone, Copy, Debug)]
pub struct CandidateReceipt {
    pub para_id: ParaId,
    pub persisted_validation_data_hash: PvdHash,
    pub hash: CandidateHash,
}

/// A backed candidate as returned by the backing subsystem: its receipt
/// fields and whether its commitments carry a new validation code.
#[derive(PartialEq, Eq, Structural, Clone, Copy, Debug)]
pub struct BackedCandidate {
    pub para_id: ParaId,
    pub hash: CandidateHash,
    /// Hash of the new validation code committed to, if any.
    pub new_validation_code: Option<u64>,
}

/// Identifier of one dispute: the session it was raised in and the
/// disputed candidate's hash.
#[derive(PartialEq, Eq, Structural, Clone, Copy, Debug, Hash)]
pub struct DisputeKey {
    pub session: SessionIndex,
    pub candidate_hash: CandidateHash,
}

/// The kind of a dispute statement (explicit, backing, approval, ...);
/// opaque to the provisioner, carried through into the statement sets.
#[derive(PartialEq, Eq, Structural, Clone, Copy, Debug)]
pub struct StatementKind {
    pub value: u64,
}

/// A dispute statement: a vote for or against the validity of a candidate.
#[derive(PartialEq, Eq, Structural, Clone, Copy, Debug)]
pub enum DisputeStatement {
    Valid(StatementKind),
    Invalid(StatementKind),
}

/// One vote of one validator on a disputed candidate.
#[derive(PartialEq, Eq, Structural, Clone, Copy, Debug)]
pub struct Vote {
    pub validator_index: ValidatorIndex,
    pub kind: StatementKind,
    pub signature: ValidatorSignature,
}

/// All votes known for one disputed candidate.
#[derive(Debug)]
pub struct CandidateVotes {
    pub valid: Vec<Vote>,
    pub invalid: Vec<Vote>,
}

/// Mathematical view of a candidate's votes.
pub struct CandidateVotesView {
    pub valid: Seq<Vote>,
    pub invalid: Seq<Vote>,
}

impl View for CandidateVotes {
    type V = CandidateVotesView;

    open spec fn view(&self) -> CandidateVotesView {
        CandidateVotesView { valid: self.valid@, invalid: self.invalid@ }
    }
}

/// One dispute's votes as handed back by the dispute coordinator.
#[derive(Debug)]
pub struct VoteRecord {
    pub session: SessionIndex,
    pub candidate_hash: CandidateHash,
    pub votes: CandidateVotes,
}

/// Mathematical view of a vote record.
pub struct VoteRecordView {
    pub session: SessionIndex,
    pub candidate_hash: CandidateHash,
    pub votes: CandidateVotesView,
}

impl View for VoteRecord {
    type V = VoteRecordView;

    open spec fn view(&self) -> VoteRecordView {
        VoteRecordView {
            session: self.session,
            candidate_hash: self.candidate_hash,
            votes: self.votes@,
        }
    }
}

/// One signed dispute statement as it appears in a statement set.
#[derive(PartialEq, Eq, Structural, Clone, Copy, Debug)]
pub struct SignedStatement {
    pub statement: DisputeStatement,
    pub validator_index: ValidatorIndex,
    pub signature: ValidatorSignature,
}

/// All statements for one disputed candidate, shaped for the runtime.
#[derive(Debug)]
pub struct DisputeStatementSet {
    pub candidate_hash: CandidateHash,
    pub session: SessionIndex,
    pub statements: Vec<SignedStatement>,
}

/// Mathematical view of a dispute statement set.
pub struct StatementSetView {
    pub candidate_hash: CandidateHash,
    pub session: SessionIndex,
    pub statements: Seq<SignedStatement>,
}

impl View for DisputeStatementSet {
    type V = StatementSetView;

    open spec fn view(&self) -> StatementSetView {
        StatementSetView {
            candidate_hash: self.candidate_hash,
            session: self.session,
            statements: self.statements@,
        }
    }
}

/// Whether a leaf is the fresh head of its chain or a stale head that was
/// reverted to.
#[derive(PartialEq, Eq, Structural, Clone, Copy, Debug)]
pub enum LeafStatus {
    Fresh,
    Stale,
}

/// Descriptor of an activated leaf: the relay parent inherent data can be
/// requested for.
#[derive(PartialEq, Eq, Structural, Clone, Copy, Debug)]
pub struct ActivatedLeaf {
    pub hash: RelayHash,
    pub number: BlockNumber,
    pub status: LeafStatus,
}

/// The inherent data handed to a block author: selected bitfields, backed
/// candidates and dispute statement sets.
#[derive(Debug)]
pub struct ProvisionerInherentData {
    pub bitfields: Vec<SignedAvailabilityBitfield>,
    pub backed_candidates: Vec<BackedCandidate>,
    pub disputes: Vec<DisputeStatementSet>,
}

/// Mathematical view of one inherent-data value.
pub struct InherentDataView {
    pub bitfields: Seq<BitfieldView>,
    pub backed_candidates: Seq<BackedCandidate>,
    pub disputes: Seq<StatementSetView>,
}

impl View for ProvisionerInherentData {
    type V = InherentDataView;

    open spec fn view(&self) -> InherentDataView {
        InherentDataView {
            bitfields: bf_views(self.bitfields@),
            backed_candidates: self.backed_candidates@,
            disputes: self.disputes@.map_values(|d: DisputeStatementSet| d@),
        }
    }
}

} // verus!
