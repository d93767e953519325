use provisioner::primitives::{
    ActivatedLeaf, CandidateHash, CandidateReceipt, LeafStatus, PvdHash, RelayHash,
    SignedAvailabilityBitfield, ValidatorSignature,
};
use provisioner::state::{
    ParentStore, PerRelayParent, ProvisionableData, RequestOutcome, PRE_PROPOSE_TIMEOUT_MS,
    SEND_INHERENT_DATA_TIMEOUT_MS,
};

fn leaf(hash: u64, number: u32) -> ActivatedLeaf {
    ActivatedLeaf { hash: RelayHash { value: hash }, number, status: LeafStatus::Fresh }
}

fn receipt(v: u64) -> CandidateReceipt {
    CandidateReceipt {
        para_id: v as u32,
        persisted_validation_data_hash: PvdHash { value: v },
        hash: CandidateHash { value: v },
    }
}

fn bitfield(vi: u32) -> SignedAvailabilityBitfield {
    SignedAvailabilityBitfield {
        validator_index: vi,
        payload: vec![true, false],
        signature: ValidatorSignature { value: 1 },
    }
}

#[test]
fn timing_constants_match_the_protocol() {
    assert_eq!(PRE_PROPOSE_TIMEOUT_MS, 2000);
    assert_eq!(SEND_INHERENT_DATA_TIMEOUT_MS, 500);
}

#[test]
fn fresh_parent_is_not_ready_and_empty() {
    let p = PerRelayParent::new(leaf(1, 10));
    assert!(!p.is_inherent_ready);
    assert!(p.awaiting_inherent.is_empty());
    assert!(p.signed_bitfields.is_empty());
    assert!(p.backed_candidates.is_empty());
    assert_eq!(p.leaf.number, 10);
}

#[test]
fn noting_data_appends_and_ignores_other_kinds() {
    let mut p = PerRelayParent::new(leaf(1, 10));
    p.note_provisionable_data(ProvisionableData::Bitfield(RelayHash { value: 1 }, bitfield(0)));
    p.note_provisionable_data(ProvisionableData::BackedCandidate(receipt(5)));
    p.note_provisionable_data(ProvisionableData::MisbehaviorReport(RelayHash { value: 1 }));
    p.note_provisionable_data(ProvisionableData::Dispute(RelayHash { value: 1 }));
    assert_eq!(p.signed_bitfields.len(), 1);
    assert_eq!(p.backed_candidates.len(), 1);
    assert_eq!(p.backed_candidates[0].hash, CandidateHash { value: 5 });
}

#[test]
fn requests_before_readiness_are_queued_and_released_once() {
    let mut p = PerRelayParent::new(leaf(1, 10));
    // Two requests arrive before the delay fires: both queue.
    assert!(!p.on_request(101));
    assert!(!p.on_request(102));
    assert_eq!(p.awaiting_inherent, vec![101, 102]);
    assert!(!p.is_inherent_ready);
    // The delay fires: exactly one batch is handed out for one assembly.
    let waiters = p.on_inherent_ready();
    assert_eq!(waiters, vec![101, 102]);
    assert!(p.is_inherent_ready);
    assert!(p.awaiting_inherent.is_empty());
    // A request after readiness is served immediately, nothing queues.
    assert!(p.on_request(103));
    assert!(p.awaiting_inherent.is_empty());
}

#[test]
fn store_routes_requests_by_readiness() {
    let mut store = ParentStore::new();
    let l = leaf(9, 1);
    store.activate(l);
    assert_eq!(store.on_request(RelayHash { value: 8 }, 201), RequestOutcome::NoParent);
    assert_eq!(store.on_request(RelayHash { value: 9 }, 201), RequestOutcome::Queued);
    assert_eq!(store.on_request(RelayHash { value: 9 }, 202), RequestOutcome::Queued);
    let waiters = store.on_ready(RelayHash { value: 9 }).unwrap();
    assert_eq!(waiters, vec![201, 202]);
    assert_eq!(store.on_request(RelayHash { value: 9 }, 203), RequestOutcome::AssembleNow);
    assert!(store.on_ready(RelayHash { value: 8 }).is_none());
}

#[test]
fn store_snapshot_clones_the_accumulated_data() {
    let mut store = ParentStore::new();
    let l = leaf(9, 1);
    store.activate(l);
    let h = RelayHash { value: 9 };
    assert!(store.note_for(h, ProvisionableData::Bitfield(h, bitfield(3))));
    assert!(store.note_for(h, ProvisionableData::BackedCandidate(receipt(4))));
    assert!(!store.note_for(RelayHash { value: 8 }, ProvisionableData::BackedCandidate(receipt(4))));
    let snap = store.snapshot(h).unwrap();
    assert_eq!(snap.leaf.hash, h);
    assert_eq!(snap.signed_bitfields.len(), 1);
    assert_eq!(snap.signed_bitfields[0].validator_index, 3);
    assert_eq!(snap.backed_candidates, vec![receipt(4)]);
    assert!(store.snapshot(RelayHash { value: 8 }).is_none());
}

#[test]
fn leaves_update_drops_deactivated_and_schedules_delays_for_activated() {
    let mut store = ParentStore::new();
    store.activate(leaf(1, 10));
    store.activate(leaf(2, 11));
    let h1 = RelayHash { value: 1 };
    let h2 = RelayHash { value: 2 };
    assert!(store.note_for(h1, ProvisionableData::BackedCandidate(receipt(4))));
    let delays =
        store.handle_active_leaves_update(vec![leaf(3, 12)], &vec![h1]);
    assert_eq!(delays, vec![RelayHash { value: 3 }]);
    assert!(store.snapshot(h1).is_none());
    assert!(store.snapshot(h2).is_some());
    let snap3 = store.snapshot(RelayHash { value: 3 }).unwrap();
    assert_eq!(snap3.leaf.number, 12);
    assert!(snap3.backed_candidates.is_empty());
    // A deactivated parent silently drops provisionable data and requests.
    assert!(!store.note_for(h1, ProvisionableData::BackedCandidate(receipt(5))));
    assert_eq!(store.on_request(h1, 300), RequestOutcome::NoParent);
}

#[test]
fn reactivating_a_hash_resets_its_state() {
    let mut store = ParentStore::new();
    let h = RelayHash { value: 7 };
    store.activate(leaf(7, 1));
    assert!(store.note_for(h, ProvisionableData::BackedCandidate(receipt(4))));
    store.activate(leaf(7, 2));
    let snap = store.snapshot(h).unwrap();
    assert_eq!(snap.leaf.number, 2);
    assert!(snap.backed_candidates.is_empty());
}
