use provisioner::bitfields::{
    bitfields_indicate_availability, select_availability_bitfields, select_bitfields_for_leaf,
};
use provisioner::candidates::{
    block_number_under_construction, check_backed_ordering, process_backing_response,
    retain_one_validation_code, select_candidate_hashes, select_candidate_targets,
    CandidateTarget, OccupiedCoreAssumption,
};
use provisioner::error::Error;
use provisioner::primitives::{
    ActivatedLeaf, BackedCandidate, CandidateHash, CandidateReceipt, CoreState, LeafStatus,
    OccupiedCore, PvdHash, RelayHash, ScheduledCore, SignedAvailabilityBitfield,
    ValidatorSignature,
};

fn bf(validator_index: u32, payload: Vec<bool>) -> SignedAvailabilityBitfield {
    SignedAvailabilityBitfield {
        validator_index,
        payload,
        signature: ValidatorSignature { value: 7 },
    }
}

fn p8_cores() -> Vec<CoreState> {
    vec![
        CoreState::Free,
        CoreState::Scheduled(ScheduledCore { para_id: 1 }),
        CoreState::Occupied(OccupiedCore {
            para_id: 2,
            availability: vec![false, false, false],
            next_up_on_available: Some(ScheduledCore { para_id: 3 }),
            next_up_on_time_out: None,
            time_out_at: 42,
        }),
        CoreState::Free,
    ]
}

#[test]
fn fresh_leaf_selects_all_three_bitfields() {
    let cores = p8_cores();
    let bitfields = vec![
        bf(0, vec![false, false, true, false]),
        bf(1, vec![false, false, true, false]),
        bf(2, vec![false, false, false, false]),
    ];
    let selected = select_availability_bitfields(&cores, &bitfields);
    assert_eq!(selected.len(), 3);
    assert_eq!(selected[0].validator_index, 0);
    assert_eq!(selected[1].validator_index, 1);
    assert_eq!(selected[2].validator_index, 2);
    assert_eq!(selected[0].payload, vec![false, false, true, false]);
    assert_eq!(selected[2].payload, vec![false, false, false, false]);
}

#[test]
fn fresh_leaf_targets_scheduled_and_included_cores() {
    let cores = p8_cores();
    let bitfields = vec![
        bf(0, vec![false, false, true, false]),
        bf(1, vec![false, false, true, false]),
        bf(2, vec![false, false, false, false]),
    ];
    let selected = select_availability_bitfields(&cores, &bitfields);
    let block_number = block_number_under_construction(Some(41));
    assert_eq!(block_number, 42);
    let targets = select_candidate_targets(&cores, &selected, block_number);
    assert_eq!(
        targets,
        vec![
            CandidateTarget {
                core_index: 1,
                para_id: 1,
                assumption: OccupiedCoreAssumption::Free,
            },
            CandidateTarget {
                core_index: 2,
                para_id: 3,
                assumption: OccupiedCoreAssumption::Included,
            },
        ]
    );
}

#[test]
fn stale_leaf_yields_no_bitfields_but_selection_still_runs() {
    let cores = p8_cores();
    let bitfields = vec![
        bf(0, vec![false, false, true, false]),
        bf(1, vec![false, false, true, false]),
        bf(2, vec![false, false, false, false]),
    ];
    let selected = select_bitfields_for_leaf(LeafStatus::Stale, &cores, &bitfields);
    assert!(selected.is_empty());
    // Candidate selection still runs over the (empty) selection: without
    // the availability quorum and without a timeout follow-up, only the
    // scheduled core is targeted.
    let targets = select_candidate_targets(&cores, &selected, 42);
    assert_eq!(
        targets,
        vec![CandidateTarget {
            core_index: 1,
            para_id: 1,
            assumption: OccupiedCoreAssumption::Free,
        }]
    );
}

#[test]
fn timeout_path_targets_next_up_on_time_out() {
    let cores = vec![CoreState::Occupied(OccupiedCore {
        para_id: 2,
        availability: vec![false, false, false],
        next_up_on_available: Some(ScheduledCore { para_id: 3 }),
        next_up_on_time_out: Some(ScheduledCore { para_id: 9 }),
        time_out_at: 42,
    })];
    let bitfields = vec![bf(0, vec![false])];
    let targets = select_candidate_targets(&cores, &bitfields, 42);
    assert_eq!(
        targets,
        vec![CandidateTarget {
            core_index: 0,
            para_id: 9,
            assumption: OccupiedCoreAssumption::TimedOut,
        }]
    );
    // One block earlier the timeout has not struck and nothing is targeted.
    let targets_before = select_candidate_targets(&cores, &bitfields, 41);
    assert!(targets_before.is_empty());
}

#[test]
fn ordering_enforcement_rejects_swapped_reply() {
    let a = CandidateHash { value: 11 };
    let b = CandidateHash { value: 22 };
    let selected = vec![a, b];
    let returned = vec![
        BackedCandidate { para_id: 2, hash: b, new_validation_code: None },
        BackedCandidate { para_id: 1, hash: a, new_validation_code: None },
    ];
    assert!(!check_backed_ordering(&selected, &returned));
    let r = process_backing_response(&selected, returned);
    assert_eq!(r, Err(Error::BackedCandidateOrderingProblem));
}

#[test]
fn ordering_accepts_in_order_subsequence_ending_at_reply_len() {
    let a = CandidateHash { value: 11 };
    let b = CandidateHash { value: 22 };
    let selected = vec![a, b];
    let returned = vec![
        BackedCandidate { para_id: 1, hash: a, new_validation_code: None },
        BackedCandidate { para_id: 2, hash: b, new_validation_code: None },
    ];
    assert!(check_backed_ordering(&selected, &returned));
    let kept = process_backing_response(&selected, returned).unwrap();
    assert_eq!(kept.len(), 2);
}

#[test]
fn ordering_rejects_reply_exhausted_before_request() {
    // The linear walk looks the reply up for every requested hash; a
    // reply that runs out while requests remain is an ordering error.
    let a = CandidateHash { value: 11 };
    let b = CandidateHash { value: 22 };
    let selected = vec![a, b];
    let returned = vec![BackedCandidate { para_id: 1, hash: a, new_validation_code: None }];
    assert!(!check_backed_ordering(&selected, &returned));
    // An empty reply to an empty request passes.
    let none_selected: Vec<CandidateHash> = Vec::new();
    let none_returned: Vec<BackedCandidate> = Vec::new();
    assert!(check_backed_ordering(&none_selected, &none_returned));
    // An empty reply to a non-empty request does not.
    assert!(!check_backed_ordering(&selected, &none_returned));
}

#[test]
fn bitfield_with_wrong_length_is_dropped() {
    let cores = p8_cores();
    let bitfields = vec![bf(0, vec![false, false, true])];
    let selected = select_availability_bitfields(&cores, &bitfields);
    assert!(selected.is_empty());
}

#[test]
fn bitfield_with_bit_on_unoccupied_core_is_dropped() {
    let cores = p8_cores();
    let bitfields = vec![bf(0, vec![true, false, false, false])];
    let selected = select_availability_bitfields(&cores, &bitfields);
    assert!(selected.is_empty());
}

#[test]
fn duplicate_validator_keeps_more_ones_and_first_on_tie() {
    let cores = vec![
        CoreState::Occupied(OccupiedCore {
            para_id: 2,
            availability: vec![false],
            next_up_on_available: None,
            next_up_on_time_out: None,
            time_out_at: 5,
        }),
        CoreState::Occupied(OccupiedCore {
            para_id: 4,
            availability: vec![false],
            next_up_on_available: None,
            next_up_on_time_out: None,
            time_out_at: 5,
        }),
    ];
    // The second bitfield of validator 0 has strictly more ones: it wins.
    let more_wins = select_availability_bitfields(
        &cores,
        &vec![bf(0, vec![true, false]), bf(0, vec![true, true])],
    );
    assert_eq!(more_wins.len(), 1);
    assert_eq!(more_wins[0].payload, vec![true, true]);
    // On a tie in the count of ones, the first seen is kept.
    let first_wins = select_availability_bitfields(
        &cores,
        &vec![bf(0, vec![true, false]), bf(0, vec![false, true])],
    );
    assert_eq!(first_wins.len(), 1);
    assert_eq!(first_wins[0].payload, vec![true, false]);
}

#[test]
fn bitfield_selection_is_idempotent_on_its_output() {
    let cores = p8_cores();
    let bitfields = vec![
        bf(5, vec![false, false, true, false]),
        bf(0, vec![false, false, true, false]),
        bf(5, vec![false, false, false, false]),
        bf(2, vec![false, false, false]),
    ];
    let once = select_availability_bitfields(&cores, &bitfields);
    let twice = select_availability_bitfields(&cores, &once);
    assert_eq!(once.len(), twice.len());
    for i in 0..once.len() {
        assert_eq!(once[i].validator_index, twice[i].validator_index);
        assert_eq!(once[i].payload, twice[i].payload);
    }
}

#[test]
fn availability_meets_two_thirds_exactly() {
    // Three validators, two available: 3 * 2 >= 2 * 3.
    let bitfields = vec![bf(0, vec![true]), bf(1, vec![true])];
    assert!(bitfields_indicate_availability(0, &bitfields, &vec![false, false, false]));
    // One of three available: 3 * 1 < 2 * 3.
    let one = vec![bf(0, vec![true])];
    assert!(!bitfields_indicate_availability(0, &one, &vec![false, false, false]));
    // The runtime's own availability bits count too.
    let none: Vec<SignedAvailabilityBitfield> = Vec::new();
    assert!(bitfields_indicate_availability(0, &none, &vec![true, true, false]));
}

#[test]
fn availability_fails_safe_on_out_of_range_validator() {
    let bitfields = vec![bf(7, vec![true])];
    assert!(!bitfields_indicate_availability(0, &bitfields, &vec![true, true, true]));
}

#[test]
fn candidate_hashes_pick_first_matching_receipt() {
    let targets = vec![
        CandidateTarget { core_index: 0, para_id: 1, assumption: OccupiedCoreAssumption::Free },
        CandidateTarget { core_index: 1, para_id: 2, assumption: OccupiedCoreAssumption::Free },
        CandidateTarget { core_index: 2, para_id: 3, assumption: OccupiedCoreAssumption::Free },
    ];
    let pvds = vec![Some(PvdHash { value: 100 }), None, Some(PvdHash { value: 300 })];
    let candidates = vec![
        CandidateReceipt {
            para_id: 1,
            persisted_validation_data_hash: PvdHash { value: 999 },
            hash: CandidateHash { value: 10 },
        },
        CandidateReceipt {
            para_id: 1,
            persisted_validation_data_hash: PvdHash { value: 100 },
            hash: CandidateHash { value: 11 },
        },
        CandidateReceipt {
            para_id: 1,
            persisted_validation_data_hash: PvdHash { value: 100 },
            hash: CandidateHash { value: 12 },
        },
        CandidateReceipt {
            para_id: 3,
            persisted_validation_data_hash: PvdHash { value: 300 },
            hash: CandidateHash { value: 30 },
        },
    ];
    let selected = select_candidate_hashes(&targets, &pvds, &candidates);
    // Para 1: the first receipt whose validation data matches; para 2 has
    // no validation data; para 3 matches its receipt.
    assert_eq!(selected, vec![CandidateHash { value: 11 }, CandidateHash { value: 30 }]);
}

#[test]
fn retain_keeps_only_first_validation_code_carrier() {
    let c = |v: u64, code: Option<u64>| BackedCandidate {
        para_id: v as u32,
        hash: CandidateHash { value: v },
        new_validation_code: code,
    };
    let kept = retain_one_validation_code(vec![
        c(1, None),
        c(2, Some(7)),
        c(3, None),
        c(4, Some(8)),
        c(5, Some(9)),
        c(6, None),
    ]);
    let hashes: Vec<u64> = kept.iter().map(|b| b.hash.value).collect();
    assert_eq!(hashes, vec![1, 2, 3, 6]);
}

#[test]
fn block_number_is_parent_plus_one_or_zero() {
    assert_eq!(block_number_under_construction(Some(41)), 42);
    assert_eq!(block_number_under_construction(None), 0);
}

#[test]
fn error_classification_is_fatal_only_for_lost_context() {
    assert!(Error::SubsystemContextLost.is_fatal());
    assert!(!Error::SendInherentDataTimeout.is_fatal());
    assert!(!Error::BackedCandidateOrderingProblem.is_fatal());
    assert!(!Error::CanceledAvailabilityCores.is_fatal());
    assert!(!Error::CanceledPersistedValidationData.is_fatal());
    assert!(!Error::CanceledBlockNumber.is_fatal());
    assert!(!Error::CanceledBackedCandidates.is_fatal());
    assert!(!Error::InherentDataReturnChannel.is_fatal());
    assert!(!Error::FailedToSpawnBackgroundTask.is_fatal());
    assert!(!Error::RuntimeApi.is_fatal());
}

#[test]
fn candidate_selection_is_deterministic_for_fixed_responses() {
    // With the cores, bitfields, block number, validation-data replies and
    // backing reply all fixed, two runs of the pipeline agree exactly.
    let cores = p8_cores();
    let bitfields = vec![
        bf(0, vec![false, false, true, false]),
        bf(1, vec![false, false, true, false]),
    ];
    let pvds = vec![Some(PvdHash { value: 100 }), Some(PvdHash { value: 300 })];
    let candidates = vec![
        CandidateReceipt {
            para_id: 1,
            persisted_validation_data_hash: PvdHash { value: 100 },
            hash: CandidateHash { value: 11 },
        },
        CandidateReceipt {
            para_id: 3,
            persisted_validation_data_hash: PvdHash { value: 300 },
            hash: CandidateHash { value: 31 },
        },
    ];
    let returned = vec![
        BackedCandidate { para_id: 1, hash: CandidateHash { value: 11 }, new_validation_code: Some(5) },
        BackedCandidate { para_id: 3, hash: CandidateHash { value: 31 }, new_validation_code: None },
    ];
    let run = || {
        let selected_bfs = select_availability_bitfields(&cores, &bitfields);
        let targets = select_candidate_targets(&cores, &selected_bfs, 42);
        let selected = select_candidate_hashes(&targets, &pvds, &candidates);
        process_backing_response(&selected, returned.clone())
    };
    let once = run().unwrap();
    let twice = run().unwrap();
    assert_eq!(once, twice);
    assert_eq!(once.len(), 2);
}

#[test]
fn stale_and_fresh_agree_with_leaf_descriptor() {
    let leaf = ActivatedLeaf {
        hash: RelayHash { value: 1 },
        number: 41,
        status: LeafStatus::Fresh,
    };
    assert_eq!(leaf.status, LeafStatus::Fresh);
    let cores = p8_cores();
    let bitfields = vec![bf(0, vec![false, false, true, false])];
    let fresh = select_bitfields_for_leaf(LeafStatus::Fresh, &cores, &bitfields);
    assert_eq!(fresh.len(), 1);
}
