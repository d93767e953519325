use provisioner::disputes::{
    extend_by_random_subset_without_repetition, make_dispute_statement_sets, partition_by_onchain,
    select_dispute_keys, sort_by_session, MAX_DISPUTES_FORWARDED_TO_RUNTIME,
};
use provisioner::primitives::{
    CandidateHash, CandidateVotes, DisputeKey, DisputeStatement, StatementKind,
    ValidatorSignature, Vote, VoteRecord,
};

fn key(session: u32, hash: u64) -> DisputeKey {
    DisputeKey { session, candidate_hash: CandidateHash { value: hash } }
}

fn assert_no_duplicates(keys: &Vec<DisputeKey>) {
    for i in 0..keys.len() {
        for j in (i + 1)..keys.len() {
            assert_ne!(keys[i], keys[j]);
        }
    }
}

fn assert_sorted_by_session(keys: &Vec<DisputeKey>) {
    for i in 1..keys.len() {
        assert!(keys[i - 1].session <= keys[i].session);
    }
}

#[test]
fn small_recent_set_is_forwarded_unchanged() {
    let recent = vec![key(3, 1), key(1, 2), key(2, 3)];
    let selected = select_dispute_keys(recent.clone(), Vec::new(), &Vec::new());
    assert_eq!(selected, recent);
}

#[test]
fn dispute_overflow_samples_unseen_active_down_to_the_cap() {
    let mut recent: Vec<DisputeKey> = Vec::new();
    for i in 0..2000u64 {
        recent.push(key((i % 97) as u32, 50_000 + i));
    }
    let mut active: Vec<DisputeKey> = Vec::new();
    for i in 0..1500u64 {
        active.push(key((i % 89) as u32, 10_000 + i));
    }
    // The runtime already knows 300 of the active disputes.
    let onchain: Vec<DisputeKey> = active[0..300].to_vec();
    let selected = select_dispute_keys(recent, active.clone(), &onchain);
    assert_eq!(selected.len(), MAX_DISPUTES_FORWARDED_TO_RUNTIME);
    assert_no_duplicates(&selected);
    assert_sorted_by_session(&selected);
    // All 1200 unseen active disputes were eligible; every pick is one.
    for k in &selected {
        assert!(active.contains(k));
        assert!(!onchain.contains(k));
    }
}

#[test]
fn extend_appends_everything_when_it_fits_and_sorts() {
    let mut acc = vec![key(5, 1), key(2, 2)];
    let extension = vec![key(9, 3), key(1, 4), key(2, 2), key(9, 3)];
    extend_by_random_subset_without_repetition(&mut acc, extension, 10);
    // key(2, 2) was already present and the duplicated key(9, 3) enters once.
    assert_eq!(acc.len(), 4);
    assert_no_duplicates(&acc);
    assert_sorted_by_session(&acc);
    assert!(acc.contains(&key(9, 3)));
    assert!(acc.contains(&key(1, 4)));
}

#[test]
fn extend_samples_without_repetition_when_over_budget() {
    let mut acc: Vec<DisputeKey> = Vec::new();
    let mut extension: Vec<DisputeKey> = Vec::new();
    for i in 0..50u64 {
        extension.push(key(i as u32, i));
    }
    extend_by_random_subset_without_repetition(&mut acc, extension.clone(), 20);
    assert_eq!(acc.len(), 20);
    assert_no_duplicates(&acc);
    assert_sorted_by_session(&acc);
    for k in &acc {
        assert!(extension.contains(k));
    }
}

#[test]
fn partition_splits_by_onchain_membership() {
    let input = vec![key(1, 1), key(2, 2), key(3, 3)];
    let onchain = vec![key(2, 2)];
    let (seen, unseen) = partition_by_onchain(&input, &onchain);
    assert_eq!(seen, vec![key(2, 2)]);
    assert_eq!(unseen, vec![key(1, 1), key(3, 3)]);
}

#[test]
fn sort_by_session_orders_and_keeps_contents() {
    let mut v = vec![key(3, 30), key(1, 10), key(2, 20), key(1, 11)];
    sort_by_session(&mut v);
    assert_eq!(v.len(), 4);
    assert_sorted_by_session(&v);
    assert!(v.contains(&key(3, 30)));
    assert!(v.contains(&key(1, 10)));
    assert!(v.contains(&key(2, 20)));
    assert!(v.contains(&key(1, 11)));
}

#[test]
fn statement_sets_concatenate_valid_then_invalid_votes() {
    let vote = |vi: u32, kind: u64, sig: u64| Vote {
        validator_index: vi,
        kind: StatementKind { value: kind },
        signature: ValidatorSignature { value: sig },
    };
    let records = vec![VoteRecord {
        session: 4,
        candidate_hash: CandidateHash { value: 77 },
        votes: CandidateVotes {
            valid: vec![vote(0, 1, 100), vote(2, 1, 102)],
            invalid: vec![vote(1, 9, 101)],
        },
    }];
    let sets = make_dispute_statement_sets(records);
    assert_eq!(sets.len(), 1);
    let set = &sets[0];
    assert_eq!(set.session, 4);
    assert_eq!(set.candidate_hash, CandidateHash { value: 77 });
    assert_eq!(set.statements.len(), 3);
    assert_eq!(
        set.statements[0].statement,
        DisputeStatement::Valid(StatementKind { value: 1 })
    );
    assert_eq!(set.statements[0].validator_index, 0);
    assert_eq!(set.statements[0].signature, ValidatorSignature { value: 100 });
    assert_eq!(
        set.statements[1].statement,
        DisputeStatement::Valid(StatementKind { value: 1 })
    );
    assert_eq!(set.statements[1].validator_index, 2);
    assert_eq!(
        set.statements[2].statement,
        DisputeStatement::Invalid(StatementKind { value: 9 })
    );
    assert_eq!(set.statements[2].validator_index, 1);
}

#[test]
fn seen_recent_fill_the_room_left_by_unseen_ones() {
    // recent exceeds the cap, active fits, and almost all recent disputes
    // are already on-chain: the unseen ones go in first and seen ones fill
    // the remaining room up to the cap.
    let mut recent: Vec<DisputeKey> = Vec::new();
    for i in 0..1200u64 {
        recent.push(key((i % 31) as u32, 40_000 + i));
    }
    // All but 10 of the recent disputes are known on-chain.
    let onchain: Vec<DisputeKey> = recent[0..1190].to_vec();
    let active = vec![key(0, 40_000)];
    let selected = select_dispute_keys(recent.clone(), active.clone(), &onchain);
    assert_eq!(selected.len(), MAX_DISPUTES_FORWARDED_TO_RUNTIME);
    assert_no_duplicates(&selected);
    assert_sorted_by_session(&selected);
    // Every unseen recent dispute made it in.
    for i in 1190..1200u64 {
        assert!(selected.contains(&key((i % 31) as u32, 40_000 + i)));
    }
    for k in &selected {
        assert!(recent.contains(k) || active.contains(k));
    }
}

#[test]
fn active_within_budget_is_topped_up_with_unseen_recent_first() {
    // recent exceeds the cap, active fits: the selection starts from the
    // active set and is filled with unseen recent disputes.
    let mut recent: Vec<DisputeKey> = Vec::new();
    for i in 0..1100u64 {
        recent.push(key((i % 13) as u32, 20_000 + i));
    }
    let active = vec![key(1, 20_000), key(2, 20_001)];
    let onchain: Vec<DisputeKey> = Vec::new();
    let selected = select_dispute_keys(recent.clone(), active.clone(), &onchain);
    assert_eq!(selected.len(), MAX_DISPUTES_FORWARDED_TO_RUNTIME);
    assert_sorted_by_session(&selected);
    for k in &selected {
        assert!(recent.contains(k) || active.contains(k));
    }
}
