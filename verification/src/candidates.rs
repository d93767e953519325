//! Selection of backed candidates for the scheduling cores.
//!
//! Per core, an occupied-core assumption is decided from the bitfield
//! availability quorum and the timeout block number; a candidate receipt
//! matching the core's parachain and its persisted-validation-data hash
//! is picked; the backing subsystem's reply is checked to be an
//! order-preserving subsequence of the request; and at most one candidate
//! carrying a new validation code is retained.
use vstd::prelude::*;

use crate::bitfields::indicates_availability;
use crate::error::Error;
use crate::primitives::{
    bf_views, core_views, BackedCandidate, BitfieldView, BlockNumber, CandidateHash,
    CandidateReceipt, CoreState, CoreStateView, ParaId, PvdHash, SignedAvailabilityBitfield,
};

verus! {

/// The premise under which the runtime computes the next candidate's
/// validation data for a core.
#[derive(PartialEq, Eq, Structural, Clone, Copy, Debug)]
pub enum OccupiedCoreAssumption {
    /// The core is free of its previous candidate.
    Free,
    /// The occupying candidate will be declared available and included.
    Included,
    /// The occupying candidate will time out.
    TimedOut,
}

/// A per-core selection decision: which parachain to provision for the
/// core, under which occupied-core assumption.
#[derive(PartialEq, Eq, Structural, Clone, Copy, Debug)]
pub struct CandidateTarget {
    pub core_index: usize,
    pub para_id: ParaId,
    pub assumption: OccupiedCoreAssumption,
}

/// The decision for one core: `Free` cores are skipped; `Scheduled` cores
/// target their parachain under the `Free` assumption; an `Occupied` core
/// targets its follow-up parachain under `Included` when the availability
/// quorum is met, or under `TimedOut` when its timeout falls on the block
/// under construction.
pub open spec fn core_target(
    core: CoreStateView,
    core_idx: int,
    bfs: Seq<BitfieldView>,
    block_number: BlockNumber,
) -> Option<(ParaId, OccupiedCoreAssumption)> {
    match core {
        CoreStateView::Free => None,
        CoreStateView::Scheduled(s) => Some((s.para_id, OccupiedCoreAssumption::Free)),
        CoreStateView::Occupied {
            para_id: _,
            availability,
            next_up_on_available,
            next_up_on_time_out,
            time_out_at,
        } => {
            if indicates_availability(core_idx, bfs, availability) {
                match next_up_on_available {
                    Some(s) => Some((s.para_id, OccupiedCoreAssumption::Included)),
                    None => None,
                }
            } else if time_out_at == block_number {
                match next_up_on_time_out {
                    Some(s) => Some((s.para_id, OccupiedCoreAssumption::TimedOut)),
                    None => None,
                }
            } else {
                None
            }
        },
    }
}

/// The selection decisions for all cores, in ascending core order.
pub open spec fn targets_of(
    cores: Seq<CoreStateView>,
    bfs: Seq<BitfieldView>,
    block_number: BlockNumber,
) -> Seq<CandidateTarget>
    decreases cores.len(),
{
    if cores.len() == 0 {
        Seq::empty()
    } else {
        let prefix = targets_of(cores.drop_last(), bfs, block_number);
        match core_target(cores.last(), cores.len() - 1, bfs, block_number) {
            Some(t) => prefix.push(
                CandidateTarget {
                    core_index: (cores.len() - 1) as usize,
                    para_id: t.0,
                    assumption: t.1,
                },
            ),
            None => prefix,
        }
    }
}

/// Compute the selection decision for every core. The bitfields are the
/// already-selected ones, whose payload length equals the core count.
pub fn select_candidate_targets(
    cores: &Vec<CoreState>,
    bitfields: &Vec<SignedAvailabilityBitfield>,
    block_number: BlockNumber,
) -> (targets: Vec<CandidateTarget>)
    requires
        forall|i: int|
            0 <= i < bitfields@.len() ==> (#[trigger] bitfields@[i]).payload@.len()
                == cores@.len(),
    ensures
        targets@ == targets_of(core_views(cores@), bf_views(bitfields@), block_number),
{
    let ghost coresv = core_views(cores@);
    let ghost bfsv = bf_views(bitfields@);
    let mut targets: Vec<CandidateTarget> = Vec::new();
    let mut idx: usize = 0;
    proof {
        assert(coresv.take(0) =~= Seq::<CoreStateView>::empty());
    }
    while idx < cores.len()
        invariant
            idx <= cores@.len(),
            coresv == core_views(cores@),
            bfsv == bf_views(bitfields@),
            targets@ == targets_of(coresv.take(idx as int), bfsv, block_number),
            forall|i: int|
                0 <= i < bitfields@.len() ==> (#[trigger] bitfields@[i]).payload@.len()
                    == cores@.len(),
        decreases cores@.len() - idx,
    {
        proof {
            assert(coresv.take(idx + 1).drop_last() =~= coresv.take(idx as int));
            assert(coresv.take(idx + 1).last() == cores@[idx as int]@);
        }
        match &cores[idx] {
            CoreState::Free => {},
            CoreState::Scheduled(s) => {
                targets.push(
                    CandidateTarget {
                        core_index: idx,
                        para_id: s.para_id,
                        assumption: OccupiedCoreAssumption::Free,
                    },
                );
            },
            CoreState::Occupied(o) => {
                let available = crate::bitfields::bitfields_indicate_availability(
                    idx,
                    bitfields,
                    &o.availability,
                );
                if available {
                    match o.next_up_on_available {
                        Some(s) => {
                            targets.push(
                                CandidateTarget {
                                    core_index: idx,
                                    para_id: s.para_id,
                                    assumption: OccupiedCoreAssumption::Included,
                                },
                            );
                        },
                        None => {},
                    }
                } else if o.time_out_at == block_number {
                    match o.next_up_on_time_out {
                        Some(s) => {
                            targets.push(
                                CandidateTarget {
                                    core_index: idx,
                                    para_id: s.para_id,
                                    assumption: OccupiedCoreAssumption::TimedOut,
                                },
                            );
                        },
                        None => {},
                    }
                }
            },
        }
        idx = idx + 1;
    }
    proof {
        assert(coresv.take(cores@.len() as int) =~= coresv);
    }
    targets
}

/// The first receipt for `para_id` whose validation-data hash is `pvd`.
pub open spec fn first_match(
    candidates: Seq<CandidateReceipt>,
    para_id: ParaId,
    pvd: PvdHash,
) -> Option<CandidateReceipt>
    decreases candidates.len(),
{
    if candidates.len() == 0 {
        None
    } else if candidates.first().para_id == para_id
        && candidates.first().persisted_validation_data_hash == pvd {
        Some(candidates.first())
    } else {
        first_match(candidates.drop_first(), para_id, pvd)
    }
}

/// Find the first receipt matching the parachain and validation data.
pub fn find_receipt(
    candidates: &Vec<CandidateReceipt>,
    para_id: ParaId,
    pvd: PvdHash,
) -> (r: Option<CandidateReceipt>)
    ensures
        r == first_match(candidates@, para_id, pvd),
{
    let mut i: usize = 0;
    proof {
        assert(candidates@.skip(0) =~= candidates@);
    }
    while i < candidates.len()
        invariant
            i <= candidates@.len(),
            first_match(candidates@.skip(i as int), para_id, pvd) == first_match(
                candidates@,
                para_id,
                pvd,
            ),
        decreases candidates@.len() - i,
    {
        proof {
            assert(candidates@.skip(i as int).first() == candidates@[i as int]);
            assert(candidates@.skip(i as int).drop_first() =~= candidates@.skip(i + 1));
        }
        let c = candidates[i];
        if c.para_id == para_id && c.persisted_validation_data_hash == pvd {
            return Some(c);
        }
        i = i + 1;
    }
    proof {
        assert(candidates@.skip(candidates@.len() as int) =~= Seq::<CandidateReceipt>::empty());
    }
    None
}

/// The candidate hashes picked for the targets, one per target whose
/// validation data is known and for which a matching receipt exists.
pub open spec fn hashes_of(
    targets: Seq<CandidateTarget>,
    pvds: Seq<Option<PvdHash>>,
    candidates: Seq<CandidateReceipt>,
) -> Seq<CandidateHash>
    decreases targets.len(),
{
    if targets.len() == 0 {
        Seq::empty()
    } else {
        let prefix = hashes_of(targets.drop_last(), pvds, candidates);
        let i = targets.len() - 1;
        match pvds[i as int] {
            Some(pvd) => match first_match(candidates, targets[i as int].para_id, pvd) {
                Some(c) => prefix.push(c.hash),
                None => prefix,
            },
            None => prefix,
        }
    }
}

/// Pick, per target, the first receipt matching the target's parachain
/// and the runtime's validation-data hash for it; cores whose validation
/// data is unknown or without a matching receipt are skipped.
pub fn select_candidate_hashes(
    targets: &Vec<CandidateTarget>,
    pvd_hashes: &Vec<Option<PvdHash>>,
    candidates: &Vec<CandidateReceipt>,
) -> (selected: Vec<CandidateHash>)
    requires
        pvd_hashes@.len() == targets@.len(),
    ensures
        selected@ == hashes_of(targets@, pvd_hashes@, candidates@),
{
    let mut selected: Vec<CandidateHash> = Vec::new();
    let mut i: usize = 0;
    proof {
        assert(targets@.take(0) =~= Seq::<CandidateTarget>::empty());
    }
    while i < targets.len()
        invariant
            i <= targets@.len(),
            pvd_hashes@.len() == targets@.len(),
            selected@ == hashes_of(targets@.take(i as int), pvd_hashes@, candidates@),
        decreases targets@.len() - i,
    {
        proof {
            assert(targets@.take(i + 1).drop_last() =~= targets@.take(i as int));
            assert(targets@.take(i + 1).last() == targets@[i as int]);
        }
        match pvd_hashes[i] {
            Some(pvd) => {
                match find_receipt(candidates, targets[i].para_id, pvd) {
                    Some(c) => {
                        selected.push(c.hash);
                    },
                    None => {},
                }
            },
            None => {},
        }
        i = i + 1;
    }
    proof {
        assert(targets@.take(targets@.len() as int) =~= targets@);
    }
    selected
}

/// The hashes of a backing reply, in reply order.
pub open spec fn backed_hashes(s: Seq<BackedCandidate>) -> Seq<CandidateHash> {
    s.map_values(|c: BackedCandidate| c.hash)
}

/// The linear order check walked over the requested hashes: the pointer
/// into the reply advances on a match, every requested hash must find the
/// reply pointer within bounds, and the walk must end having consumed the
/// whole reply.
pub open spec fn ordering_walk(
    selected: Seq<CandidateHash>,
    returned: Seq<CandidateHash>,
    idx: int,
) -> Option<int>
    decreases selected.len(),
{
    if selected.len() == 0 {
        Some(idx)
    } else if idx >= returned.len() {
        None
    } else if selected.first() == returned[idx] {
        ordering_walk(selected.drop_first(), returned, idx + 1)
    } else {
        ordering_walk(selected.drop_first(), returned, idx)
    }
}

/// The backing reply is accepted: the walk consumes it exactly.
pub open spec fn backing_response_in_order(
    selected: Seq<CandidateHash>,
    returned: Seq<CandidateHash>,
) -> bool {
    ordering_walk(selected, returned, 0) == Some(returned.len() as int)
}

/// Verify that the backing reply is an order-preserving subsequence of
/// the requested hashes, by the linear walk.
pub fn check_backed_ordering(
    selected: &Vec<CandidateHash>,
    returned: &Vec<BackedCandidate>,
) -> (r: bool)
    ensures
        r == backing_response_in_order(selected@, backed_hashes(returned@)),
{
    let ghost rh = backed_hashes(returned@);
    let mut backed_idx: usize = 0;
    let mut i: usize = 0;
    proof {
        assert(selected@.skip(0) =~= selected@);
    }
    while i < selected.len()
        invariant
            i <= selected@.len(),
            backed_idx <= returned@.len(),
            rh == backed_hashes(returned@),
            ordering_walk(selected@, rh, 0) == ordering_walk(
                selected@.skip(i as int),
                rh,
                backed_idx as int,
            ),
        decreases selected@.len() - i,
    {
        proof {
            assert(selected@.skip(i as int).first() == selected@[i as int]);
            assert(selected@.skip(i as int).drop_first() =~= selected@.skip(i + 1));
        }
        if backed_idx >= returned.len() {
            return false;
        }
        proof {
            assert(rh[backed_idx as int] == returned@[backed_idx as int].hash);
        }
        if selected[i].value == returned[backed_idx].hash.value {
            proof {
                assert(selected@[i as int] == rh[backed_idx as int]);
            }
            backed_idx = backed_idx + 1;
        } else {
            proof {
                assert(selected@[i as int] != rh[backed_idx as int]);
            }
        }
        i = i + 1;
    }
    proof {
        assert(selected@.skip(selected@.len() as int) =~= Seq::<CandidateHash>::empty());
    }
    backed_idx == returned.len()
}

/// The reply with all but the first new-validation-code carrier dropped;
/// `seen` records whether a carrier was already kept.
pub open spec fn retain_unique_code(s: Seq<BackedCandidate>, seen: bool) -> Seq<BackedCandidate>
    decreases s.len(),
{
    if s.len() == 0 {
        Seq::empty()
    } else {
        let c = s.first();
        if c.new_validation_code is Some {
            if seen {
                retain_unique_code(s.drop_first(), true)
            } else {
                seq![c] + retain_unique_code(s.drop_first(), true)
            }
        } else {
            seq![c] + retain_unique_code(s.drop_first(), seen)
        }
    }
}

/// Keep at most one candidate carrying a new validation code: the first
/// carrier stays, later carriers are dropped, everything else is kept.
pub fn retain_one_validation_code(candidates: Vec<BackedCandidate>) -> (kept: Vec<BackedCandidate>)
    ensures
        kept@ == retain_unique_code(candidates@, false),
{
    let mut kept: Vec<BackedCandidate> = Vec::new();
    let mut seen: bool = false;
    let mut i: usize = 0;
    proof {
        assert(candidates@.skip(0) =~= candidates@);
        assert(kept@ + retain_unique_code(candidates@, false) =~= retain_unique_code(
            candidates@,
            false,
        ));
    }
    while i < candidates.len()
        invariant
            i <= candidates@.len(),
            retain_unique_code(candidates@, false) == kept@ + retain_unique_code(
                candidates@.skip(i as int),
                seen,
            ),
        decreases candidates@.len() - i,
    {
        proof {
            assert(candidates@.skip(i as int).first() == candidates@[i as int]);
            assert(candidates@.skip(i as int).drop_first() =~= candidates@.skip(i + 1));
        }
        let c = candidates[i];
        let ghost kept_old = kept@;
        if c.new_validation_code.is_some() {
            if !seen {
                kept.push(c);
                seen = true;
                proof {
                    assert(kept@ + retain_unique_code(candidates@.skip(i + 1), true) =~= kept_old
                        + (seq![c] + retain_unique_code(candidates@.skip(i + 1), true)));
                }
            }
        } else {
            kept.push(c);
            proof {
                assert(kept@ + retain_unique_code(candidates@.skip(i + 1), seen) =~= kept_old
                    + (seq![c] + retain_unique_code(candidates@.skip(i + 1), seen)));
            }
        }
        i = i + 1;
    }
    proof {
        assert(candidates@.skip(candidates@.len() as int) =~= Seq::<BackedCandidate>::empty());
        assert(kept@ + retain_unique_code(candidates@.skip(candidates@.len() as int), seen)
            =~= kept@);
    }
    kept
}

/// Enforce the backing reply's ordering and the validation-code
/// uniqueness rule: the accepted reply with at most one code carrier, or
/// the ordering error.
pub fn process_backing_response(
    selected: &Vec<CandidateHash>,
    returned: Vec<BackedCandidate>,
) -> (r: Result<Vec<BackedCandidate>, Error>)
    ensures
        r is Ok <==> backing_response_in_order(selected@, backed_hashes(returned@)),
        r matches Ok(kept) ==> kept@ == retain_unique_code(returned@, false),
        r matches Err(e) ==> e == Error::BackedCandidateOrderingProblem,
{
    if check_backed_ordering(selected, &returned) {
        Ok(retain_one_validation_code(returned))
    } else {
        Err(Error::BackedCandidateOrderingProblem)
    }
}

/// `a` is an order-preserving subsequence of `b`.
pub open spec fn is_subseq_of<T>(a: Seq<T>, b: Seq<T>) -> bool
    decreases b.len(),
{
    if a.len() == 0 {
        true
    } else if b.len() == 0 {
        false
    } else if a.first() == b.first() {
        is_subseq_of(a.drop_first(), b.drop_first())
    } else {
        is_subseq_of(a, b.drop_first())
    }
}

/// A subsequence stays one after dropping its own first element.
pub proof fn lemma_subseq_drop_first_left<T>(a: Seq<T>, b: Seq<T>)
    requires
        is_subseq_of(a, b),
        a.len() > 0,
    ensures
        is_subseq_of(a.drop_first(), b),
    decreases b.len(), 1int,
{
    if a.first() == b.first() {
        lemma_subseq_of_tail(a.drop_first(), b);
    } else {
        lemma_subseq_drop_first_left(a, b.drop_first());
        lemma_subseq_of_tail(a.drop_first(), b);
    }
}

/// A subsequence of a tail is a subsequence of the whole.
pub proof fn lemma_subseq_of_tail<T>(a: Seq<T>, b: Seq<T>)
    requires
        b.len() > 0,
        is_subseq_of(a, b.drop_first()),
    ensures
        is_subseq_of(a, b),
    decreases b.len(), 0int,
{
    if a.len() == 0 {
    } else if a.first() == b.first() {
        lemma_subseq_drop_first_left(a, b.drop_first());
    }
}

/// The walk's final pointer moves forward by at most one per requested hash.
pub proof fn lemma_walk_bound(selected: Seq<CandidateHash>, returned: Seq<CandidateHash>, idx: int)
    ensures
        ordering_walk(selected, returned, idx) matches Some(k) ==> idx <= k <= idx
            + selected.len(),
    decreases selected.len(),
{
    if selected.len() > 0 && idx < returned.len() {
        lemma_walk_bound(selected.drop_first(), returned, idx + 1);
        lemma_walk_bound(selected.drop_first(), returned, idx);
    }
}

/// An accepted walk means the reply from the pointer on is an
/// order-preserving subsequence of the requested hashes.
pub proof fn lemma_walk_subseq(selected: Seq<CandidateHash>, returned: Seq<CandidateHash>, idx: int)
    requires
        0 <= idx <= returned.len(),
        ordering_walk(selected, returned, idx) == Some(returned.len() as int),
    ensures
        is_subseq_of(returned.skip(idx), selected),
    decreases selected.len(),
{
    if selected.len() == 0 {
        assert(returned.skip(idx) =~= Seq::<CandidateHash>::empty());
    } else {
        if selected.first() == returned[idx] {
            lemma_walk_subseq(selected.drop_first(), returned, idx + 1);
            assert(returned.skip(idx).drop_first() =~= returned.skip(idx + 1));
            assert(returned.skip(idx).first() == returned[idx]);
        } else {
            lemma_walk_subseq(selected.drop_first(), returned, idx);
            lemma_subseq_of_tail(returned.skip(idx), selected);
        }
    }
}

/// How many candidates of the sequence carry a new validation code.
pub open spec fn count_with_code(s: Seq<BackedCandidate>) -> nat
    decreases s.len(),
{
    if s.len() == 0 {
        0
    } else {
        count_with_code(s.drop_first()) + if s.first().new_validation_code is Some {
            1nat
        } else {
            0nat
        }
    }
}

/// The retained reply carries at most one new validation code (none when
/// one was already seen), is no longer than the reply, and is an
/// order-preserving subsequence of it.
pub proof fn lemma_retain_unique_code_props(s: Seq<BackedCandidate>, seen: bool)
    ensures
        count_with_code(retain_unique_code(s, seen)) + (if seen {
            1nat
        } else {
            0nat
        }) <= 1,
        retain_unique_code(s, seen).len() <= s.len(),
        is_subseq_of(retain_unique_code(s, seen), s),
    decreases s.len(),
{
    if s.len() > 0 {
        let c = s.first();
        if c.new_validation_code is Some {
            lemma_retain_unique_code_props(s.drop_first(), true);
            if !seen {
                let rest = retain_unique_code(s.drop_first(), true);
                assert((seq![c] + rest).drop_first() =~= rest);
                assert((seq![c] + rest).first() == c);
            } else {
                lemma_subseq_of_tail(retain_unique_code(s.drop_first(), true), s);
            }
        } else {
            lemma_retain_unique_code_props(s.drop_first(), seen);
            let rest = retain_unique_code(s.drop_first(), seen);
            assert((seq![c] + rest).drop_first() =~= rest);
            assert((seq![c] + rest).first() == c);
        }
    }
}

/// There is at most one selection decision per core, in ascending core
/// order, and every decision names a real core.
pub proof fn lemma_targets_ascending(
    cores: Seq<CoreStateView>,
    bfs: Seq<BitfieldView>,
    block_number: BlockNumber,
)
    requires
        cores.len() <= usize::MAX,
    ensures
        targets_of(cores, bfs, block_number).len() <= cores.len(),
        forall|i: int|
            0 <= i < targets_of(cores, bfs, block_number).len() ==> (#[trigger] targets_of(
                cores,
                bfs,
                block_number,
            )[i]).core_index < cores.len(),
        forall|i: int, j: int|
            0 <= i < j < targets_of(cores, bfs, block_number).len() ==> targets_of(
                cores,
                bfs,
                block_number,
            )[i].core_index < targets_of(cores, bfs, block_number)[j].core_index,
    decreases cores.len(),
{
    if cores.len() > 0 {
        lemma_targets_ascending(cores.drop_last(), bfs, block_number);
        let t = targets_of(cores, bfs, block_number);
        let prefix = targets_of(cores.drop_last(), bfs, block_number);
        assert forall|i: int, j: int| 0 <= i < j < t.len() implies t[i].core_index
            < t[j].core_index by {
            if t.len() == prefix.len() {
                assert(t[i] == prefix[i] && t[j] == prefix[j]);
            } else if j < t.len() - 1 {
                assert(t[i] == prefix[i] && t[j] == prefix[j]);
            } else {
                assert(t[i] == prefix[i]);
                assert(prefix[i].core_index < cores.drop_last().len());
                assert(t[j].core_index == cores.len() - 1);
            }
        }
    }
}

/// At most one candidate hash is picked per selection decision.
pub proof fn lemma_hashes_len(
    targets: Seq<CandidateTarget>,
    pvds: Seq<Option<PvdHash>>,
    candidates: Seq<CandidateReceipt>,
)
    ensures
        hashes_of(targets, pvds, candidates).len() <= targets.len(),
    decreases targets.len(),
{
    if targets.len() > 0 {
        lemma_hashes_len(targets.drop_last(), pvds, candidates);
    }
}

/// A found first match is a receipt of the input with the asked-for
/// parachain and validation-data hash.
pub proof fn lemma_first_match_props(
    candidates: Seq<CandidateReceipt>,
    para_id: ParaId,
    pvd: PvdHash,
)
    ensures
        first_match(candidates, para_id, pvd) matches Some(c) ==> candidates.contains(c)
            && c.para_id == para_id && c.persisted_validation_data_hash == pvd,
    decreases candidates.len(),
{
    if candidates.len() > 0 {
        lemma_first_match_props(candidates.drop_first(), para_id, pvd);
        if !(candidates.first().para_id == para_id
            && candidates.first().persisted_validation_data_hash == pvd) {
            if first_match(candidates.drop_first(), para_id, pvd) is Some {
                let c = first_match(candidates.drop_first(), para_id, pvd)->Some_0;
                let w = choose|w: int|
                    0 <= w < candidates.drop_first().len() && candidates.drop_first()[w] == c;
                assert(candidates[w + 1] == c);
            }
        }
    }
}

/// The picked receipts, each tagged with the index of the selection
/// decision it serves.
pub open spec fn picks_of(
    targets: Seq<CandidateTarget>,
    pvds: Seq<Option<PvdHash>>,
    candidates: Seq<CandidateReceipt>,
) -> Seq<(int, CandidateReceipt)>
    decreases targets.len(),
{
    if targets.len() == 0 {
        Seq::empty()
    } else {
        let prefix = picks_of(targets.drop_last(), pvds, candidates);
        let i = targets.len() - 1;
        match pvds[i as int] {
            Some(pvd) => match first_match(candidates, targets[i as int].para_id, pvd) {
                Some(c) => prefix.push((i as int, c)),
                None => prefix,
            },
            None => prefix,
        }
    }
}

/// The picked hashes are the hashes of the picked receipts; each pick
/// serves one decision, in ascending decision order, matches its
/// decision's parachain and comes from the receipt pool.
pub proof fn lemma_picks_props(
    targets: Seq<CandidateTarget>,
    pvds: Seq<Option<PvdHash>>,
    candidates: Seq<CandidateReceipt>,
)
    ensures
        hashes_of(targets, pvds, candidates) == picks_of(targets, pvds, candidates).map_values(
            |p: (int, CandidateReceipt)| p.1.hash,
        ),
        forall|j: int|
            0 <= j < picks_of(targets, pvds, candidates).len() ==> {
                let p = #[trigger] picks_of(targets, pvds, candidates)[j];
                &&& 0 <= p.0 < targets.len()
                &&& candidates.contains(p.1)
                &&& p.1.para_id == targets[p.0].para_id
            },
        forall|j1: int, j2: int|
            0 <= j1 < j2 < picks_of(targets, pvds, candidates).len() ==> picks_of(
                targets,
                pvds,
                candidates,
            )[j1].0 < picks_of(targets, pvds, candidates)[j2].0,
    decreases targets.len(),
{
    if targets.len() == 0 {
        assert(hashes_of(targets, pvds, candidates) =~= picks_of(
            targets,
            pvds,
            candidates,
        ).map_values(|p: (int, CandidateReceipt)| p.1.hash));
    } else {
        lemma_picks_props(targets.drop_last(), pvds, candidates);
        let i = targets.len() - 1;
        let prefix = picks_of(targets.drop_last(), pvds, candidates);
        assert forall|j: int|
            0 <= j < picks_of(targets, pvds, candidates).len() implies {
            let p = #[trigger] picks_of(targets, pvds, candidates)[j];
            &&& 0 <= p.0 < targets.len()
            &&& candidates.contains(p.1)
            &&& p.1.para_id == targets[p.0].para_id
        } by {
            match pvds[i as int] {
                Some(pvd) => lemma_first_match_props(candidates, targets[i as int].para_id, pvd),
                None => (),
            }
            if j < prefix.len() {
                assert(picks_of(targets, pvds, candidates)[j] == prefix[j]);
                assert(targets.drop_last()[prefix[j].0] == targets[prefix[j].0]);
            }
        }
        assert(hashes_of(targets, pvds, candidates) =~= picks_of(
            targets,
            pvds,
            candidates,
        ).map_values(|p: (int, CandidateReceipt)| p.1.hash));
    }
}

/// Law: when the selection decisions target pairwise distinct parachains,
/// no more candidate hashes are picked than there are receipts.
pub proof fn lemma_selection_at_most_candidates(
    targets: Seq<CandidateTarget>,
    pvds: Seq<Option<PvdHash>>,
    candidates: Seq<CandidateReceipt>,
)
    requires
        forall|i1: int, i2: int|
            0 <= i1 < i2 < targets.len() ==> targets[i1].para_id != targets[i2].para_id,
    ensures
        hashes_of(targets, pvds, candidates).len() <= candidates.len(),
{
    broadcast use vstd::seq_lib::group_seq_properties;

    lemma_picks_props(targets, pvds, candidates);
    let picks = picks_of(targets, pvds, candidates);
    let receipts = picks.map_values(|p: (int, CandidateReceipt)| p.1);
    assert(receipts.no_duplicates()) by {
        assert forall|j1: int, j2: int|
            0 <= j1 < j2 < receipts.len() implies receipts[j1] != receipts[j2] by {
            assert(picks[j1].0 < picks[j2].0);
            assert(targets[picks[j1].0].para_id != targets[picks[j2].0].para_id);
        }
    }
    receipts.unique_seq_to_set();
    assert(receipts.to_set().subset_of(candidates.to_set())) by {
        assert forall|c: CandidateReceipt| receipts.to_set().contains(c) implies
            candidates.to_set().contains(c) by {
            assert(receipts.contains(c));
            let j = choose|j: int| 0 <= j < receipts.len() && receipts[j] == c;
            assert(candidates.contains(picks[j].1));
        }
    }
    candidates.lemma_cardinality_of_set();
    vstd::set_lib::lemma_len_subset(receipts.to_set(), candidates.to_set());
    assert(hashes_of(targets, pvds, candidates).len() == picks.len());
}

/// The whole candidate-selection outcome as a function of its inputs and
/// of the external replies: the retained backed candidates, or `None`
/// when the backing reply fails the ordering check.
pub open spec fn candidate_selection_outcome(
    cores: Seq<CoreStateView>,
    bfs: Seq<BitfieldView>,
    block_number: BlockNumber,
    pvds: Seq<Option<PvdHash>>,
    candidates: Seq<CandidateReceipt>,
    returned: Seq<BackedCandidate>,
) -> Option<Seq<BackedCandidate>> {
    let selected = hashes_of(targets_of(cores, bfs, block_number), pvds, candidates);
    if backing_response_in_order(selected, backed_hashes(returned)) {
        Some(retain_unique_code(returned, false))
    } else {
        None
    }
}

/// Law: candidate selection is deterministic in its inputs and the
/// external replies: two runs over the same cores, bitfields, block
/// number, validation-data replies, receipts and backing reply end in the
/// same outcome.
pub proof fn lemma_candidate_selection_deterministic(
    cores: Seq<CoreStateView>,
    bfs: Seq<BitfieldView>,
    block_number: BlockNumber,
    pvds: Seq<Option<PvdHash>>,
    candidates: Seq<CandidateReceipt>,
    returned: Seq<BackedCandidate>,
    outcome1: Option<Seq<BackedCandidate>>,
    outcome2: Option<Seq<BackedCandidate>>,
)
    requires
        outcome1 == candidate_selection_outcome(cores, bfs, block_number, pvds, candidates, returned),
        outcome2 == candidate_selection_outcome(cores, bfs, block_number, pvds, candidates, returned),
    ensures
        outcome1 == outcome2,
{
}

/// Law: an accepted candidate selection holds at most
/// `min(|candidates|, |cores|)` backed candidates when the decisions
/// target pairwise distinct parachains, at most one of them carries a new
/// validation code, and they are an order-preserving subsequence of the
/// backing reply, which itself preserves the requested order.
pub proof fn lemma_candidate_selection_bounds(
    cores: Seq<CoreStateView>,
    bfs: Seq<BitfieldView>,
    block_number: BlockNumber,
    pvds: Seq<Option<PvdHash>>,
    candidates: Seq<CandidateReceipt>,
    returned: Seq<BackedCandidate>,
    kept: Seq<BackedCandidate>,
)
    requires
        cores.len() <= usize::MAX,
        forall|i1: int, i2: int|
            0 <= i1 < i2 < targets_of(cores, bfs, block_number).len() ==> targets_of(
                cores,
                bfs,
                block_number,
            )[i1].para_id != targets_of(cores, bfs, block_number)[i2].para_id,
        backing_response_in_order(
            hashes_of(targets_of(cores, bfs, block_number), pvds, candidates),
            backed_hashes(returned),
        ),
        kept == retain_unique_code(returned, false),
    ensures
        kept.len() <= cores.len(),
        kept.len() <= candidates.len(),
        count_with_code(kept) <= 1,
        is_subseq_of(kept, returned),
        is_subseq_of(
            backed_hashes(returned),
            hashes_of(targets_of(cores, bfs, block_number), pvds, candidates),
        ),
{
    let targets = targets_of(cores, bfs, block_number);
    let selected = hashes_of(targets, pvds, candidates);
    let rh = backed_hashes(returned);
    lemma_targets_ascending(cores, bfs, block_number);
    lemma_hashes_len(targets, pvds, candidates);
    lemma_selection_at_most_candidates(targets, pvds, candidates);
    lemma_walk_bound(selected, rh, 0);
    lemma_walk_subseq(selected, rh, 0);
    assert(rh.skip(0) =~= rh);
    lemma_retain_unique_code_props(returned, false);
}

/// The block number of the block under construction: one above the
/// parent, or zero when the chain does not know the parent.
pub fn block_number_under_construction(parent_number: Option<BlockNumber>) -> (n: BlockNumber)
    requires
        parent_number matches Some(p) ==> p < BlockNumber::MAX,
    ensures
        parent_number matches Some(p) ==> n == p + 1,
        parent_number is None ==> n == 0,
{
    match parent_number {
        Some(p) => p + 1,
        None => 0,
    }
}

} // verus!
