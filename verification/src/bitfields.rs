//! Selection of signed availability bitfields and the 2/3 availability
//! predicate over them.
//!
//! The selector keeps at most one bitfield per validator (preferring the
//! one with strictly more set bits, first-wins on ties), drops bitfields
//! whose length does not match the number of cores, and drops bitfields
//! asserting availability on a core that is not occupied.
use vstd::prelude::*;

use crate::primitives::{
    bf_views, core_views, BitfieldView, CoreState, CoreStateView, LeafStatus,
    SignedAvailabilityBitfield, ValidatorIndex,
};

verus! {

/// Whether a core currently hosts a candidate awaiting availability.
pub open spec fn core_is_occupied(c: CoreStateView) -> bool {
    c is Occupied
}

/// A bitfield is well-formed against a core set when its length matches
/// and every set bit points at an occupied core.
pub open spec fn bitfield_is_valid(b: BitfieldView, cores: Seq<CoreStateView>) -> bool {
    &&& b.payload.len() == cores.len()
    &&& forall|i: int| 0 <= i < cores.len() && b.payload[i] ==> core_is_occupied(#[trigger] cores[i])
}

/// The number of set bits of a payload.
pub open spec fn ones(s: Seq<bool>) -> nat
    decreases s.len(),
{
    if s.len() == 0 {
        0
    } else {
        ones(s.drop_last()) + if s.last() {
            1nat
        } else {
            0nat
        }
    }
}

/// The map from validator index to its selected bitfield after processing
/// the inputs in order: a well-formed bitfield replaces the incumbent for
/// its validator only when it has strictly more set bits.
pub open spec fn selection_map(cores: Seq<CoreStateView>, bfs: Seq<BitfieldView>) -> Map<
    ValidatorIndex,
    BitfieldView,
>
    decreases bfs.len(),
{
    if bfs.len() == 0 {
        Map::empty()
    } else {
        let m = selection_map(cores, bfs.drop_last());
        let b = bfs.last();
        if bitfield_is_valid(b, cores) && (!m.dom().contains(b.validator_index) || ones(
            m[b.validator_index].payload,
        ) < ones(b.payload)) {
            m.insert(b.validator_index, b)
        } else {
            m
        }
    }
}

/// Validator indices strictly ascend along the sequence.
pub open spec fn strictly_sorted_by_validator(s: Seq<BitfieldView>) -> bool {
    forall|i: int, j: int|
        0 <= i < j < s.len() ==> s[i].validator_index < s[j].validator_index
}

/// `out` is exactly the graph of `m`, listed in ascending validator order.
pub open spec fn is_selection_output(
    m: Map<ValidatorIndex, BitfieldView>,
    out: Seq<BitfieldView>,
) -> bool {
    &&& strictly_sorted_by_validator(out)
    &&& forall|i: int|
        0 <= i < out.len() ==> m.dom().contains((#[trigger] out[i]).validator_index)
            && m[out[i].validator_index] == out[i]
    &&& forall|k: ValidatorIndex|
        #[trigger] m.dom().contains(k) ==> exists|i: int|
            0 <= i < out.len() && out[i].validator_index == k
}

/// `out` is the bitfield selection for `bfs` against `cores`.
pub open spec fn is_selection(
    cores: Seq<CoreStateView>,
    bfs: Seq<BitfieldView>,
    out: Seq<BitfieldView>,
) -> bool {
    is_selection_output(selection_map(cores, bfs), out)
}

/// Count the set bits of a payload.
pub fn count_ones(payload: &Vec<bool>) -> (n: usize)
    ensures
        n as nat == ones(payload@),
{
    let mut n: usize = 0;
    let mut i: usize = 0;
    while i < payload.len()
        invariant
            i <= payload@.len(),
            n <= i,
            n as nat == ones(payload@.take(i as int)),
        decreases payload@.len() - i,
    {
        proof {
            assert(payload@.take(i + 1).drop_last() =~= payload@.take(i as int));
            assert(payload@.take(i + 1).last() == payload@[i as int]);
        }
        if payload[i] {
            n = n + 1;
        }
        i = i + 1;
    }
    proof {
        assert(payload@.take(payload@.len() as int) =~= payload@);
    }
    n
}

/// Whether this core is occupied.
pub fn is_occupied(c: &CoreState) -> (r: bool)
    ensures
        r == core_is_occupied(c@),
{
    match c {
        CoreState::Occupied(_) => true,
        _ => false,
    }
}

/// Check a bitfield's well-formedness against the current cores.
pub fn check_bitfield_valid(b: &SignedAvailabilityBitfield, cores: &Vec<CoreState>) -> (r: bool)
    ensures
        r == bitfield_is_valid(b@, core_views(cores@)),
{
    if b.payload.len() != cores.len() {
        return false;
    }
    let mut i: usize = 0;
    while i < cores.len()
        invariant
            i <= cores@.len(),
            b.payload@.len() == cores@.len(),
            forall|j: int|
                0 <= j < i && b.payload@[j] ==> core_is_occupied(#[trigger] core_views(cores@)[j]),
        decreases cores@.len() - i,
    {
        if b.payload[i] && !is_occupied(&cores[i]) {
            proof {
                assert(core_views(cores@)[i as int] == cores@[i as int]@);
                assert(b.payload@[i as int] && !core_is_occupied(core_views(cores@)[i as int]));
            }
            return false;
        }
        i = i + 1;
    }
    true
}

/// One step of transposing bitfields along a core: OR the payload bit of
/// `b` at `core_idx` into the slot of `b`'s validator.
pub open spec fn or_step(prev: Seq<bool>, b: BitfieldView, core_idx: int) -> Seq<bool> {
    prev.update(
        b.validator_index as int,
        prev[b.validator_index as int] || b.payload[core_idx],
    )
}

/// The availability slice for `core_idx` after OR-ing every bitfield's
/// bit for that core into the runtime's availability vector.
pub open spec fn or_payloads(avail: Seq<bool>, bfs: Seq<BitfieldView>, core_idx: int) -> Seq<bool>
    decreases bfs.len(),
{
    if bfs.len() == 0 {
        avail
    } else {
        or_step(or_payloads(avail, bfs.drop_last(), core_idx), bfs.last(), core_idx)
    }
}

/// Some bitfield names a validator index outside the availability vector.
pub open spec fn has_out_of_range(bfs: Seq<BitfieldView>, n_validators: nat) -> bool {
    exists|i: int| 0 <= i < bfs.len() && bfs[i].validator_index >= n_validators
}

/// The 2/3 availability rule: true exactly when no validator index is out
/// of range and at least two thirds of the validators have the core's
/// candidate available after OR-ing all bitfields in.
pub open spec fn indicates_availability(
    core_idx: int,
    bfs: Seq<BitfieldView>,
    avail: Seq<bool>,
) -> bool {
    &&& !has_out_of_range(bfs, avail.len())
    &&& 3 * ones(or_payloads(avail, bfs, core_idx)) >= 2 * avail.len()
}

/// Decide availability of the candidate occupying `core_idx` from the
/// bitfields at hand: the transpose of the bitfields along `core_idx` is
/// OR-ed into the runtime's availability vector and the 2/3 rule applied.
/// An out-of-range validator index fails safe to `false`.
pub fn bitfields_indicate_availability(
    core_idx: usize,
    bitfields: &Vec<SignedAvailabilityBitfield>,
    availability: &Vec<bool>,
) -> (r: bool)
    requires
        forall|i: int|
            0 <= i < bitfields@.len() ==> core_idx < (#[trigger] bitfields@[i]).payload@.len(),
    ensures
        r == indicates_availability(core_idx as int, bf_views(bitfields@), availability@),
{
    let mut local: Vec<bool> = availability.clone();
    proof {
        assert(local@ =~= availability@);
    }
    let mut i: usize = 0;
    while i < bitfields.len()
        invariant
            i <= bitfields@.len(),
            local@.len() == availability@.len(),
            local@ == or_payloads(availability@, bf_views(bitfields@).take(i as int), core_idx as int),
            !has_out_of_range(bf_views(bitfields@).take(i as int), availability@.len()),
            forall|j: int|
                0 <= j < bitfields@.len() ==> core_idx < (#[trigger] bitfields@[j]).payload@.len(),
        decreases bitfields@.len() - i,
    {
        let b = &bitfields[i];
        proof {
            assert(bf_views(bitfields@).take(i + 1).drop_last() =~= bf_views(bitfields@).take(
                i as int,
            ));
            assert(bf_views(bitfields@).take(i + 1).last() == b@);
        }
        let vi = b.validator_index as usize;
        if vi >= local.len() {
            proof {
                assert(bf_views(bitfields@)[i as int].validator_index >= availability@.len());
            }
            return false;
        }
        let bit = local[vi] || b.payload[core_idx];
        local.set(vi, bit);
        i = i + 1;
    }
    proof {
        assert(bf_views(bitfields@).take(bitfields@.len() as int) =~= bf_views(bitfields@));
    }
    let n = count_ones(&local);
    let lhs: u128 = 3u128 * (n as u128);
    let rhs: u128 = 2u128 * (availability.len() as u128);
    lhs >= rhs
}

/// Position of the first entry whose validator index is at least `vi`,
/// in a sequence sorted by ascending validator index.
fn lower_bound(selected: &Vec<SignedAvailabilityBitfield>, vi: ValidatorIndex) -> (pos: usize)
    requires
        strictly_sorted_by_validator(bf_views(selected@)),
    ensures
        pos <= selected@.len(),
        forall|i: int| 0 <= i < pos ==> bf_views(selected@)[i].validator_index < vi,
        forall|i: int|
            pos <= i < selected@.len() ==> bf_views(selected@)[i].validator_index >= vi,
{
    let mut pos: usize = 0;
    while pos < selected.len() && selected[pos].validator_index < vi
        invariant
            pos <= selected@.len(),
            forall|i: int| 0 <= i < pos ==> bf_views(selected@)[i].validator_index < vi,
        decreases selected@.len() - pos,
    {
        pos = pos + 1;
    }
    proof {
        assert forall|i: int|
            pos <= i < selected@.len() implies bf_views(selected@)[i].validator_index >= vi by {
            if i > pos {
                assert(bf_views(selected@)[pos as int].validator_index < bf_views(
                    selected@,
                )[i].validator_index);
            }
        }
    }
    pos
}

/// Select the availability bitfields to include: at most one per
/// validator (the one with strictly more set bits wins; on a tie the
/// first seen is kept), each well-formed against the current cores.
/// The output lists the winners in ascending validator order.
pub fn select_availability_bitfields(
    cores: &Vec<CoreState>,
    bitfields: &Vec<SignedAvailabilityBitfield>,
) -> (selected: Vec<SignedAvailabilityBitfield>)
    ensures
        is_selection(core_views(cores@), bf_views(bitfields@), bf_views(selected@)),
        forall|i: int|
            0 <= i < selected@.len() ==> bitfield_is_valid(
                bf_views(selected@)[i],
                core_views(cores@),
            ),
        strictly_sorted_by_validator(bf_views(selected@)),
{
    let ghost coresv = core_views(cores@);
    let ghost bfsv = bf_views(bitfields@);
    let mut selected: Vec<SignedAvailabilityBitfield> = Vec::new();
    let mut idx: usize = 0;
    proof {
        assert(bfsv.take(0) =~= Seq::<BitfieldView>::empty());
        assert(bf_views(selected@) =~= Seq::<BitfieldView>::empty());
    }
    while idx < bitfields.len()
        invariant
            idx <= bitfields@.len(),
            coresv == core_views(cores@),
            bfsv == bf_views(bitfields@),
            is_selection_output(selection_map(coresv, bfsv.take(idx as int)), bf_views(selected@)),
        decreases bitfields@.len() - idx,
    {
        let ghost m0 = selection_map(coresv, bfsv.take(idx as int));
        let ghost sv_old = bf_views(selected@);
        let b = &bitfields[idx];
        proof {
            assert(bfsv.take(idx + 1).drop_last() =~= bfsv.take(idx as int));
            assert(bfsv.take(idx + 1).last() == b@);
        }
        let valid = check_bitfield_valid(b, cores);
        if valid {
            let vi = b.validator_index;
            let pos = lower_bound(&selected, vi);
            if pos < selected.len() && selected[pos].validator_index == vi {
                proof {
                    assert(sv_old[pos as int] == selected@[pos as int]@);
                    assert(m0.dom().contains(vi) && m0[vi] == sv_old[pos as int]);
                }
                let cur: usize = count_ones(&selected[pos].payload);
                let cand: usize = count_ones(&b.payload);
                if cur < cand {
                    let bc = b.clone();
                    selected.set(pos, bc);
                    proof {
                        let bv = b@;
                        let svn = bf_views(selected@);
                        let m1 = m0.insert(vi, bv);
                        assert forall|j: int| 0 <= j < svn.len() implies svn[j] == sv_old.update(
                            pos as int,
                            bv,
                        )[j] by {
                            if j != pos {
                                assert(svn[j] == sv_old[j]);
                            }
                        }
                        assert(svn =~= sv_old.update(pos as int, bv));
                        assert forall|i: int, j: int| 0 <= i < j < svn.len() implies
                            svn[i].validator_index < svn[j].validator_index by {
                            assert(sv_old[pos as int].validator_index == vi);
                        }
                        assert forall|i: int| 0 <= i < svn.len() implies m1.dom().contains(
                            (#[trigger] svn[i]).validator_index,
                        ) && m1[svn[i].validator_index] == svn[i] by {
                            if i != pos {
                                assert(svn[i] == sv_old[i]);
                                if i < pos {
                                    assert(sv_old[i].validator_index
                                        < sv_old[pos as int].validator_index);
                                } else {
                                    assert(sv_old[pos as int].validator_index
                                        < sv_old[i].validator_index);
                                }
                            }
                        }
                        assert forall|k: ValidatorIndex| #[trigger] m1.dom().contains(k) implies
                            exists|i: int| 0 <= i < svn.len() && svn[i].validator_index == k by {
                            if k == vi {
                                assert(svn[pos as int].validator_index == k);
                            } else {
                                assert(m0.dom().contains(k));
                                let i = choose|i: int|
                                    0 <= i < sv_old.len() && sv_old[i].validator_index == k;
                                assert(svn[i].validator_index == k);
                            }
                        }
                        assert(is_selection_output(m1, svn));
                        assert(selection_map(coresv, bfsv.take(idx + 1)) == m1);
                    }
                } else {
                    proof {
                        assert(selection_map(coresv, bfsv.take(idx + 1)) == m0);
                    }
                }
            } else {
                proof {
                    if m0.dom().contains(vi) {
                        let i = choose|i: int|
                            0 <= i < sv_old.len() && sv_old[i].validator_index == vi;
                        if pos < selected@.len() && pos < i {
                            assert(sv_old[pos as int].validator_index < sv_old[i].validator_index);
                        }
                        assert(false);
                    }
                }
                let bc = b.clone();
                let ghost se_old = selected@;
                proof {
                    se_old.insert_ensures(pos as int, bc);
                    sv_old.insert_ensures(pos as int, b@);
                }
                selected.insert(pos, bc);
                proof {
                    let bv = b@;
                    let svn = bf_views(selected@);
                    let m1 = m0.insert(vi, bv);
                    assert forall|j: int| 0 <= j < svn.len() implies svn[j] == sv_old.insert(
                        pos as int,
                        bv,
                    )[j] by {
                        if j < pos {
                            assert(selected@[j] == se_old[j]);
                            assert(svn[j] == sv_old[j]);
                        } else if j > pos {
                            assert(selected@[j] == se_old[j - 1]);
                            assert(svn[j] == sv_old[j - 1]);
                        } else {
                            assert(selected@[j] == bc);
                        }
                    }
                    assert(svn =~= sv_old.insert(pos as int, bv));
                    // every old entry at or after pos has a key strictly above vi
                    assert forall|i: int| pos <= i < sv_old.len() implies
                        vi < (#[trigger] sv_old[i]).validator_index by {
                        if sv_old[i].validator_index == vi {
                            assert(m0.dom().contains(vi));
                        }
                    }
                    assert forall|i: int, j: int| 0 <= i < j < svn.len() implies
                        svn[i].validator_index < svn[j].validator_index by {
                        if i < pos && j == pos {
                            assert(svn[i] == sv_old[i]);
                        } else if i == pos && j > pos {
                            assert(svn[j] == sv_old[j - 1]);
                        } else if i < pos && j > pos {
                            assert(svn[i] == sv_old[i] && svn[j] == sv_old[j - 1]);
                        } else if i > pos {
                            assert(svn[i] == sv_old[i - 1] && svn[j] == sv_old[j - 1]);
                        } else {
                            assert(svn[i] == sv_old[i] && svn[j] == sv_old[j]);
                        }
                    }
                    assert forall|i: int| 0 <= i < svn.len() implies m1.dom().contains(
                        (#[trigger] svn[i]).validator_index,
                    ) && m1[svn[i].validator_index] == svn[i] by {
                        if i < pos {
                            assert(svn[i] == sv_old[i]);
                            assert(sv_old[i].validator_index < vi);
                        } else if i > pos {
                            assert(svn[i] == sv_old[i - 1]);
                            assert(vi < sv_old[i - 1].validator_index);
                        }
                    }
                    assert forall|k: ValidatorIndex| #[trigger] m1.dom().contains(k) implies
                        exists|i: int| 0 <= i < svn.len() && svn[i].validator_index == k by {
                        if k == vi {
                            assert(svn[pos as int].validator_index == k);
                        } else {
                            assert(m0.dom().contains(k));
                            let i = choose|i: int|
                                0 <= i < sv_old.len() && sv_old[i].validator_index == k;
                            if i < pos {
                                assert(svn[i].validator_index == k);
                            } else {
                                assert(svn[i + 1].validator_index == k);
                            }
                        }
                    }
                    assert(is_selection_output(m1, svn));
                    assert(selection_map(coresv, bfsv.take(idx + 1)) == m1);
                }
            }
        } else {
            proof {
                assert(selection_map(coresv, bfsv.take(idx + 1)) == m0);
            }
        }
        idx = idx + 1;
    }
    proof {
        assert(bfsv.take(bitfields@.len() as int) =~= bfsv);
        lemma_selection_map_wf(coresv, bfsv);
    }
    selected
}

/// Bitfields go into a block only on a fresh leaf. On a stale leaf (a
/// chain reversion) none are included, so that at least one block exists
/// that cannot be disputed and the chain can make progress; candidate and
/// dispute selection still run.
pub fn select_bitfields_for_leaf(
    status: LeafStatus,
    cores: &Vec<CoreState>,
    bitfields: &Vec<SignedAvailabilityBitfield>,
) -> (selected: Vec<SignedAvailabilityBitfield>)
    ensures
        status is Stale ==> selected@.len() == 0,
        status is Fresh ==> is_selection(
            core_views(cores@),
            bf_views(bitfields@),
            bf_views(selected@),
        ),
        forall|i: int|
            0 <= i < selected@.len() ==> bitfield_is_valid(
                bf_views(selected@)[i],
                core_views(cores@),
            ),
        strictly_sorted_by_validator(bf_views(selected@)),
{
    match status {
        LeafStatus::Fresh => select_availability_bitfields(cores, bitfields),
        LeafStatus::Stale => Vec::new(),
    }
}

/// Every bitfield the selection map holds is well-formed and is filed
/// under its own validator index.
pub proof fn lemma_selection_map_wf(cores: Seq<CoreStateView>, bfs: Seq<BitfieldView>)
    ensures
        forall|k: ValidatorIndex| #[trigger]
            selection_map(cores, bfs).dom().contains(k) ==> selection_map(cores, bfs)[k].validator_index == k
                && bitfield_is_valid(selection_map(cores, bfs)[k], cores),
    decreases bfs.len(),
{
    if bfs.len() > 0 {
        lemma_selection_map_wf(cores, bfs.drop_last());
        let m = selection_map(cores, bfs.drop_last());
        let b = bfs.last();
        assert forall|k: ValidatorIndex| #[trigger]
            selection_map(cores, bfs).dom().contains(k) implies selection_map(
            cores,
            bfs,
        )[k].validator_index == k && bitfield_is_valid(selection_map(cores, bfs)[k], cores) by {
            if bitfield_is_valid(b, cores) && (!m.dom().contains(b.validator_index) || ones(
                m[b.validator_index].payload,
            ) < ones(b.payload)) {
                assert(selection_map(cores, bfs) == m.insert(b.validator_index, b));
                if k != b.validator_index {
                    assert(m.dom().contains(k));
                }
            } else {
                assert(selection_map(cores, bfs) == m);
            }
        }
    }
}

/// Every validator the selection map knows appears in the input.
pub proof fn lemma_selection_map_dom(cores: Seq<CoreStateView>, bfs: Seq<BitfieldView>)
    ensures
        forall|k: ValidatorIndex| #[trigger]
            selection_map(cores, bfs).dom().contains(k) ==> exists|i: int|
                0 <= i < bfs.len() && bfs[i].validator_index == k,
    decreases bfs.len(),
{
    if bfs.len() > 0 {
        lemma_selection_map_dom(cores, bfs.drop_last());
        assert forall|k: ValidatorIndex| #[trigger]
            selection_map(cores, bfs).dom().contains(k) implies exists|i: int|
            0 <= i < bfs.len() && bfs[i].validator_index == k by {
            if k == bfs.last().validator_index {
                assert(bfs[bfs.len() - 1].validator_index == k);
            } else {
                assert(selection_map(cores, bfs.drop_last()).dom().contains(k));
                let i = choose|i: int|
                    0 <= i < bfs.drop_last().len() && bfs.drop_last()[i].validator_index == k;
                assert(bfs[i].validator_index == k);
            }
        }
    }
}

/// Selecting over a sequence of well-formed bitfields with pairwise
/// distinct validators keeps every one of them.
pub proof fn lemma_selection_map_of_distinct(cores: Seq<CoreStateView>, out: Seq<BitfieldView>)
    requires
        forall|i: int| 0 <= i < out.len() ==> bitfield_is_valid(#[trigger] out[i], cores),
        forall|i: int, j: int|
            0 <= i < j < out.len() ==> out[i].validator_index != out[j].validator_index,
    ensures
        forall|i: int|
            0 <= i < out.len() ==> selection_map(cores, out).dom().contains(
                (#[trigger] out[i]).validator_index,
            ) && selection_map(cores, out)[out[i].validator_index] == out[i],
    decreases out.len(),
{
    if out.len() > 0 {
        let prefix = out.drop_last();
        let b = out.last();
        lemma_selection_map_of_distinct(cores, prefix);
        lemma_selection_map_dom(cores, prefix);
        let m = selection_map(cores, prefix);
        assert(!m.dom().contains(b.validator_index)) by {
            if m.dom().contains(b.validator_index) {
                let i = choose|i: int|
                    0 <= i < prefix.len() && prefix[i].validator_index == b.validator_index;
                assert(out[i].validator_index == out[out.len() - 1].validator_index);
            }
        }
        assert forall|i: int| 0 <= i < out.len() implies selection_map(cores, out).dom().contains(
            (#[trigger] out[i]).validator_index,
        ) && selection_map(cores, out)[out[i].validator_index] == out[i] by {
            if i < out.len() - 1 {
                assert(prefix[i] == out[i]);
                assert(out[i].validator_index != b.validator_index);
            }
        }
    }
}

/// The graph of a map has exactly one ascending listing: two outputs of
/// the same selection map are equal.
pub proof fn lemma_selection_output_unique(
    m: Map<ValidatorIndex, BitfieldView>,
    o1: Seq<BitfieldView>,
    o2: Seq<BitfieldView>,
)
    requires
        is_selection_output(m, o1),
        is_selection_output(m, o2),
    ensures
        o1 == o2,
    decreases o1.len(),
{
    if o1.len() == 0 {
        if o2.len() > 0 {
            assert(m.dom().contains(o2[0].validator_index));
        }
        assert(o1 =~= o2);
    } else {
        assert(m.dom().contains(o1[0].validator_index));
        assert(o2.len() > 0);
        let k1 = o1[0].validator_index;
        let k2 = o2[0].validator_index;
        let j = choose|j: int| 0 <= j < o2.len() && o2[j].validator_index == k1;
        assert(k2 <= o2[j].validator_index);
        let i = choose|i: int| 0 <= i < o1.len() && o1[i].validator_index == k2;
        assert(k1 <= o1[i].validator_index);
        assert(k1 == k2);
        assert(o1[0] == m[k1] && o2[0] == m[k1]);
        let m2 = m.remove(k1);
        let t1 = o1.drop_first();
        let t2 = o2.drop_first();
        assert(is_selection_output(m2, t1)) by {
            assert forall|i2: int| 0 <= i2 < t1.len() implies m2.dom().contains(
                (#[trigger] t1[i2]).validator_index,
            ) && m2[t1[i2].validator_index] == t1[i2] by {
                assert(t1[i2] == o1[i2 + 1]);
                assert(o1[0].validator_index < o1[i2 + 1].validator_index);
            }
            assert forall|k: ValidatorIndex| #[trigger] m2.dom().contains(k) implies exists|i2: int|
                0 <= i2 < t1.len() && t1[i2].validator_index == k by {
                assert(m.dom().contains(k));
                let w = choose|w: int| 0 <= w < o1.len() && o1[w].validator_index == k;
                assert(w != 0);
                assert(t1[w - 1].validator_index == k);
            }
        }
        assert(is_selection_output(m2, t2)) by {
            assert forall|i2: int| 0 <= i2 < t2.len() implies m2.dom().contains(
                (#[trigger] t2[i2]).validator_index,
            ) && m2[t2[i2].validator_index] == t2[i2] by {
                assert(t2[i2] == o2[i2 + 1]);
                assert(o2[0].validator_index < o2[i2 + 1].validator_index);
            }
            assert forall|k: ValidatorIndex| #[trigger] m2.dom().contains(k) implies exists|i2: int|
                0 <= i2 < t2.len() && t2[i2].validator_index == k by {
                assert(m.dom().contains(k));
                let w = choose|w: int| 0 <= w < o2.len() && o2[w].validator_index == k;
                assert(w != 0);
                assert(t2[w - 1].validator_index == k);
            }
        }
        lemma_selection_output_unique(m2, t1, t2);
        assert(o1 =~= o2) by {
            assert forall|x: int| 0 <= x < o1.len() implies o1[x] == o2[x] by {
                if x > 0 {
                    assert(o1[x] == t1[x - 1] && o2[x] == t2[x - 1]);
                }
            }
        }
    }
}

/// Selecting from a selection's own output rebuilds the same map.
pub proof fn lemma_selection_map_of_selection(
    cores: Seq<CoreStateView>,
    bfs: Seq<BitfieldView>,
    out: Seq<BitfieldView>,
)
    requires
        is_selection(cores, bfs, out),
    ensures
        selection_map(cores, out) == selection_map(cores, bfs),
{
    let m = selection_map(cores, bfs);
    let mo = selection_map(cores, out);
    lemma_selection_map_wf(cores, bfs);
    lemma_selection_map_of_distinct(cores, out);
    lemma_selection_map_dom(cores, out);
    assert(mo =~= m) by {
        assert forall|k: ValidatorIndex| #[trigger] mo.dom().contains(k) implies m.dom().contains(k)
            && mo[k] == m[k] by {
            let i = choose|i: int| 0 <= i < out.len() && out[i].validator_index == k;
            assert(mo.dom().contains(out[i].validator_index) && mo[out[i].validator_index]
                == out[i]);
        }
        assert forall|k: ValidatorIndex| #[trigger] m.dom().contains(k) implies mo.dom().contains(
            k,
        ) by {
            let i = choose|i: int| 0 <= i < out.len() && out[i].validator_index == k;
            assert(mo.dom().contains(out[i].validator_index));
        }
    }
}

/// Law: bitfield selection is idempotent. Running the selector on its own
/// output returns that output unchanged.
pub proof fn lemma_bitfield_selection_idempotent(
    cores: Seq<CoreStateView>,
    bfs: Seq<BitfieldView>,
    out: Seq<BitfieldView>,
    again: Seq<BitfieldView>,
)
    requires
        is_selection(cores, bfs, out),
        is_selection(cores, out, again),
    ensures
        again == out,
{
    lemma_selection_map_of_selection(cores, bfs, out);
    lemma_selection_output_unique(selection_map(cores, bfs), out, again);
}

} // verus!
