//! Per-relay-parent state and its store.
//!
//! A parent's state is created on leaf activation, fed by provisionable
//! data, flips to ready once the pre-propose delay elapses, and queues
//! inherent-data requesters until then. The store maps relay-parent
//! hashes to states, serialized under the event loop.
use vstd::prelude::*;

use crate::primitives::{
    bf_views, ActivatedLeaf, CandidateReceipt, RelayHash, SignedAvailabilityBitfield,
};

verus! {

/// How long to wait after activation before proposing, in milliseconds.
pub const PRE_PROPOSE_TIMEOUT_MS: u64 = 2000;

/// The hard wall-clock cap on one inherent-data assembly, in milliseconds.
pub const SEND_INHERENT_DATA_TIMEOUT_MS: u64 = 500;

/// Opaque handle standing for one requester's reply channel; the event
/// loop owns the channels and addresses them by these tokens.
pub type RequestToken = u64;

/// Provisionable data announced for a relay parent. Only bitfields and
/// backed candidates are consumed by the provisioner; the other kinds are
/// noted by different subsystems and ignored here.
pub enum ProvisionableData {
    Bitfield(RelayHash, SignedAvailabilityBitfield),
    BackedCandidate(CandidateReceipt),
    MisbehaviorReport(RelayHash),
    Dispute(RelayHash),
}

/// The provisioner's state for one relay parent.
pub struct PerRelayParent {
    pub leaf: ActivatedLeaf,
    pub backed_candidates: Vec<CandidateReceipt>,
    pub signed_bitfields: Vec<SignedAvailabilityBitfield>,
    pub is_inherent_ready: bool,
    pub awaiting_inherent: Vec<RequestToken>,
}

/// What noting provisionable data does to a parent's state: a bitfield or
/// a backed candidate is appended, anything else is ignored; readiness
/// and the waiters are untouched.
pub open spec fn note_applied(
    s0: PerRelayParent,
    s1: PerRelayParent,
    data: ProvisionableData,
) -> bool {
    &&& s1.leaf == s0.leaf
    &&& s1.is_inherent_ready == s0.is_inherent_ready
    &&& s1.awaiting_inherent@ == s0.awaiting_inherent@
    &&& match data {
        ProvisionableData::Bitfield(_, sb) => s1.signed_bitfields@ == s0.signed_bitfields@.push(sb)
            && s1.backed_candidates@ == s0.backed_candidates@,
        ProvisionableData::BackedCandidate(c) => s1.backed_candidates@
            == s0.backed_candidates@.push(c) && s1.signed_bitfields@ == s0.signed_bitfields@,
        ProvisionableData::MisbehaviorReport(_) => s1.signed_bitfields@ == s0.signed_bitfields@
            && s1.backed_candidates@ == s0.backed_candidates@,
        ProvisionableData::Dispute(_) => s1.signed_bitfields@ == s0.signed_bitfields@
            && s1.backed_candidates@ == s0.backed_candidates@,
    }
}

/// A parent's state as freshly created for an activated leaf.
pub open spec fn fresh_state(s: PerRelayParent, leaf: ActivatedLeaf) -> bool {
    &&& s.leaf == leaf
    &&& s.backed_candidates@.len() == 0
    &&& s.signed_bitfields@.len() == 0
    &&& !s.is_inherent_ready
    &&& s.awaiting_inherent@.len() == 0
}

impl PerRelayParent {
    /// Requesters only queue while the inherent data is not ready.
    pub open spec fn wf(&self) -> bool {
        self.awaiting_inherent@.len() > 0 ==> !self.is_inherent_ready
    }

    /// A fresh state for an activated leaf: nothing accumulated, not
    /// ready, nobody waiting.
    pub fn new(leaf: ActivatedLeaf) -> (r: Self)
        ensures
            fresh_state(r, leaf),
            r.wf(),
    {
        PerRelayParent {
            leaf,
            backed_candidates: Vec::new(),
            signed_bitfields: Vec::new(),
            is_inherent_ready: false,
            awaiting_inherent: Vec::new(),
        }
    }

    /// Note provisionable data: append a bitfield or a backed candidate,
    /// ignore the other kinds. No deduplication happens here; the
    /// selectors are responsible for correctness under duplicates.
    pub fn note_provisionable_data(&mut self, data: ProvisionableData)
        requires
            old(self).wf(),
        ensures
            final(self).wf(),
            note_applied(*old(self), *final(self), data),
    {
        match data {
            ProvisionableData::Bitfield(_, sb) => self.signed_bitfields.push(sb),
            ProvisionableData::BackedCandidate(c) => self.backed_candidates.push(c),
            ProvisionableData::MisbehaviorReport(_) => {},
            ProvisionableData::Dispute(_) => {},
        }
    }

    /// The pre-propose delay elapsed: flip to ready and hand out every
    /// queued requester exactly once, leaving the queue empty.
    pub fn on_inherent_ready(&mut self) -> (waiters: Vec<RequestToken>)
        requires
            old(self).wf(),
        ensures
            final(self).wf(),
            final(self).is_inherent_ready,
            final(self).awaiting_inherent@.len() == 0,
            waiters@ == old(self).awaiting_inherent@,
            final(self).leaf == old(self).leaf,
            final(self).backed_candidates@ == old(self).backed_candidates@,
            final(self).signed_bitfields@ == old(self).signed_bitfields@,
    {
        self.is_inherent_ready = true;
        let ghost q = self.awaiting_inherent@;
        let waiters = self.awaiting_inherent.split_off(0);
        proof {
            assert(q.subrange(0, q.len() as int) =~= q);
            assert(q.subrange(0, 0) =~= Seq::<RequestToken>::empty());
        }
        waiters
    }

    /// An inherent-data request arrived: serve it at once when ready,
    /// else queue the requester until readiness.
    pub fn on_request(&mut self, token: RequestToken) -> (assemble_now: bool)
        requires
            old(self).wf(),
        ensures
            final(self).wf(),
            assemble_now == old(self).is_inherent_ready,
            assemble_now ==> *final(self) == *old(self),
            !assemble_now ==> final(self).awaiting_inherent@ == old(self).awaiting_inherent@.push(
                token,
            ) && final(self).leaf == old(self).leaf && final(self).backed_candidates@ == old(
                self,
            ).backed_candidates@ && final(self).signed_bitfields@ == old(self).signed_bitfields@
                && !final(self).is_inherent_ready,
    {
        if self.is_inherent_ready {
            true
        } else {
            self.awaiting_inherent.push(token);
            false
        }
    }
}

/// One store slot: a relay-parent hash and its state.
pub struct StoreEntry {
    pub hash: RelayHash,
    pub state: PerRelayParent,
}

/// The per-parent store: one state per active relay parent.
pub struct ParentStore {
    pub entries: Vec<StoreEntry>,
}

impl ParentStore {
    /// Hashes are unique keys and every state is well-formed.
    pub open spec fn wf(&self) -> bool {
        &&& forall|i: int, j: int|
            0 <= i < j < self.entries@.len() ==> (#[trigger] self.entries@[i]).hash != (
            #[trigger] self.entries@[j]).hash
        &&& forall|i: int| 0 <= i < self.entries@.len() ==> (#[trigger] self.entries@[i]).state.wf()
    }

    /// The store knows this relay parent.
    pub open spec fn contains_parent(&self, h: RelayHash) -> bool {
        exists|i: int| 0 <= i < self.entries@.len() && (#[trigger] self.entries@[i]).hash == h
    }

    /// The state stored for a known relay parent.
    pub open spec fn state_of(&self, h: RelayHash) -> PerRelayParent {
        let i = choose|i: int| 0 <= i < self.entries@.len() && (#[trigger] self.entries@[i]).hash == h;
        self.entries@[i].state
    }

    /// In a store with unique keys, the entry at `k` is the one
    /// `state_of` speaks about.
    pub proof fn lemma_state_at(&self, k: int)
        requires
            self.wf(),
            0 <= k < self.entries@.len(),
        ensures
            self.contains_parent(self.entries@[k].hash),
            self.state_of(self.entries@[k].hash) == self.entries@[k].state,
    {
        let h = self.entries@[k].hash;
        assert(self.contains_parent(h));
        let i = choose|i: int| 0 <= i < self.entries@.len() && (#[trigger] self.entries@[i]).hash == h;
        if i != k {
            assert((self.entries@[i]).hash != (self.entries@[k]).hash);
        }
    }

    /// An empty store.
    pub fn new() -> (s: Self)
        ensures
            s.wf(),
            s.entries@.len() == 0,
            forall|h: RelayHash| !s.contains_parent(h),
    {
        ParentStore { entries: Vec::new() }
    }

    /// Two stores agreeing on one slot answer lookups of its hash alike.
    pub proof fn lemma_entry_lookup(a: &ParentStore, b: &ParentStore, i: int, j: int)
        requires
            a.wf(),
            b.wf(),
            0 <= i < a.entries@.len(),
            0 <= j < b.entries@.len(),
            b.entries@[j] == a.entries@[i],
        ensures
            b.contains_parent(a.entries@[i].hash),
            b.state_of(a.entries@[i].hash) == a.state_of(a.entries@[i].hash),
    {
        a.lemma_state_at(i);
        b.lemma_state_at(j);
    }

    /// Insert a fresh state for an activated leaf, replacing any state
    /// the store still held under the same hash. Every other parent's
    /// state is untouched.
    pub fn activate(&mut self, leaf: ActivatedLeaf)
        requires
            old(self).wf(),
        ensures
            final(self).wf(),
            final(self).contains_parent(leaf.hash),
            fresh_state(final(self).state_of(leaf.hash), leaf),
            forall|h: RelayHash|
                h != leaf.hash ==> (final(self).contains_parent(h) <==> old(self).contains_parent(
                    h,
                )),
            forall|h: RelayHash|
                h != leaf.hash && old(self).contains_parent(h) ==> final(self).state_of(h) == old(
                    self,
                ).state_of(h),
    {
        let fresh = PerRelayParent::new(leaf);
        let entry = StoreEntry { hash: leaf.hash, state: fresh };
        match self.find_index(leaf.hash) {
            Some(i) => {
                self.entries.set(i, entry);
                proof {
                    assert(self.wf()) by {
                        assert forall|a: int, b: int|
                            0 <= a < b < self.entries@.len() implies (
                        #[trigger] self.entries@[a]).hash != (#[trigger] self.entries@[b]).hash by {
                            assert(self.entries@[a].hash == old(self).entries@[a].hash);
                            assert(self.entries@[b].hash == old(self).entries@[b].hash);
                        }
                    }
                    self.lemma_state_at(i as int);
                    assert forall|h: RelayHash|
                        h != leaf.hash implies (self.contains_parent(h) <==> old(
                        self,
                    ).contains_parent(h)) by {
                        if old(self).contains_parent(h) {
                            let ia = choose|ia: int|
                                0 <= ia < old(self).entries@.len() && (#[trigger] old(
                                    self,
                                ).entries@[ia]).hash == h;
                            assert(self.entries@[ia].hash == h);
                        }
                        if self.contains_parent(h) {
                            let ib = choose|ib: int|
                                0 <= ib < self.entries@.len() && (
                                #[trigger] self.entries@[ib]).hash == h;
                            assert(old(self).entries@[ib].hash == h);
                        }
                    }
                    assert forall|h: RelayHash|
                        h != leaf.hash && old(self).contains_parent(h) implies self.state_of(
                        h,
                    ) == old(self).state_of(h) by {
                        let ia = choose|ia: int|
                            0 <= ia < old(self).entries@.len() && (#[trigger] old(
                                self,
                            ).entries@[ia]).hash == h;
                        assert(self.entries@[ia] == old(self).entries@[ia]);
                        Self::lemma_entry_lookup(old(self), self, ia, ia);
                    }
                }
            },
            None => {
                self.entries.push(entry);
                proof {
                    assert(self.wf()) by {
                        assert forall|a: int, b: int|
                            0 <= a < b < self.entries@.len() implies (
                        #[trigger] self.entries@[a]).hash != (#[trigger] self.entries@[b]).hash by {
                            if b < self.entries@.len() - 1 {
                                assert(self.entries@[a] == old(self).entries@[a]);
                                assert(self.entries@[b] == old(self).entries@[b]);
                            } else {
                                assert(self.entries@[a] == old(self).entries@[a]);
                                assert(old(self).entries@[a].hash == self.entries@[a].hash);
                            }
                        }
                    }
                    self.lemma_state_at(self.entries@.len() - 1);
                    assert forall|h: RelayHash|
                        h != leaf.hash implies (self.contains_parent(h) <==> old(
                        self,
                    ).contains_parent(h)) by {
                        if old(self).contains_parent(h) {
                            let ia = choose|ia: int|
                                0 <= ia < old(self).entries@.len() && (#[trigger] old(
                                    self,
                                ).entries@[ia]).hash == h;
                            assert(self.entries@[ia].hash == h);
                        }
                        if self.contains_parent(h) {
                            let ib = choose|ib: int|
                                0 <= ib < self.entries@.len() && (
                                #[trigger] self.entries@[ib]).hash == h;
                            assert(ib < self.entries@.len() - 1);
                            assert(old(self).entries@[ib].hash == h);
                        }
                    }
                    assert forall|h: RelayHash|
                        h != leaf.hash && old(self).contains_parent(h) implies self.state_of(
                        h,
                    ) == old(self).state_of(h) by {
                        let ia = choose|ia: int|
                            0 <= ia < old(self).entries@.len() && (#[trigger] old(
                                self,
                            ).entries@[ia]).hash == h;
                        assert(self.entries@[ia] == old(self).entries@[ia]);
                        Self::lemma_entry_lookup(old(self), self, ia, ia);
                    }
                }
            },
        }
    }

    /// Drop a deactivated parent's state, if any. Every other parent's
    /// state is untouched.
    pub fn deactivate(&mut self, h: RelayHash)
        requires
            old(self).wf(),
        ensures
            final(self).wf(),
            !final(self).contains_parent(h),
            forall|h2: RelayHash|
                h2 != h ==> (final(self).contains_parent(h2) <==> old(self).contains_parent(h2)),
            forall|h2: RelayHash|
                h2 != h && old(self).contains_parent(h2) ==> final(self).state_of(h2) == old(
                    self,
                ).state_of(h2),
    {
        match self.find_index(h) {
            Some(i) => {
                self.entries.remove(i);
                proof {
                    let oldv = old(self).entries@;
                    let newv = self.entries@;
                    assert forall|j: int| 0 <= j < newv.len() implies newv[j] == (if j < i {
                        oldv[j]
                    } else {
                        oldv[j + 1]
                    }) by {}
                    assert(self.wf()) by {
                        assert forall|a: int, b: int|
                            0 <= a < b < newv.len() implies (#[trigger] newv[a]).hash != (
                        #[trigger] newv[b]).hash by {
                            let a2 = if a < i { a } else { a + 1 };
                            let b2 = if b < i { b } else { b + 1 };
                            assert(newv[a] == oldv[a2] && newv[b] == oldv[b2]);
                        }
                    }
                    assert(!self.contains_parent(h)) by {
                        if self.contains_parent(h) {
                            let jb = choose|jb: int|
                                0 <= jb < newv.len() && (#[trigger] newv[jb]).hash == h;
                            let j2 = if jb < i { jb } else { jb + 1 };
                            assert(oldv[j2].hash == h);
                            assert(oldv[i as int].hash == h);
                            assert(j2 != i);
                        }
                    }
                    assert forall|h2: RelayHash|
                        h2 != h implies (self.contains_parent(h2) <==> old(
                        self,
                    ).contains_parent(h2)) by {
                        if old(self).contains_parent(h2) {
                            let ia = choose|ia: int|
                                0 <= ia < oldv.len() && (#[trigger] oldv[ia]).hash == h2;
                            assert(ia != i);
                            if ia < i {
                                assert(newv[ia].hash == h2);
                            } else {
                                assert(newv[ia - 1].hash == h2);
                            }
                        }
                        if self.contains_parent(h2) {
                            let jb = choose|jb: int|
                                0 <= jb < newv.len() && (#[trigger] newv[jb]).hash == h2;
                            let j2 = if jb < i { jb } else { jb + 1 };
                            assert(oldv[j2].hash == h2);
                        }
                    }
                    assert forall|h2: RelayHash|
                        h2 != h && old(self).contains_parent(h2) implies self.state_of(h2)
                        == old(self).state_of(h2) by {
                        let ia = choose|ia: int|
                            0 <= ia < oldv.len() && (#[trigger] oldv[ia]).hash == h2;
                        assert(ia != i);
                        if ia < i {
                            assert(newv[ia] == oldv[ia]);
                            Self::lemma_entry_lookup(old(self), self, ia, ia);
                        } else {
                            assert(newv[ia - 1] == oldv[ia]);
                            Self::lemma_entry_lookup(old(self), self, ia, ia - 1);
                        }
                    }
                }
            },
            None => {},
        }
    }

    /// The index of a parent's slot, when the store knows it.
    fn find_index(&self, h: RelayHash) -> (r: Option<usize>)
        ensures
            r matches Some(i) ==> i < self.entries@.len() && self.entries@[i as int].hash == h,
            r is None ==> !self.contains_parent(h),
    {
        let mut i: usize = 0;
        while i < self.entries.len()
            invariant
                i <= self.entries@.len(),
                forall|j: int| 0 <= j < i ==> (#[trigger] self.entries@[j]).hash != h,
            decreases self.entries@.len() - i,
        {
            if self.entries[i].hash == h {
                return Some(i);
            }
            i = i + 1;
        }
        None
    }

    /// A store differing from a well-formed one in a single slot, with
    /// the slot's hash kept and its state well-formed, is well-formed and
    /// answers every other hash as before.
    pub proof fn lemma_update_at(a: &ParentStore, b: &ParentStore, i: int)
        requires
            a.wf(),
            0 <= i < a.entries@.len(),
            b.entries@.len() == a.entries@.len(),
            forall|j: int| 0 <= j < a.entries@.len() && j != i ==> b.entries@[j] == a.entries@[j],
            b.entries@[i].hash == a.entries@[i].hash,
            b.entries@[i].state.wf(),
        ensures
            b.wf(),
            b.contains_parent(a.entries@[i].hash),
            b.state_of(a.entries@[i].hash) == b.entries@[i].state,
            forall|h: RelayHash|
                h != a.entries@[i].hash ==> (b.contains_parent(h) <==> a.contains_parent(h)),
            forall|h: RelayHash|
                h != a.entries@[i].hash && a.contains_parent(h) ==> b.state_of(h) == a.state_of(h),
    {
        assert(b.wf()) by {
            assert forall|x: int, y: int|
                0 <= x < y < b.entries@.len() implies (#[trigger] b.entries@[x]).hash != (
            #[trigger] b.entries@[y]).hash by {
                assert(b.entries@[x].hash == a.entries@[x].hash);
                assert(b.entries@[y].hash == a.entries@[y].hash);
            }
            assert forall|x: int|
                0 <= x < b.entries@.len() implies (#[trigger] b.entries@[x]).state.wf() by {
                if x != i {
                    assert(b.entries@[x] == a.entries@[x]);
                }
            }
        }
        b.lemma_state_at(i);
        assert forall|h: RelayHash|
            h != a.entries@[i].hash implies (b.contains_parent(h) <==> a.contains_parent(h)) by {
            if a.contains_parent(h) {
                let ia = choose|ia: int|
                    0 <= ia < a.entries@.len() && (#[trigger] a.entries@[ia]).hash == h;
                assert(b.entries@[ia].hash == h);
            }
            if b.contains_parent(h) {
                let ib = choose|ib: int|
                    0 <= ib < b.entries@.len() && (#[trigger] b.entries@[ib]).hash == h;
                assert(a.entries@[ib].hash == h);
            }
        }
        assert forall|h: RelayHash|
            h != a.entries@[i].hash && a.contains_parent(h) implies b.state_of(h) == a.state_of(
            h,
        ) by {
            let ia = choose|ia: int|
                0 <= ia < a.entries@.len() && (#[trigger] a.entries@[ia]).hash == h;
            assert(b.entries@[ia] == a.entries@[ia]);
            Self::lemma_entry_lookup(a, b, ia, ia);
        }
    }

    /// Note provisionable data for a relay parent, if the store knows it;
    /// data for an unknown parent is dropped. Every other parent's state
    /// is untouched.
    pub fn note_for(&mut self, h: RelayHash, data: ProvisionableData) -> (found: bool)
        requires
            old(self).wf(),
        ensures
            final(self).wf(),
            found == old(self).contains_parent(h),
            !found ==> final(self).entries@ == old(self).entries@,
            found ==> final(self).contains_parent(h) && note_applied(
                old(self).state_of(h),
                final(self).state_of(h),
                data,
            ),
            forall|h2: RelayHash|
                h2 != h ==> (final(self).contains_parent(h2) <==> old(self).contains_parent(h2)),
            forall|h2: RelayHash|
                h2 != h && old(self).contains_parent(h2) ==> final(self).state_of(h2) == old(
                    self,
                ).state_of(h2),
    {
        match self.find_index(h) {
            Some(i) => {
                let mut entry = self.entries.remove(i);
                entry.state.note_provisionable_data(data);
                let ghost mid = self.entries@;
                proof {
                    mid.insert_ensures(i as int, entry);
                }
                self.entries.insert(i, entry);
                proof {
                    assert forall|j: int|
                        0 <= j < self.entries@.len() && j != i implies self.entries@[j] == old(
                        self,
                    ).entries@[j] by {
                        if j > i {
                            assert(self.entries@[j] == mid[j - 1]);
                        }
                    }
                    old(self).lemma_state_at(i as int);
                    Self::lemma_update_at(old(self), self, i as int);
                }
                true
            },
            None => false,
        }
    }

    /// The pre-propose delay for a relay parent fired: flip its state to
    /// ready and hand out its queued requesters, exactly once. `None`
    /// when the store no longer knows the parent. Every other parent's
    /// state is untouched.
    pub fn on_ready(&mut self, h: RelayHash) -> (r: Option<Vec<RequestToken>>)
        requires
            old(self).wf(),
        ensures
            final(self).wf(),
            r is Some <==> old(self).contains_parent(h),
            r is None ==> final(self).entries@ == old(self).entries@,
            r matches Some(w) ==> {
                &&& w@ == old(self).state_of(h).awaiting_inherent@
                &&& final(self).contains_parent(h)
                &&& final(self).state_of(h).is_inherent_ready
                &&& final(self).state_of(h).awaiting_inherent@.len() == 0
                &&& final(self).state_of(h).leaf == old(self).state_of(h).leaf
                &&& final(self).state_of(h).backed_candidates@ == old(self).state_of(
                    h,
                ).backed_candidates@
                &&& final(self).state_of(h).signed_bitfields@ == old(self).state_of(
                    h,
                ).signed_bitfields@
            },
            forall|h2: RelayHash|
                h2 != h ==> (final(self).contains_parent(h2) <==> old(self).contains_parent(h2)),
            forall|h2: RelayHash|
                h2 != h && old(self).contains_parent(h2) ==> final(self).state_of(h2) == old(
                    self,
                ).state_of(h2),
    {
        match self.find_index(h) {
            Some(i) => {
                let mut entry = self.entries.remove(i);
                let waiters = entry.state.on_inherent_ready();
                let ghost mid = self.entries@;
                proof {
                    mid.insert_ensures(i as int, entry);
                }
                self.entries.insert(i, entry);
                proof {
                    assert forall|j: int|
                        0 <= j < self.entries@.len() && j != i implies self.entries@[j] == old(
                        self,
                    ).entries@[j] by {
                        if j > i {
                            assert(self.entries@[j] == mid[j - 1]);
                        }
                    }
                    old(self).lemma_state_at(i as int);
                    Self::lemma_update_at(old(self), self, i as int);
                }
                Some(waiters)
            },
            None => None,
        }
    }

    /// Route an inherent-data request for a relay parent: drop it when
    /// the parent is unknown, serve it at once when the parent is ready,
    /// else queue the requester. Every other parent's state is untouched.
    pub fn on_request(&mut self, h: RelayHash, token: RequestToken) -> (r: RequestOutcome)
        requires
            old(self).wf(),
        ensures
            final(self).wf(),
            (r is NoParent) <==> !old(self).contains_parent(h),
            r is NoParent ==> final(self).entries@ == old(self).entries@,
            old(self).contains_parent(h) ==> ((r is AssembleNow) <==> old(self).state_of(
                h,
            ).is_inherent_ready),
            r is AssembleNow ==> final(self).entries@ == old(self).entries@,
            r is Queued ==> {
                &&& final(self).contains_parent(h)
                &&& final(self).state_of(h).awaiting_inherent@ == old(self).state_of(
                    h,
                ).awaiting_inherent@.push(token)
                &&& final(self).state_of(h).leaf == old(self).state_of(h).leaf
                &&& final(self).state_of(h).backed_candidates@ == old(self).state_of(
                    h,
                ).backed_candidates@
                &&& final(self).state_of(h).signed_bitfields@ == old(self).state_of(
                    h,
                ).signed_bitfields@
                &&& !final(self).state_of(h).is_inherent_ready
            },
            forall|h2: RelayHash|
                h2 != h ==> (final(self).contains_parent(h2) <==> old(self).contains_parent(h2)),
            forall|h2: RelayHash|
                h2 != h && old(self).contains_parent(h2) ==> final(self).state_of(h2) == old(
                    self,
                ).state_of(h2),
    {
        match self.find_index(h) {
            Some(i) => {
                proof {
                    old(self).lemma_state_at(i as int);
                }
                if self.entries[i].state.is_inherent_ready {
                    RequestOutcome::AssembleNow
                } else {
                    let mut entry = self.entries.remove(i);
                    let assemble_now = entry.state.on_request(token);
                    let ghost mid = self.entries@;
                    proof {
                        mid.insert_ensures(i as int, entry);
                    }
                    self.entries.insert(i, entry);
                    proof {
                        assert forall|j: int|
                            0 <= j < self.entries@.len() && j != i implies self.entries@[j] == old(
                            self,
                        ).entries@[j] by {
                            if j > i {
                                assert(self.entries@[j] == mid[j - 1]);
                            }
                        }
                        Self::lemma_update_at(old(self), self, i as int);
                    }
                    RequestOutcome::Queued
                }
            },
            None => RequestOutcome::NoParent,
        }
    }

    /// A value snapshot of what one assembly works on: the leaf and the
    /// accumulated bitfields and receipts, clones decoupled from the
    /// live state.
    pub fn snapshot(&self, h: RelayHash) -> (r: Option<InherentSnapshot>)
        requires
            self.wf(),
        ensures
            (r is Some) <==> self.contains_parent(h),
            r matches Some(s) ==> s.leaf == self.state_of(h).leaf && bf_views(s.signed_bitfields@)
                == bf_views(self.state_of(h).signed_bitfields@) && s.backed_candidates@
                == self.state_of(h).backed_candidates@,
    {
        match self.find_index(h) {
            Some(i) => {
                proof {
                    self.lemma_state_at(i as int);
                }
                let entry = &self.entries[i];
                Some(
                    InherentSnapshot {
                        leaf: entry.state.leaf,
                        signed_bitfields: clone_bitfields(&entry.state.signed_bitfields),
                        backed_candidates: clone_receipts(&entry.state.backed_candidates),
                    },
                )
            },
            None => None,
        }
    }

    /// Apply an active-leaves update: drop the deactivated parents, then
    /// insert a fresh state per activated leaf. The returned hashes are
    /// the activated ones, each owed a readiness delay of
    /// `PRE_PROPOSE_TIMEOUT_MS` by the event loop.
    pub fn handle_active_leaves_update(
        &mut self,
        activated: Vec<ActivatedLeaf>,
        deactivated: &Vec<RelayHash>,
    ) -> (delays: Vec<RelayHash>)
        requires
            old(self).wf(),
        ensures
            final(self).wf(),
            delays@ == leaf_hashes(activated@),
            forall|j: int|
                0 <= j < activated@.len() ==> final(self).contains_parent(
                    (#[trigger] activated@[j]).hash,
                ),
            hashes_distinct(activated@) ==> forall|j: int|
                0 <= j < activated@.len() ==> fresh_state(
                    final(self).state_of((#[trigger] activated@[j]).hash),
                    activated@[j],
                ),
            forall|w: int|
                0 <= w < deactivated@.len() && !has_activation(
                    activated@,
                    #[trigger] deactivated@[w],
                ) ==> !final(self).contains_parent(deactivated@[w]),
            forall|h: RelayHash|
                !has_activation(activated@, h) && !deactivated@.contains(h) ==> (final(self).contains_parent(h) <==> old(self).contains_parent(h)) && (old(self).contains_parent(h) ==> final(self).state_of(h) == old(self).state_of(h)),
    {
        let mut i: usize = 0;
        while i < deactivated.len()
            invariant
                self.wf(),
                i <= deactivated@.len(),
                forall|w: int| 0 <= w < i ==> !self.contains_parent(#[trigger] deactivated@[w]),
                forall|h: RelayHash|
                    !deactivated@.contains(h) ==> (self.contains_parent(h) <==> old(self).contains_parent(h)) && (old(self).contains_parent(h) ==> self.state_of(h) == old(self).state_of(h)),
            decreases deactivated@.len() - i,
        {
            let d = deactivated[i];
            self.deactivate(d);
            proof {
                assert forall|w: int|
                    0 <= w < i + 1 implies !self.contains_parent(#[trigger] deactivated@[w]) by {
                    if deactivated@[w] != d {
                    }
                }
                assert forall|h: RelayHash|
                    !deactivated@.contains(h) implies (self.contains_parent(h) <==> old(self).contains_parent(h)) && (old(self).contains_parent(h) ==> self.state_of(h) == old(self).state_of(h)) by {
                    assert(deactivated@[i as int] == d);
                    assert(h != d);
                }
            }
            i = i + 1;
        }
        let ghost mid: ParentStore = *self;
        let mut delays: Vec<RelayHash> = Vec::new();
        let mut j: usize = 0;
        proof {
            assert(delays@ =~= leaf_hashes(activated@.take(0)));
        }
        while j < activated.len()
            invariant
                self.wf(),
                j <= activated@.len(),
                delays@ == leaf_hashes(activated@.take(j as int)),
                forall|x: int|
                    0 <= x < j ==> self.contains_parent((#[trigger] activated@[x]).hash),
                hashes_distinct(activated@) ==> forall|x: int|
                    0 <= x < j ==> fresh_state(
                        self.state_of((#[trigger] activated@[x]).hash),
                        activated@[x],
                    ),
                forall|h: RelayHash|
                    !has_activation(activated@, h) ==> (self.contains_parent(h) <==> mid.contains_parent(h)) && (mid.contains_parent(h) ==> self.state_of(h) == mid.state_of(h)),
                forall|w: int|
                    0 <= w < deactivated@.len() && !has_activation(
                        activated@,
                        #[trigger] deactivated@[w],
                    ) ==> !self.contains_parent(deactivated@[w]),
            decreases activated@.len() - j,
        {
            let leaf = activated[j];
            let ghost pre: ParentStore = *self;
            self.activate(leaf);
            delays.push(leaf.hash);
            proof {
                assert(delays@ =~= leaf_hashes(activated@.take(j + 1)));
                assert(activated@[j as int].hash == leaf.hash);
                assert forall|x: int|
                    0 <= x < j + 1 implies self.contains_parent(
                    (#[trigger] activated@[x]).hash,
                ) by {
                    if x < j && activated@[x].hash != leaf.hash {
                        assert(pre.contains_parent(activated@[x].hash));
                    }
                }
                if hashes_distinct(activated@) {
                    assert forall|x: int|
                        0 <= x < j + 1 implies fresh_state(
                        self.state_of((#[trigger] activated@[x]).hash),
                        activated@[x],
                    ) by {
                        if x < j {
                            assert(activated@[x].hash != activated@[j as int].hash);
                            assert(fresh_state(pre.state_of(activated@[x].hash), activated@[x]));
                        }
                    }
                }
                assert forall|h: RelayHash|
                    !has_activation(activated@, h) implies (self.contains_parent(h) <==> mid.contains_parent(h)) && (mid.contains_parent(h) ==> self.state_of(h) == mid.state_of(h)) by {
                    assert(h != leaf.hash);
                }
                assert forall|w: int|
                    0 <= w < deactivated@.len() && !has_activation(
                        activated@,
                        #[trigger] deactivated@[w],
                    ) implies !self.contains_parent(deactivated@[w]) by {
                    assert(deactivated@[w] != leaf.hash);
                }
            }
            j = j + 1;
        }
        proof {
            assert(activated@.take(activated@.len() as int) =~= activated@);
        }
        delays
    }
}

/// How the store answered an inherent-data request.
#[derive(PartialEq, Eq, Structural, Clone, Copy, Debug)]
pub enum RequestOutcome {
    /// The relay parent is unknown; the request is dropped.
    NoParent,
    /// The parent is ready; assemble for this one requester now.
    AssembleNow,
    /// The parent is not ready yet; the requester was queued.
    Queued,
}

/// A value snapshot of one parent's accumulated data for one assembly.
pub struct InherentSnapshot {
    pub leaf: ActivatedLeaf,
    pub signed_bitfields: Vec<SignedAvailabilityBitfield>,
    pub backed_candidates: Vec<CandidateReceipt>,
}

/// The hashes of a sequence of activated leaves, in order.
pub open spec fn leaf_hashes(s: Seq<ActivatedLeaf>) -> Seq<RelayHash> {
    s.map_values(|l: ActivatedLeaf| l.hash)
}

/// Some leaf of the sequence carries this hash.
pub open spec fn has_activation(activated: Seq<ActivatedLeaf>, h: RelayHash) -> bool {
    exists|j: int| 0 <= j < activated.len() && (#[trigger] activated[j]).hash == h
}

/// No two leaves of the sequence carry the same hash.
pub open spec fn hashes_distinct(activated: Seq<ActivatedLeaf>) -> bool {
    forall|i: int, j: int|
        0 <= i < j < activated.len() ==> (#[trigger] activated[i]).hash != (
        #[trigger] activated[j]).hash
}

/// Copy a receipt sequence.
fn clone_receipts(v: &Vec<CandidateReceipt>) -> (r: Vec<CandidateReceipt>)
    ensures
        r@ == v@,
{
    let mut r: Vec<CandidateReceipt> = Vec::new();
    let mut i: usize = 0;
    while i < v.len()
        invariant
            i <= v@.len(),
            r@ == v@.take(i as int),
        decreases v@.len() - i,
    {
        r.push(v[i]);
        proof {
            assert(v@.take(i + 1) =~= v@.take(i as int).push(v@[i as int]));
        }
        i = i + 1;
    }
    proof {
        assert(v@.take(v@.len() as int) =~= v@);
    }
    r
}

/// Clone a bitfield sequence; the clones carry the same views.
fn clone_bitfields(v: &Vec<SignedAvailabilityBitfield>) -> (r: Vec<SignedAvailabilityBitfield>)
    ensures
        bf_views(r@) == bf_views(v@),
{
    let mut r: Vec<SignedAvailabilityBitfield> = Vec::new();
    let mut i: usize = 0;
    while i < v.len()
        invariant
            i <= v@.len(),
            r@.len() == i,
            bf_views(r@) == bf_views(v@.take(i as int)),
        decreases v@.len() - i,
    {
        let ghost r_old = r@;
        r.push(v[i].clone());
        proof {
            assert forall|x: int|
                0 <= x < r@.len() implies bf_views(r@)[x] == bf_views(v@.take(i + 1))[x] by {
                if x < i {
                    assert(r@[x] == r_old[x]);
                    assert(v@.take(i + 1)[x] == v@[x]);
                    assert(v@.take(i as int)[x] == v@[x]);
                    assert(bf_views(r_old)[x] == bf_views(v@.take(i as int))[x]);
                } else {
                    assert(r@[x] == r@[i as int]);
                    assert(v@.take(i + 1)[x] == v@[i as int]);
                }
            }
            assert(bf_views(r@) =~= bf_views(v@.take(i + 1)));
        }
        i = i + 1;
    }
    proof {
        assert(v@.take(v@.len() as int) =~= v@);
    }
    r
}

} // verus!
