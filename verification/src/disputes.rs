//! Bounded, novelty-preferring selection of disputes, and the shaping of
//! their votes into dispute statement sets.
//!
//! At most `MAX_DISPUTES_FORWARDED_TO_RUNTIME` dispute keys are forwarded.
//! When the recent disputes fit, all of them go. Otherwise the active
//! disputes take their place, topped up with disputes not yet seen
//! on-chain first and already-seen ones second, sampled randomly without
//! repetition where even one class alone overflows the budget.
use vstd::prelude::*;

use crate::primitives::{
    CandidateHash, DisputeKey, DisputeStatement, DisputeStatementSet, SessionIndex,
    SignedStatement, StatementSetView, Vote, VoteRecord,
};

verus! {

/// The most disputes ever forwarded to the runtime in one inherent: a
/// protection against flooding the runtime with excessive data.
pub const MAX_DISPUTES_FORWARDED_TO_RUNTIME: usize = 1000;

/// Whether `keys` holds `k`.
pub fn contains_dispute(keys: &Vec<DisputeKey>, k: DisputeKey) -> (r: bool)
    ensures
        r == keys@.contains(k),
{
    let mut i: usize = 0;
    while i < keys.len()
        invariant
            i <= keys@.len(),
            forall|j: int| 0 <= j < i ==> keys@[j] != k,
        decreases keys@.len() - i,
    {
        if keys[i] == k {
            return true;
        }
        i = i + 1;
    }
    false
}

/// The keys of `input` that are already on-chain, in input order.
pub open spec fn seen_of(input: Seq<DisputeKey>, onchain: Seq<DisputeKey>) -> Seq<DisputeKey>
    decreases input.len(),
{
    if input.len() == 0 {
        Seq::empty()
    } else {
        let p = seen_of(input.drop_last(), onchain);
        if onchain.contains(input.last()) {
            p.push(input.last())
        } else {
            p
        }
    }
}

/// The keys of `input` not yet on-chain, in input order.
pub open spec fn unseen_of(input: Seq<DisputeKey>, onchain: Seq<DisputeKey>) -> Seq<DisputeKey>
    decreases input.len(),
{
    if input.len() == 0 {
        Seq::empty()
    } else {
        let p = unseen_of(input.drop_last(), onchain);
        if !onchain.contains(input.last()) {
            p.push(input.last())
        } else {
            p
        }
    }
}

/// Both partition halves hold only keys of the input, split by on-chain
/// membership, and a duplicate-free input yields duplicate-free halves.
pub proof fn lemma_partition_props(input: Seq<DisputeKey>, onchain: Seq<DisputeKey>)
    ensures
        forall|x: DisputeKey| #[trigger]
            seen_of(input, onchain).contains(x) ==> input.contains(x) && onchain.contains(x),
        forall|x: DisputeKey| #[trigger]
            unseen_of(input, onchain).contains(x) ==> input.contains(x) && !onchain.contains(x),
    decreases input.len(),
{
    if input.len() > 0 {
        lemma_partition_props(input.drop_last(), onchain);
        assert forall|x: DisputeKey| #[trigger]
            seen_of(input, onchain).contains(x) implies input.contains(x) && onchain.contains(
            x,
        ) by {
            let s = seen_of(input, onchain);
            let w = choose|w: int| 0 <= w < s.len() && s[w] == x;
            let p = seen_of(input.drop_last(), onchain);
            if w < p.len() {
                assert(p.contains(x));
                let w2 = choose|w2: int| 0 <= w2 < input.drop_last().len() && input.drop_last()[w2] == x;
                assert(input[w2] == x);
            } else {
                assert(x == input.last());
                assert(input[input.len() - 1] == x);
            }
        }
        assert forall|x: DisputeKey| #[trigger]
            unseen_of(input, onchain).contains(x) implies input.contains(x) && !onchain.contains(
            x,
        ) by {
            let s = unseen_of(input, onchain);
            let w = choose|w: int| 0 <= w < s.len() && s[w] == x;
            let p = unseen_of(input.drop_last(), onchain);
            if w < p.len() {
                assert(p.contains(x));
                let w2 = choose|w2: int| 0 <= w2 < input.drop_last().len() && input.drop_last()[w2] == x;
                assert(input[w2] == x);
            } else {
                assert(x == input.last());
                assert(input[input.len() - 1] == x);
            }
        }
    }
}

/// Partition dispute keys by whether the runtime already knows them
/// on-chain: the seen keys first, the unseen second, each in input order.
pub fn partition_by_onchain(input: &Vec<DisputeKey>, onchain: &Vec<DisputeKey>) -> (r: (
    Vec<DisputeKey>,
    Vec<DisputeKey>,
))
    ensures
        r.0@ == seen_of(input@, onchain@),
        r.1@ == unseen_of(input@, onchain@),
{
    let mut seen: Vec<DisputeKey> = Vec::new();
    let mut unseen: Vec<DisputeKey> = Vec::new();
    let mut i: usize = 0;
    proof {
        assert(input@.take(0) =~= Seq::<DisputeKey>::empty());
    }
    while i < input.len()
        invariant
            i <= input@.len(),
            seen@ == seen_of(input@.take(i as int), onchain@),
            unseen@ == unseen_of(input@.take(i as int), onchain@),
        decreases input@.len() - i,
    {
        proof {
            assert(input@.take(i + 1).drop_last() =~= input@.take(i as int));
            assert(input@.take(i + 1).last() == input@[i as int]);
        }
        let k = input[i];
        if contains_dispute(onchain, k) {
            seen.push(k);
        } else {
            unseen.push(k);
        }
        i = i + 1;
    }
    proof {
        assert(input@.take(input@.len() as int) =~= input@);
    }
    (seen, unseen)
}

/// Keys ordered by non-decreasing session index.
pub open spec fn sorted_by_session(s: Seq<DisputeKey>) -> bool {
    forall|i: int, j: int| 0 <= i < j < s.len() ==> s[i].session <= s[j].session
}

/// Position after the last entry whose session is at most `session`, in a
/// session-sorted sequence.
fn session_upper_bound(sorted: &Vec<DisputeKey>, session: SessionIndex) -> (pos: usize)
    requires
        sorted_by_session(sorted@),
    ensures
        pos <= sorted@.len(),
        forall|i: int| 0 <= i < pos ==> sorted@[i].session <= session,
        forall|i: int| pos <= i < sorted@.len() ==> sorted@[i].session > session,
{
    let mut pos: usize = 0;
    while pos < sorted.len() && sorted[pos].session <= session
        invariant
            pos <= sorted@.len(),
            forall|i: int| 0 <= i < pos ==> sorted@[i].session <= session,
        decreases sorted@.len() - pos,
    {
        pos = pos + 1;
    }
    proof {
        assert forall|i: int| pos <= i < sorted@.len() implies sorted@[i].session > session by {
            if i > pos {
                assert(sorted@[pos as int].session <= sorted@[i].session);
            }
        }
    }
    pos
}

/// Sort keys by ascending session index; the contents are unchanged as a
/// multiset.
pub fn sort_by_session(v: &mut Vec<DisputeKey>)
    ensures
        sorted_by_session(final(v)@),
        final(v)@.to_multiset() == old(v)@.to_multiset(),
        final(v)@.len() == old(v)@.len(),
{
    broadcast use vstd::seq_lib::group_to_multiset_ensures;

    let mut sorted: Vec<DisputeKey> = Vec::new();
    let mut i: usize = 0;
    proof {
        assert(old(v)@.take(0) =~= Seq::<DisputeKey>::empty());
        assert(old(v)@.take(0).to_multiset() =~= Seq::<DisputeKey>::empty().to_multiset());
        assert(sorted@.to_multiset() =~= Seq::<DisputeKey>::empty().to_multiset());
    }
    while i < v.len()
        invariant
            i <= v@.len(),
            v@ == old(v)@,
            sorted_by_session(sorted@),
            sorted@.to_multiset() == v@.take(i as int).to_multiset(),
            sorted@.len() == i,
        decreases v@.len() - i,
    {
        proof {
            assert(v@.take(i + 1).drop_last() =~= v@.take(i as int));
            assert(v@.take(i + 1) =~= v@.take(i as int).push(v@[i as int]));
        }
        let x = v[i];
        let pos = session_upper_bound(&sorted, x.session);
        let ghost sorted_old = sorted@;
        proof {
            sorted_old.insert_ensures(pos as int, x);
        }
        sorted.insert(pos, x);
        proof {
            assert(sorted@ == sorted_old.insert(pos as int, x));
            vstd::seq_lib::to_multiset_insert(sorted_old, pos as int, x);
            vstd::seq_lib::to_multiset_build(v@.take(i as int), v@[i as int]);
            assert(v@.take(i + 1).to_multiset() == v@.take(i as int).push(
                v@[i as int],
            ).to_multiset());
            assert forall|a: int, b: int| 0 <= a < b < sorted@.len() implies sorted@[a].session
                <= sorted@[b].session by {
                if b < pos {
                    assert(sorted@[a] == sorted_old[a] && sorted@[b] == sorted_old[b]);
                } else if a < pos && b == pos {
                    assert(sorted@[a] == sorted_old[a]);
                } else if a < pos && b > pos {
                    assert(sorted@[a] == sorted_old[a] && sorted@[b] == sorted_old[b - 1]);
                } else if a == pos {
                    assert(sorted@[b] == sorted_old[b - 1]);
                } else {
                    assert(sorted@[a] == sorted_old[a - 1] && sorted@[b] == sorted_old[b - 1]);
                }
            }
        }
        i = i + 1;
    }
    proof {
        assert(v@.take(v@.len() as int) =~= v@);
    }
    *v = sorted;
}

/// The first occurrences of the extension's keys that the accumulator
/// does not hold yet, in extension order.
pub open spec fn unique_new(ext: Seq<DisputeKey>, acc: Seq<DisputeKey>) -> Seq<DisputeKey>
    decreases ext.len(),
{
    if ext.len() == 0 {
        Seq::empty()
    } else {
        let p = unique_new(ext.drop_last(), acc);
        if !acc.contains(ext.last()) && !ext.drop_last().contains(ext.last()) {
            p.push(ext.last())
        } else {
            p
        }
    }
}

/// The fresh keys are exactly the extension's keys missing from the
/// accumulator, without duplicates.
pub proof fn lemma_unique_new_props(ext: Seq<DisputeKey>, acc: Seq<DisputeKey>)
    ensures
        forall|x: DisputeKey| #[trigger]
            unique_new(ext, acc).contains(x) <==> (ext.contains(x) && !acc.contains(x)),
        unique_new(ext, acc).no_duplicates(),
    decreases ext.len(),
{
    if ext.len() > 0 {
        lemma_unique_new_props(ext.drop_last(), acc);
        let u = unique_new(ext, acc);
        let p = unique_new(ext.drop_last(), acc);
        let e = ext.last();
        assert forall|x: DisputeKey| #[trigger]
            u.contains(x) implies (ext.contains(x) && !acc.contains(x)) by {
            let w = choose|w: int| 0 <= w < u.len() && u[w] == x;
            if w < p.len() {
                assert(p.contains(x));
                let w2 = choose|w2: int|
                    0 <= w2 < ext.drop_last().len() && ext.drop_last()[w2] == x;
                assert(ext[w2] == x);
            } else {
                assert(x == e);
                assert(ext[ext.len() - 1] == x);
            }
        }
        assert forall|x: DisputeKey| ext.contains(x) && !acc.contains(x) implies #[trigger]
            u.contains(x) by {
            let w = choose|w: int| 0 <= w < ext.len() && ext[w] == x;
            if w < ext.len() - 1 {
                assert(ext.drop_last()[w] == x);
                assert(p.contains(x));
                let w2 = choose|w2: int| 0 <= w2 < p.len() && p[w2] == x;
                assert(u[w2] == x);
            } else {
                if ext.drop_last().contains(x) {
                    assert(p.contains(x));
                    let w2 = choose|w2: int| 0 <= w2 < p.len() && p[w2] == x;
                    assert(u[w2] == x);
                } else {
                    assert(u[u.len() - 1] == x);
                }
            }
        }
        assert(u.no_duplicates()) by {
            if !acc.contains(e) && !ext.drop_last().contains(e) {
                assert forall|a: int, b: int| 0 <= a < b < u.len() implies u[a] != u[b] by {
                    if b == u.len() - 1 {
                        assert(u[a] == p[a]);
                        assert(p.contains(p[a]));
                    } else {
                        assert(u[a] == p[a] && u[b] == p[b]);
                    }
                }
            }
        }
    }
}

/// Relies on rand: `rand::thread_rng()` gives the thread's generator and
/// `rand::Rng::gen_range` over `0..n` samples uniformly within the range;
/// it panics on an empty range, which the precondition rules out. Nothing
/// more is assumed of the sample than its bound.
#[verifier::external_body]
fn random_index_below(n: usize) -> (r: usize)
    requires
        n > 0,
    ensures
        r < n,
{
    let mut rng = rand::thread_rng();
    rand::Rng::gen_range(&mut rng, 0..n)
}

/// What one sampler call does: some duplicate-free selection of fresh
/// extension keys was appended to the accumulator, as large as the budget
/// and the fresh pool allow.
pub open spec fn extension_outcome(
    acc0: Seq<DisputeKey>,
    ext: Seq<DisputeKey>,
    n: int,
    picked: Seq<DisputeKey>,
    result: Seq<DisputeKey>,
) -> bool {
    &&& result.to_multiset() == acc0.to_multiset().add(picked.to_multiset())
    &&& picked.no_duplicates()
    &&& forall|x: DisputeKey| #[trigger]
        picked.contains(x) ==> ext.contains(x) && !acc0.contains(x)
    &&& picked.len() == vstd::math::min(n, unique_new(ext, acc0).len() as int)
}

/// Extend the accumulator by up to `n` keys of the extension that it does
/// not hold yet: all of them when they fit, otherwise a uniform random
/// selection without repetition. The result is sorted by session index.
pub fn extend_by_random_subset_without_repetition(
    acc: &mut Vec<DisputeKey>,
    extension: Vec<DisputeKey>,
    n: usize,
)
    ensures
        sorted_by_session(final(acc)@),
        final(acc)@.len() == old(acc)@.len() + vstd::math::min(
            n as int,
            unique_new(extension@, old(acc)@).len() as int,
        ),
        exists|picked: Seq<DisputeKey>|
            extension_outcome(old(acc)@, extension@, n as int, picked, final(acc)@),
        old(acc)@.no_duplicates() ==> final(acc)@.no_duplicates(),
{
    broadcast use vstd::seq_lib::group_to_multiset_ensures;

    let ghost acc0 = acc@;
    let mut fresh: Vec<DisputeKey> = Vec::new();
    let mut i: usize = 0;
    proof {
        assert(extension@.take(0) =~= Seq::<DisputeKey>::empty());
    }
    while i < extension.len()
        invariant
            i <= extension@.len(),
            acc@ == acc0,
            fresh@ == unique_new(extension@.take(i as int), acc0),
        decreases extension@.len() - i,
    {
        proof {
            assert(extension@.take(i + 1).drop_last() =~= extension@.take(i as int));
            assert(extension@.take(i + 1).last() == extension@[i as int]);
            lemma_unique_new_props(extension@.take(i as int), acc0);
        }
        let e = extension[i];
        if !contains_dispute(acc, e) && !contains_dispute(&fresh, e) {
            fresh.push(e);
        }
        i = i + 1;
    }
    proof {
        assert(extension@.take(extension@.len() as int) =~= extension@);
        lemma_unique_new_props(extension@, acc0);
    }
    let ghost fresh_all = fresh@;
    let ghost picked_final: Seq<DisputeKey>;
    if fresh.len() <= n {
        let mut j: usize = 0;
        proof {
            assert(fresh_all.take(0) =~= Seq::<DisputeKey>::empty());
            assert(acc@ =~= acc0 + fresh_all.take(0));
        }
        while j < fresh.len()
            invariant
                j <= fresh_all.len(),
                fresh@ == fresh_all,
                acc@ == acc0 + fresh_all.take(j as int),
            decreases fresh_all.len() - j,
        {
            let ghost acc_before = acc@;
            acc.push(fresh[j]);
            proof {
                assert(acc0 + fresh_all.take(j + 1) =~= acc_before.push(fresh_all[j as int]));
            }
            j = j + 1;
        }
        proof {
            assert(fresh_all.take(fresh_all.len() as int) =~= fresh_all);
            picked_final = fresh_all;
            vstd::seq_lib::lemma_multiset_commutative(acc0, fresh_all);
        }
    } else {
        let ghost mut picked: Seq<DisputeKey> = Seq::empty();
        let mut cnt: usize = 0;
        proof {
            assert(acc@ =~= acc0 + picked);
        }
        while cnt < n
            invariant
                cnt <= n,
                n < fresh_all.len(),
                fresh@.len() == fresh_all.len() - cnt,
                acc@ == acc0 + picked,
                picked.len() == cnt as int,
                picked.no_duplicates(),
                forall|x: DisputeKey| #[trigger]
                    picked.contains(x) ==> fresh_all.contains(x) && !fresh@.contains(x),
                forall|x: DisputeKey| #[trigger] fresh@.contains(x) ==> fresh_all.contains(x),
                fresh@.no_duplicates(),
            decreases n - cnt,
        {
            let idx = random_index_below(fresh.len());
            let ghost fresh_before = fresh@;
            let k = fresh.swap_remove(idx);
            let ghost acc_before = acc@;
            acc.push(k);
            proof {
                let picked_old = picked;
                picked = picked.push(k);
                assert(acc0 + picked =~= acc_before.push(k));
                assert(fresh@ =~= fresh_before.update(idx as int, fresh_before.last()).drop_last());
                assert(fresh_before.contains(k)) by {
                    assert(fresh_before[idx as int] == k);
                }
                assert forall|x: DisputeKey| #[trigger]
                    fresh@.contains(x) implies fresh_before.contains(x) by {
                    let w = choose|w: int| 0 <= w < fresh@.len() && fresh@[w] == x;
                    if w == idx {
                        assert(fresh_before[fresh_before.len() - 1] == x);
                    } else {
                        assert(fresh_before[w] == x);
                    }
                }
                assert(!fresh@.contains(k)) by {
                    if fresh@.contains(k) {
                        let w = choose|w: int| 0 <= w < fresh@.len() && fresh@[w] == k;
                        if w == idx {
                            assert(fresh_before[fresh_before.len() - 1] == fresh_before[idx as int]);
                        } else {
                            assert(fresh_before[w] == fresh_before[idx as int]);
                        }
                    }
                }
                assert(fresh@.no_duplicates()) by {
                    assert forall|a: int, b: int| 0 <= a < b < fresh@.len() implies fresh@[a]
                        != fresh@[b] by {
                        if a == idx {
                            assert(fresh@[a] == fresh_before[fresh_before.len() - 1]);
                            assert(fresh@[b] == fresh_before[b]);
                        } else if b == idx {
                            assert(fresh@[b] == fresh_before[fresh_before.len() - 1]);
                            assert(fresh@[a] == fresh_before[a]);
                        } else {
                            assert(fresh@[a] == fresh_before[a] && fresh@[b] == fresh_before[b]);
                        }
                    }
                }
                assert(picked.no_duplicates()) by {
                    assert forall|a: int, b: int| 0 <= a < b < picked.len() implies picked[a]
                        != picked[b] by {
                        if b == picked.len() - 1 {
                            assert(picked[a] == picked_old[a]);
                            assert(picked_old.contains(picked_old[a]));
                            assert(!fresh_before.contains(picked_old[a]));
                        } else {
                            assert(picked[a] == picked_old[a] && picked[b] == picked_old[b]);
                        }
                    }
                }
                assert forall|x: DisputeKey| #[trigger]
                    picked.contains(x) implies fresh_all.contains(x) && !fresh@.contains(x) by {
                    let w = choose|w: int| 0 <= w < picked.len() && picked[w] == x;
                    if w < picked.len() - 1 {
                        assert(picked_old[w] == x);
                        assert(picked_old.contains(x));
                        assert(!fresh_before.contains(x));
                    } else {
                        assert(x == k);
                    }
                }
            }
            cnt = cnt + 1;
        }
        proof {
            picked_final = picked;
            vstd::seq_lib::lemma_multiset_commutative(acc0, picked);
        }
    }
    proof {
        assert forall|x: DisputeKey| #[trigger] picked_final.contains(x) implies extension@.contains(
            x,
        ) && !acc0.contains(x) by {
            assert(fresh_all.contains(x));
        }
        assert(extension_outcome(acc0, extension@, n as int, picked_final, acc@));
    }
    let ghost presort = acc@;
    sort_by_session(acc);
    proof {
        assert(extension_outcome(acc0, extension@, n as int, picked_final, acc@)) by {
            assert(acc@.to_multiset() == presort.to_multiset());
        }
        vstd::seq_lib::to_multiset_len(acc@);
        vstd::seq_lib::to_multiset_len(acc0);
        vstd::seq_lib::to_multiset_len(picked_final);
        assert(acc@.to_multiset().len() == acc0.to_multiset().len()
            + picked_final.to_multiset().len());
        if acc0.no_duplicates() {
            acc0.lemma_multiset_has_no_duplicates();
            picked_final.lemma_multiset_has_no_duplicates();
            assert forall|x: DisputeKey|
                acc@.to_multiset().contains(x) implies acc@.to_multiset().count(x) == 1 by {
                assert(acc@.to_multiset().count(x) == acc0.to_multiset().count(x)
                    + picked_final.to_multiset().count(x));
                if acc0.to_multiset().count(x) > 0 && picked_final.to_multiset().count(x) > 0 {
                    assert(acc0.contains(x) && picked_final.contains(x));
                } else if acc0.to_multiset().count(x) > 0 {
                    assert(acc0.contains(x));
                } else {
                    assert(picked_final.to_multiset().count(x) > 0);
                    assert(picked_final.contains(x));
                }
            }
            acc@.lemma_multiset_has_no_duplicates_conv();
        }
    }
}

/// Everything the sampler appended came from the accumulator or the
/// extension.
pub proof fn lemma_extension_membership(
    acc0: Seq<DisputeKey>,
    ext: Seq<DisputeKey>,
    n: int,
    result: Seq<DisputeKey>,
)
    requires
        exists|picked: Seq<DisputeKey>| extension_outcome(acc0, ext, n, picked, result),
    ensures
        forall|i: int|
            0 <= i < result.len() ==> acc0.contains(#[trigger] result[i]) || ext.contains(
                result[i],
            ),
{
    broadcast use vstd::seq_lib::group_to_multiset_ensures;
    broadcast use vstd::multiset::group_multiset_axioms;

    let picked = choose|picked: Seq<DisputeKey>| extension_outcome(acc0, ext, n, picked, result);
    assert forall|i: int|
        0 <= i < result.len() implies acc0.contains(#[trigger] result[i]) || ext.contains(
        result[i],
    ) by {
        let x = result[i];
        assert(result.contains(x));
        assert(result.to_multiset().count(x) > 0);
        assert(result.to_multiset().count(x) == acc0.to_multiset().count(x)
            + picked.to_multiset().count(x));
        if acc0.to_multiset().count(x) > 0 {
            assert(acc0.contains(x));
        } else {
            assert(picked.to_multiset().count(x) > 0);
            assert(picked.contains(x));
        }
    }
}

/// Choose which dispute keys to forward: all recent ones when they fit
/// the budget; otherwise the active ones, preferring those the runtime
/// has not seen on-chain, sampled down to the budget where needed and
/// topped up with recent ones where room remains.
pub fn select_dispute_keys(
    recent: Vec<DisputeKey>,
    active: Vec<DisputeKey>,
    onchain: &Vec<DisputeKey>,
) -> (selected: Vec<DisputeKey>)
    ensures
        selected@.len() <= MAX_DISPUTES_FORWARDED_TO_RUNTIME,
        recent@.len() <= MAX_DISPUTES_FORWARDED_TO_RUNTIME ==> selected@ == recent@,
        forall|i: int|
            0 <= i < selected@.len() ==> recent@.contains(#[trigger] selected@[i])
                || active@.contains(selected@[i]),
        recent@.len() > MAX_DISPUTES_FORWARDED_TO_RUNTIME ==> sorted_by_session(selected@),
        (recent@.len() > MAX_DISPUTES_FORWARDED_TO_RUNTIME && active@.len()
            > MAX_DISPUTES_FORWARDED_TO_RUNTIME && unseen_of(active@, onchain@).len()
            > MAX_DISPUTES_FORWARDED_TO_RUNTIME) ==> selected@.len() == vstd::math::min(
            MAX_DISPUTES_FORWARDED_TO_RUNTIME as int,
            unique_new(unseen_of(active@, onchain@), Seq::<DisputeKey>::empty()).len() as int,
        ),
{
    if recent.len() <= MAX_DISPUTES_FORWARDED_TO_RUNTIME {
        proof {
            assert forall|i: int| 0 <= i < recent@.len() implies recent@.contains(
                #[trigger] recent@[i],
            ) by {}
        }
        return recent;
    }
    if active.len() > MAX_DISPUTES_FORWARDED_TO_RUNTIME {
        let (seen, unseen) = partition_by_onchain(&active, onchain);
        proof {
            lemma_partition_props(active@, onchain@);
        }
        if unseen.len() > MAX_DISPUTES_FORWARDED_TO_RUNTIME {
            let ghost unseenv = unseen@;
            let mut subset: Vec<DisputeKey> = Vec::new();
            extend_by_random_subset_without_repetition(
                &mut subset,
                unseen,
                MAX_DISPUTES_FORWARDED_TO_RUNTIME,
            );
            proof {
                lemma_extension_membership(
                    Seq::<DisputeKey>::empty(),
                    unseenv,
                    MAX_DISPUTES_FORWARDED_TO_RUNTIME as int,
                    subset@,
                );
            }
            subset
        } else {
            let ghost unseenv = unseen@;
            let ghost seenv = seen@;
            let n_unseen = unseen.len();
            let mut acc = unseen;
            extend_by_random_subset_without_repetition(
                &mut acc,
                seen,
                MAX_DISPUTES_FORWARDED_TO_RUNTIME - n_unseen,
            );
            proof {
                lemma_extension_membership(
                    unseenv,
                    seenv,
                    MAX_DISPUTES_FORWARDED_TO_RUNTIME - n_unseen,
                    acc@,
                );
            }
            acc
        }
    } else {
        let (seen, unseen) = partition_by_onchain(&recent, onchain);
        proof {
            lemma_partition_props(recent@, onchain@);
        }
        let ghost unseenv = unseen@;
        let ghost seenv = seen@;
        let ghost active0 = active@;
        let n_active = active.len();
        let mut acc = active;
        extend_by_random_subset_without_repetition(
            &mut acc,
            unseen,
            MAX_DISPUTES_FORWARDED_TO_RUNTIME - n_active,
        );
        proof {
            lemma_extension_membership(
                active0,
                unseenv,
                MAX_DISPUTES_FORWARDED_TO_RUNTIME - n_active,
                acc@,
            );
        }
        let ghost acc1 = acc@;
        if acc.len() < MAX_DISPUTES_FORWARDED_TO_RUNTIME {
            let m = acc.len();
            extend_by_random_subset_without_repetition(
                &mut acc,
                seen,
                MAX_DISPUTES_FORWARDED_TO_RUNTIME - m,
            );
            proof {
                lemma_extension_membership(
                    acc1,
                    seenv,
                    MAX_DISPUTES_FORWARDED_TO_RUNTIME - m,
                    acc@,
                );
                assert forall|i: int| 0 <= i < acc@.len() implies recent@.contains(
                    #[trigger] acc@[i],
                ) || active@.contains(acc@[i]) by {
                    if acc1.contains(acc@[i]) {
                        let w = choose|w: int| 0 <= w < acc1.len() && acc1[w] == acc@[i];
                    }
                }
            }
        }
        acc
    }
}

/// A validator's valid-votes shaped as signed dispute statements.
pub open spec fn valid_statements(vs: Seq<Vote>) -> Seq<SignedStatement> {
    vs.map_values(
        |v: Vote|
            SignedStatement {
                statement: DisputeStatement::Valid(v.kind),
                validator_index: v.validator_index,
                signature: v.signature,
            },
    )
}

/// A validator's invalid-votes shaped as signed dispute statements.
pub open spec fn invalid_statements(vs: Seq<Vote>) -> Seq<SignedStatement> {
    vs.map_values(
        |v: Vote|
            SignedStatement {
                statement: DisputeStatement::Invalid(v.kind),
                validator_index: v.validator_index,
                signature: v.signature,
            },
    )
}

/// The statement set of one dispute: the valid statements followed by the
/// invalid ones.
pub open spec fn statement_set_of(r: crate::primitives::VoteRecordView) -> StatementSetView {
    StatementSetView {
        candidate_hash: r.candidate_hash,
        session: r.session,
        statements: valid_statements(r.votes.valid) + invalid_statements(r.votes.invalid),
    }
}

/// Shape every dispute's votes into a statement set for the runtime: per
/// dispute, the valid statements in vote order, then the invalid ones.
pub fn make_dispute_statement_sets(votes: Vec<VoteRecord>) -> (sets: Vec<DisputeStatementSet>)
    ensures
        sets@.len() == votes@.len(),
        forall|i: int|
            0 <= i < votes@.len() ==> (#[trigger] sets@[i])@ == statement_set_of(votes@[i]@),
{
    let mut sets: Vec<DisputeStatementSet> = Vec::new();
    let mut i: usize = 0;
    while i < votes.len()
        invariant
            i <= votes@.len(),
            sets@.len() == i,
            forall|k: int|
                0 <= k < i ==> (#[trigger] sets@[k])@ == statement_set_of(votes@[k]@),
        decreases votes@.len() - i,
    {
        let r = &votes[i];
        let mut stmts: Vec<SignedStatement> = Vec::new();
        let mut j: usize = 0;
        proof {
            assert(valid_statements(r.votes.valid@.take(0)) =~= Seq::<SignedStatement>::empty());
        }
        while j < r.votes.valid.len()
            invariant
                j <= r.votes.valid@.len(),
                stmts@ == valid_statements(r.votes.valid@.take(j as int)),
            decreases r.votes.valid@.len() - j,
        {
            let v = r.votes.valid[j];
            stmts.push(
                SignedStatement {
                    statement: DisputeStatement::Valid(v.kind),
                    validator_index: v.validator_index,
                    signature: v.signature,
                },
            );
            proof {
                assert(valid_statements(r.votes.valid@.take(j + 1)) =~= stmts@);
            }
            j = j + 1;
        }
        proof {
            assert(r.votes.valid@.take(r.votes.valid@.len() as int) =~= r.votes.valid@);
            assert(stmts@ =~= valid_statements(r.votes.valid@) + invalid_statements(
                r.votes.invalid@.take(0),
            ));
        }
        let mut k: usize = 0;
        while k < r.votes.invalid.len()
            invariant
                k <= r.votes.invalid@.len(),
                stmts@ == valid_statements(r.votes.valid@) + invalid_statements(
                    r.votes.invalid@.take(k as int),
                ),
            decreases r.votes.invalid@.len() - k,
        {
            let v = r.votes.invalid[k];
            stmts.push(
                SignedStatement {
                    statement: DisputeStatement::Invalid(v.kind),
                    validator_index: v.validator_index,
                    signature: v.signature,
                },
            );
            proof {
                assert(valid_statements(r.votes.valid@) + invalid_statements(
                    r.votes.invalid@.take(k + 1),
                ) =~= stmts@);
            }
            k = k + 1;
        }
        proof {
            assert(r.votes.invalid@.take(r.votes.invalid@.len() as int) =~= r.votes.invalid@);
        }
        sets.push(
            DisputeStatementSet {
                candidate_hash: r.candidate_hash,
                session: r.session,
                statements: stmts,
            },
        );
        i = i + 1;
    }
    sets
}

} // verus!
