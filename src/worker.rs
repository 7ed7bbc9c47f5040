use vstd::prelude::*;

use crate::state::WorkState;
use crate::store::{cas_result, cas_succeeds, queued_keys, state_of, WorkStore};

verus! {

/// What the store holds after the upload of `k` ends: a confirmed upload
/// removes the key, a failed one puts it back in the queue.
pub open spec fn finish_result(m: Map<Seq<char>, WorkState>, k: Seq<char>, uploaded: bool) -> Map<
    Seq<char>,
    WorkState,
> {
    if uploaded {
        m.remove(k)
    } else {
        m.insert(k, WorkState::Queued)
    }
}

/// The store after `n` successive attempts to claim `k`.
pub open spec fn after_claims(m: Map<Seq<char>, WorkState>, k: Seq<char>, n: nat) -> Map<
    Seq<char>,
    WorkState,
>
    decreases n,
{
    if n == 0 {
        m
    } else {
        let prev = after_claims(m, k, (n - 1) as nat);
        cas_result(prev, k, Some(WorkState::Queued), Some(WorkState::InProgress))
    }
}

/// How many of `n` successive attempts to claim `k` win.
pub open spec fn claim_wins(m: Map<Seq<char>, WorkState>, k: Seq<char>, n: nat) -> nat
    decreases n,
{
    if n == 0 {
        0
    } else {
        let prev = after_claims(m, k, (n - 1) as nat);
        claim_wins(m, k, (n - 1) as nat) + if cas_succeeds(prev, k, Some(WorkState::Queued)) {
            1nat
        } else {
            0nat
        }
    }
}

/// Tries to claim `key` for upload by moving it from `Queued` to
/// `InProgress`. Only the winner may upload; a loser does nothing more.
pub fn claim(store: &mut WorkStore, key: &String) -> (won: bool)
    requires
        old(store).wf(),
    ensures
        final(store).wf(),
        won == (state_of(old(store)@, key@) == Some(WorkState::Queued)),
        final(store)@ == if won {
            old(store)@.insert(key@, WorkState::InProgress)
        } else {
            old(store)@
        },
{
    store.compare_and_swap(key, Some(WorkState::Queued), Some(WorkState::InProgress))
}

/// Records how the upload of a claimed `key` ended, and tells whether the
/// dispatcher must be woken again to retry it.
pub fn finish(store: &mut WorkStore, key: &String, uploaded: bool) -> (wake: bool)
    requires
        old(store).wf(),
    ensures
        final(store).wf(),
        final(store)@ == finish_result(old(store)@, key@, uploaded),
        wake == !uploaded,
{
    if uploaded {
        store.remove(key);
        false
    } else {
        store.insert(key, WorkState::Queued);
        true
    }
}

/// Of any number of successive attempts to claim a queued key, exactly one
/// wins, and the key is then in progress.
pub proof fn lemma_exclusive_claim(m: Map<Seq<char>, WorkState>, k: Seq<char>, n: nat)
    requires
        state_of(m, k) == Some(WorkState::Queued),
        n >= 1,
    ensures
        claim_wins(m, k, n) == 1,
        after_claims(m, k, n) == m.insert(k, WorkState::InProgress),
    decreases n,
{
    let prev = after_claims(m, k, (n - 1) as nat);
    if n > 1 {
        lemma_exclusive_claim(m, k, (n - 1) as nat);
        assert(state_of(prev, k) == Some(WorkState::InProgress));
    } else {
        assert(prev == m);
        assert(claim_wins(m, k, 0) == 0);
    }
}

/// A claimed key whose upload fails is queued again, so the next dispatcher
/// pass lists it and a worker can claim it once more.
pub proof fn lemma_failed_upload_is_retried(m: Map<Seq<char>, WorkState>, k: Seq<char>)
    requires
        state_of(m, k) == Some(WorkState::Queued),
    ensures
        ({
            let claimed = cas_result(m, k, Some(WorkState::Queued), Some(WorkState::InProgress));
            let after = finish_result(claimed, k, false);
            &&& cas_succeeds(m, k, Some(WorkState::Queued))
            &&& state_of(after, k) == Some(WorkState::Queued)
            &&& queued_keys(after).contains(k)
            &&& cas_succeeds(after, k, Some(WorkState::Queued))
        }),
{
}

/// A confirmed upload leaves no work for its key.
pub proof fn lemma_confirmed_upload_is_removed(m: Map<Seq<char>, WorkState>, k: Seq<char>)
    ensures
        state_of(finish_result(m, k, true), k) is None,
        !queued_keys(finish_result(m, k, true)).contains(k),
{
}

} // verus!
