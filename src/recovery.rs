use vstd::prelude::*;

use crate::state::WorkState;
use crate::store::{state_of, WorkStore};

verus! {

/// What boot-time recovery makes of one record, given whether its artifact
/// still exists in the local store.
pub open spec fn recover_one(m: Map<Seq<char>, WorkState>, k: Seq<char>, present: bool) -> Map<
    Seq<char>,
    WorkState,
> {
    if !present {
        m.remove(k)
    } else if state_of(m, k) == Some(WorkState::InProgress) {
        m.insert(k, WorkState::Queued)
    } else {
        m
    }
}

/// The store after recovery has applied each verdict `(key, present)` in turn.
pub open spec fn recovered(m: Map<Seq<char>, WorkState>, vs: Seq<(String, bool)>) -> Map<
    Seq<char>,
    WorkState,
>
    decreases vs.len(),
{
    if vs.len() == 0 {
        m
    } else {
        recover_one(recovered(m, vs.drop_last()), vs.last().0@, vs.last().1)
    }
}

/// Whether some verdict in `vs` says that `k` is gone from the local store.
pub open spec fn reported_gone(vs: Seq<(String, bool)>, k: Seq<char>) -> bool {
    exists|i: int| 0 <= i < vs.len() && vs[i].0@ == k && !vs[i].1
}

/// Whether some verdict in `vs` says that `k` is still in the local store.
pub open spec fn reported_present(vs: Seq<(String, bool)>, k: Seq<char>) -> bool {
    exists|i: int| 0 <= i < vs.len() && vs[i].0@ == k && vs[i].1
}

/// The state of `k` once recovery is done: gone if its artifact is gone,
/// queued again if it was in progress and its artifact is still there,
/// untouched otherwise.
pub open spec fn recovered_state(m: Map<Seq<char>, WorkState>, vs: Seq<(String, bool)>, k: Seq<char>) -> Option<
    WorkState,
> {
    if reported_gone(vs, k) {
        None
    } else if reported_present(vs, k) && state_of(m, k) == Some(WorkState::InProgress) {
        Some(WorkState::Queued)
    } else {
        state_of(m, k)
    }
}

/// Recovery resets every in-progress record of a present artifact to
/// queued and drops every record of an artifact that is gone.
pub proof fn lemma_recovery(m: Map<Seq<char>, WorkState>, vs: Seq<(String, bool)>, k: Seq<char>)
    ensures
        state_of(recovered(m, vs), k) == recovered_state(m, vs, k),
    decreases vs.len(),
{
    if vs.len() > 0 {
        let pre = vs.drop_last();
        lemma_recovery(m, pre, k);
        let last = vs.last();
        if reported_gone(pre, k) {
            let i = choose|i: int| 0 <= i < pre.len() && pre[i].0@ == k && !pre[i].1;
            assert(vs[i] == pre[i]);
        }
        if reported_present(pre, k) {
            let i = choose|i: int| 0 <= i < pre.len() && pre[i].0@ == k && pre[i].1;
            assert(vs[i] == pre[i]);
        }
        if reported_gone(vs, k) && last.0@ != k {
            let i = choose|i: int| 0 <= i < vs.len() && vs[i].0@ == k && !vs[i].1;
            assert(pre[i] == vs[i]);
        }
        if reported_present(vs, k) && last.0@ != k {
            let i = choose|i: int| 0 <= i < vs.len() && vs[i].0@ == k && vs[i].1;
            assert(pre[i] == vs[i]);
        }
        if last.0@ == k && last.1 {
            assert(vs[vs.len() - 1] == last);
            if reported_gone(vs, k) {
                let i = choose|i: int| 0 <= i < vs.len() && vs[i].0@ == k && !vs[i].1;
                assert(pre[i] == vs[i]);
            }
        }
        if last.0@ == k && !last.1 {
            assert(vs[vs.len() - 1] == last);
        }
    }
}

/// Reconciles the store with the local artifact store at boot, before any
/// work starts: `verdicts` gives for each stored key whether its artifact
/// still exists.
pub fn recover(store: &mut WorkStore, verdicts: &Vec<(String, bool)>)
    requires
        old(store).wf(),
    ensures
        final(store).wf(),
        final(store)@ == recovered(old(store)@, verdicts@),
        forall|k: Seq<char>| #[trigger] state_of(final(store)@, k) == recovered_state(old(store)@, verdicts@, k),
{
    let mut i: usize = 0;
    while i < verdicts.len()
        invariant
            store.wf(),
            i <= verdicts@.len(),
            store@ == recovered(old(store)@, verdicts@.subrange(0, i as int)),
        decreases verdicts@.len() - i,
    {
        let key = &verdicts[i].0;
        if !verdicts[i].1 {
            store.remove(key);
        } else {
            store.compare_and_swap(key, Some(WorkState::InProgress), Some(WorkState::Queued));
        }
        assert(verdicts@.subrange(0, i + 1).drop_last() == verdicts@.subrange(0, i as int));
        i = i + 1;
    }
    assert(verdicts@.subrange(0, verdicts@.len() as int) == verdicts@);
    assert forall|k: Seq<char>| #[trigger] state_of(store@, k) == recovered_state(old(store)@, verdicts@, k) by {
        lemma_recovery(old(store)@, verdicts@, k);
    }
}

} // verus!
