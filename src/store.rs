use vstd::prelude::*;

use crate::state::WorkState;

verus! {

/// The state recorded for key `k` in `m`, or `None` where `k` is absent.
pub open spec fn state_of(m: Map<Seq<char>, WorkState>, k: Seq<char>) -> Option<WorkState> {
    if m.dom().contains(k) {
        Some(m[k])
    } else {
        None
    }
}

/// `m` with the state of `k` set to `s`; `None` removes the key.
pub open spec fn put(m: Map<Seq<char>, WorkState>, k: Seq<char>, s: Option<WorkState>) -> Map<
    Seq<char>,
    WorkState,
> {
    match s {
        Some(v) => m.insert(k, v),
        None => m.remove(k),
    }
}

/// Whether a compare-and-swap of `k` from `expected` succeeds on `m`.
pub open spec fn cas_succeeds(
    m: Map<Seq<char>, WorkState>,
    k: Seq<char>,
    expected: Option<WorkState>,
) -> bool {
    state_of(m, k) == expected
}

/// What a compare-and-swap of `k` from `expected` to `new` leaves of `m`.
pub open spec fn cas_result(
    m: Map<Seq<char>, WorkState>,
    k: Seq<char>,
    expected: Option<WorkState>,
    new: Option<WorkState>,
) -> Map<Seq<char>, WorkState> {
    if cas_succeeds(m, k, expected) {
        put(m, k, new)
    } else {
        m
    }
}

/// The keys of `m` that are waiting to be claimed.
pub open spec fn queued_keys(m: Map<Seq<char>, WorkState>) -> Set<Seq<char>> {
    Set::new(|k: Seq<char>| m.dom().contains(k) && m[k] == WorkState::Queued)
}

/// One record of the work store.
struct Entry {
    key: String,
    state: WorkState,
}

/// The map from artifact path to pending work state. Every change goes
/// through a method that takes `&mut self`, so a caller that shares the
/// store between tasks makes each call atomic by holding one lock around it;
/// `compare_and_swap` then decides races between claimants.
pub struct WorkStore {
    entries: Vec<Entry>,
}

impl View for WorkStore {
    type V = Map<Seq<char>, WorkState>;

    closed spec fn view(&self) -> Map<Seq<char>, WorkState> {
        Map::new(
            |k: Seq<char>| exists|i: int| 0 <= i < self.entries@.len() && self.entries@[i].key@ == k,
            |k: Seq<char>|
                self.entries@[choose|i: int|
                    0 <= i < self.entries@.len() && self.entries@[i].key@ == k].state,
        )
    }
}

impl WorkStore {
    /// No key is recorded twice.
    pub closed spec fn wf(&self) -> bool {
        forall|i: int, j: int|
            0 <= i < self.entries@.len() && 0 <= j < self.entries@.len() && i != j
                ==> self.entries@[i].key@ != self.entries@[j].key@
    }

    proof fn lemma_at(&self, i: int)
        requires
            self.wf(),
            0 <= i < self.entries@.len(),
        ensures
            self@.dom().contains(self.entries@[i].key@),
            self@[self.entries@[i].key@] == self.entries@[i].state,
    {
        let k = self.entries@[i].key@;
        assert(self@.dom().contains(k));
        let j = choose|j: int| 0 <= j < self.entries@.len() && self.entries@[j].key@ == k;
        assert(i == j);
    }

    /// An empty store.
    pub fn new() -> (r: WorkStore)
        ensures
            r.wf(),
            r@ == Map::<Seq<char>, WorkState>::empty(),
    {
        let r = WorkStore { entries: Vec::new() };
        assert(r@ =~= Map::<Seq<char>, WorkState>::empty());
        r
    }

    /// The number of keys recorded.
    pub fn len(&self) -> (r: usize)
        requires
            self.wf(),
        ensures
            r == self@.dom().len(),
    {
        proof { self.lemma_len(); }
        self.entries.len()
    }

    proof fn lemma_len(&self)
        requires
            self.wf(),
        ensures
            self@.dom().finite(),
            self@.dom().len() == self.entries@.len(),
    {
        let keys = self.entries@.map_values(|e: Entry| e.key@);
        assert(keys.no_duplicates());
        assert forall|k: Seq<char>| self@.dom().contains(k) <==> keys.to_set().contains(k) by {
            if self@.dom().contains(k) {
                let j = choose|j: int| 0 <= j < self.entries@.len() && self.entries@[j].key@ == k;
                assert(keys[j] == k);
            }
            if keys.to_set().contains(k) {
                let j = choose|j: int| 0 <= j < keys.len() && keys[j] == k;
                assert(self.entries@[j].key@ == k);
            }
        }
        assert(self@.dom() =~= keys.to_set());
        keys.unique_seq_to_set();
    }

    fn find(&self, key: &String) -> (r: Option<usize>)
        requires
            self.wf(),
        ensures
            match r {
                Some(i) => i < self.entries@.len() && self.entries@[i as int].key@ == key@,
                None => !self@.dom().contains(key@),
            },
    {
        let mut i: usize = 0;
        while i < self.entries.len()
            invariant
                i <= self.entries@.len(),
                forall|j: int| 0 <= j < i ==> self.entries@[j].key@ != key@,
            decreases self.entries@.len() - i,
        {
            if self.entries[i].key == *key {
                return Some(i);
            }
            i = i + 1;
        }
        None
    }

    /// The state recorded for `key`.
    pub fn get(&self, key: &String) -> (r: Option<WorkState>)
        requires
            self.wf(),
        ensures
            r == state_of(self@, key@),
    {
        match self.find(key) {
            Some(i) => {
                proof { self.lemma_at(i as int); }
                Some(self.entries[i].state)
            },
            None => None,
        }
    }

    /// Records `state` for `key`, replacing what was there.
    pub fn insert(&mut self, key: &String, state: WorkState)
        requires
            old(self).wf(),
        ensures
            final(self).wf(),
            final(self)@ == old(self)@.insert(key@, state),
    {
        let ghost pre = self@;
        match self.find(key) {
            Some(i) => {
                proof { old(self).lemma_at(i as int); }
                self.entries.set(i, Entry { key: key.clone(), state });
                assert forall|k: Seq<char>| #![auto]
                    self@.dom().contains(k) == pre.insert(key@, state).dom().contains(k) by {
                    if pre.dom().contains(k) {
                        let j = choose|j: int| 0 <= j < old(self).entries@.len() && old(self).entries@[j].key@ == k;
                        assert(self.entries@[j].key@ == k);
                    }
                }
                assert forall|k: Seq<char>| #[trigger] self@.dom().contains(k) implies self@[k] == pre.insert(key@, state)[k] by {
                    let j = choose|j: int| 0 <= j < self.entries@.len() && self.entries@[j].key@ == k;
                    self.lemma_at(j);
                    if j != i {
                        old(self).lemma_at(j);
                    }
                }
            },
            None => {
                self.entries.push(Entry { key: key.clone(), state });
                let ghost n: int = self.entries@.len() - 1;
                proof { self.lemma_at(n); }
                assert forall|k: Seq<char>| #![auto]
                    self@.dom().contains(k) == pre.insert(key@, state).dom().contains(k) by {
                    if pre.dom().contains(k) {
                        let j = choose|j: int| 0 <= j < old(self).entries@.len() && old(self).entries@[j].key@ == k;
                        assert(self.entries@[j].key@ == k);
                    }
                }
                assert forall|k: Seq<char>| #[trigger] self@.dom().contains(k) implies self@[k] == pre.insert(key@, state)[k] by {
                    let j = choose|j: int| 0 <= j < self.entries@.len() && self.entries@[j].key@ == k;
                    self.lemma_at(j);
                    if j != n {
                        old(self).lemma_at(j);
                    }
                }
            },
        }
        assert(self@ =~= pre.insert(key@, state));
    }

    /// Drops whatever is recorded for `key`.
    pub fn remove(&mut self, key: &String)
        requires
            old(self).wf(),
        ensures
            final(self).wf(),
            final(self)@ == old(self)@.remove(key@),
    {
        let ghost pre = self@;
        match self.find(key) {
            Some(i) => {
                self.entries.remove(i);
                assert forall|a: int, b: int|
                    0 <= a < self.entries@.len() && 0 <= b < self.entries@.len() && a != b
                        implies self.entries@[a].key@ != self.entries@[b].key@ by {
                    let a0 = if a < i { a } else { a + 1 };
                    let b0 = if b < i { b } else { b + 1 };
                    assert(self.entries@[a] == old(self).entries@[a0]);
                    assert(self.entries@[b] == old(self).entries@[b0]);
                }
                assert forall|k: Seq<char>| #![auto]
                    self@.dom().contains(k) == pre.remove(key@).dom().contains(k) by {
                    if pre.dom().contains(k) && k != key@ {
                        let j = choose|j: int| 0 <= j < old(self).entries@.len() && old(self).entries@[j].key@ == k;
                        let j1 = if j < i { j } else { j - 1 };
                        assert(self.entries@[j1].key@ == k);
                    }
                    if self@.dom().contains(k) {
                        let j = choose|j: int| 0 <= j < self.entries@.len() && self.entries@[j].key@ == k;
                        let j0 = if j < i { j } else { j + 1 };
                        assert(old(self).entries@[j0].key@ == k);
                    }
                }
                assert forall|k: Seq<char>| #[trigger] self@.dom().contains(k) implies self@[k] == pre.remove(key@)[k] by {
                    let j = choose|j: int| 0 <= j < self.entries@.len() && self.entries@[j].key@ == k;
                    let j0 = if j < i { j } else { j + 1 };
                    self.lemma_at(j);
                    old(self).lemma_at(j0);
                }
            },
            None => {},
        }
        assert(self@ =~= pre.remove(key@));
    }

    /// Atomically replaces the state of `key` by `new` if it is `expected`
    /// (`None` standing for an absent key), and tells whether it did.
    pub fn compare_and_swap(
        &mut self,
        key: &String,
        expected: Option<WorkState>,
        new: Option<WorkState>,
    ) -> (r: bool)
        requires
            old(self).wf(),
        ensures
            final(self).wf(),
            r == cas_succeeds(old(self)@, key@, expected),
            final(self)@ == cas_result(old(self)@, key@, expected, new),
    {
        let cur = self.get(key);
        if cur == expected {
            match new {
                Some(s) => self.insert(key, s),
                None => self.remove(key),
            }
            true
        } else {
            false
        }
    }

    /// Every key of the store, each once.
    pub fn keys(&self) -> (r: Vec<String>)
        requires
            self.wf(),
        ensures
            r@.len() == self@.dom().len(),
            forall|i: int, j: int| 0 <= i < j < r@.len() ==> r@[i]@ != r@[j]@,
            forall|k: Seq<char>| self@.dom().contains(k) <==> exists|i: int| 0 <= i < r@.len() && r@[i]@ == k,
    {
        proof { self.lemma_len(); }
        let mut r: Vec<String> = Vec::new();
        let mut i: usize = 0;
        while i < self.entries.len()
            invariant
                self.wf(),
                i <= self.entries@.len(),
                r@.len() == i,
                forall|j: int| 0 <= j < i ==> r@[j]@ == self.entries@[j].key@,
            decreases self.entries@.len() - i,
        {
            r.push(self.entries[i].key.clone());
            i = i + 1;
        }
        assert forall|k: Seq<char>| self@.dom().contains(k) <==> exists|i: int| 0 <= i < r@.len() && r@[i]@ == k by {
            if self@.dom().contains(k) {
                let j = choose|j: int| 0 <= j < self.entries@.len() && self.entries@[j].key@ == k;
                assert(r@[j]@ == k);
            }
        }
        r
    }

    /// The keys that wait to be claimed, each once: what one dispatcher pass
    /// sees when it scans the whole store.
    pub fn queued(&self) -> (r: Vec<String>)
        requires
            self.wf(),
        ensures
            forall|i: int, j: int| 0 <= i < j < r@.len() ==> r@[i]@ != r@[j]@,
            forall|k: Seq<char>| queued_keys(self@).contains(k) <==> exists|i: int| 0 <= i < r@.len() && r@[i]@ == k,
    {
        let mut r: Vec<String> = Vec::new();
        let ghost mut src: Seq<int> = Seq::empty();
        let mut i: usize = 0;
        while i < self.entries.len()
            invariant
                self.wf(),
                i <= self.entries@.len(),
                src.len() == r@.len(),
                forall|a: int| 0 <= a < src.len() ==> 0 <= #[trigger] src[a] < i,
                forall|a: int, b: int| 0 <= a < b < src.len() ==> src[a] < src[b],
                forall|a: int| 0 <= a < src.len() ==> r@[a]@ == self.entries@[#[trigger] src[a]].key@
                    && self.entries@[src[a]].state == WorkState::Queued,
                forall|j: int| 0 <= j < i && self.entries@[j].state == WorkState::Queued
                    ==> exists|a: int| 0 <= a < src.len() && #[trigger] src[a] == j,
            decreases self.entries@.len() - i,
        {
            if self.entries[i].state == WorkState::Queued {
                r.push(self.entries[i].key.clone());
                proof {
                    let old_src = src;
                    src = src.push(i as int);
                    assert forall|j: int| 0 <= j < i + 1 && self.entries@[j].state == WorkState::Queued
                        implies exists|a: int| 0 <= a < src.len() && #[trigger] src[a] == j by {
                        if j < i {
                            let a = choose|a: int| 0 <= a < old_src.len() && #[trigger] old_src[a] == j;
                            assert(src[a] == j);
                        } else {
                            assert(src[old_src.len() as int] == j);
                        }
                    }
                }
            }
            i = i + 1;
        }
        assert forall|x: int, y: int| 0 <= x < y < r@.len() implies r@[x]@ != r@[y]@ by {
            assert(src[x] < src[y]);
        }
        assert forall|k: Seq<char>| queued_keys(self@).contains(k) <==> exists|i: int| 0 <= i < r@.len() && r@[i]@ == k by {
            if queued_keys(self@).contains(k) {
                let j = choose|j: int| 0 <= j < self.entries@.len() && self.entries@[j].key@ == k;
                self.lemma_at(j);
                let a = choose|a: int| 0 <= a < src.len() && #[trigger] src[a] == j;
                assert(r@[a]@ == k);
            }
            if exists|i: int| 0 <= i < r@.len() && r@[i]@ == k {
                let a = choose|a: int| 0 <= a < r@.len() && r@[a]@ == k;
                self.lemma_at(src[a]);
            }
        }
        r
    }
}

} // verus!
