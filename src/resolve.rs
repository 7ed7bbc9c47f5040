use vstd::prelude::*;

use crate::state::WorkState;
use crate::store::{cas_result, WorkStore};

verus! {

/// What the local store reports of one artifact.
pub struct ArtifactMetadata {
    /// The canonical path, the artifact's key in the work store.
    pub path: String,
    /// The content-hash part of the path, by which the remote cache is asked.
    pub hash: String,
    /// The provenance signatures, each written `<key name>:<signature>`.
    pub sigs: Vec<String>,
}

/// Whether signature `s` was made with the key named `authority`.
pub open spec fn sig_by(s: Seq<char>, authority: Seq<char>) -> bool {
    &&& s.len() > authority.len()
    &&& s.subrange(0, authority.len() as int) == authority
    &&& s[authority.len() as int] == ':'
}

/// Whether the artifact carries a signature of `authority`, which then
/// makes it publicly available already.
pub open spec fn signed_by(m: ArtifactMetadata, authority: Seq<char>) -> bool {
    exists|i: int| 0 <= i < m.sigs@.len() && sig_by(m.sigs@[i]@, authority)
}

/// Whether `s` is one of the strings of `v`.
pub open spec fn listed(v: Seq<String>, s: Seq<char>) -> bool {
    exists|i: int| 0 <= i < v.len() && v[i]@ == s
}

/// The closure of a root: its dependencies and the root itself.
pub open spec fn closure_of(root: ArtifactMetadata, deps: Seq<ArtifactMetadata>) -> Seq<
    ArtifactMetadata,
> {
    deps.push(root)
}

/// The hashes of the members of `c` that no trusted upstream has signed, in
/// order: what the remote cache is asked about.
pub open spec fn unsigned_hashes(c: Seq<ArtifactMetadata>, authority: Seq<char>) -> Seq<Seq<char>>
    decreases c.len(),
{
    if c.len() == 0 {
        Seq::empty()
    } else {
        let rest = unsigned_hashes(c.drop_last(), authority);
        if signed_by(c.last(), authority) {
            rest
        } else {
            rest.push(c.last().hash@)
        }
    }
}

/// Whether a closure member is to be uploaded: no trusted upstream signed
/// it and the remote cache reported its hash missing.
pub open spec fn needs_upload(m: ArtifactMetadata, authority: Seq<char>, missing: Seq<String>) -> bool {
    !signed_by(m, authority) && listed(missing, m.hash@)
}

/// The paths of the members of `c` that need an upload, in order.
pub open spec fn uploads(c: Seq<ArtifactMetadata>, authority: Seq<char>, missing: Seq<String>) -> Seq<
    Seq<char>,
>
    decreases c.len(),
{
    if c.len() == 0 {
        Seq::empty()
    } else {
        let rest = uploads(c.drop_last(), authority, missing);
        if needs_upload(c.last(), authority, missing) {
            rest.push(c.last().path@)
        } else {
            rest
        }
    }
}

/// The store after each of `ps` in turn was queued where it had no record.
pub open spec fn enqueued(m: Map<Seq<char>, WorkState>, ps: Seq<Seq<char>>) -> Map<
    Seq<char>,
    WorkState,
>
    decreases ps.len(),
{
    if ps.len() == 0 {
        m
    } else {
        cas_result(enqueued(m, ps.drop_last()), ps.last(), None, Some(WorkState::Queued))
    }
}

/// The views of a sequence of strings.
pub open spec fn views(v: Seq<String>) -> Seq<Seq<char>> {
    v.map_values(|s: String| s@)
}

/// Tells whether signature `sig` was made with the key named `authority`.
pub fn is_sig_by(sig: &String, authority: &String) -> (r: bool)
    ensures
        r == sig_by(sig@, authority@),
{
    let s = sig.as_str();
    let a = authority.as_str();
    let n = a.unicode_len();
    if s.unicode_len() <= n {
        return false;
    }
    let mut i: usize = 0;
    while i < n
        invariant
            n == authority@.len(),
            n < sig@.len(),
            s@ == sig@,
            a@ == authority@,
            i <= n,
            forall|j: int| 0 <= j < i ==> sig@[j] == authority@[j],
        decreases n - i,
    {
        if s.get_char(i) != a.get_char(i) {
            assert(sig@.subrange(0, n as int)[i as int] != authority@[i as int]);
            return false;
        }
        i = i + 1;
    }
    assert(sig@.subrange(0, n as int) =~= authority@);
    s.get_char(n) == ':'
}

/// Tells whether a trusted upstream, whose key is named `authority`, signed
/// the artifact.
pub fn is_signed_by(meta: &ArtifactMetadata, authority: &String) -> (r: bool)
    ensures
        r == signed_by(*meta, authority@),
{
    let mut i: usize = 0;
    while i < meta.sigs.len()
        invariant
            i <= meta.sigs@.len(),
            forall|j: int| 0 <= j < i ==> !sig_by(meta.sigs@[j]@, authority@),
        decreases meta.sigs@.len() - i,
    {
        if is_sig_by(&meta.sigs[i], authority) {
            return true;
        }
        i = i + 1;
    }
    false
}

/// Tells whether `s` is one of the strings of `v`.
pub fn is_listed(v: &Vec<String>, s: &String) -> (r: bool)
    ensures
        r == listed(v@, s@),
{
    let mut i: usize = 0;
    while i < v.len()
        invariant
            i <= v@.len(),
            forall|j: int| 0 <= j < i ==> v@[j]@ != s@,
        decreases v@.len() - i,
    {
        if v[i] == *s {
            return true;
        }
        i = i + 1;
    }
    false
}

/// The hashes of the closure of `root` (its dependencies `deps` and itself)
/// that no trusted upstream signed: what the remote cache is to be asked
/// about.
pub fn hashes_to_query(root: &ArtifactMetadata, deps: &Vec<ArtifactMetadata>, authority: &String) -> (r: Vec<String>)
    ensures
        views(r@) == unsigned_hashes(closure_of(*root, deps@), authority@),
{
    let mut r: Vec<String> = Vec::new();
    let mut i: usize = 0;
    while i < deps.len()
        invariant
            i <= deps@.len(),
            views(r@) == unsigned_hashes(deps@.subrange(0, i as int), authority@),
        decreases deps@.len() - i,
    {
        let ghost before = r@;
        if !is_signed_by(&deps[i], authority) {
            r.push(deps[i].hash.clone());
        }
        assert(deps@.subrange(0, i + 1).drop_last() == deps@.subrange(0, i as int));
        assert(views(r@) =~= unsigned_hashes(deps@.subrange(0, i + 1), authority@));
        i = i + 1;
    }
    assert(deps@.subrange(0, deps@.len() as int) == deps@);
    assert(closure_of(*root, deps@).drop_last() == deps@);
    if !is_signed_by(root, authority) {
        r.push(root.hash.clone());
    }
    assert(views(r@) =~= unsigned_hashes(closure_of(*root, deps@), authority@));
    r
}

/// The paths of the closure of `root` that need an upload: not signed by a
/// trusted upstream and reported `missing` by the remote cache.
pub fn select_uploads(
    root: &ArtifactMetadata,
    deps: &Vec<ArtifactMetadata>,
    authority: &String,
    missing: &Vec<String>,
) -> (r: Vec<String>)
    ensures
        views(r@) == uploads(closure_of(*root, deps@), authority@, missing@),
{
    let mut r: Vec<String> = Vec::new();
    let mut i: usize = 0;
    while i < deps.len()
        invariant
            i <= deps@.len(),
            views(r@) == uploads(deps@.subrange(0, i as int), authority@, missing@),
        decreases deps@.len() - i,
    {
        if !is_signed_by(&deps[i], authority) && is_listed(missing, &deps[i].hash) {
            r.push(deps[i].path.clone());
        }
        assert(deps@.subrange(0, i + 1).drop_last() == deps@.subrange(0, i as int));
        assert(views(r@) =~= uploads(deps@.subrange(0, i + 1), authority@, missing@));
        i = i + 1;
    }
    assert(deps@.subrange(0, deps@.len() as int) == deps@);
    assert(closure_of(*root, deps@).drop_last() == deps@);
    if !is_signed_by(root, authority) && is_listed(missing, &root.hash) {
        r.push(root.path.clone());
    }
    assert(views(r@) =~= uploads(closure_of(*root, deps@), authority@, missing@));
    r
}

/// Queues each of `paths` that has no record yet. A path that is already
/// queued or in progress keeps its record.
pub fn enqueue_all(store: &mut WorkStore, paths: &Vec<String>)
    requires
        old(store).wf(),
    ensures
        final(store).wf(),
        final(store)@ == enqueued(old(store)@, views(paths@)),
{
    let mut i: usize = 0;
    while i < paths.len()
        invariant
            store.wf(),
            i <= paths@.len(),
            store@ == enqueued(old(store)@, views(paths@.subrange(0, i as int))),
        decreases paths@.len() - i,
    {
        store.compare_and_swap(&paths[i], None, Some(WorkState::Queued));
        assert(views(paths@.subrange(0, i + 1)).drop_last() =~= views(paths@.subrange(0, i as int)));
        i = i + 1;
    }
    assert(paths@.subrange(0, paths@.len() as int) == paths@);
}

/// Resolves one root: queues every member of its closure that no trusted
/// upstream signed and that the remote cache reported `missing`, leaving the
/// records that are already there as they are.
pub fn resolve(
    store: &mut WorkStore,
    root: &ArtifactMetadata,
    deps: &Vec<ArtifactMetadata>,
    authority: &String,
    missing: &Vec<String>,
)
    requires
        old(store).wf(),
    ensures
        final(store).wf(),
        final(store)@ == enqueued(old(store)@, uploads(closure_of(*root, deps@), authority@, missing@)),
{
    let paths = select_uploads(root, deps, authority, missing);
    enqueue_all(store, &paths);
}

/// Queueing keeps every record that was there and adds only the given
/// paths, each of which has a record afterwards.
pub proof fn lemma_enqueued(m: Map<Seq<char>, WorkState>, ps: Seq<Seq<char>>)
    ensures
        forall|k: Seq<char>| m.dom().contains(k) ==> #[trigger] enqueued(m, ps).dom().contains(k)
            && enqueued(m, ps)[k] == m[k],
        forall|i: int| 0 <= i < ps.len() ==> enqueued(m, ps).dom().contains(#[trigger] ps[i]),
        forall|k: Seq<char>| #[trigger] enqueued(m, ps).dom().contains(k)
            ==> m.dom().contains(k) || ps.contains(k),
    decreases ps.len(),
{
    if ps.len() > 0 {
        let pre = ps.drop_last();
        lemma_enqueued(m, pre);
        assert forall|k: Seq<char>| m.dom().contains(k) implies #[trigger] enqueued(m, ps).dom().contains(k)
            && enqueued(m, ps)[k] == m[k] by {
            assert(enqueued(m, pre).dom().contains(k));
        }
        assert forall|i: int| 0 <= i < ps.len() implies enqueued(m, ps).dom().contains(#[trigger] ps[i]) by {
            if i < ps.len() - 1 {
                assert(pre[i] == ps[i]);
            }
        }
        assert forall|k: Seq<char>| #[trigger] enqueued(m, ps).dom().contains(k)
            implies m.dom().contains(k) || ps.contains(k) by {
            if k != ps.last() && !m.dom().contains(k) {
                assert(enqueued(m, pre).dom().contains(k));
                assert(pre.contains(k));
                let j = choose|j: int| 0 <= j < pre.len() && pre[j] == k;
                assert(ps[j] == k);
            } else if k == ps.last() {
                assert(ps[ps.len() - 1] == k);
            }
        }
    }
}

/// Queueing paths that all have a record already changes nothing.
pub proof fn lemma_enqueued_present(m: Map<Seq<char>, WorkState>, ps: Seq<Seq<char>>)
    requires
        forall|i: int| 0 <= i < ps.len() ==> m.dom().contains(#[trigger] ps[i]),
    ensures
        enqueued(m, ps) == m,
    decreases ps.len(),
{
    if ps.len() > 0 {
        let pre = ps.drop_last();
        assert forall|i: int| 0 <= i < pre.len() implies m.dom().contains(#[trigger] pre[i]) by {
            assert(pre[i] == ps[i]);
        }
        lemma_enqueued_present(m, pre);
        assert(m.dom().contains(ps[ps.len() - 1]));
    }
}

/// Queueing the same paths twice leaves what queueing them once left, and
/// neither overwrites a record that was there before.
pub proof fn lemma_enqueue_idempotent(m: Map<Seq<char>, WorkState>, ps: Seq<Seq<char>>)
    ensures
        enqueued(enqueued(m, ps), ps) == enqueued(m, ps),
        forall|k: Seq<char>| m.dom().contains(k) ==> #[trigger] enqueued(m, ps).dom().contains(k)
            && enqueued(m, ps)[k] == m[k],
{
    lemma_enqueued(m, ps);
    lemma_enqueued_present(enqueued(m, ps), ps);
}

/// Resolving the same root twice, with the same closure and the same
/// answers from the remote cache, adds nothing the first resolve did not,
/// and no resolve overwrites a record.
pub proof fn lemma_resolve_idempotent(
    m: Map<Seq<char>, WorkState>,
    root: ArtifactMetadata,
    deps: Seq<ArtifactMetadata>,
    authority: Seq<char>,
    missing: Seq<String>,
)
    ensures
        ({
            let ps = uploads(closure_of(root, deps), authority, missing);
            &&& enqueued(enqueued(m, ps), ps) == enqueued(m, ps)
            &&& forall|k: Seq<char>| m.dom().contains(k) ==> #[trigger] enqueued(m, ps).dom().contains(k)
                && enqueued(m, ps)[k] == m[k]
        }),
{
    lemma_enqueue_idempotent(m, uploads(closure_of(root, deps), authority, missing));
}

/// Every path chosen for upload is that of a closure member that needs one.
pub proof fn lemma_uploads_need_upload(c: Seq<ArtifactMetadata>, authority: Seq<char>, missing: Seq<String>, p: Seq<char>)
    requires
        uploads(c, authority, missing).contains(p),
    ensures
        exists|j: int| 0 <= j < c.len() && c[j].path@ == p && needs_upload(#[trigger] c[j], authority, missing),
    decreases c.len(),
{
    let pre = c.drop_last();
    let rest = uploads(pre, authority, missing);
    if rest.contains(p) {
        lemma_uploads_need_upload(pre, authority, missing, p);
        let j = choose|j: int| 0 <= j < pre.len() && pre[j].path@ == p && needs_upload(#[trigger] pre[j], authority, missing);
        assert(c[j] == pre[j]);
    } else {
        assert(c[c.len() - 1] == c.last());
    }
}

/// A closure member signed by the trusted upstream is never queued by a
/// resolve, whatever the remote cache reports missing.
pub proof fn lemma_signed_never_enqueued(
    m: Map<Seq<char>, WorkState>,
    c: Seq<ArtifactMetadata>,
    authority: Seq<char>,
    missing: Seq<String>,
    i: int,
)
    requires
        0 <= i < c.len(),
        signed_by(c[i], authority),
        !m.dom().contains(c[i].path@),
        forall|j: int| 0 <= j < c.len() && #[trigger] c[j].path@ == c[i].path@ ==> j == i,
    ensures
        !enqueued(m, uploads(c, authority, missing)).dom().contains(c[i].path@),
{
    let ps = uploads(c, authority, missing);
    lemma_enqueued(m, ps);
    if ps.contains(c[i].path@) {
        lemma_uploads_need_upload(c, authority, missing, c[i].path@);
    }
}

} // verus!
