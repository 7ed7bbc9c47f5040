use attic_queue::recovery::recover;
use attic_queue::resolve::{
    enqueue_all, hashes_to_query, is_listed, is_sig_by, is_signed_by, resolve, select_uploads,
    ArtifactMetadata,
};
use attic_queue::state::WorkState;
use attic_queue::store::WorkStore;
use attic_queue::worker::{claim, finish};

const UPSTREAM: &str = "cache.nixos.org-1";

fn s(x: &str) -> String {
    x.to_string()
}

fn meta(name: &str, sigs: &[&str]) -> ArtifactMetadata {
    ArtifactMetadata {
        path: format!("/nix/store/{name}-pkg"),
        hash: name.to_string(),
        sigs: sigs.iter().map(|x| x.to_string()).collect(),
    }
}

fn sorted_queued(store: &WorkStore) -> Vec<String> {
    let mut q = store.queued();
    q.sort();
    q
}

#[test]
fn state_tags_round_trip() {
    assert_eq!(WorkState::Queued.tag(), 0);
    assert_eq!(WorkState::InProgress.tag(), 1);
    assert_eq!(WorkState::from_tag(0), Some(WorkState::Queued));
    assert_eq!(WorkState::from_tag(1), Some(WorkState::InProgress));
    assert_eq!(WorkState::from_tag(2), None);
    assert_eq!(WorkState::from_tag(255), None);
}

#[test]
fn store_insert_get_remove() {
    let mut st = WorkStore::new();
    assert_eq!(st.len(), 0);
    assert_eq!(st.get(&s("a")), None);
    st.insert(&s("a"), WorkState::Queued);
    st.insert(&s("b"), WorkState::InProgress);
    st.insert(&s("a"), WorkState::InProgress);
    assert_eq!(st.len(), 2);
    assert_eq!(st.get(&s("a")), Some(WorkState::InProgress));
    st.remove(&s("a"));
    assert_eq!(st.get(&s("a")), None);
    assert_eq!(st.get(&s("b")), Some(WorkState::InProgress));
    st.remove(&s("zz"));
    assert_eq!(st.len(), 1);
    assert_eq!(st.keys(), vec![s("b")]);
}

#[test]
fn store_compare_and_swap() {
    let mut st = WorkStore::new();
    assert!(st.compare_and_swap(&s("k"), None, Some(WorkState::Queued)));
    assert!(!st.compare_and_swap(&s("k"), None, Some(WorkState::InProgress)));
    assert_eq!(st.get(&s("k")), Some(WorkState::Queued));
    assert!(!st.compare_and_swap(&s("k"), Some(WorkState::InProgress), None));
    assert!(st.compare_and_swap(&s("k"), Some(WorkState::Queued), None));
    assert_eq!(st.get(&s("k")), None);
    assert_eq!(st.len(), 0);
}

#[test]
fn queued_lists_only_queued_keys() {
    let mut st = WorkStore::new();
    st.insert(&s("a"), WorkState::Queued);
    st.insert(&s("b"), WorkState::InProgress);
    st.insert(&s("c"), WorkState::Queued);
    assert_eq!(sorted_queued(&st), vec![s("a"), s("c")]);
}

#[test]
fn exclusive_claim() {
    let mut st = WorkStore::new();
    st.insert(&s("k"), WorkState::Queued);
    let wins = (0..8).filter(|_| claim(&mut st, &s("k"))).count();
    assert_eq!(wins, 1);
    assert_eq!(st.get(&s("k")), Some(WorkState::InProgress));
    assert!(!claim(&mut st, &s("absent")));
    assert_eq!(st.get(&s("absent")), None);
}

#[test]
fn failed_upload_is_retried() {
    let mut st = WorkStore::new();
    st.insert(&s("k"), WorkState::Queued);
    assert!(claim(&mut st, &s("k")));
    assert!(st.queued().is_empty());
    assert!(finish(&mut st, &s("k"), false));
    assert_eq!(st.get(&s("k")), Some(WorkState::Queued));
    assert_eq!(st.queued(), vec![s("k")]);
    assert!(claim(&mut st, &s("k")));
    assert!(!finish(&mut st, &s("k"), true));
    assert_eq!(st.get(&s("k")), None);
}

#[test]
fn crash_recovery() {
    let mut st = WorkStore::new();
    st.insert(&s("valid"), WorkState::InProgress);
    st.insert(&s("gone"), WorkState::InProgress);
    st.insert(&s("waiting"), WorkState::Queued);
    st.insert(&s("stale"), WorkState::Queued);
    let verdicts = vec![
        (s("valid"), true),
        (s("gone"), false),
        (s("waiting"), true),
        (s("stale"), false),
    ];
    recover(&mut st, &verdicts);
    assert_eq!(st.get(&s("valid")), Some(WorkState::Queued));
    assert_eq!(st.get(&s("gone")), None);
    assert_eq!(st.get(&s("waiting")), Some(WorkState::Queued));
    assert_eq!(st.get(&s("stale")), None);
    assert_eq!(st.len(), 2);
}

#[test]
fn signature_authority() {
    assert!(is_sig_by(&s("cache.nixos.org-1:abc="), &s(UPSTREAM)));
    assert!(!is_sig_by(&s("cache.nixos.org-10:abc="), &s(UPSTREAM)));
    assert!(!is_sig_by(&s("cache.nixos.org-1"), &s(UPSTREAM)));
    assert!(!is_sig_by(&s("other-1:cache.nixos.org-1:x"), &s(UPSTREAM)));
    assert!(is_signed_by(&meta("a", &["mine:x", "cache.nixos.org-1:y"]), &s(UPSTREAM)));
    assert!(!is_signed_by(&meta("a", &["mine:x"]), &s(UPSTREAM)));
    assert!(!is_signed_by(&meta("a", &[]), &s(UPSTREAM)));
}

#[test]
fn listed_strings() {
    let v = vec![s("a"), s("b")];
    assert!(is_listed(&v, &s("b")));
    assert!(!is_listed(&v, &s("c")));
    assert!(!is_listed(&vec![], &s("a")));
}

#[test]
fn query_skips_signed_members() {
    let root = meta("r", &[]);
    let deps = vec![meta("a", &[]), meta("b", &["cache.nixos.org-1:z"]), meta("c", &["me:q"])];
    assert_eq!(hashes_to_query(&root, &deps, &s(UPSTREAM)), vec![s("a"), s("c"), s("r")]);
}

#[test]
fn signed_member_never_enqueued() {
    let root = meta("r", &[]);
    let deps = vec![meta("b", &["cache.nixos.org-1:z"])];
    let missing = vec![s("b"), s("r")];
    assert_eq!(select_uploads(&root, &deps, &s(UPSTREAM), &missing), vec![root.path.clone()]);
    let mut st = WorkStore::new();
    resolve(&mut st, &root, &deps, &s(UPSTREAM), &missing);
    assert_eq!(st.get(&deps[0].path), None);
    assert_eq!(st.get(&root.path), Some(WorkState::Queued));
}

#[test]
fn end_to_end() {
    let root = meta("r", &[]);
    let a = meta("a", &[]);
    let b = meta("b", &["cache.nixos.org-1:sig"]);
    let c = meta("c", &[]);
    let (pa, pc) = (a.path.clone(), c.path.clone());
    let deps = vec![a, b, c];
    let missing = vec![s("a"), s("c")];
    let mut st = WorkStore::new();
    resolve(&mut st, &root, &deps, &s(UPSTREAM), &missing);
    assert_eq!(st.len(), 2);
    assert_eq!(st.get(&pa), Some(WorkState::Queued));
    assert_eq!(st.get(&pc), Some(WorkState::Queued));
    for key in st.queued() {
        assert!(claim(&mut st, &key));
        assert!(!finish(&mut st, &key, true));
    }
    assert_eq!(st.len(), 0);
}

#[test]
fn root_without_dependencies() {
    let root = meta("r", &[]);
    let mut st = WorkStore::new();
    resolve(&mut st, &root, &vec![], &s(UPSTREAM), &vec![s("r")]);
    assert_eq!(st.keys(), vec![root.path.clone()]);
    assert_eq!(st.get(&root.path), Some(WorkState::Queued));
    let mut none = WorkStore::new();
    resolve(&mut none, &root, &vec![], &s(UPSTREAM), &vec![]);
    assert_eq!(none.len(), 0);
}

#[test]
fn idempotent_enqueue() {
    let root = meta("r", &[]);
    let deps = vec![meta("a", &[]), meta("b", &[])];
    let missing = vec![s("a"), s("b"), s("r")];
    let mut st = WorkStore::new();
    resolve(&mut st, &root, &deps, &s(UPSTREAM), &missing);
    assert!(claim(&mut st, &deps[0].path));
    let before = sorted_queued(&st);
    resolve(&mut st, &root, &deps, &s(UPSTREAM), &missing);
    assert_eq!(st.len(), 3);
    assert_eq!(sorted_queued(&st), before);
    assert_eq!(st.get(&deps[0].path), Some(WorkState::InProgress));
    enqueue_all(&mut st, &vec![root.path.clone(), root.path.clone()]);
    assert_eq!(st.len(), 3);
}
