use suspense_reproduction::resource::{
    Completion, Outcome, Resource, ResourceState, ResourceStatus,
};

fn text(s: &str) -> String {
    s.to_string()
}

#[test]
fn new_resource_has_not_started() {
    let r: Resource<u64, String, String> = Resource::new();
    assert_eq!(r.key_version(), 0);
    assert_eq!(r.key(), None);
    assert!(!r.is_pending());
    assert_eq!(r.state(), ResourceState::NotStarted);
    assert_eq!(r.read(), None);
    assert_eq!(r.read_latest(), None);
    assert_eq!(r.status(), ResourceStatus { pending: false, latest: None });
}

#[test]
fn first_key_starts_a_fetch() {
    let mut r: Resource<u64, String, String> = Resource::new();
    assert_eq!(r.observe_key(7), Some(1));
    assert_eq!(r.key_version(), 1);
    assert_eq!(r.key(), Some(&7));
    assert!(r.is_pending());
    assert_eq!(r.state(), ResourceState::Pending { started_version: 1 });
    assert_eq!(r.read(), None);
    assert_eq!(r.status(), ResourceStatus { pending: true, latest: None });
}

#[test]
fn unit_key_is_observed_once() {
    let mut r: Resource<(), String, String> = Resource::new();
    assert_eq!(r.observe_key(()), Some(1));
    assert_eq!(r.observe_key(()), None);
    assert_eq!(r.observe_key(()), None);
    assert_eq!(r.key_version(), 1);
}

#[test]
fn equal_key_does_not_refetch() {
    let mut r: Resource<String, String, String> = Resource::new();
    assert_eq!(r.observe_key(text("a")), Some(1));
    assert!(r.complete(1, Ok(text("A"))));
    assert_eq!(r.observe_key(text("a")), None);
    assert_eq!(r.key_version(), 1);
    assert!(!r.is_pending());
    assert_eq!(r.read(), Some(Ok(&text("A"))));
}

#[test]
fn key_version_grows_by_one_per_new_key() {
    let mut r: Resource<u64, String, String> = Resource::new();
    let mut seen: Vec<u64> = Vec::new();
    for key in [5u64, 5, 6, 6, 6, 5, 9] {
        r.observe_key(key);
        seen.push(r.key_version());
    }
    assert_eq!(seen, vec![1, 1, 2, 2, 2, 3, 4]);
    assert_eq!(r.state(), ResourceState::Pending { started_version: 4 });
}

#[test]
fn completion_under_current_version_is_applied() {
    let mut r: Resource<u64, String, String> = Resource::new();
    let version = r.observe_key(1).unwrap();
    assert!(r.complete(version, Ok(text("X"))));
    assert!(!r.is_pending());
    assert_eq!(r.state(), ResourceState::Ready { value: &text("X"), version: 1 });
    assert_eq!(r.read(), Some(Ok(&text("X"))));
    assert_eq!(r.read_latest(), Some(Ok(&text("X"))));
    assert_eq!(r.status(), ResourceStatus { pending: false, latest: Some(Outcome::Ready) });
}

#[test]
fn failed_fetch_is_state_not_panic() {
    let mut r: Resource<u64, String, String> = Resource::new();
    let version = r.observe_key(1).unwrap();
    assert!(r.complete(version, Err(text("boom"))));
    assert_eq!(r.state(), ResourceState::Failed { error: &text("boom"), version: 1 });
    assert_eq!(r.read(), Some(Err(&text("boom"))));
    assert_eq!(r.status(), ResourceStatus { pending: false, latest: Some(Outcome::Failed) });
}

#[test]
fn stale_completion_changes_nothing() {
    let mut r: Resource<u64, String, String> = Resource::new();
    let first = r.observe_key(1).unwrap();
    let second = r.observe_key(2).unwrap();
    assert_eq!((first, second), (1, 2));
    assert!(!r.complete(first, Ok(text("old"))));
    assert_eq!(r.key_version(), 2);
    assert!(r.is_pending());
    assert_eq!(r.state(), ResourceState::Pending { started_version: 2 });
    assert_eq!(r.read(), None);
    assert_eq!(r.read_latest(), None);
    assert!(r.complete(second, Ok(text("new"))));
    assert!(!r.complete(first, Ok(text("old again"))));
    assert_eq!(r.read(), Some(Ok(&text("new"))));
    assert_eq!(r.state(), ResourceState::Ready { value: &text("new"), version: 2 });
}

#[test]
fn completion_from_the_future_is_dropped() {
    let mut r: Resource<u64, String, String> = Resource::new();
    r.observe_key(1);
    assert!(!r.complete(5, Ok(text("never asked"))));
    assert_eq!(r.state(), ResourceState::Pending { started_version: 1 });
}

#[test]
fn last_result_stays_readable_while_refetching() {
    let mut r: Resource<u64, String, String> = Resource::new();
    let v1 = r.observe_key(1).unwrap();
    r.complete(v1, Ok(text("X")));
    let v2 = r.observe_key(2).unwrap();
    assert_eq!(v2, 2);
    assert_eq!(r.state(), ResourceState::Pending { started_version: 2 });
    assert_eq!(r.read(), None);
    assert_eq!(r.read_latest(), Some(Ok(&text("X"))));
    assert_eq!(r.status(), ResourceStatus { pending: true, latest: Some(Outcome::Ready) });
    r.complete(v2, Err(text("down")));
    assert_eq!(r.read_latest(), Some(Err(&text("down"))));
    assert_eq!(r.status(), ResourceStatus { pending: false, latest: Some(Outcome::Failed) });
}

#[test]
fn completions_may_arrive_in_any_order() {
    let run = |order: Vec<Completion<String, String>>| {
        let mut r: Resource<u64, String, String> = Resource::new();
        r.observe_key(1);
        r.observe_key(2);
        r.observe_key(3);
        let applied = r.apply_all(order);
        (applied, r.read().map(|x| x.map(|v| v.clone()).map_err(|e| e.clone())), r.key_version())
    };
    let c = |version: u64, value: &str| Completion { version, result: Ok(text(value)) };
    let forward = run(vec![c(1, "one"), c(2, "two"), c(3, "three")]);
    let backward = run(vec![c(3, "three"), c(2, "two"), c(1, "one")]);
    let mixed = run(vec![c(2, "two"), c(3, "three"), c(1, "one")]);
    assert_eq!(forward, (1, Some(Ok(text("three"))), 3));
    assert_eq!(backward, forward);
    assert_eq!(mixed, forward);
}

#[test]
fn apply_all_counts_what_it_applied() {
    let mut r: Resource<u64, String, String> = Resource::new();
    r.observe_key(1);
    assert_eq!(r.apply_all(Vec::new()), 0);
    assert!(r.is_pending());
    let applied = r.apply_all(vec![
        Completion { version: 0, result: Ok(text("zero")) },
        Completion { version: 1, result: Ok(text("first")) },
        Completion { version: 1, result: Err(text("second")) },
        Completion { version: 2, result: Ok(text("third")) },
    ]);
    assert_eq!(applied, 2);
    assert_eq!(r.read(), Some(Err(&text("second"))));
}

#[test]
fn state_always_carries_the_current_version() {
    let mut r: Resource<u64, String, String> = Resource::new();
    for step in 1u64..20 {
        if let Some(v) = r.observe_key(step / 3) {
            assert_eq!(v, r.key_version());
        }
        if step % 4 == 0 {
            r.complete(r.key_version(), Ok(text("v")));
        }
        if step % 5 == 0 {
            r.complete(r.key_version() - 1, Ok(text("stale")));
        }
        match r.state() {
            ResourceState::NotStarted => panic!("a key was observed"),
            ResourceState::Pending { started_version } => {
                assert_eq!(started_version, r.key_version())
            }
            ResourceState::Ready { version, value } => {
                assert_eq!(version, r.key_version());
                assert_eq!(value, "v");
            }
            ResourceState::Failed { .. } => panic!("nothing failed"),
        }
    }
}

#[test]
fn key_function_is_observed() {
    let mut r: Resource<String, String, String> = Resource::new();
    let source = text("page-1");
    assert_eq!(r.observe_from(|| source.clone()), Some(1));
    assert_eq!(r.key(), Some(&text("page-1")));
    assert_eq!(r.observe_from(|| source.clone()), None);
    assert_eq!(r.observe_from(|| text("page-2")), Some(2));
    assert_eq!(r.key(), Some(&text("page-2")));
}

#[test]
fn only_the_version_decides_what_is_applied() {
    let mut r: Resource<u64, String, String> = Resource::new();
    let version = r.observe_key(1).unwrap();
    assert!(r.complete(version, Ok(text("first"))));
    assert!(r.complete(version, Err(text("second"))));
    assert_eq!(r.state(), ResourceState::Failed { error: &text("second"), version: 1 });
    assert_eq!(r.key_version(), 1);
}
