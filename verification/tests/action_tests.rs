use suspense_reproduction::action::Action;
use suspense_reproduction::resource::Resource;

#[test]
fn new_action_has_no_result() {
    let a: Action<String, String> = Action::new();
    assert_eq!(a.version(), 0);
    assert_eq!(a.last_result(), None);
}

#[test]
fn dispatch_counts_up() {
    let mut a: Action<String, String> = Action::new();
    assert_eq!(a.dispatch(), 1);
    assert_eq!(a.dispatch(), 2);
    assert_eq!(a.dispatch(), 3);
    assert_eq!(a.version(), 3);
    assert_eq!(a.last_result(), None);
}

#[test]
fn completion_is_stored() {
    let mut a: Action<String, String> = Action::new();
    let v = a.dispatch();
    assert!(a.complete(v, Ok("sent".to_string())));
    assert_eq!(a.last_result(), Some(Ok(&"sent".to_string())));
    let v = a.dispatch();
    assert_eq!(a.last_result(), Some(Ok(&"sent".to_string())));
    assert!(a.complete(v, Err("refused".to_string())));
    assert_eq!(a.last_result(), Some(Err(&"refused".to_string())));
}

#[test]
fn second_of_two_quick_dispatches_wins() {
    let mut a: Action<String, String> = Action::new();
    let first = a.dispatch();
    let second = a.dispatch();
    assert!(!a.complete(first, Ok("first".to_string())));
    assert_eq!(a.last_result(), None);
    assert!(a.complete(second, Ok("second".to_string())));
    assert_eq!(a.last_result(), Some(Ok(&"second".to_string())));
}

#[test]
fn second_wins_when_it_returns_first() {
    let mut a: Action<String, String> = Action::new();
    let first = a.dispatch();
    let second = a.dispatch();
    assert!(a.complete(second, Ok("second".to_string())));
    assert!(!a.complete(first, Ok("first".to_string())));
    assert_eq!(a.last_result(), Some(Ok(&"second".to_string())));
}

#[test]
fn dispatch_refetches_a_resource_keyed_by_the_version() {
    let mut a: Action<(), String> = Action::new();
    let mut r: Resource<u64, String, String> = Resource::new();
    assert_eq!(r.observe_key(a.version()), Some(1));
    r.complete(1, Ok("X".to_string()));
    assert_eq!(r.observe_key(a.version()), None);
    a.dispatch();
    assert_eq!(r.observe_key(a.version()), Some(2));
    assert!(r.is_pending());
    a.dispatch();
    assert_eq!(r.observe_key(a.version()), Some(3));
    assert!(!r.complete(2, Ok("late".to_string())));
    assert!(r.complete(3, Ok("Y".to_string())));
    assert_eq!(r.read(), Some(Ok(&"Y".to_string())));
}
