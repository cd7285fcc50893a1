use suspense_reproduction::scope::ScopeId;
use suspense_reproduction::scope_tree::{run_cleanups, ScopeTree};

#[test]
fn child_callbacks_run_before_the_parents() {
    let mut tree: ScopeTree<&str> = ScopeTree::new();
    let a = tree.create_root();
    let b = tree.create_child(a).unwrap();
    assert_eq!(tree.register_cleanup(a, "a1"), Ok(()));
    assert_eq!(tree.register_cleanup(a, "a2"), Ok(()));
    assert_eq!(tree.register_cleanup(b, "b1"), Ok(()));
    assert_eq!(tree.register_cleanup(b, "b2"), Ok(()));
    assert_eq!(tree.dispose(a), vec!["b2", "b1", "a2", "a1"]);
    assert!(!tree.is_live(a));
    assert!(!tree.is_live(b));
}

#[test]
fn ids_count_up_and_parents_are_kept() {
    let mut tree: ScopeTree<u8> = ScopeTree::new();
    assert_eq!(tree.scope_count(), 0);
    let a = tree.create_root();
    let b = tree.create_child(a).unwrap();
    let c = tree.create_root();
    assert_eq!((a, b, c), (ScopeId(0), ScopeId(1), ScopeId(2)));
    assert_eq!(tree.scope_count(), 3);
    assert_eq!(tree.parent(a), None);
    assert_eq!(tree.parent(b), Some(a));
    assert_eq!(tree.parent(c), None);
    assert_eq!(tree.parent(ScopeId(9)), None);
    assert_eq!(tree.child_count(a), 1);
    assert_eq!(tree.child_count(ScopeId(9)), 0);
    assert!(tree.is_live(c));
    assert!(!tree.is_live(ScopeId(3)));
}

#[test]
fn cleanup_runs_once() {
    let mut tree: ScopeTree<u8> = ScopeTree::new();
    let a = tree.create_root();
    let b = tree.create_child(a).unwrap();
    tree.register_cleanup(a, 1).unwrap();
    tree.register_cleanup(b, 2).unwrap();
    assert_eq!(tree.callback_count(a), 1);
    assert_eq!(tree.dispose(a), vec![2, 1]);
    assert_eq!(tree.callback_count(a), 0);
    assert_eq!(tree.dispose(a), Vec::<u8>::new());
    assert_eq!(tree.dispose(b), Vec::<u8>::new());
    assert_eq!(tree.dispose(ScopeId(7)), Vec::<u8>::new());
}

#[test]
fn disposed_child_is_not_torn_down_again_with_its_parent() {
    let mut tree: ScopeTree<&str> = ScopeTree::new();
    let a = tree.create_root();
    let b = tree.create_child(a).unwrap();
    let c = tree.create_child(a).unwrap();
    tree.register_cleanup(a, "a").unwrap();
    tree.register_cleanup(b, "b").unwrap();
    tree.register_cleanup(c, "c").unwrap();
    assert_eq!(tree.dispose(b), vec!["b"]);
    assert_eq!(tree.child_count(a), 1);
    assert!(tree.is_live(a));
    assert!(tree.is_live(c));
    assert_eq!(tree.dispose(a), vec!["c", "a"]);
}

#[test]
fn siblings_are_torn_down_in_creation_order() {
    let mut tree: ScopeTree<&str> = ScopeTree::new();
    let root = tree.create_root();
    let left = tree.create_child(root).unwrap();
    let right = tree.create_child(root).unwrap();
    let deep = tree.create_child(left).unwrap();
    tree.register_cleanup(root, "root1").unwrap();
    tree.register_cleanup(right, "right1").unwrap();
    tree.register_cleanup(deep, "deep1").unwrap();
    tree.register_cleanup(deep, "deep2").unwrap();
    tree.register_cleanup(left, "left1").unwrap();
    tree.register_cleanup(root, "root2").unwrap();
    tree.register_cleanup(right, "right2").unwrap();
    assert_eq!(
        tree.dispose(root),
        vec!["deep2", "deep1", "left1", "right2", "right1", "root2", "root1"]
    );
    for scope in [root, left, right, deep] {
        assert!(!tree.is_live(scope));
        assert_eq!(tree.callback_count(scope), 0);
        assert_eq!(tree.child_count(scope), 0);
    }
}

#[test]
fn disposing_a_subtree_leaves_the_rest() {
    let mut tree: ScopeTree<u32> = ScopeTree::new();
    let root = tree.create_root();
    let left = tree.create_child(root).unwrap();
    let right = tree.create_child(root).unwrap();
    let deep = tree.create_child(left).unwrap();
    let other = tree.create_root();
    tree.register_cleanup(root, 1).unwrap();
    tree.register_cleanup(left, 2).unwrap();
    tree.register_cleanup(right, 3).unwrap();
    tree.register_cleanup(deep, 4).unwrap();
    tree.register_cleanup(other, 5).unwrap();
    assert_eq!(tree.dispose(left), vec![4, 2]);
    assert!(tree.is_live(root) && tree.is_live(right) && tree.is_live(other));
    assert!(!tree.is_live(left) && !tree.is_live(deep));
    assert_eq!(tree.callback_count(right), 1);
    assert_eq!(tree.dispose(root), vec![3, 1]);
    assert_eq!(tree.dispose(other), vec![5]);
}

#[test]
fn disposed_scope_takes_nothing_more() {
    let mut tree: ScopeTree<String> = ScopeTree::new();
    let a = tree.create_root();
    tree.dispose(a);
    assert_eq!(tree.register_cleanup(a, "late".to_string()), Err("late".to_string()));
    assert_eq!(tree.register_cleanup(ScopeId(4), "lost".to_string()), Err("lost".to_string()));
    assert_eq!(tree.create_child(a), None);
    assert_eq!(tree.create_child(ScopeId(4)), None);
    assert_eq!(tree.scope_count(), 1);
}

#[test]
fn failing_callback_does_not_stop_the_rest() {
    let mut tree: ScopeTree<fn() -> Result<u8, String>> = ScopeTree::new();
    let a = tree.create_root();
    let b = tree.create_child(a).unwrap();
    fn fine() -> Result<u8, String> {
        Ok(1)
    }
    fn broken() -> Result<u8, String> {
        Err("broken".to_string())
    }
    assert!(tree.register_cleanup(a, fine).is_ok());
    assert!(tree.register_cleanup(b, broken).is_ok());
    assert!(tree.register_cleanup(b, fine).is_ok());
    let outcomes: Vec<Result<u8, String>> = tree.dispose(a).into_iter().map(|f| f()).collect();
    assert_eq!(outcomes, vec![Ok(1), Err("broken".to_string()), Ok(1)]);
}

#[test]
fn runner_passes_over_failures() {
    let mut tree: ScopeTree<Box<dyn FnOnce() -> bool>> = ScopeTree::new();
    let a = tree.create_root();
    let b = tree.create_child(a).unwrap();
    assert!(tree.register_cleanup(a, Box::new(|| true)).is_ok());
    assert!(tree.register_cleanup(b, Box::new(|| false)).is_ok());
    assert!(tree.register_cleanup(b, Box::new(|| true)).is_ok());
    let outcomes = run_cleanups(tree.dispose(a), |callback: Box<dyn FnOnce() -> bool>| callback());
    assert_eq!(outcomes, vec![true, false, true]);
    assert_eq!(run_cleanups(Vec::<u8>::new(), |_| true), Vec::<bool>::new());
}
