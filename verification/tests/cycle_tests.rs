use suspense_reproduction::boundary::{BoundaryMode, ViewVariant};
use suspense_reproduction::cell::{ReactiveCell, ReaderId, Tracker};
use suspense_reproduction::render::RenderContext;
use suspense_reproduction::resource::{Completion, Resource, ResourceId};
use suspense_reproduction::scope_tree::ScopeTree;

#[test]
fn first_pass_of_transition_is_the_same_as_suspense() {
    for keys in [vec![1u64], vec![1, 2], vec![1, 1, 3]] {
        let mut decisions = Vec::new();
        for mode in [BoundaryMode::Suspense, BoundaryMode::Transition] {
            let mut resource: Resource<u64, String, String> = Resource::new();
            let mut context: RenderContext<()> = RenderContext::new();
            let boundary = context.add(mode);
            for key in &keys {
                resource.observe_key(*key);
            }
            context.enter(boundary);
            context.register(ResourceId(0), resource.status());
            decisions.push(context.leave(()));
        }
        assert_eq!(decisions[0].unwrap().1, ViewVariant::Fallback);
        assert_eq!(decisions[0].unwrap().1, decisions[1].unwrap().1);
    }
}

#[test]
fn a_key_cell_drives_a_resource_inside_nested_boundaries() {
    let page = ReaderId(1);
    let mut tracker = Tracker::new();
    let mut key: ReactiveCell<u64> = ReactiveCell::new(10);
    let mut resource: Resource<u64, String, String> = Resource::new();
    let mut context: RenderContext<String> = RenderContext::new();
    let mut scopes: ScopeTree<&str> = ScopeTree::new();
    let outer = context.add(BoundaryMode::Suspense);
    let inner = context.add(BoundaryMode::Transition);
    let root = scopes.create_root();
    let leaf = scopes.create_child(root).unwrap();
    scopes.register_cleanup(root, "page").unwrap();
    scopes.register_cleanup(leaf, "field").unwrap();

    let mut render = |resource: &mut Resource<u64, String, String>,
                      key: &mut ReactiveCell<u64>,
                      context: &mut RenderContext<String>,
                      tracker: &mut Tracker| {
        context.enter(outer);
        context.enter(inner);
        tracker.enter(page);
        key.track(tracker);
        let started = resource.observe_key(*key.get());
        tracker.leave();
        context.register(ResourceId(0), resource.status());
        let content = match resource.read_latest() {
            Some(Ok(v)) => v.clone(),
            Some(Err(e)) => e.clone(),
            None => String::new(),
        };
        let inner_decision = context.leave(content).unwrap().1;
        let outer_decision = context.leave(String::from("page")).unwrap().1;
        (started, inner_decision, outer_decision)
    };

    // Mount: the inner boundary falls back, the outer one has nothing to wait for.
    let (started, inner_decision, outer_decision) =
        render(&mut resource, &mut key, &mut context, &mut tracker);
    assert_eq!(started, Some(1));
    assert_eq!(inner_decision, ViewVariant::Fallback);
    assert_eq!(outer_decision, ViewVariant::FreshContent);
    assert_eq!(context.owner(ResourceId(0)), Some(inner));

    // The fetch completes: the owner renders again.
    assert_eq!(resource.apply_all(vec![Completion { version: 1, result: Ok("ten".into()) }]), 1);
    let (started, inner_decision, _) = render(&mut resource, &mut key, &mut context, &mut tracker);
    assert_eq!(started, None);
    assert_eq!(inner_decision, ViewVariant::FreshContent);

    // The key changes: the page is told, renders again and keeps the old content.
    assert_eq!(key.set(11), vec![page]);
    let (started, inner_decision, outer_decision) =
        render(&mut resource, &mut key, &mut context, &mut tracker);
    assert_eq!(started, Some(2));
    assert_eq!(inner_decision, ViewVariant::StaleContent);
    assert_eq!(outer_decision, ViewVariant::FreshContent);
    assert_eq!(context.boundary(inner).unwrap().last_good_view(), Some(&"ten".to_string()));

    // A late answer to the first fetch is dropped; the second one is shown.
    assert!(!resource.complete(1, Ok("ten again".into())));
    assert!(resource.complete(2, Ok("eleven".into())));
    let (_, inner_decision, _) = render(&mut resource, &mut key, &mut context, &mut tracker);
    assert_eq!(inner_decision, ViewVariant::FreshContent);
    assert_eq!(context.boundary(inner).unwrap().rendered(&String::new()), "eleven");

    // Unmount.
    assert_eq!(scopes.dispose(root), vec!["field", "page"]);
    assert_eq!(tracker.depth(), 0);
}
