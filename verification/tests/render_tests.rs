use suspense_reproduction::boundary::{BoundaryMode, ViewVariant};
use suspense_reproduction::render::{BoundaryId, RenderContext};
use suspense_reproduction::resource::{Outcome, ResourceId, ResourceStatus};

const READY: ResourceStatus = ResourceStatus { pending: false, latest: Some(Outcome::Ready) };
const LOADING: ResourceStatus = ResourceStatus { pending: true, latest: None };

#[test]
fn registration_without_a_boundary_is_unclaimed() {
    let mut c: RenderContext<u8> = RenderContext::new();
    assert_eq!(c.boundary_count(), 0);
    assert_eq!(c.innermost(), None);
    assert_eq!(c.register(ResourceId(1), READY), None);
    assert_eq!(c.owner(ResourceId(1)), None);
    assert_eq!(c.leave(0), None);
    assert!(c.boundary(BoundaryId(0)).is_none());
}

#[test]
fn boundaries_get_consecutive_ids() {
    let mut c: RenderContext<u8> = RenderContext::new();
    assert_eq!(c.add(BoundaryMode::Suspense), BoundaryId(0));
    assert_eq!(c.add(BoundaryMode::Transition), BoundaryId(1));
    assert_eq!(c.boundary_count(), 2);
    assert_eq!(c.boundary(BoundaryId(1)).unwrap().mode(), BoundaryMode::Transition);
}

#[test]
fn inner_boundary_intercepts_registrations() {
    let mut c: RenderContext<u8> = RenderContext::new();
    let outer = c.add(BoundaryMode::Suspense);
    let inner = c.add(BoundaryMode::Suspense);
    assert!(c.enter(outer));
    assert_eq!(c.register(ResourceId(1), READY), Some(outer));
    assert!(c.enter(inner));
    assert_eq!(c.innermost(), Some(inner));
    assert_eq!(c.register(ResourceId(2), LOADING), Some(inner));
    assert_eq!(c.owner(ResourceId(2)), Some(inner));
    assert_eq!(c.leave(1), Some((inner, ViewVariant::Fallback)));
    assert_eq!(c.innermost(), Some(outer));
    assert_eq!(c.leave(2), Some((outer, ViewVariant::FreshContent)));
    assert_eq!(c.innermost(), None);
    assert_eq!(c.boundary(outer).unwrap().registered_count(), 1);
    assert_eq!(c.boundary(inner).unwrap().registered_count(), 1);
    assert_eq!(c.boundary(outer).unwrap().pending_count(), 0);
    assert_eq!(c.boundary(inner).unwrap().pending_count(), 1);
}

#[test]
fn resource_belongs_to_one_boundary_at_a_time() {
    let mut c: RenderContext<u8> = RenderContext::new();
    let outer = c.add(BoundaryMode::Suspense);
    let inner = c.add(BoundaryMode::Transition);
    c.enter(outer);
    assert_eq!(c.register(ResourceId(1), LOADING), Some(outer));
    assert_eq!(c.owner(ResourceId(1)), Some(outer));
    c.enter(inner);
    assert_eq!(c.register(ResourceId(1), LOADING), Some(inner));
    assert_eq!(c.owner(ResourceId(1)), Some(inner));
    assert!(!c.boundary(outer).unwrap().is_registered(ResourceId(1)));
    assert!(c.boundary(inner).unwrap().is_registered(ResourceId(1)));
    assert_eq!(c.leave(0), Some((inner, ViewVariant::Fallback)));
    assert_eq!(c.leave(0), Some((outer, ViewVariant::FreshContent)));
}

#[test]
fn entering_twice_or_unknown_is_refused() {
    let mut c: RenderContext<u8> = RenderContext::new();
    let b = c.add(BoundaryMode::Suspense);
    assert!(!c.enter(BoundaryId(5)));
    assert!(!c.is_open(b));
    assert!(c.enter(b));
    assert!(c.is_open(b));
    assert!(!c.enter(b));
    assert_eq!(c.leave(0), Some((b, ViewVariant::FreshContent)));
    assert!(!c.is_open(b));
    assert!(c.enter(b));
}

#[test]
fn entering_again_starts_a_fresh_pass() {
    let mut c: RenderContext<u8> = RenderContext::new();
    let b = c.add(BoundaryMode::Suspense);
    c.enter(b);
    c.register(ResourceId(1), LOADING);
    c.register(ResourceId(2), READY);
    assert_eq!(c.leave(1), Some((b, ViewVariant::Fallback)));
    c.enter(b);
    assert_eq!(c.owner(ResourceId(1)), None);
    c.register(ResourceId(2), READY);
    assert_eq!(c.leave(2), Some((b, ViewVariant::FreshContent)));
    assert_eq!(c.boundary(b).unwrap().last_good_view(), Some(&2));
}
