//! The render context: the boundaries of a view, and which of them are being
//! rendered right now.
//!
//! Boundaries nest. While an inner boundary renders, it is the one that
//! receives registrations; the outer boundary sees only the resources that no
//! inner boundary has claimed.

use vstd::prelude::*;
use crate::boundary::{
    is_registered, lemma_with_registered, lemma_without_registered, Boundary, BoundaryMode,
    BoundaryView, ViewVariant,
};
use crate::resource::{ResourceId, ResourceStatus};

verus! {

/// Names a boundary within its render context.
#[derive(Clone, Copy, Debug, PartialEq, Eq, Structural)]
pub struct BoundaryId(pub usize);

/// The mathematical model of a render context.
pub struct ContextView<V> {
    /// Every boundary of the view, by its id.
    pub boundaries: Seq<BoundaryView<V>>,
    /// The boundaries that are being rendered, the innermost last.
    pub open: Seq<BoundaryId>,
}

impl<V> ContextView<V> {
    pub open spec fn initial() -> Self {
        ContextView { boundaries: Seq::empty(), open: Seq::empty() }
    }

    /// No resource is registered with two boundaries at a time.
    pub open spec fn claims_disjoint(self) -> bool {
        forall|a: int, b: int, resource: ResourceId|
            0 <= a < self.boundaries.len() && 0 <= b < self.boundaries.len() && a != b ==> !(
            #[trigger] is_registered(self.boundaries[a].registered, resource)
                && #[trigger] is_registered(self.boundaries[b].registered, resource))
    }

    pub open spec fn wf(self) -> bool {
        &&& forall|i: int| 0 <= i < self.boundaries.len() ==> (#[trigger] self.boundaries[i]).wf()
        &&& forall|i: int| 0 <= i < self.open.len() ==> (#[trigger] self.open[i]).0 < self.boundaries.len()
        &&& forall|i: int, j: int|
            0 <= i < j < self.open.len() ==> #[trigger] self.open[i] != #[trigger] self.open[j]
        &&& self.claims_disjoint()
    }

    pub open spec fn is_open(self, id: BoundaryId) -> bool {
        exists|i: int| 0 <= i < self.open.len() && #[trigger] self.open[i] == id
    }

    /// The boundary that receives registrations, if one is being rendered.
    pub open spec fn innermost(self) -> Option<BoundaryId> {
        if self.open.len() == 0 {
            None
        } else {
            Some(self.open.last())
        }
    }

    /// The boundary with which `resource` is registered, if there is one.
    pub open spec fn is_owner(self, id: BoundaryId, resource: ResourceId) -> bool {
        id.0 < self.boundaries.len() && is_registered(
            self.boundaries[id.0 as int].registered,
            resource,
        )
    }

    pub open spec fn add(self, mode: BoundaryMode) -> Self {
        ContextView { boundaries: self.boundaries.push(BoundaryView::initial(mode)), ..self }
    }

    pub open spec fn can_enter(self, id: BoundaryId) -> bool {
        id.0 < self.boundaries.len() && !self.is_open(id)
    }

    /// Starts a render pass of boundary `id` inside the innermost open one.
    pub open spec fn enter(self, id: BoundaryId) -> Self {
        if self.can_enter(id) {
            ContextView {
                boundaries: self.boundaries.update(
                    id.0 as int,
                    self.boundaries[id.0 as int].begin_pass(),
                ),
                open: self.open.push(id),
            }
        } else {
            self
        }
    }

    /// The innermost open boundary claims `resource`: it leaves every other
    /// boundary. Without an open boundary nothing changes.
    pub open spec fn register(self, resource: ResourceId, status: ResourceStatus) -> Self {
        match self.innermost() {
            None => self,
            Some(top) => ContextView {
                boundaries: Seq::new(
                    self.boundaries.len(),
                    |i: int|
                        if i == top.0 {
                            self.boundaries[i].register(resource, status)
                        } else {
                            self.boundaries[i].unregister(resource)
                        },
                ),
                ..self
            },
        }
    }

    /// Ends the render pass of the innermost open boundary.
    pub open spec fn leave(self, content: V) -> Self {
        match self.innermost() {
            None => self,
            Some(top) => ContextView {
                boundaries: self.boundaries.update(
                    top.0 as int,
                    self.boundaries[top.0 as int].end_pass(content),
                ),
                open: self.open.drop_last(),
            },
        }
    }
}

/// The boundaries of a view and the stack of those being rendered.
pub struct RenderContext<V> {
    boundaries: Vec<Boundary<V>>,
    open: Vec<BoundaryId>,
}

impl<V> View for RenderContext<V> {
    type V = ContextView<V>;

    closed spec fn view(&self) -> ContextView<V> {
        ContextView {
            boundaries: Seq::new(self.boundaries@.len(), |i: int| self.boundaries@[i]@),
            open: self.open@,
        }
    }
}

impl<V> RenderContext<V> {
    /// A context without boundaries.
    pub fn new() -> (c: Self)
        ensures
            c@ == ContextView::<V>::initial(),
            c@.wf(),
    {
        let c = RenderContext { boundaries: Vec::new(), open: Vec::new() };
        assert(c@.boundaries =~= Seq::empty());
        c
    }

    pub fn boundary_count(&self) -> (n: usize)
        ensures
            n == self@.boundaries.len(),
    {
        self.boundaries.len()
    }

    /// Adds a boundary that has not rendered yet and returns its id.
    pub fn add(&mut self, mode: BoundaryMode) -> (id: BoundaryId)
        requires
            old(self)@.wf(),
        ensures
            final(self)@ == old(self)@.add(mode),
            final(self)@.wf(),
            id.0 == old(self)@.boundaries.len(),
    {
        let id = BoundaryId(self.boundaries.len());
        self.boundaries.push(Boundary::new(mode));
        proof {
            let before = old(self)@;
            let after = self@;
            assert(after.boundaries =~= before.boundaries.push(BoundaryView::initial(mode)));
            assert forall|a: int, b: int, resource: ResourceId|
                0 <= a < after.boundaries.len() && 0 <= b < after.boundaries.len() && a
                    != b implies !(#[trigger] is_registered(after.boundaries[a].registered, resource)
                && #[trigger] is_registered(after.boundaries[b].registered, resource)) by {
                if a < before.boundaries.len() && b < before.boundaries.len() {
                    assert(after.boundaries[a] == before.boundaries[a]);
                    assert(after.boundaries[b] == before.boundaries[b]);
                }
            }
        }
        id
    }

    /// The boundary with this id.
    pub fn boundary(&self, id: BoundaryId) -> (b: Option<&Boundary<V>>)
        ensures
            b is Some <==> id.0 < self@.boundaries.len(),
            b matches Some(boundary) ==> boundary@ == self@.boundaries[id.0 as int],
    {
        if id.0 < self.boundaries.len() {
            Some(&self.boundaries[id.0])
        } else {
            None
        }
    }

    pub fn is_open(&self, id: BoundaryId) -> (b: bool)
        ensures
            b == self@.is_open(id),
    {
        let mut i: usize = 0;
        while i < self.open.len()
            invariant
                i <= self.open@.len(),
                forall|j: int| 0 <= j < i ==> #[trigger] self.open@[j] != id,
            decreases self.open@.len() - i,
        {
            if self.open[i].0 == id.0 {
                assert(self@.open[i as int] == id);
                return true;
            }
            i = i + 1;
        }
        false
    }

    /// The boundary that receives registrations right now.
    pub fn innermost(&self) -> (id: Option<BoundaryId>)
        ensures
            id == self@.innermost(),
    {
        let n = self.open.len();
        if n == 0 {
            None
        } else {
            Some(self.open[n - 1])
        }
    }

    /// Starts a render pass of boundary `id`: its registrations of the pass
    /// before are forgotten, and it receives the registrations from now on.
    /// Returns `false`, and changes nothing, for an id that is unknown or
    /// already being rendered.
    pub fn enter(&mut self, id: BoundaryId) -> (entered: bool)
        requires
            old(self)@.wf(),
        ensures
            final(self)@ == old(self)@.enter(id),
            final(self)@.wf(),
            entered == old(self)@.can_enter(id),
    {
        if id.0 >= self.boundaries.len() || self.is_open(id) {
            return false;
        }
        self.boundaries[id.0].begin_pass();
        self.open.push(id);
        proof {
            let before = old(self)@;
            let after = self@;
            assert(after.boundaries =~= before.boundaries.update(
                id.0 as int,
                before.boundaries[id.0 as int].begin_pass(),
            ));
            assert forall|a: int, b: int, resource: ResourceId|
                0 <= a < after.boundaries.len() && 0 <= b < after.boundaries.len() && a
                    != b implies !(#[trigger] is_registered(after.boundaries[a].registered, resource)
                && #[trigger] is_registered(after.boundaries[b].registered, resource)) by {
                if a != id.0 && b != id.0 {
                    assert(after.boundaries[a] == before.boundaries[a]);
                    assert(after.boundaries[b] == before.boundaries[b]);
                }
            }
            assert forall|i: int, j: int| 0 <= i < j < after.open.len() implies #[trigger] after.open[i]
                != #[trigger] after.open[j] by {
                if j < before.open.len() {
                    assert(before.open[i] != before.open[j]);
                } else {
                    assert(before.open[i] != id);
                }
            }
        }
        true
    }

    /// Registers `resource` with the innermost boundary that is being rendered
    /// and returns that boundary. The resource leaves every other boundary.
    /// Returns `None`, and changes nothing, when no boundary is being rendered.
    pub fn register(&mut self, resource: ResourceId, status: ResourceStatus) -> (claimed: Option<
        BoundaryId,
    >)
        requires
            old(self)@.wf(),
        ensures
            final(self)@ == old(self)@.register(resource, status),
            final(self)@.wf(),
            claimed == old(self)@.innermost(),
    {
        let top = match self.innermost() {
            None => {
                return None;
            },
            Some(top) => top,
        };
        let ghost before = self@;
        let mut i: usize = 0;
        while i < self.boundaries.len()
            invariant
                i <= self.boundaries@.len(),
                before == old(self)@,
                before.wf(),
                before.innermost() == Some(top),
                self@.open == before.open,
                self@.boundaries.len() == before.boundaries.len(),
                forall|j: int|
                    0 <= j < i ==> #[trigger] self@.boundaries[j] == before.register(
                        resource,
                        status,
                    ).boundaries[j],
                forall|j: int|
                    i <= j < self@.boundaries.len() ==> #[trigger] self@.boundaries[j]
                        == before.boundaries[j],
            decreases self.boundaries@.len() - i,
        {
            let ghost prior = self@;
            assert(prior.boundaries[i as int] == before.boundaries[i as int]);
            assert(before.boundaries[i as int].wf());
            if i == top.0 {
                self.boundaries[i].register(resource, status);
            } else {
                self.boundaries[i].unregister(resource);
            }
            proof {
                assert forall|j: int| 0 <= j < i + 1 implies #[trigger] self@.boundaries[j]
                    == before.register(resource, status).boundaries[j] by {
                    if j < i {
                        assert(self@.boundaries[j] == prior.boundaries[j]);
                    }
                }
                assert forall|j: int| i + 1 <= j < self@.boundaries.len() implies #[trigger] self@.boundaries[j]
                    == before.boundaries[j] by {
                    assert(self@.boundaries[j] == prior.boundaries[j]);
                }
            }
            i = i + 1;
        }
        proof {
            let after = before.register(resource, status);
            assert(self@.boundaries =~= after.boundaries);
            assert(before.open.last() == top);
            assert forall|k: int| 0 <= k < after.boundaries.len() implies (#[trigger] after.boundaries[k]).wf() by {
                assert(before.boundaries[k].wf());
                lemma_with_registered(before.boundaries[k].registered, resource, status);
                lemma_without_registered(before.boundaries[k].registered, resource);
            }
            assert forall|a: int, b: int, other: ResourceId|
                0 <= a < after.boundaries.len() && 0 <= b < after.boundaries.len() && a
                    != b implies !(#[trigger] is_registered(after.boundaries[a].registered, other)
                && #[trigger] is_registered(after.boundaries[b].registered, other)) by {
                assert(before.boundaries[a].wf());
                assert(before.boundaries[b].wf());
                lemma_with_registered(before.boundaries[a].registered, resource, status);
                lemma_without_registered(before.boundaries[a].registered, resource);
                lemma_with_registered(before.boundaries[b].registered, resource, status);
                lemma_without_registered(before.boundaries[b].registered, resource);
                if is_registered(after.boundaries[a].registered, other) && is_registered(
                    after.boundaries[b].registered,
                    other,
                ) {
                    assert(is_registered(before.boundaries[a].registered, other));
                    assert(is_registered(before.boundaries[b].registered, other));
                }
            }
        }
        Some(top)
    }

    /// Ends the render pass of the innermost boundary with the content that
    /// the pass rendered. Returns that boundary and its decision, or `None`
    /// when no boundary is being rendered.
    pub fn leave(&mut self, content: V) -> (left: Option<(BoundaryId, ViewVariant)>)
        requires
            old(self)@.wf(),
        ensures
            final(self)@ == old(self)@.leave(content),
            final(self)@.wf(),
            match old(self)@.innermost() {
                None => left is None,
                Some(top) => left == Some(
                    (top, old(self)@.boundaries[top.0 as int].decision()),
                ),
            },
    {
        let top = match self.open.pop() {
            None => {
                assert(self@.boundaries =~= old(self)@.boundaries);
                assert(self@.open =~= old(self)@.open);
                return None;
            },
            Some(top) => top,
        };
        proof {
            assert(old(self)@.open.last() == top);
            assert(old(self)@.open[old(self)@.open.len() - 1] == top);
            assert(old(self)@.boundaries[top.0 as int].wf());
        }
        let decision = self.boundaries[top.0].end_pass(content);
        proof {
            let before = old(self)@;
            let after = self@;
            assert(after.boundaries =~= before.boundaries.update(
                top.0 as int,
                before.boundaries[top.0 as int].end_pass(content),
            ));
            assert(after.open =~= before.open.drop_last());
            assert forall|i: int| 0 <= i < after.boundaries.len() implies (#[trigger] after.boundaries[i]).wf() by {
                assert(before.boundaries[i].wf());
            }
            assert forall|i: int| 0 <= i < after.open.len() implies (#[trigger] after.open[i]).0
                < after.boundaries.len() by {
                assert(before.open[i].0 < before.boundaries.len());
            }
            assert forall|i: int, j: int| 0 <= i < j < after.open.len() implies #[trigger] after.open[i]
                != #[trigger] after.open[j] by {
                assert(before.open[i] != before.open[j]);
            }
            assert forall|a: int, b: int, resource: ResourceId|
                0 <= a < after.boundaries.len() && 0 <= b < after.boundaries.len() && a
                    != b implies !(#[trigger] is_registered(after.boundaries[a].registered, resource)
                && #[trigger] is_registered(after.boundaries[b].registered, resource)) by {
                assert(after.boundaries[a].registered == before.boundaries[a].registered);
                assert(after.boundaries[b].registered == before.boundaries[b].registered);
            }
        }
        Some((top, decision))
    }

    /// The boundary with which `resource` is registered, if there is one.
    pub fn owner(&self, resource: ResourceId) -> (id: Option<BoundaryId>)
        requires
            self@.wf(),
        ensures
            id matches Some(b) ==> self@.is_owner(b, resource),
            id is None ==> forall|b: BoundaryId| !self@.is_owner(b, resource),
    {
        let mut i: usize = 0;
        while i < self.boundaries.len()
            invariant
                i <= self.boundaries@.len(),
                self@.wf(),
                forall|j: int|
                    0 <= j < i ==> !is_registered(
                        (#[trigger] self@.boundaries[j]).registered,
                        resource,
                    ),
            decreases self.boundaries@.len() - i,
        {
            assert(self@.boundaries[i as int].wf());
            if self.boundaries[i].is_registered(resource) {
                return Some(BoundaryId(i));
            }
            i = i + 1;
        }
        assert forall|b: BoundaryId| !self@.is_owner(b, resource) by {
            if b.0 < self@.boundaries.len() {
                assert(!is_registered(self@.boundaries[b.0 as int].registered, resource));
            }
        }
        None
    }
}

/// While an inner boundary is being rendered, a registration reaches it and
/// not the boundary around it: afterwards the resource is registered with the
/// inner boundary and with no other.
pub proof fn lemma_inner_boundary_intercepts<V>(
    c: ContextView<V>,
    resource: ResourceId,
    status: ResourceStatus,
)
    requires
        c.wf(),
        c.innermost() is Some,
    ensures
        c.register(resource, status).is_owner(c.innermost()->0, resource),
        forall|other: BoundaryId|
            other != c.innermost()->0 ==> !c.register(resource, status).is_owner(other, resource),
{
    let top = c.innermost()->0;
    let after = c.register(resource, status);
    assert(c.open[c.open.len() - 1] == top);
    assert(c.boundaries[top.0 as int].wf());
    lemma_with_registered(c.boundaries[top.0 as int].registered, resource, status);
    assert forall|other: BoundaryId| other != top implies !after.is_owner(other, resource) by {
        if other.0 < c.boundaries.len() {
            assert(c.boundaries[other.0 as int].wf());
            lemma_without_registered(c.boundaries[other.0 as int].registered, resource);
        }
    }
}

} // verus!
