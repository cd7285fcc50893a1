//! Boundaries: what to show while the resources below are loading.
//!
//! A boundary collects the resources that were touched during its latest
//! render pass and decides from their states alone whether to show the
//! fallback, the content rendered earlier, or the content rendered now.

use vstd::prelude::*;
use crate::resource::{Outcome, ResourceId, ResourceStatus, ResourceView};

verus! {

/// The two kinds of boundary. They differ only in what counts as usable: a
/// suspense boundary wants the result for the current key, a transition
/// boundary is content with an earlier one.
#[derive(Clone, Copy, Debug, PartialEq, Eq, Structural)]
pub enum BoundaryMode {
    Suspense,
    Transition,
}

/// What a boundary tells the renderer to show.
#[derive(Clone, Copy, Debug, PartialEq, Eq, Structural)]
pub enum ViewVariant {
    Fallback,
    StaleContent,
    FreshContent,
    ErrorContent,
}

/// Where a boundary stands within a render pass.
#[derive(Clone, Copy, Debug, PartialEq, Eq, Structural)]
pub enum BoundaryState {
    Empty,
    Resolving,
    Ready,
    ErrorShown,
}

/// A resource that was touched during a render pass, with its status then.
#[derive(Clone, Copy, Debug, PartialEq, Eq, Structural)]
pub struct Registration {
    pub resource: ResourceId,
    pub status: ResourceStatus,
}

/// Whether a resource in this status has a value that the mode can show.
pub open spec fn usable(mode: BoundaryMode, status: ResourceStatus) -> bool {
    match mode {
        BoundaryMode::Suspense => !status.pending && status.latest is Some,
        BoundaryMode::Transition => status.latest is Some,
    }
}

pub open spec fn all_usable(mode: BoundaryMode, regs: Seq<Registration>) -> bool {
    forall|i: int| 0 <= i < regs.len() ==> usable(mode, #[trigger] regs[i].status)
}

pub open spec fn any_pending(regs: Seq<Registration>) -> bool {
    exists|i: int| 0 <= i < regs.len() && (#[trigger] regs[i]).status.pending
}

pub open spec fn any_failed(regs: Seq<Registration>) -> bool {
    exists|i: int| 0 <= i < regs.len() && (#[trigger] regs[i]).status.latest == Some(Outcome::Failed)
}

/// The decision of a boundary of this mode over exactly these registrations.
pub open spec fn decide(mode: BoundaryMode, regs: Seq<Registration>) -> ViewVariant {
    if !all_usable(mode, regs) {
        ViewVariant::Fallback
    } else if any_pending(regs) {
        ViewVariant::StaleContent
    } else if any_failed(regs) {
        ViewVariant::ErrorContent
    } else {
        ViewVariant::FreshContent
    }
}

pub open spec fn state_of(mode: BoundaryMode, regs: Seq<Registration>) -> BoundaryState {
    if regs.len() == 0 {
        BoundaryState::Empty
    } else {
        match decide(mode, regs) {
            ViewVariant::Fallback => BoundaryState::Resolving,
            ViewVariant::ErrorContent => BoundaryState::ErrorShown,
            _ => BoundaryState::Ready,
        }
    }
}

/// How many of the registered resources have a fetch in flight.
pub open spec fn count_pending(regs: Seq<Registration>) -> nat
    decreases regs.len(),
{
    if regs.len() == 0 {
        0
    } else {
        let rest = count_pending(regs.drop_last());
        if regs.last().status.pending {
            rest + 1
        } else {
            rest
        }
    }
}

pub open spec fn is_registered(regs: Seq<Registration>, resource: ResourceId) -> bool {
    exists|i: int| 0 <= i < regs.len() && (#[trigger] regs[i]).resource == resource
}

/// No resource is registered twice.
pub open spec fn distinct(regs: Seq<Registration>) -> bool {
    forall|i: int, j: int|
        0 <= i < j < regs.len() ==> (#[trigger] regs[i]).resource != (#[trigger] regs[j]).resource
}

/// The place of `resource` among the registrations.
pub open spec fn slot_of(regs: Seq<Registration>, resource: ResourceId) -> int {
    choose|i: int| 0 <= i < regs.len() && (#[trigger] regs[i]).resource == resource
}

/// Registers `resource`, or brings its status up to date where it is
/// registered already.
pub open spec fn with_registered(
    regs: Seq<Registration>,
    resource: ResourceId,
    status: ResourceStatus,
) -> Seq<Registration> {
    if is_registered(regs, resource) {
        regs.update(slot_of(regs, resource), Registration { resource, status })
    } else {
        regs.push(Registration { resource, status })
    }
}

pub open spec fn without_registered(regs: Seq<Registration>, resource: ResourceId) -> Seq<
    Registration,
> {
    if is_registered(regs, resource) {
        regs.remove(slot_of(regs, resource))
    } else {
        regs
    }
}

/// The mathematical model of a boundary.
pub struct BoundaryView<V> {
    pub mode: BoundaryMode,
    /// The resources touched during the current render pass, in order.
    pub registered: Seq<Registration>,
    /// The content that was rendered while everything was usable.
    pub last_good_view: Option<V>,
    /// The decision at the end of the latest render pass.
    pub shown: ViewVariant,
}

impl<V> BoundaryView<V> {
    pub open spec fn initial(mode: BoundaryMode) -> Self {
        BoundaryView {
            mode,
            registered: Seq::empty(),
            last_good_view: None,
            shown: ViewVariant::Fallback,
        }
    }

    pub open spec fn wf(self) -> bool {
        &&& distinct(self.registered)
        &&& self.shown != ViewVariant::Fallback ==> self.last_good_view is Some
    }

    pub open spec fn begin_pass(self) -> Self {
        BoundaryView { registered: Seq::empty(), ..self }
    }

    pub open spec fn register(self, resource: ResourceId, status: ResourceStatus) -> Self {
        BoundaryView { registered: with_registered(self.registered, resource, status), ..self }
    }

    pub open spec fn unregister(self, resource: ResourceId) -> Self {
        BoundaryView { registered: without_registered(self.registered, resource), ..self }
    }

    pub open spec fn decision(self) -> ViewVariant {
        decide(self.mode, self.registered)
    }

    /// Ends the pass with the content that was rendered during it. Fresh and
    /// error content replace the last good view. Stale content keeps it. A
    /// suspense boundary that falls back drops it.
    pub open spec fn end_pass(self, content: V) -> Self {
        let decision = self.decision();
        BoundaryView {
            shown: decision,
            last_good_view: match decision {
                ViewVariant::FreshContent | ViewVariant::ErrorContent => Some(content),
                ViewVariant::StaleContent => if self.last_good_view is Some {
                    self.last_good_view
                } else {
                    Some(content)
                },
                ViewVariant::Fallback => match self.mode {
                    BoundaryMode::Suspense => None,
                    BoundaryMode::Transition => self.last_good_view,
                },
            },
            ..self
        }
    }

    /// What is on screen after the latest pass.
    pub open spec fn rendered(self, fallback: V) -> V {
        if self.shown == ViewVariant::Fallback {
            fallback
        } else {
            self.last_good_view->0
        }
    }
}

/// Registering keeps the registrations distinct, and afterwards exactly the
/// resources registered before and `resource` are registered.
pub proof fn lemma_with_registered(
    regs: Seq<Registration>,
    resource: ResourceId,
    status: ResourceStatus,
)
    requires
        distinct(regs),
    ensures
        distinct(with_registered(regs, resource, status)),
        forall|other: ResourceId|
            is_registered(with_registered(regs, resource, status), other) <==> (other == resource
                || is_registered(regs, other)),
{
    let after = with_registered(regs, resource, status);
    if is_registered(regs, resource) {
        let slot = slot_of(regs, resource);
        assert forall|other: ResourceId|
            is_registered(after, other) <==> (other == resource || is_registered(
                regs,
                other,
            )) by {
            if is_registered(after, other) {
                let i = choose|i: int| 0 <= i < after.len() && (#[trigger] after[i]).resource == other;
                if i != slot {
                    assert(regs[i].resource == other);
                }
            }
            if other == resource {
                assert(after[slot].resource == other);
            } else if is_registered(regs, other) {
                let i = choose|i: int| 0 <= i < regs.len() && (#[trigger] regs[i]).resource == other;
                assert(after[i].resource == other);
            }
        }
        assert forall|i: int, j: int| 0 <= i < j < after.len() implies (#[trigger] after[i]).resource
            != (#[trigger] after[j]).resource by {
            assert(after[i].resource == regs[i].resource);
            assert(after[j].resource == regs[j].resource);
        }
    } else {
        assert forall|other: ResourceId|
            is_registered(after, other) <==> (other == resource || is_registered(
                regs,
                other,
            )) by {
            if is_registered(after, other) {
                let i = choose|i: int| 0 <= i < after.len() && (#[trigger] after[i]).resource == other;
                if i < regs.len() {
                    assert(regs[i].resource == other);
                }
            }
            if other == resource {
                assert(after[regs.len() as int].resource == other);
            } else if is_registered(regs, other) {
                let i = choose|i: int| 0 <= i < regs.len() && (#[trigger] regs[i]).resource == other;
                assert(after[i].resource == other);
            }
        }
        assert forall|i: int, j: int| 0 <= i < j < after.len() implies (#[trigger] after[i]).resource
            != (#[trigger] after[j]).resource by {
            if j < regs.len() {
                assert(after[i] == regs[i] && after[j] == regs[j]);
            } else {
                assert(after[i] == regs[i]);
            }
        }
    }
}

/// Unregistering keeps the registrations distinct, and afterwards exactly the
/// resources registered before but `resource` are registered.
pub proof fn lemma_without_registered(regs: Seq<Registration>, resource: ResourceId)
    requires
        distinct(regs),
    ensures
        distinct(without_registered(regs, resource)),
        forall|other: ResourceId|
            is_registered(without_registered(regs, resource), other) <==> (other != resource
                && is_registered(regs, other)),
{
    let after = without_registered(regs, resource);
    if is_registered(regs, resource) {
        let slot = slot_of(regs, resource);
        assert forall|i: int| 0 <= i < after.len() implies #[trigger] after[i] == regs[if i
            < slot {
            i
        } else {
            i + 1
        }] by {}
        assert forall|other: ResourceId|
            is_registered(after, other) <==> (other != resource && is_registered(
                regs,
                other,
            )) by {
            if is_registered(after, other) {
                let i = choose|i: int| 0 <= i < after.len() && (#[trigger] after[i]).resource == other;
                let k = if i < slot {
                    i
                } else {
                    i + 1
                };
                assert(regs[k].resource == other);
                assert(regs[slot].resource == resource);
            }
            if other != resource && is_registered(regs, other) {
                let k = choose|k: int| 0 <= k < regs.len() && (#[trigger] regs[k]).resource == other;
                let i = if k < slot {
                    k
                } else {
                    k - 1
                };
                assert(after[i].resource == other);
            }
        }
        assert forall|i: int, j: int| 0 <= i < j < after.len() implies (#[trigger] after[i]).resource
            != (#[trigger] after[j]).resource by {
            let ki = if i < slot {
                i
            } else {
                i + 1
            };
            let kj = if j < slot {
                j
            } else {
                j + 1
            };
            assert(regs[ki].resource != regs[kj].resource);
        }
    } else {
        assert forall|other: ResourceId|
            is_registered(after, other) <==> (other != resource && is_registered(
                regs,
                other,
            )) by {}
    }
}

/// A render boundary: its mode, the resources of the current pass, and the
/// content that was last good to show.
pub struct Boundary<V> {
    mode: BoundaryMode,
    registered: Vec<Registration>,
    last_good_view: Option<V>,
    shown: ViewVariant,
}

impl<V> View for Boundary<V> {
    type V = BoundaryView<V>;

    closed spec fn view(&self) -> BoundaryView<V> {
        BoundaryView {
            mode: self.mode,
            registered: self.registered@,
            last_good_view: self.last_good_view,
            shown: self.shown,
        }
    }
}

impl<V> Boundary<V> {
    /// A boundary before its first render pass.
    pub fn new(mode: BoundaryMode) -> (b: Self)
        ensures
            b@ == BoundaryView::<V>::initial(mode),
            b@.wf(),
    {
        Boundary {
            mode,
            registered: Vec::new(),
            last_good_view: None,
            shown: ViewVariant::Fallback,
        }
    }

    pub fn mode(&self) -> (m: BoundaryMode)
        ensures
            m == self@.mode,
    {
        self.mode
    }

    /// The decision at the end of the latest pass.
    pub fn shown(&self) -> (v: ViewVariant)
        ensures
            v == self@.shown,
    {
        self.shown
    }

    pub fn last_good_view(&self) -> (v: Option<&V>)
        ensures
            v == match self@.last_good_view {
                Some(view) => Some(&view),
                None => None,
            },
    {
        self.last_good_view.as_ref()
    }

    /// How many resources the current pass has registered.
    pub fn registered_count(&self) -> (n: usize)
        ensures
            n == self@.registered.len(),
    {
        self.registered.len()
    }

    /// Opens a fresh registration set: what an earlier pass registered no
    /// longer counts.
    pub fn begin_pass(&mut self)
        requires
            old(self)@.wf(),
        ensures
            final(self)@ == old(self)@.begin_pass(),
            final(self)@.wf(),
    {
        self.registered.clear();
    }

    fn find(&self, resource: ResourceId) -> (slot: Option<usize>)
        requires
            distinct(self.registered@),
        ensures
            slot is Some <==> is_registered(self.registered@, resource),
            slot matches Some(i) ==> i == slot_of(self.registered@, resource) && i
                < self.registered@.len(),
    {
        let mut i: usize = 0;
        while i < self.registered.len()
            invariant
                i <= self.registered@.len(),
                distinct(self.registered@),
                forall|j: int| 0 <= j < i ==> (#[trigger] self.registered@[j]).resource != resource,
            decreases self.registered@.len() - i,
        {
            if self.registered[i].resource.0 == resource.0 {
                proof {
                    let regs = self.registered@;
                    assert(regs[i as int].resource == resource);
                    let s = slot_of(regs, resource);
                    assert(regs[s].resource == resource);
                    if s != i {
                        if s < i {
                            assert(regs[s].resource != regs[i as int].resource);
                        } else {
                            assert(regs[i as int].resource != regs[s].resource);
                        }
                    }
                }
                return Some(i);
            }
            i = i + 1;
        }
        None
    }

    pub fn is_registered(&self, resource: ResourceId) -> (b: bool)
        requires
            self@.wf(),
        ensures
            b == is_registered(self@.registered, resource),
    {
        self.find(resource).is_some()
    }

    /// Records that `resource` was touched during the current pass. A resource
    /// that is touched again keeps its place and gets the newer status.
    pub fn register(&mut self, resource: ResourceId, status: ResourceStatus)
        requires
            old(self)@.wf(),
        ensures
            final(self)@ == old(self)@.register(resource, status),
            final(self)@.wf(),
    {
        proof {
            lemma_with_registered(self.registered@, resource, status);
        }
        match self.find(resource) {
            Some(i) => {
                self.registered[i] = Registration { resource, status };
            },
            None => {
                self.registered.push(Registration { resource, status });
            },
        }
    }

    /// Drops `resource` from the current pass. Returns whether it was there.
    pub fn unregister(&mut self, resource: ResourceId) -> (removed: bool)
        requires
            old(self)@.wf(),
        ensures
            final(self)@ == old(self)@.unregister(resource),
            final(self)@.wf(),
            removed == is_registered(old(self)@.registered, resource),
    {
        proof {
            lemma_without_registered(self.registered@, resource);
        }
        match self.find(resource) {
            Some(i) => {
                self.registered.remove(i);
                true
            },
            None => false,
        }
    }

    /// The number of registered resources with a fetch in flight.
    pub fn pending_count(&self) -> (n: usize)
        ensures
            n == count_pending(self@.registered),
    {
        let mut n: usize = 0;
        let mut i: usize = 0;
        while i < self.registered.len()
            invariant
                i <= self.registered@.len(),
                n <= i,
                n == count_pending(self.registered@.take(i as int)),
            decreases self.registered@.len() - i,
        {
            proof {
                let next = self.registered@.take(i + 1);
                assert(next.drop_last() =~= self.registered@.take(i as int));
                assert(next.last() == self.registered@[i as int]);
            }
            if self.registered[i].status.pending {
                n = n + 1;
            }
            i = i + 1;
        }
        proof {
            assert(self.registered@.take(i as int) =~= self.registered@);
        }
        n
    }

    /// The decision over exactly the resources of the current pass.
    pub fn decide(&self) -> (v: ViewVariant)
        ensures
            v == self@.decision(),
    {
        let mut unusable = false;
        let mut pending = false;
        let mut failed = false;
        let mut i: usize = 0;
        while i < self.registered.len()
            invariant
                i <= self.registered@.len(),
                !unusable <==> all_usable(self.mode, self.registered@.take(i as int)),
                pending <==> any_pending(self.registered@.take(i as int)),
                failed <==> any_failed(self.registered@.take(i as int)),
            decreases self.registered@.len() - i,
        {
            let status = self.registered[i].status;
            proof {
                let regs = self.registered@;
                let before = regs.take(i as int);
                let after = regs.take(i + 1);
                assert(after[i as int] == regs[i as int]);
                assert forall|j: int| 0 <= j < before.len() implies before[j] == after[j] by {}
                if all_usable(self.mode, after) {
                    assert forall|j: int| 0 <= j < before.len() implies usable(
                        self.mode,
                        #[trigger] before[j].status,
                    ) by {
                        assert(usable(self.mode, after[j].status));
                    }
                    assert(usable(self.mode, after[i as int].status));
                }
                if all_usable(self.mode, before) && usable(self.mode, status) {
                    assert forall|j: int| 0 <= j < after.len() implies usable(
                        self.mode,
                        #[trigger] after[j].status,
                    ) by {
                        if j < i {
                            assert(usable(self.mode, before[j].status));
                        }
                    }
                }
                if any_pending(before) {
                    let j = choose|j: int| 0 <= j < before.len() && (#[trigger] before[j]).status.pending;
                    assert(after[j].status.pending);
                }
                if any_pending(after) {
                    let j = choose|j: int| 0 <= j < after.len() && (#[trigger] after[j]).status.pending;
                    if j < i {
                        assert(before[j].status.pending);
                    }
                }
                if any_failed(before) {
                    let j = choose|j: int|
                        0 <= j < before.len() && (#[trigger] before[j]).status.latest == Some(
                            Outcome::Failed,
                        );
                    assert(after[j].status.latest == Some(Outcome::Failed));
                }
                if any_failed(after) {
                    let j = choose|j: int|
                        0 <= j < after.len() && (#[trigger] after[j]).status.latest == Some(
                            Outcome::Failed,
                        );
                    if j < i {
                        assert(before[j].status.latest == Some(Outcome::Failed));
                    }
                }
            }
            let has_value = match status.latest {
                Some(_) => true,
                None => false,
            };
            let is_usable = match self.mode {
                BoundaryMode::Suspense => !status.pending && has_value,
                BoundaryMode::Transition => has_value,
            };
            if !is_usable {
                unusable = true;
            }
            if status.pending {
                pending = true;
            }
            match status.latest {
                Some(Outcome::Failed) => {
                    failed = true;
                },
                _ => {},
            }
            i = i + 1;
        }
        proof {
            assert(self.registered@.take(i as int) =~= self.registered@);
        }
        if unusable {
            ViewVariant::Fallback
        } else if pending {
            ViewVariant::StaleContent
        } else if failed {
            ViewVariant::ErrorContent
        } else {
            ViewVariant::FreshContent
        }
    }

    pub fn state(&self) -> (s: BoundaryState)
        ensures
            s == state_of(self@.mode, self@.registered),
    {
        if self.registered.len() == 0 {
            BoundaryState::Empty
        } else {
            match self.decide() {
                ViewVariant::Fallback => BoundaryState::Resolving,
                ViewVariant::ErrorContent => BoundaryState::ErrorShown,
                _ => BoundaryState::Ready,
            }
        }
    }

    /// Ends the render pass with the content that it rendered, and returns the
    /// decision for the renderer.
    pub fn end_pass(&mut self, content: V) -> (v: ViewVariant)
        requires
            old(self)@.wf(),
        ensures
            final(self)@ == old(self)@.end_pass(content),
            final(self)@.wf(),
            v == old(self)@.decision(),
    {
        let decision = self.decide();
        match decision {
            ViewVariant::FreshContent | ViewVariant::ErrorContent => {
                self.last_good_view = Some(content);
            },
            ViewVariant::StaleContent => {
                if self.last_good_view.is_none() {
                    self.last_good_view = Some(content);
                }
            },
            ViewVariant::Fallback => {
                match self.mode {
                    BoundaryMode::Suspense => {
                        self.last_good_view = None;
                    },
                    BoundaryMode::Transition => {},
                }
            },
        }
        self.shown = decision;
        decision
    }

    /// What is on screen after the latest pass: the fallback, or the last good
    /// view.
    pub fn rendered<'a>(&'a self, fallback: &'a V) -> (v: &'a V)
        requires
            self@.wf(),
        ensures
            *v == self@.rendered(*fallback),
    {
        match self.shown {
            ViewVariant::Fallback => fallback,
            _ => {
                match &self.last_good_view {
                    Some(view) => view,
                    None => fallback,
                }
            },
        }
    }
}

/// A suspense boundary falls back as soon as one registered resource has a
/// fetch in flight, so it never shows fresh content then.
pub proof fn lemma_suspense_falls_back_while_pending(regs: Seq<Registration>)
    requires
        any_pending(regs),
    ensures
        decide(BoundaryMode::Suspense, regs) == ViewVariant::Fallback,
        decide(BoundaryMode::Suspense, regs) != ViewVariant::FreshContent,
{
    let i = choose|i: int| 0 <= i < regs.len() && (#[trigger] regs[i]).status.pending;
    assert(!usable(BoundaryMode::Suspense, regs[i].status));
}

/// A transition boundary whose registered resources all have an earlier
/// result never falls back; while one of them has a fetch in flight it shows
/// the stale content.
pub proof fn lemma_transition_keeps_content(regs: Seq<Registration>)
    requires
        forall|i: int| 0 <= i < regs.len() ==> (#[trigger] regs[i]).status.latest is Some,
    ensures
        decide(BoundaryMode::Transition, regs) != ViewVariant::Fallback,
        any_pending(regs) ==> decide(BoundaryMode::Transition, regs) == ViewVariant::StaleContent,
{
    assert forall|i: int| 0 <= i < regs.len() implies usable(
        BoundaryMode::Transition,
        #[trigger] regs[i].status,
    ) by {
        assert(regs[i].status.latest is Some);
    }
}

/// Whatever the mode, fresh content is shown only when every registered
/// resource has the result for its current key and none has failed.
pub proof fn lemma_fresh_means_all_ready(mode: BoundaryMode, regs: Seq<Registration>)
    requires
        decide(mode, regs) == ViewVariant::FreshContent,
    ensures
        forall|i: int|
            0 <= i < regs.len() ==> (#[trigger] regs[i]).status == (ResourceStatus {
                pending: false,
                latest: Some(Outcome::Ready),
            }),
{
    assert forall|i: int| 0 <= i < regs.len() implies (#[trigger] regs[i]).status == (
    ResourceStatus { pending: false, latest: Some(Outcome::Ready) }) by {
        let status = regs[i].status;
        assert(usable(mode, status));
        assert(status.latest is Some);
        assert(!status.pending);
        assert(status.latest != Some(Outcome::Failed));
        assert(status.latest->0 == Outcome::Ready);
    }
}

/// As long as no registered resource that is fetching has an earlier result,
/// a transition boundary decides as a suspense boundary does.
pub proof fn lemma_transition_without_earlier_results(regs: Seq<Registration>)
    requires
        forall|i: int|
            0 <= i < regs.len() && (#[trigger] regs[i]).status.pending ==> regs[i].status.latest
                is None,
    ensures
        decide(BoundaryMode::Transition, regs) == decide(BoundaryMode::Suspense, regs),
{
    if all_usable(BoundaryMode::Transition, regs) {
        assert forall|i: int| 0 <= i < regs.len() implies usable(
            BoundaryMode::Suspense,
            #[trigger] regs[i].status,
        ) by {
            assert(usable(BoundaryMode::Transition, regs[i].status));
        }
    }
    if all_usable(BoundaryMode::Suspense, regs) {
        assert forall|i: int| 0 <= i < regs.len() implies usable(
            BoundaryMode::Transition,
            #[trigger] regs[i].status,
        ) by {
            assert(usable(BoundaryMode::Suspense, regs[i].status));
        }
        if any_pending(regs) {
            let i = choose|i: int| 0 <= i < regs.len() && (#[trigger] regs[i]).status.pending;
            assert(usable(BoundaryMode::Suspense, regs[i].status));
        }
    }
}

/// A resource that has a result and then sees a new key: around it alone, a
/// transition boundary shows the stale content and a suspense boundary falls
/// back, until the new fetch completes.
pub proof fn lemma_refetch_is_stale_or_fallback<K: PartialEq, T, E>(
    m: ResourceView<K, T, E>,
    key: K,
    resource: ResourceId,
)
    requires
        m.wf(),
        m.read() is Some,
        m.key_version < u64::MAX,
    ensures
        ({
            let regs = seq![Registration { resource, status: m.refetch(key).status() }];
            &&& decide(BoundaryMode::Transition, regs) == ViewVariant::StaleContent
            &&& decide(BoundaryMode::Suspense, regs) == ViewVariant::Fallback
        }),
{
    let regs = seq![Registration { resource, status: m.refetch(key).status() }];
    assert(regs[0].status.pending);
    assert(regs[0].status.latest is Some);
    assert(!usable(BoundaryMode::Suspense, regs[0].status));
    assert forall|i: int| 0 <= i < regs.len() implies usable(
        BoundaryMode::Transition,
        #[trigger] regs[i].status,
    ) by {
        assert(regs[i] == regs[0]);
    }
}

} // verus!
