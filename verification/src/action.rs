//! Actions: remote operations that the user triggers, counted by a version.
//!
//! An action never runs the remote operation itself. A dispatch hands the
//! caller the version under which to run it; the caller reports back with
//! [`Action::complete`]. A resource whose key reads the version of an action
//! fetches again after every dispatch.

use vstd::prelude::*;
use crate::resource::{borrowed, ResourceView};

verus! {

/// The mathematical model of an action.
pub struct ActionView<T, E> {
    /// The number of dispatches so far.
    pub version: u64,
    /// The result of the latest completion that was applied.
    pub last_result: Option<Result<T, E>>,
}

impl<T, E> ActionView<T, E> {
    pub open spec fn initial() -> Self {
        ActionView { version: 0, last_result: None }
    }

    /// The next dispatch: the version goes up by one, the last result stays
    /// until a completion replaces it.
    pub open spec fn dispatch(self) -> Self
        recommends
            self.version < u64::MAX,
    {
        ActionView { version: (self.version + 1) as u64, last_result: self.last_result }
    }

    /// A completion is applied exactly when it carries the current version.
    pub open spec fn complete(self, version: u64, result: Result<T, E>) -> Self {
        if version == self.version {
            ActionView { version: self.version, last_result: Some(result) }
        } else {
            self
        }
    }
}

/// A remote operation that can be dispatched many times.
pub struct Action<T, E> {
    version: u64,
    last_result: Option<Result<T, E>>,
}

impl<T, E> View for Action<T, E> {
    type V = ActionView<T, E>;

    closed spec fn view(&self) -> ActionView<T, E> {
        ActionView { version: self.version, last_result: self.last_result }
    }
}

impl<T, E> Action<T, E> {
    /// An action that was never dispatched.
    pub fn new() -> (action: Self)
        ensures
            action@ == ActionView::<T, E>::initial(),
    {
        Action { version: 0, last_result: None }
    }

    /// The number of dispatches so far.
    pub fn version(&self) -> (v: u64)
        ensures
            v == self@.version,
    {
        self.version
    }

    /// The result of the latest completion that was applied.
    pub fn last_result(&self) -> (r: Option<Result<&T, &E>>)
        ensures
            r == borrowed(self@.last_result),
    {
        match &self.last_result {
            Some(Ok(value)) => Some(Ok(value)),
            Some(Err(error)) => Some(Err(error)),
            None => None,
        }
    }

    /// Counts a dispatch and returns its version: the caller runs the remote
    /// operation and completes it under that version.
    pub fn dispatch(&mut self) -> (version: u64)
        requires
            old(self)@.version < u64::MAX,
        ensures
            final(self)@ == old(self)@.dispatch(),
            version == old(self)@.version + 1,
    {
        self.version = self.version + 1;
        self.version
    }

    /// Hands in the result of the dispatch with this version. Returns whether
    /// it was applied; a result under any other version than the current one
    /// is dropped and leaves the action as it was.
    pub fn complete(&mut self, version: u64, result: Result<T, E>) -> (applied: bool)
        ensures
            final(self)@ == old(self)@.complete(version, result),
            applied <==> version == old(self)@.version,
    {
        if version == self.version {
            self.last_result = Some(result);
            true
        } else {
            false
        }
    }
}

/// A completion under any version but the current one changes nothing.
pub proof fn lemma_stale_action_completion_changes_nothing<T, E>(
    a: ActionView<T, E>,
    version: u64,
    result: Result<T, E>,
)
    requires
        version != a.version,
    ensures
        a.complete(version, result) == a,
{
}

/// Two dispatches in a row, and both remote calls return afterwards, in
/// either order: only the result of the second dispatch is applied.
pub proof fn lemma_second_dispatch_wins<T, E>(
    a: ActionView<T, E>,
    first: Result<T, E>,
    second: Result<T, E>,
)
    requires
        a.version + 2 <= u64::MAX,
    ensures
        ({
            let v1 = a.dispatch().version;
            let v2 = a.dispatch().dispatch().version;
            let both = a.dispatch().dispatch();
            &&& v1 < v2
            &&& both.complete(v1, first) == both
            &&& both.complete(v1, first).complete(v2, second).last_result == Some(second)
            &&& both.complete(v2, second).complete(v1, first).last_result == Some(second)
            &&& both.complete(v1, first).complete(v2, second) == both.complete(v2, second).complete(
                v1,
                first,
            )
        }),
{
}

/// A resource whose key is the version of an action fetches again after every
/// dispatch: the version that the dispatch gives is a key that the resource
/// has not seen.
pub proof fn lemma_dispatch_forces_refetch<T, E, A, B>(
    m: ResourceView<u64, T, E>,
    a: ActionView<A, B>,
)
    requires
        m.key == Some(a.version),
        a.version < u64::MAX,
    ensures
        !m.same_key(a.dispatch().version),
        m.observe_key(a.dispatch().version) == m.refetch(a.dispatch().version),
        m.observe_key(a.dispatch().version).pending,
{
}

} // verus!
