//! Resources: a key that is watched, and the fetch that each new key starts.
//!
//! A resource never runs a fetch itself. Observing a new key hands the caller
//! the version under which to fetch; the caller reports back with
//! [`Resource::complete`]. Results that come back under an older version are
//! dropped, so the order in which results arrive does not matter.

use vstd::prelude::*;
use vstd::std_specs::cmp::PartialEqSpec;

verus! {

/// Names a resource towards the boundaries that watch it.
#[derive(Clone, Copy, Debug, PartialEq, Eq, Structural)]
pub struct ResourceId(pub u64);

/// How a fetch ended.
#[derive(Clone, Copy, Debug, PartialEq, Eq, Structural)]
pub enum Outcome {
    Ready,
    Failed,
}

/// What a boundary needs to know of a resource: whether a fetch is in flight,
/// and how the most recent applied result ended, if there is one.
#[derive(Clone, Copy, Debug, PartialEq, Eq, Structural)]
pub struct ResourceStatus {
    pub pending: bool,
    pub latest: Option<Outcome>,
}

/// The state of a resource as a reader sees it.
#[derive(Debug, PartialEq, Eq)]
pub enum ResourceState<T, E> {
    NotStarted,
    Pending { started_version: u64 },
    Ready { value: T, version: u64 },
    Failed { error: E, version: u64 },
}

/// A result together with the key version whose fetch produced it.
pub struct Settled<T, E> {
    pub result: Result<T, E>,
    pub version: u64,
}

/// The result of a fetch on its way back to the resource.
#[derive(Debug, PartialEq, Eq)]
pub struct Completion<T, E> {
    pub version: u64,
    pub result: Result<T, E>,
}

/// Something that happens to a resource.
pub enum ResourceEvent<K, T, E> {
    KeyObserved(K),
    FetchCompleted { version: u64, result: Result<T, E> },
}

/// The mathematical model of a resource.
pub struct ResourceView<K, T, E> {
    /// The key observed last, `None` before the first.
    pub key: Option<K>,
    /// The number of key changes so far.
    pub key_version: u64,
    /// Whether the fetch for `key_version` is still in flight.
    pub pending: bool,
    /// The most recent result that was applied.
    pub settled: Option<Settled<T, E>>,
}

pub open spec fn outcome_of<T, E>(result: Result<T, E>) -> Outcome {
    match result {
        Ok(_) => Outcome::Ready,
        Err(_) => Outcome::Failed,
    }
}

/// The same result, seen through references.
pub open spec fn borrowed<'a, T, E>(r: Option<Result<T, E>>) -> Option<Result<&'a T, &'a E>> {
    match r {
        Some(Ok(v)) => Some(Ok(&v)),
        Some(Err(e)) => Some(Err(&e)),
        None => None,
    }
}

impl<K: PartialEq, T, E> ResourceView<K, T, E> {
    pub open spec fn initial() -> Self {
        ResourceView { key: None, key_version: 0, pending: false, settled: None }
    }

    /// What every reachable resource satisfies.
    pub open spec fn wf(self) -> bool {
        &&& self.key is Some <==> self.key_version > 0
        &&& self.pending ==> self.key_version > 0
        &&& self.settled matches Some(s) ==> s.version <= self.key_version
        &&& self.pending ==> (self.settled matches Some(s) ==> s.version < self.key_version)
        &&& !self.pending && self.key_version > 0 ==> self.settled is Some
                && self.settled->0.version == self.key_version
    }

    pub open spec fn state(self) -> ResourceState<T, E> {
        if self.pending {
            ResourceState::Pending { started_version: self.key_version }
        } else {
            match self.settled {
                Some(s) => match s.result {
                    Ok(value) => ResourceState::Ready { value, version: s.version },
                    Err(error) => ResourceState::Failed { error, version: s.version },
                },
                None => ResourceState::NotStarted,
            }
        }
    }

    /// The result for the current key, once it is there.
    pub open spec fn read(self) -> Option<Result<T, E>> {
        if self.pending {
            None
        } else {
            self.read_latest()
        }
    }

    /// The most recent result, also while a newer fetch is in flight.
    pub open spec fn read_latest(self) -> Option<Result<T, E>> {
        match self.settled {
            Some(s) => Some(s.result),
            None => None,
        }
    }

    pub open spec fn status(self) -> ResourceStatus {
        ResourceStatus {
            pending: self.pending,
            latest: match self.settled {
                Some(s) => Some(outcome_of(s.result)),
                None => None,
            },
        }
    }

    /// Whether `key` equals the key observed last.
    pub open spec fn same_key(self, key: K) -> bool {
        self.key matches Some(k) && k.eq_spec(&key)
    }

    /// A new key: the version goes up by one and its fetch is in flight. The
    /// earlier result stays readable through `read_latest`.
    pub open spec fn refetch(self, key: K) -> Self
        recommends
            self.key_version < u64::MAX,
    {
        ResourceView {
            key: Some(key),
            key_version: (self.key_version + 1) as u64,
            pending: true,
            settled: self.settled,
        }
    }

    pub open spec fn observe_key(self, key: K) -> Self
        recommends
            self.key_version < u64::MAX,
    {
        if self.same_key(key) {
            self
        } else {
            self.refetch(key)
        }
    }

    /// A result is applied exactly when it carries the current key version.
    pub open spec fn complete(self, version: u64, result: Result<T, E>) -> Self {
        if version == self.key_version {
            ResourceView {
                key: self.key,
                key_version: self.key_version,
                pending: false,
                settled: Some(Settled { result, version }),
            }
        } else {
            self
        }
    }

    pub open spec fn step(self, event: ResourceEvent<K, T, E>) -> Self {
        match event {
            ResourceEvent::KeyObserved(key) => self.observe_key(key),
            ResourceEvent::FetchCompleted { version, result } => self.complete(version, result),
        }
    }

    /// The resource after `events`, taken in order.
    pub open spec fn run(self, events: Seq<ResourceEvent<K, T, E>>) -> Self
        decreases events.len(),
    {
        if events.len() == 0 {
            self
        } else {
            self.run(events.drop_last()).step(events.last())
        }
    }

    /// The resource after `completions`, taken in order.
    pub open spec fn complete_all(self, completions: Seq<Completion<T, E>>) -> Self
        decreases completions.len(),
    {
        if completions.len() == 0 {
            self
        } else {
            let c = completions.last();
            self.complete_all(completions.drop_last()).complete(c.version, c.result)
        }
    }
}

/// How many of `completions` carry `version`.
pub open spec fn count_current<T, E>(completions: Seq<Completion<T, E>>, version: u64) -> nat
    decreases completions.len(),
{
    if completions.len() == 0 {
        0
    } else {
        let rest = count_current(completions.drop_last(), version);
        if completions.last().version == version {
            rest + 1
        } else {
            rest
        }
    }
}

/// A key that is watched, the version of its latest change, and the result of
/// the fetch that the change started.
pub struct Resource<K, T, E> {
    key: Option<K>,
    key_version: u64,
    pending: bool,
    settled: Option<Settled<T, E>>,
}

impl<K, T, E> View for Resource<K, T, E> {
    type V = ResourceView<K, T, E>;

    closed spec fn view(&self) -> ResourceView<K, T, E> {
        ResourceView {
            key: self.key,
            key_version: self.key_version,
            pending: self.pending,
            settled: self.settled,
        }
    }
}

impl<K: PartialEq, T, E> Resource<K, T, E> {
    /// A resource that has seen no key yet.
    pub fn new() -> (r: Self)
        ensures
            r@ == ResourceView::<K, T, E>::initial(),
            r@.wf(),
    {
        Resource { key: None, key_version: 0, pending: false, settled: None }
    }

    pub fn key_version(&self) -> (v: u64)
        ensures
            v == self@.key_version,
    {
        self.key_version
    }

    /// The key observed last, which the fetch in flight was started with.
    pub fn key(&self) -> (k: Option<&K>)
        ensures
            k == match self@.key {
                Some(key) => Some(&key),
                None => None,
            },
    {
        self.key.as_ref()
    }

    pub fn is_pending(&self) -> (p: bool)
        ensures
            p == self@.pending,
    {
        self.pending
    }

    pub fn state(&self) -> (s: ResourceState<&T, &E>)
        ensures
            s == match self@.state() {
                ResourceState::NotStarted => ResourceState::<&T, &E>::NotStarted,
                ResourceState::Pending { started_version } => ResourceState::Pending {
                    started_version,
                },
                ResourceState::Ready { value, version } => ResourceState::Ready {
                    value: &value,
                    version,
                },
                ResourceState::Failed { error, version } => ResourceState::Failed {
                    error: &error,
                    version,
                },
            },
    {
        if self.pending {
            ResourceState::Pending { started_version: self.key_version }
        } else {
            match &self.settled {
                Some(s) => match &s.result {
                    Ok(value) => ResourceState::Ready { value, version: s.version },
                    Err(error) => ResourceState::Failed { error, version: s.version },
                },
                None => ResourceState::NotStarted,
            }
        }
    }

    pub fn status(&self) -> (s: ResourceStatus)
        ensures
            s == self@.status(),
    {
        let latest = match &self.settled {
            Some(s) => match &s.result {
                Ok(_) => Some(Outcome::Ready),
                Err(_) => Some(Outcome::Failed),
            },
            None => None,
        };
        ResourceStatus { pending: self.pending, latest }
    }

    /// The result for the current key: `None` until its fetch has completed.
    pub fn read(&self) -> (r: Option<Result<&T, &E>>)
        ensures
            r == borrowed(self@.read()),
    {
        if self.pending {
            None
        } else {
            self.read_latest()
        }
    }

    /// The most recent result, whether or not a newer fetch is in flight.
    pub fn read_latest(&self) -> (r: Option<Result<&T, &E>>)
        ensures
            r == borrowed(self@.read_latest()),
    {
        match &self.settled {
            Some(s) => match &s.result {
                Ok(value) => Some(Ok(value)),
                Err(error) => Some(Err(error)),
            },
            None => None,
        }
    }

    /// Takes the value that the key computation produced. A key equal to the
    /// last one changes nothing. A new key raises the version and returns it:
    /// the caller starts the fetch for [`Resource::key`] and completes it under
    /// that version.
    pub fn observe_key(&mut self, key: K) -> (started: Option<u64>)
        requires
            old(self)@.wf(),
            old(self)@.key_version < u64::MAX,
        ensures
            final(self)@.wf(),
            started is None ==> final(self)@ == old(self)@,
            started is Some ==> final(self)@ == old(self)@.refetch(key) && started == Some(
                final(self)@.key_version,
            ),
            old(self)@.key is None ==> started is Some,
            K::obeys_eq_spec() ==> (started is None <==> old(self)@.same_key(key)),
            K::obeys_eq_spec() ==> final(self)@ == old(self)@.observe_key(key),
    {
        let same = match &self.key {
            Some(k) => *k == key,
            None => false,
        };
        if same {
            None
        } else {
            self.key = Some(key);
            self.key_version = self.key_version + 1;
            self.pending = true;
            Some(self.key_version)
        }
    }

    /// Computes the key with `key_fn` and observes it, as
    /// [`Resource::observe_key`] does.
    pub fn observe_from<F: Fn() -> K>(&mut self, key_fn: F) -> (started: Option<u64>)
        requires
            old(self)@.wf(),
            old(self)@.key_version < u64::MAX,
            call_requires(key_fn, ()),
        ensures
            final(self)@.wf(),
            exists|key: K|
                {
                    &&& #[trigger] call_ensures(key_fn, (), key)
                    &&& started is None ==> final(self)@ == old(self)@
                    &&& started is Some ==> final(self)@ == old(self)@.refetch(key) && started
                        == Some(final(self)@.key_version)
                    &&& old(self)@.key is None ==> started is Some
                    &&& K::obeys_eq_spec() ==> (started is None <==> old(self)@.same_key(key))
                },
    {
        let key = key_fn();
        self.observe_key(key)
    }

    /// Hands in the result of the fetch that was started under `version`.
    /// Returns whether it was applied; a result under any other version than
    /// the current one is dropped and leaves the resource as it was. Nothing
    /// but the version decides: a second result under the current version
    /// replaces the first.
    pub fn complete(&mut self, version: u64, result: Result<T, E>) -> (applied: bool)
        requires
            old(self)@.wf(),
        ensures
            final(self)@.wf(),
            final(self)@ == old(self)@.complete(version, result),
            applied <==> version == old(self)@.key_version,
    {
        if version == self.key_version {
            self.settled = Some(Settled { result, version });
            self.pending = false;
            true
        } else {
            false
        }
    }

    /// Applies the completions in the order in which they were queued and
    /// returns how many were applied.
    pub fn apply_all(&mut self, completions: Vec<Completion<T, E>>) -> (applied: usize)
        requires
            old(self)@.wf(),
        ensures
            final(self)@.wf(),
            final(self)@ == old(self)@.complete_all(completions@),
            applied == count_current(completions@, old(self)@.key_version),
    {
        let ghost start = self@;
        let ghost all = completions@;
        let total = completions.len();
        let mut applied: usize = 0;
        for c in it: completions
            invariant
                it.seq() == all,
                self@.wf(),
                self@.key_version == start.key_version,
                self@ == start.complete_all(all.take(it.index())),
                applied == count_current(all.take(it.index()), start.key_version),
                applied <= it.index() <= all.len() == total,
        {
            proof {
                let next = all.take(it.index() + 1);
                assert(next.drop_last() =~= all.take(it.index()));
                assert(next.last() == c);
            }
            let Completion { version, result } = c;
            if self.complete(version, result) {
                applied = applied + 1;
            }
        }
        proof {
            assert(all.take(all.len() as int) =~= all);
        }
        applied
    }
}

/// Each event leaves a well-formed resource well-formed and never lowers the
/// key version; a key that differs from the last raises it by exactly one.
/// The state always carries the current key version.
pub proof fn lemma_step_keeps_versions_current<K: PartialEq, T, E>(
    m: ResourceView<K, T, E>,
    event: ResourceEvent<K, T, E>,
)
    requires
        m.wf(),
        m.key_version < u64::MAX,
    ensures
        m.step(event).wf(),
        m.key_version <= m.step(event).key_version <= m.key_version + 1,
        event matches ResourceEvent::KeyObserved(key) && !m.same_key(key) ==> m.step(
            event,
        ).key_version == m.key_version + 1,
        event is FetchCompleted ==> m.step(event).key_version == m.key_version,
        state_is_current(m.step(event)),
{
}

/// The state of a resource speaks of no other key version than the current.
pub open spec fn state_is_current<K: PartialEq, T, E>(m: ResourceView<K, T, E>) -> bool {
    match m.state() {
        ResourceState::NotStarted => true,
        ResourceState::Pending { started_version } => started_version == m.key_version,
        ResourceState::Ready { version, .. } => version == m.key_version,
        ResourceState::Failed { version, .. } => version == m.key_version,
    }
}

/// Over any sequence of key changes and completions the key version only
/// grows, by at most one per event, and the resource stays well-formed with a
/// state that carries the current key version.
pub proof fn lemma_run_versions_monotonic<K: PartialEq, T, E>(
    m: ResourceView<K, T, E>,
    events: Seq<ResourceEvent<K, T, E>>,
)
    requires
        m.wf(),
        m.key_version + events.len() <= u64::MAX,
    ensures
        m.run(events).wf(),
        m.key_version <= m.run(events).key_version <= m.key_version + events.len(),
        state_is_current(m.run(events)),
        forall|i: int, j: int|
            0 <= i <= j <= events.len() ==> m.run(#[trigger] events.take(i)).key_version
                <= m.run(#[trigger] events.take(j)).key_version,
    decreases events.len(),
{
    if events.len() == 0 {
        assert forall|i: int, j: int| 0 <= i <= j <= events.len() implies m.run(
            #[trigger] events.take(i),
        ).key_version <= m.run(#[trigger] events.take(j)).key_version by {
            assert(events.take(i) =~= events.take(j));
        }
    } else {
        let front = events.drop_last();
        lemma_run_versions_monotonic(m, front);
        lemma_step_keeps_versions_current(m.run(front), events.last());
        assert forall|i: int, j: int| 0 <= i <= j <= events.len() implies m.run(
            #[trigger] events.take(i),
        ).key_version <= m.run(#[trigger] events.take(j)).key_version by {
            assert(events.take(events.len() as int) =~= events);
            assert(front.take(front.len() as int) =~= front);
            if i < events.len() {
                assert(events.take(i) =~= front.take(i));
            }
            if j < events.len() {
                assert(events.take(j) =~= front.take(j));
            }
        }
    }
}

/// A completion under any version but the current one changes nothing that
/// can be observed: the resource is the same value afterwards.
pub proof fn lemma_stale_completion_changes_nothing<K: PartialEq, T, E>(
    m: ResourceView<K, T, E>,
    version: u64,
    result: Result<T, E>,
)
    requires
        version != m.key_version,
    ensures
        m.complete(version, result) == m,
        m.complete(version, result).state() == m.state(),
        m.complete(version, result).read() == m.read(),
        m.complete(version, result).read_latest() == m.read_latest(),
        m.complete(version, result).status() == m.status(),
{
}

/// Two completions under different versions may arrive in either order: the
/// resource ends in the same state.
pub proof fn lemma_completion_order_is_irrelevant<K: PartialEq, T, E>(
    m: ResourceView<K, T, E>,
    first: Completion<T, E>,
    second: Completion<T, E>,
)
    requires
        first.version != second.version,
    ensures
        m.complete(first.version, first.result).complete(second.version, second.result)
            == m.complete(second.version, second.result).complete(first.version, first.result),
{
}

} // verus!
