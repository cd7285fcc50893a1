//! Reactive cells: a value, and the readers to tell when it changes.
//!
//! Who is reading is never ambient. A computation that wants to be told of
//! changes is entered into a [`Tracker`] before it runs and leaves it
//! afterwards; a tracked read subscribes the computation that is running.
//! A cell does not own its readers: it holds their ids in slots, and a slot
//! is emptied in one step when its reader goes away.

use vstd::prelude::*;
use vstd::std_specs::cmp::PartialEqSpec;

verus! {

/// Names a computation that reads cells.
#[derive(Clone, Copy, Debug, PartialEq, Eq, Structural)]
pub struct ReaderId(pub u64);

/// Names a slot of a cell's reader registry.
#[derive(Clone, Copy, Debug, PartialEq, Eq, Structural)]
pub struct SlotId(pub usize);

/// The stack of computations that are running, the innermost last.
pub struct Tracker {
    running: Vec<ReaderId>,
}

impl View for Tracker {
    type V = Seq<ReaderId>;

    closed spec fn view(&self) -> Seq<ReaderId> {
        self.running@
    }
}

/// The computation that a tracked read subscribes.
pub open spec fn current_reader(running: Seq<ReaderId>) -> Option<ReaderId> {
    if running.len() == 0 {
        None
    } else {
        Some(running.last())
    }
}

impl Tracker {
    /// A tracker with no computation running: reads are untracked.
    pub fn new() -> (t: Self)
        ensures
            t@ == Seq::<ReaderId>::empty(),
    {
        Tracker { running: Vec::new() }
    }

    /// Marks `reader` as running, inside whatever runs already.
    pub fn enter(&mut self, reader: ReaderId)
        ensures
            final(self)@ == old(self)@.push(reader),
    {
        self.running.push(reader);
    }

    /// Ends the innermost running computation and returns it.
    pub fn leave(&mut self) -> (left: Option<ReaderId>)
        ensures
            left == current_reader(old(self)@),
            final(self)@ == if old(self)@.len() == 0 {
                old(self)@
            } else {
                old(self)@.drop_last()
            },
    {
        self.running.pop()
    }

    /// The innermost running computation.
    pub fn current(&self) -> (reader: Option<ReaderId>)
        ensures
            reader == current_reader(self@),
    {
        let n: usize = self.running.len();
        if n == 0 {
            None
        } else {
            Some(self.running[n - 1])
        }
    }

    /// How many computations are running, one inside the other.
    pub fn depth(&self) -> (n: usize)
        ensures
            n == self@.len(),
    {
        self.running.len()
    }
}

/// The readers in the slots that are taken, in the order of the slots.
pub open spec fn live_readers(slots: Seq<Option<ReaderId>>) -> Seq<ReaderId>
    decreases slots.len(),
{
    if slots.len() == 0 {
        Seq::empty()
    } else {
        let rest = live_readers(slots.drop_last());
        match slots.last() {
            Some(reader) => rest.push(reader),
            None => rest,
        }
    }
}

pub open spec fn is_subscribed(slots: Seq<Option<ReaderId>>, reader: ReaderId) -> bool {
    exists|i: int| 0 <= i < slots.len() && #[trigger] slots[i] == Some(reader)
}

/// The slot that `reader` has taken.
pub open spec fn reader_slot(slots: Seq<Option<ReaderId>>, reader: ReaderId) -> int {
    choose|i: int| 0 <= i < slots.len() && #[trigger] slots[i] == Some(reader)
}

/// No reader has taken two slots.
pub open spec fn readers_distinct(slots: Seq<Option<ReaderId>>) -> bool {
    forall|i: int, j: int|
        0 <= i < j < slots.len() && (#[trigger] slots[i]) is Some ==> slots[i] != #[trigger] slots[j]
}

/// The mathematical model of a reactive cell.
pub struct CellView<T> {
    pub value: T,
    /// The reader registry: a slot holds a reader or is empty for good.
    pub slots: Seq<Option<ReaderId>>,
}

impl<T: PartialEq> CellView<T> {
    pub open spec fn wf(self) -> bool {
        readers_distinct(self.slots)
    }

    /// `reader` takes a new slot, unless it has one.
    pub open spec fn subscribe(self, reader: ReaderId) -> Self {
        if is_subscribed(self.slots, reader) {
            self
        } else {
            CellView { value: self.value, slots: self.slots.push(Some(reader)) }
        }
    }

    /// The slot is emptied; its reader is no longer told of changes.
    pub open spec fn release(self, slot: int) -> Self {
        if 0 <= slot < self.slots.len() {
            CellView { value: self.value, slots: self.slots.update(slot, None) }
        } else {
            self
        }
    }

    /// Whether writing `value` changes the cell.
    pub open spec fn changes(self, value: T) -> bool {
        !self.value.eq_spec(&value)
    }

    pub open spec fn set(self, value: T) -> Self {
        if self.changes(value) {
            CellView { value, slots: self.slots }
        } else {
            self
        }
    }

    /// The readers to tell after `value` was written: all that hold a slot
    /// when the value changed, none when it did not.
    pub open spec fn notified(self, value: T) -> Seq<ReaderId> {
        if self.changes(value) {
            live_readers(self.slots)
        } else {
            Seq::empty()
        }
    }
}

/// A value with the readers that depend on it.
pub struct ReactiveCell<T> {
    value: T,
    slots: Vec<Option<ReaderId>>,
}

impl<T> View for ReactiveCell<T> {
    type V = CellView<T>;

    closed spec fn view(&self) -> CellView<T> {
        CellView { value: self.value, slots: self.slots@ }
    }
}

impl<T: PartialEq> ReactiveCell<T> {
    /// A cell that nobody reads yet.
    pub fn new(value: T) -> (cell: Self)
        ensures
            cell@ == (CellView { value, slots: Seq::empty() }),
            cell@.wf(),
    {
        ReactiveCell { value, slots: Vec::new() }
    }

    /// The current value, without subscribing anyone.
    pub fn get(&self) -> (value: &T)
        ensures
            *value == self@.value,
    {
        &self.value
    }

    /// Subscribes the computation that is running, if one is, and returns the
    /// slot that it holds. The value is then read with [`ReactiveCell::get`].
    pub fn track(&mut self, tracker: &Tracker) -> (slot: Option<SlotId>)
        requires
            old(self)@.wf(),
        ensures
            final(self)@.wf(),
            match current_reader(tracker@) {
                Some(reader) => final(self)@ == old(self)@.subscribe(reader) && slot is Some
                    && (slot->0).0 == reader_slot(final(self)@.slots, reader),
                None => final(self)@ == old(self)@ && slot is None,
            },
    {
        match tracker.current() {
            Some(reader) => Some(self.subscribe(reader)),
            None => None,
        }
    }

    fn find(&self, reader: ReaderId) -> (slot: Option<usize>)
        requires
            readers_distinct(self.slots@),
        ensures
            slot is Some <==> is_subscribed(self.slots@, reader),
            slot matches Some(i) ==> i < self.slots@.len() && i == reader_slot(self.slots@, reader),
    {
        let mut i: usize = 0;
        while i < self.slots.len()
            invariant
                i <= self.slots@.len(),
                readers_distinct(self.slots@),
                forall|j: int| 0 <= j < i ==> #[trigger] self.slots@[j] != Some(reader),
            decreases self.slots@.len() - i,
        {
            let taken = match self.slots[i] {
                Some(r) => r.0 == reader.0,
                None => false,
            };
            if taken {
                proof {
                    let slots = self.slots@;
                    assert(slots[i as int] == Some(reader));
                    let s = reader_slot(slots, reader);
                    assert(slots[s] == Some(reader));
                    if s < i {
                        assert(slots[s] != slots[i as int]);
                    } else if s > i {
                        assert(slots[i as int] != slots[s]);
                    }
                }
                return Some(i);
            }
            i = i + 1;
        }
        None
    }

    /// Subscribes `reader` and returns the slot that it holds. A reader that
    /// is subscribed already keeps its slot.
    pub fn subscribe(&mut self, reader: ReaderId) -> (slot: SlotId)
        requires
            old(self)@.wf(),
        ensures
            final(self)@ == old(self)@.subscribe(reader),
            final(self)@.wf(),
            slot.0 == reader_slot(final(self)@.slots, reader),
            slot.0 < final(self)@.slots.len(),
            final(self)@.slots[slot.0 as int] == Some(reader),
    {
        match self.find(reader) {
            Some(i) => SlotId(i),
            None => {
                let i: usize = self.slots.len();
                self.slots.push(Some(reader));
                proof {
                    let before = old(self)@.slots;
                    let after = self@.slots;
                    assert(after[i as int] == Some(reader));
                    assert forall|a: int, b: int|
                        0 <= a < b < after.len() && (#[trigger] after[a]) is Some implies after[a]
                        != #[trigger] after[b] by {
                        if b < before.len() {
                            assert(before[a] != before[b]);
                        } else {
                            assert(before[a] != Some(reader));
                        }
                    }
                    let s = reader_slot(after, reader);
                    if s < i {
                        assert(before[s] == Some(reader));
                    }
                }
                SlotId(i)
            },
        }
    }

    /// Empties `slot`: the reader that held it is no longer told of changes.
    /// Returns the reader, or `None` where the slot was empty or is unknown.
    pub fn unsubscribe(&mut self, slot: SlotId) -> (reader: Option<ReaderId>)
        requires
            old(self)@.wf(),
        ensures
            final(self)@ == old(self)@.release(slot.0 as int),
            final(self)@.wf(),
            reader == if slot.0 < old(self)@.slots.len() {
                old(self)@.slots[slot.0 as int]
            } else {
                None
            },
    {
        if slot.0 < self.slots.len() {
            let reader = self.slots[slot.0];
            self.slots[slot.0] = None;
            proof {
                let before = old(self)@.slots;
                let after = self@.slots;
                assert forall|a: int, b: int|
                    0 <= a < b < after.len() && (#[trigger] after[a]) is Some implies after[a]
                    != #[trigger] after[b] by {
                    assert(before[a] != before[b]);
                }
            }
            reader
        } else {
            None
        }
    }

    /// The readers that hold a slot, in the order of their slots.
    pub fn readers(&self) -> (readers: Vec<ReaderId>)
        ensures
            readers@ == live_readers(self@.slots),
    {
        let mut readers: Vec<ReaderId> = Vec::new();
        let mut i: usize = 0;
        while i < self.slots.len()
            invariant
                i <= self.slots@.len(),
                readers@ == live_readers(self.slots@.take(i as int)),
            decreases self.slots@.len() - i,
        {
            proof {
                let next = self.slots@.take(i + 1);
                assert(next.drop_last() =~= self.slots@.take(i as int));
                assert(next.last() == self.slots@[i as int]);
            }
            match self.slots[i] {
                Some(reader) => {
                    readers.push(reader);
                },
                None => {},
            }
            i = i + 1;
        }
        proof {
            assert(self.slots@.take(i as int) =~= self.slots@);
        }
        readers
    }

    /// Writes `value`. Where it equals the value held, nothing changes and
    /// nobody is told. Otherwise the cell holds the new value, and the
    /// readers that are returned are to be told, in this order: the cell has
    /// changed before any of them hears of it.
    pub fn set(&mut self, value: T) -> (notify: Vec<ReaderId>)
        requires
            old(self)@.wf(),
        ensures
            final(self)@.wf(),
            final(self)@.slots == old(self)@.slots,
            (final(self)@ == old(self)@ && notify@ == Seq::<ReaderId>::empty())
                || (final(self)@.value == value && notify@ == live_readers(old(self)@.slots)),
            T::obeys_eq_spec() ==> final(self)@ == old(self)@.set(value),
            T::obeys_eq_spec() ==> notify@ == old(self)@.notified(value),
    {
        if self.value == value {
            Vec::new()
        } else {
            self.value = value;
            self.readers()
        }
    }
}

/// A write of the value that the cell holds tells nobody and changes nothing.
pub proof fn lemma_equal_write_is_silent<T: PartialEq>(cell: CellView<T>, value: T)
    requires
        cell.value.eq_spec(&value),
    ensures
        cell.set(value) == cell,
        cell.notified(value) == Seq::<ReaderId>::empty(),
{
}

/// A reader whose slot was emptied is told of no later change, and every
/// other reader still is.
pub proof fn lemma_released_reader_is_not_notified(
    slots: Seq<Option<ReaderId>>,
    slot: int,
    other: ReaderId,
)
    requires
        readers_distinct(slots),
        0 <= slot < slots.len(),
        slots[slot] is Some,
    ensures
        !live_readers(slots.update(slot, None)).contains(slots[slot]->0),
        other != slots[slot]->0 ==> (live_readers(slots).contains(other) <==> live_readers(
            slots.update(slot, None),
        ).contains(other)),
{
    let after = slots.update(slot, None);
    let gone = slots[slot]->0;
    lemma_live_readers_are_the_slots(after, gone);
    lemma_live_readers_are_the_slots(after, other);
    lemma_live_readers_are_the_slots(slots, other);
    if is_subscribed(after, gone) {
        let i = reader_slot(after, gone);
        assert(after[i] == Some(gone));
        assert(slots[i] == Some(gone));
        if i < slot {
            assert(slots[i] != slots[slot]);
        } else {
            assert(slots[slot] != slots[i]);
        }
    }
    if other != gone {
        if is_subscribed(slots, other) {
            let i = reader_slot(slots, other);
            assert(after[i] == Some(other));
        }
        if is_subscribed(after, other) {
            let i = reader_slot(after, other);
            assert(slots[i] == Some(other));
        }
    }
}

/// The readers that are told are exactly those that hold a slot.
pub proof fn lemma_live_readers_are_the_slots(slots: Seq<Option<ReaderId>>, r: ReaderId)
    ensures
        live_readers(slots).contains(r) <==> is_subscribed(slots, r),
    decreases slots.len(),
{
    let all = live_readers(slots);
    if slots.len() > 0 {
        let front = slots.drop_last();
        lemma_live_readers_are_the_slots(front, r);
        let rest = live_readers(front);
        if all.contains(r) {
            let i = choose|i: int| 0 <= i < all.len() && all[i] == r;
            if i < rest.len() {
                assert(rest[i] == r);
                assert(rest.contains(r));
                let j = reader_slot(front, r);
                assert(front[j] == Some(r));
                assert(slots[j] == Some(r));
            } else {
                assert(slots[slots.len() - 1] == Some(r));
            }
        }
        if is_subscribed(slots, r) {
            let j = reader_slot(slots, r);
            if j < front.len() {
                assert(front[j] == Some(r));
                assert(is_subscribed(front, r));
                assert(rest.contains(r));
                let i = choose|i: int| 0 <= i < rest.len() && rest[i] == r;
                assert(all[i] == r);
            } else {
                assert(slots.last() == Some(r));
                assert(all[all.len() - 1] == r);
            }
        }
    }
}

} // verus!
