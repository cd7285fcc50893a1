use suspense_reproduction::cell::{ReactiveCell, ReaderId, SlotId, Tracker};

#[test]
fn tracker_is_a_stack() {
    let mut t = Tracker::new();
    assert_eq!(t.current(), None);
    assert_eq!(t.depth(), 0);
    t.enter(ReaderId(1));
    t.enter(ReaderId(2));
    assert_eq!(t.depth(), 2);
    assert_eq!(t.current(), Some(ReaderId(2)));
    assert_eq!(t.leave(), Some(ReaderId(2)));
    assert_eq!(t.current(), Some(ReaderId(1)));
    assert_eq!(t.leave(), Some(ReaderId(1)));
    assert_eq!(t.leave(), None);
    assert_eq!(t.depth(), 0);
}

#[test]
fn untracked_read_subscribes_nobody() {
    let mut cell = ReactiveCell::new(3u32);
    let t = Tracker::new();
    assert_eq!(cell.track(&t), None);
    assert_eq!(*cell.get(), 3);
    assert_eq!(cell.readers(), Vec::<ReaderId>::new());
    assert_eq!(cell.set(4), Vec::<ReaderId>::new());
    assert_eq!(*cell.get(), 4);
}

#[test]
fn tracked_read_subscribes_the_running_computation() {
    let mut cell = ReactiveCell::new("a".to_string());
    let mut t = Tracker::new();
    t.enter(ReaderId(10));
    t.enter(ReaderId(11));
    assert_eq!(cell.track(&t), Some(SlotId(0)));
    assert_eq!(cell.readers(), vec![ReaderId(11)]);
    t.leave();
    assert_eq!(cell.track(&t), Some(SlotId(1)));
    assert_eq!(cell.track(&t), Some(SlotId(1)));
    assert_eq!(cell.readers(), vec![ReaderId(11), ReaderId(10)]);
}

#[test]
fn subscribing_twice_keeps_the_slot() {
    let mut cell = ReactiveCell::new(0u8);
    assert_eq!(cell.subscribe(ReaderId(5)), SlotId(0));
    assert_eq!(cell.subscribe(ReaderId(6)), SlotId(1));
    assert_eq!(cell.subscribe(ReaderId(5)), SlotId(0));
    assert_eq!(cell.readers(), vec![ReaderId(5), ReaderId(6)]);
}

#[test]
fn change_notifies_every_reader_in_slot_order() {
    let mut cell = ReactiveCell::new(1i64);
    cell.subscribe(ReaderId(3));
    cell.subscribe(ReaderId(1));
    cell.subscribe(ReaderId(2));
    assert_eq!(cell.set(2), vec![ReaderId(3), ReaderId(1), ReaderId(2)]);
    assert_eq!(*cell.get(), 2);
    assert_eq!(cell.set(5), vec![ReaderId(3), ReaderId(1), ReaderId(2)]);
    assert_eq!(*cell.get(), 5);
}

#[test]
fn equal_write_notifies_nobody() {
    let mut cell = ReactiveCell::new("same".to_string());
    cell.subscribe(ReaderId(1));
    assert_eq!(cell.set("same".to_string()), Vec::<ReaderId>::new());
    assert_eq!(cell.get(), "same");
    assert_eq!(cell.set("other".to_string()), vec![ReaderId(1)]);
    assert_eq!(cell.set("other".to_string()), Vec::<ReaderId>::new());
}

#[test]
fn released_reader_is_no_longer_told() {
    let mut cell = ReactiveCell::new(0u32);
    let a = cell.subscribe(ReaderId(1));
    let b = cell.subscribe(ReaderId(2));
    assert_eq!(cell.unsubscribe(a), Some(ReaderId(1)));
    assert_eq!(cell.unsubscribe(a), None);
    assert_eq!(cell.unsubscribe(SlotId(9)), None);
    assert_eq!(cell.set(1), vec![ReaderId(2)]);
    assert_eq!(cell.subscribe(ReaderId(1)), SlotId(2));
    assert_eq!(cell.subscribe(ReaderId(2)), b);
    assert_eq!(cell.set(2), vec![ReaderId(2), ReaderId(1)]);
}
