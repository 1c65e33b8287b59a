use stream_shared::hub::{Pulled, Step, StreamHub};

fn hint(n: usize) -> (usize, Option<usize>) {
    (n, Some(n))
}

#[test]
fn items_are_released_once_every_reader_passed_them() {
    let (mut hub, a) = StreamHub::<i32, u32>::new(hint(3));
    let b = hub.fork(a);
    assert!(matches!(hub.poll(a), Step::NeedsSource));
    hub.feed(Pulled::Item(1, hint(2)));
    hub.feed(Pulled::Item(2, hint(1)));
    assert_eq!(hub.buffered(), 2);
    assert!(matches!(hub.poll(a), Step::Ready(1)));
    // `b` has not read item 1 yet: it is still held.
    assert_eq!(hub.buffered(), 2);
    assert!(matches!(hub.poll(b), Step::Ready(1)));
    assert_eq!(hub.buffered(), 1);
    // Dropping the last reader of item 2 lets it go.
    assert!(matches!(hub.poll(a), Step::Ready(2)));
    hub.close(b);
    assert_eq!(hub.buffered(), 0);
}

#[test]
fn items_produced_with_no_reader_are_not_held() {
    let (mut hub, a) = StreamHub::<i32, u32>::new(hint(1));
    hub.close(a);
    assert_eq!(hub.stats().active_clones(), 0);
    let woken = hub.feed(Pulled::Item(9, hint(0)));
    assert!(woken.is_empty());
    assert_eq!(hub.buffered(), 0);
}

#[test]
fn size_hint_follows_each_item_read() {
    let (mut hub, a) = StreamHub::<i32, u32>::new((0, None));
    assert_eq!(hub.size_hint(a), (0, None));
    hub.feed(Pulled::Item(5, (4, Some(9))));
    assert_eq!(hub.size_hint(a), (0, None));
    assert!(matches!(hub.poll(a), Step::Ready(5)));
    assert_eq!(hub.size_hint(a), (4, Some(9)));
    hub.feed(Pulled::Exhausted);
    assert!(matches!(hub.poll(a), Step::Done));
    // A consumer that stopped keeps the hint it had.
    assert_eq!(hub.size_hint(a), (4, Some(9)));
}

#[test]
fn a_clone_of_a_stopped_consumer_is_stopped_and_not_counted() {
    let (mut hub, a) = StreamHub::<i32, u32>::new(hint(0));
    hub.feed(Pulled::Exhausted);
    assert!(hub.source_ended());
    assert!(matches!(hub.poll(a), Step::Done));
    assert_eq!(hub.stats().active_clones(), 0);
    let b = hub.fork(a);
    assert!(hub.is_terminated(b));
    assert_eq!(hub.stats().active_clones(), 0);
    hub.close(b);
    hub.close(a);
    assert_eq!(hub.stats().active_clones(), 0);
}

#[test]
fn parking_twice_keeps_one_waker_and_feed_returns_them_in_id_order() {
    let (mut hub, a) = StreamHub::<i32, u32>::new(hint(1));
    let b = hub.fork(a);
    hub.park(b, 20);
    hub.park(a, 10);
    hub.park(a, 11);
    let woken = hub.feed(Pulled::Item(3, hint(0)));
    assert_eq!(woken, vec![11, 20]);
    let woken_again = hub.feed(Pulled::Exhausted);
    assert!(woken_again.is_empty());
}

#[test]
fn closed_ids_are_reused_and_open_ids_are_reported() {
    let (mut hub, a) = StreamHub::<i32, u32>::new(hint(1));
    let b = hub.fork(a);
    assert_eq!(b, 1);
    assert!(hub.is_open(b));
    hub.close(b);
    assert!(!hub.is_open(b));
    assert!(!hub.is_open(7));
    let c = hub.fork(a);
    assert_eq!(c, 1);
}

#[test]
fn reading_one_consumer_leaves_the_others_in_place() {
    let (mut hub, a) = StreamHub::<i32, u32>::new(hint(2));
    let b = hub.fork(a);
    hub.feed(Pulled::Item(1, hint(1)));
    hub.feed(Pulled::Item(2, hint(0)));
    assert!(matches!(hub.poll(a), Step::Ready(1)));
    assert!(matches!(hub.poll(a), Step::Ready(2)));
    assert!(matches!(hub.poll(a), Step::NeedsSource));
    assert_eq!(hub.size_hint(b), hint(2));
    assert!(matches!(hub.poll(b), Step::Ready(1)));
}

#[test]
fn the_hint_after_an_item_is_the_one_fed_with_it() {
    let (mut hub, a) = StreamHub::<i32, u32>::new((3, Some(3)));
    assert!(matches!(hub.poll(a), Step::NeedsSource));
    hub.feed(Pulled::Item(8, (6, Some(7))));
    assert!(matches!(hub.poll(a), Step::Ready(8)));
    assert_eq!(hub.size_hint(a), (6, Some(7)));
}

#[test]
fn a_stopped_consumer_reports_the_hint_after_the_last_item() {
    let (mut hub, a) = StreamHub::<i32, u32>::new((1, Some(1)));
    hub.feed(Pulled::Item(4, (0, Some(0))));
    hub.feed(Pulled::Exhausted);
    assert!(matches!(hub.poll(a), Step::Ready(4)));
    assert!(matches!(hub.poll(a), Step::Done));
    assert!(hub.is_terminated(a));
    assert_eq!(hub.size_hint(a), (0, Some(0)));
    let b = hub.fork(a);
    assert_eq!(hub.size_hint(b), (0, Some(0)));
}

#[test]
fn the_count_is_read_from_the_hub_each_time() {
    let (mut hub, a) = StreamHub::<i32, u32>::new(hint(1));
    assert_eq!(hub.active_clones(), 1);
    let b = hub.fork(a);
    let c = hub.fork(a);
    assert_eq!(hub.active_clones(), 3);
    assert_eq!(hub.stats().active_clones(), 3);
    hub.close(b);
    assert_eq!(hub.active_clones(), 2);
    hub.feed(Pulled::Exhausted);
    assert!(matches!(hub.poll(c), Step::Done));
    assert_eq!(hub.active_clones(), 1);
}

#[test]
fn dropping_a_waiting_consumer_wakes_the_other_waiters() {
    let (mut hub, a) = StreamHub::<i32, u32>::new(hint(1));
    let b = hub.fork(a);
    let c = hub.fork(a);
    hub.park(a, 1);
    hub.park(b, 2);
    // `b` was the last to find the source not ready; dropping it hands back
    // the others' wakers.
    let woken = hub.close(b);
    assert_eq!(woken, vec![1]);
    // They are handed back once.
    let woken_again = hub.close(c);
    assert!(woken_again.is_empty());
    hub.park(a, 3);
    let woken_last = hub.close(a);
    assert!(woken_last.is_empty());
}
