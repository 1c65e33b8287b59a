use stream_shared::hub::{Pulled, Step, StreamHub};

/// A source that yields the given items, optionally answering "not ready"
/// once before its first item.
struct Source<T> {
    items: Vec<T>,
    next: usize,
    pending_first: bool,
}

impl<T: Clone> Source<T> {
    fn new(items: Vec<T>) -> Self {
        Source { items, next: 0, pending_first: false }
    }

    fn hint(&self) -> (usize, Option<usize>) {
        let left = self.items.len() - self.next;
        (left, Some(left))
    }

    /// Polls the source: `None` means "not ready".
    fn pull(&mut self) -> Option<Pulled<T>> {
        if self.pending_first {
            self.pending_first = false;
            return None;
        }
        if self.next < self.items.len() {
            let x = self.items[self.next].clone();
            self.next += 1;
            Some(Pulled::Item(x, self.hint()))
        } else {
            Some(Pulled::Exhausted)
        }
    }
}

/// Reads the next item of consumer `id`, asking the source when needed; a
/// source that is not ready parks `token` and the read is retried.
fn next<T: Clone>(hub: &mut StreamHub<T, u32>, src: &mut Source<T>, id: usize) -> Option<T> {
    loop {
        match hub.poll(id) {
            Step::Ready(x) => return Some(x),
            Step::Done => return None,
            Step::NeedsSource => match src.pull() {
                Some(p) => {
                    hub.feed(p);
                }
                None => hub.park(id, 7),
            },
        }
    }
}

fn collect<T: Clone>(hub: &mut StreamHub<T, u32>, src: &mut Source<T>, id: usize) -> Vec<T> {
    let mut out = Vec::new();
    while let Some(x) = next(hub, src, id) {
        out.push(x);
    }
    out
}

/// Reads all the given consumers in turn, one item each per round, as
/// concurrently running tasks would.
fn collect_interleaved<T: Clone>(
    hub: &mut StreamHub<T, u32>,
    src: &mut Source<T>,
    ids: &[usize],
) -> Vec<Vec<T>> {
    let mut out: Vec<Vec<T>> = ids.iter().map(|_| Vec::new()).collect();
    let mut done = vec![false; ids.len()];
    while done.iter().any(|d| !d) {
        for (k, &id) in ids.iter().enumerate() {
            if !done[k] {
                match next(hub, src, id) {
                    Some(x) => out[k].push(x),
                    None => done[k] = true,
                }
            }
        }
    }
    out
}

fn start<T: Clone>(items: Vec<T>) -> (StreamHub<T, u32>, Source<T>, usize) {
    let src = Source::new(items);
    let (hub, id) = StreamHub::new(src.hint());
    (hub, src, id)
}

#[test]
fn test_basic_shared_stream_works() {
    let numbers = vec![1, 2, 3, 4, 5];
    let (mut hub, mut src, id) = start(numbers.clone());
    assert_eq!(hub.size_hint(id), (5, Some(5)));
    let collected = collect(&mut hub, &mut src, id);
    assert_eq!(collected, numbers);
}

#[test]
fn test_multiple_clones_get_same_data() {
    let data = vec![10, 20, 30];
    let (mut hub, mut src, id) = start(data.clone());
    let clone1 = hub.fork(id);
    let clone2 = hub.fork(id);
    let clone3 = hub.fork(id);
    assert_eq!(hub.size_hint(clone1), (3, Some(3)));
    assert_eq!(hub.size_hint(clone2), (3, Some(3)));
    assert_eq!(hub.size_hint(clone3), (3, Some(3)));
    let results = collect_interleaved(&mut hub, &mut src, &[clone1, clone2, clone3]);
    assert_eq!(results[0], data);
    assert_eq!(results[1], data);
    assert_eq!(results[2], data);
}

#[test]
fn test_clone_after_partial_consumption() {
    let numbers = vec![100, 200, 300, 400];
    let (mut hub, mut src, id) = start(numbers.clone());
    assert_eq!(hub.size_hint(id), (4, Some(4)));
    let first_item = next(&mut hub, &mut src, id);
    assert_eq!(first_item, Some(100));
    assert_eq!(hub.size_hint(id), (3, Some(3)));
    let cloned = hub.fork(id);
    assert_eq!(hub.size_hint(cloned), (3, Some(3)));
    let clone_result = collect(&mut hub, &mut src, cloned);
    assert_eq!(clone_result, vec![200, 300, 400]);
}

#[test]
fn test_with_string_data() {
    let messages = vec!["hello".to_string(), "world".to_string()];
    let (mut hub, mut src, id) = start(messages.clone());
    let clone1 = hub.fork(id);
    let clone2 = hub.fork(id);
    let results = collect_interleaved(&mut hub, &mut src, &[clone1, clone2]);
    assert_eq!(results[0], messages);
    assert_eq!(results[1], messages);
}

#[test]
fn test_empty_stream_behavior() {
    let (mut hub, mut src, id) = start(Vec::<i32>::new());
    assert_eq!(hub.size_hint(id), (0, Some(0)));
    let clone1 = hub.fork(id);
    let clone2 = hub.fork(id);
    assert_eq!(hub.size_hint(clone1), (0, Some(0)));
    assert_eq!(hub.size_hint(clone2), (0, Some(0)));
    let results = collect_interleaved(&mut hub, &mut src, &[clone1, clone2]);
    assert!(results[0].is_empty());
    assert!(results[1].is_empty());
}

#[test]
fn test_single_item_stream() {
    let single_item = vec![42];
    let (mut hub, mut src, id) = start(single_item.clone());
    assert_eq!(hub.size_hint(id), (1, Some(1)));
    let clone1 = hub.fork(id);
    let clone2 = hub.fork(id);
    assert_eq!(hub.size_hint(clone1), (1, Some(1)));
    assert_eq!(hub.size_hint(clone2), (1, Some(1)));
    let results = collect_interleaved(&mut hub, &mut src, &[clone1, clone2]);
    assert_eq!(results[0], single_item);
    assert_eq!(results[1], single_item);
    let item = next(&mut hub, &mut src, id);
    assert_eq!(item, Some(42));
    assert_eq!(hub.size_hint(id), (0, Some(0)));
    let remaining = collect(&mut hub, &mut src, id);
    assert!(remaining.is_empty());
}

#[test]
fn test_many_clones_stress_test() {
    let data = vec![1, 2, 3];
    let (mut hub, mut src, id) = start(data.clone());
    let mut clones = Vec::new();
    for _ in 0..20 {
        clones.push(hub.fork(id));
    }
    let all_results = collect_interleaved(&mut hub, &mut src, &clones);
    for result in all_results {
        assert_eq!(result, data);
    }
}

#[test]
fn test_send_sync_bounds() {
    fn assert_send<T: Send>() {}
    fn assert_sync<T: Sync>() {}
    assert_send::<StreamHub<i32, std::task::Waker>>();
    assert_sync::<StreamHub<i32, std::task::Waker>>();
}

#[test]
fn test_next_after_stream_exhausted() {
    let data = vec![1, 2, 3];
    let (mut hub, mut src, id) = start(data.clone());
    assert!(!hub.is_terminated(id));
    let mut collected = Vec::new();
    while let Some(item) = next(&mut hub, &mut src, id) {
        collected.push(item);
        if collected.len() < data.len() {
            assert!(!hub.is_terminated(id));
        }
    }
    assert_eq!(collected, data);
    assert!(hub.is_terminated(id));
    let result = next(&mut hub, &mut src, id);
    assert_eq!(result, None);
    assert!(hub.is_terminated(id));
    let result2 = next(&mut hub, &mut src, id);
    assert_eq!(result2, None);
    assert!(hub.is_terminated(id));
    let cloned = hub.fork(id);
    assert!(hub.is_terminated(cloned));
    let result3 = next(&mut hub, &mut src, cloned);
    assert_eq!(result3, None);
    assert!(hub.is_terminated(cloned));
}

#[test]
fn test_pending_future_behavior() {
    let mut src = Source::new(vec![100, 200]);
    src.pending_first = true;
    let (mut hub, id) = StreamHub::<i32, u32>::new(src.hint());
    // The source is not ready: the consumer leaves its waker.
    assert!(matches!(hub.poll(id), Step::NeedsSource));
    assert!(src.pull().is_none());
    hub.park(id, 5);
    // The source becomes ready: the waiting consumer is handed back to be woken.
    let p = src.pull().unwrap();
    let woken = hub.feed(p);
    assert_eq!(woken, vec![5]);
    let result = collect(&mut hub, &mut src, id);
    assert_eq!(result, vec![100, 200]);
    assert!(!src.pending_first);
}

#[test]
fn test_stats() {
    let (mut hub, mut src, shared) = start(vec![1, 2, 3]);
    assert_eq!(hub.stats().active_clones(), 1);
    let clone1 = hub.fork(shared);
    assert_eq!(hub.stats().active_clones(), 2);
    let clone2 = hub.fork(clone1);
    assert_eq!(hub.stats().active_clones(), 3);
    hub.close(clone2);
    assert_eq!(hub.stats().active_clones(), 2);
    let _orig_collected = collect(&mut hub, &mut src, shared);
    hub.close(shared);
    assert_eq!(hub.stats().active_clones(), 1);
    hub.close(clone1);
    assert_eq!(hub.stats().active_clones(), 0);

    let (mut hub, mut src, shared_empty) = start(Vec::<i32>::new());
    assert_eq!(hub.stats().active_clones(), 1);
    let clone_empty = hub.fork(shared_empty);
    assert_eq!(hub.stats().active_clones(), 2);
    hub.close(clone_empty);
    assert_eq!(hub.stats().active_clones(), 1);
    let _ = collect(&mut hub, &mut src, shared_empty);
    assert_eq!(hub.stats().active_clones(), 0);

    let (mut hub, mut src, shared2) = start(vec![10, 20, 30]);
    assert_eq!(hub.stats().active_clones(), 1);
    let first = next(&mut hub, &mut src, shared2);
    assert_eq!(first, Some(10));
    let clone_after = hub.fork(shared2);
    assert_eq!(hub.stats().active_clones(), 2);
    hub.close(clone_after);
    assert_eq!(hub.stats().active_clones(), 1);
    let _ = collect(&mut hub, &mut src, shared2);
    assert_eq!(hub.stats().active_clones(), 0);
}

#[test]
fn clones_start_where_their_source_stands() {
    let data: Vec<i32> = (1..=20).collect();
    let (mut hub, mut src, first) = start(data);
    for _ in 0..10 {
        next(&mut hub, &mut src, first);
    }
    let clone1 = hub.fork(first);
    assert_eq!(hub.size_hint(clone1), (10, Some(10)));
    for _ in 0..2 {
        next(&mut hub, &mut src, clone1);
    }
    let clone2 = hub.fork(clone1);
    let clone3 = hub.fork(first);
    assert_eq!(collect(&mut hub, &mut src, clone2), (13..=20).collect::<Vec<i32>>());
    assert_eq!(collect(&mut hub, &mut src, clone3), (11..=20).collect::<Vec<i32>>());
    assert_eq!(collect(&mut hub, &mut src, clone1).len(), 8);
    assert_eq!(collect(&mut hub, &mut src, first).len(), 10);
}
