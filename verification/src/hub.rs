use std::collections::VecDeque;
use vstd::prelude::*;

use crate::count::{
    Slot, slot_live, live_count, live_ids, lemma_live_count_push, lemma_live_count_ext,
    lemma_live_count_update, lemma_live_count_bound, lemma_live_count_zero, lemma_live_ids,
    has_oldest_reader, lemma_oldest_reader_kept,
};
use crate::stats::Stats;

verus! {

/// A stream's estimate of how many items remain: a lower bound and, if known,
/// an upper bound.
pub type SizeHint = (usize, Option<usize>);

/// One consumer of the shared stream, as the contracts see it.
///
/// `pos` counts the items of the source that this consumer has already taken
/// (it is `0` once the consumer has stopped reading); `hint` is the size hint
/// it reports; `waker` is what it left to be woken by when the source was not
/// ready. `start` is the position at which the consumer was created, and
/// `reads` lists, in order, the items of the source it has been handed since.
pub struct Consumer<T, W> {
    pub live: bool,
    pub pos: nat,
    pub hint: SizeHint,
    pub waker: Option<W>,
    pub start: nat,
    pub reads: Seq<T>,
}

/// What a consumer's next read will do.
pub enum Next {
    /// Deliver the item of the source at this index.
    Item(nat),
    /// Report the end of the stream.
    End,
    /// Wait for the source to produce something.
    Wait,
}

/// The answer of [`StreamHub::poll`].
pub enum Step<T> {
    /// The consumer's next item.
    Ready(T),
    /// The consumer has reached the end of the stream.
    Done,
    /// The consumer is at the newest item: the source has to be polled.
    NeedsSource,
}

/// What the source answered when it was ready.
pub enum Pulled<T> {
    /// An item, with the size hint the source gave right after yielding it.
    Item(T, SizeHint),
    /// The end of the source.
    Exhausted,
}

/// The shared state behind every clone of a shared stream.
///
/// The hub buffers the items the source has produced, and keeps for each
/// consumer (a clone of the stream) its own position in that sequence. An
/// item stays buffered exactly as long as some live consumer has not read it.
pub struct StreamHub<T, W> {
    buffer: VecDeque<(T, SizeHint)>,
    slots: Vec<Option<Slot>>,
    wakers: Vec<Option<W>>,
    ended: bool,
    stats: Stats,
    produced: Ghost<Seq<T>>,
    hints: Ghost<Seq<SizeHint>>,
    first_hint: Ghost<SizeHint>,
    base: Ghost<nat>,
    history: Ghost<Seq<(nat, Seq<T>)>>,
}

/// The wakers left by the consumers with ids below `n`, in id order.
pub open spec fn parked_wakers<T, W>(consumers: Map<usize, Consumer<T, W>>, n: nat) -> Seq<W>
    decreases n,
{
    if n == 0 {
        Seq::empty()
    } else {
        let prev = parked_wakers(consumers, (n - 1) as nat);
        let i = (n - 1) as usize;
        if consumers.contains_key(i) && consumers[i].waker is Some {
            prev.push(consumers[i].waker.unwrap())
        } else {
            prev
        }
    }
}

/// The ids below `n` of the open consumers that hold a waker.
pub open spec fn waiting_below<T, W>(consumers: Map<usize, Consumer<T, W>>, n: int) -> Set<usize> {
    Set::new(|j: usize| j < n && consumers.contains_key(j) && consumers[j].waker is Some)
}

/// `woken` holds the waker of every open consumer with an id below `n` that
/// holds one, each exactly once, in id order: the waker of such a consumer
/// `i` stands at the place given by how many of them have a smaller id.
pub open spec fn lists_waiters_in_id_order<T, W>(
    woken: Seq<W>,
    consumers: Map<usize, Consumer<T, W>>,
    n: int,
) -> bool {
    &&& waiting_below(consumers, n).finite()
    &&& woken.len() == waiting_below(consumers, n).len()
    &&& forall|i: usize|
        #[trigger] waiting_below(consumers, n).contains(i) ==> woken[waiting_below(consumers, i as int).len() as int]
            == consumers[i].waker.unwrap()
}

/// The wakers handed back for the consumers with ids below `n` are exactly
/// the wakers of the open consumers there that hold one, in id order, none
/// left out, whatever ids are free and whatever else the consumers hold.
pub proof fn lemma_parked_wakers_are_the_waiters<T, W>(consumers: Map<usize, Consumer<T, W>>, n: nat)
    requires
        n <= usize::MAX + 1,
    ensures
        lists_waiters_in_id_order(parked_wakers(consumers, n), consumers, n as int),
    decreases n,
{
    if n == 0 {
        assert(waiting_below(consumers, 0) =~= Set::<usize>::empty());
    } else {
        let m = (n - 1) as nat;
        let k = m as usize;
        lemma_parked_wakers_are_the_waiters(consumers, m);
        let prev = parked_wakers(consumers, m);
        let cur = parked_wakers(consumers, n);
        let wm = waiting_below(consumers, m as int);
        let wn = waiting_below(consumers, n as int);
        let waiting = consumers.contains_key(k) && consumers[k].waker is Some;
        if waiting {
            assert(wn =~= wm.insert(k));
            assert(!wm.contains(k));
            assert(cur == prev.push(consumers[k].waker.unwrap()));
        } else {
            assert(wn =~= wm);
            assert(cur == prev);
        }
        assert forall|i: usize| #[trigger] wn.contains(i) implies cur[waiting_below(consumers, i as int).len() as int]
            == consumers[i].waker.unwrap() by {
            let wi = waiting_below(consumers, i as int);
            if i == k {
                assert(wi =~= wm);
            } else {
                assert(wm.contains(i));
                assert(wi.subset_of(wm.remove(i)));
                vstd::set_lib::lemma_len_subset(wi, wm.remove(i));
            }
        }
    }
}

/// Clearing the wakers keeps every consumer, and everything else about
/// each one, and leaves none of them holding a waker.
pub proof fn lemma_without_wakers_clears_only_wakers<T, W>(consumers: Map<usize, Consumer<T, W>>)
    ensures
        without_wakers(consumers).dom() == consumers.dom(),
        forall|i: usize|
            #[trigger] without_wakers(consumers).contains_key(i) ==> {
                let c = without_wakers(consumers)[i];
                &&& c.waker is None
                &&& c.live == consumers[i].live
                &&& c.pos == consumers[i].pos
                &&& c.hint == consumers[i].hint
                &&& c.start == consumers[i].start
                &&& c.reads == consumers[i].reads
            },
{
    assert(without_wakers(consumers).dom() =~= consumers.dom());
}

/// Whether size hint `h` is right for a stream with `n` items left.
pub open spec fn hint_bounds(h: SizeHint, n: int) -> bool {
    &&& h.0 <= n
    &&& (h.1 matches Some(u) ==> n <= u)
}

/// The ids of the consumers that are still reading.
pub open spec fn live_consumers<T, W>(consumers: Map<usize, Consumer<T, W>>) -> Set<usize> {
    consumers.dom().filter(|i: usize| consumers[i].live)
}

/// The same consumers with no waker left behind.
pub open spec fn without_wakers<T, W>(consumers: Map<usize, Consumer<T, W>>) -> Map<usize, Consumer<T, W>> {
    consumers.map_values(|c: Consumer<T, W>| Consumer { waker: None, ..c })
}

spec fn shifted(s: Option<Slot>, m: usize) -> Option<Slot> {
    if slot_live(s) {
        Some(Slot { offset: (s.unwrap().offset - m) as usize, hint: s.unwrap().hint, live: true })
    } else {
        s
    }
}

spec fn consumer_of<T, W>(base: nat, s: Slot, w: Option<W>, h: (nat, Seq<T>)) -> Consumer<T, W> {
    Consumer {
        live: s.live,
        pos: if s.live { base + s.offset as nat } else { 0 },
        hint: s.hint,
        waker: w,
        start: h.0,
        reads: h.1,
    }
}

impl<T, W> StreamHub<T, W> {
    /// Every item the source has yielded so far, in order.
    pub closed spec fn produced(&self) -> Seq<T> {
        self.produced@
    }

    /// `hints()[k]` is the size hint the source gave right after yielding
    /// `produced()[k]`.
    pub closed spec fn hints(&self) -> Seq<SizeHint> {
        self.hints@
    }

    /// The size hint the source gave before anything was read.
    pub closed spec fn first_hint(&self) -> SizeHint {
        self.first_hint@
    }

    /// The size hint of the source once `p` items have been read from it.
    pub open spec fn hint_at(&self, p: nat) -> SizeHint {
        if p == 0 {
            self.first_hint()
        } else {
            self.hints()[p - 1]
        }
    }

    /// Whether the source has reported its end.
    pub closed spec fn ended(&self) -> bool {
        self.ended
    }

    /// How many of the produced items have been let go: every item before
    /// this index is no longer held.
    pub closed spec fn released(&self) -> nat {
        self.base@
    }

    /// The active-clone count.
    pub closed spec fn stats_view(&self) -> Stats {
        self.stats
    }

    /// The number of ids handed out so far; every id is below it.
    pub closed spec fn capacity(&self) -> nat {
        self.slots@.len()
    }

    /// The open consumers by id.
    pub closed spec fn consumers(&self) -> Map<usize, Consumer<T, W>> {
        Map::new(
            |i: usize| i < self.slots@.len() && self.slots@[i as int] is Some,
            |i: usize| consumer_of(
                self.base@,
                self.slots@[i as int].unwrap(),
                self.wakers@[i as int],
                self.history@[i as int],
            ),
        )
    }

    /// What the next read of consumer `id` will do.
    pub open spec fn next_of(&self, id: usize) -> Next {
        let c = self.consumers()[id];
        if !c.live {
            Next::End
        } else if c.pos < self.produced().len() {
            Next::Item(c.pos)
        } else if self.ended() {
            Next::End
        } else {
            Next::Wait
        }
    }

    spec fn core_wf(&self) -> bool {
        &&& self.wakers@.len() == self.slots@.len()
        &&& self.history@.len() == self.slots@.len()
        &&& forall|i: int|
            0 <= i < self.slots@.len() && slot_live(#[trigger] self.slots@[i]) ==> {
                let p = self.base@ + self.slots@[i].unwrap().offset as nat;
                &&& self.history@[i].0 <= p
                &&& self.history@[i].1 == self.produced@.subrange(self.history@[i].0 as int, p as int)
            }
        &&& forall|i: int|
            0 <= i < self.slots@.len() && (#[trigger] self.slots@[i]) is Some && !slot_live(
                self.slots@[i],
            ) ==> {
                &&& self.history@[i].0 <= self.produced@.len()
                &&& self.history@[i].1 == self.produced@.subrange(
                    self.history@[i].0 as int,
                    self.produced@.len() as int,
                )
            }
        &&& self.hints@.len() == self.produced@.len()
        &&& self.base@ + self.buffer@.len() == self.produced@.len()
        &&& forall|k: int|
            0 <= k < self.buffer@.len() ==> {
                &&& (#[trigger] self.buffer@[k]).0 == self.produced@[self.base@ + k]
                &&& self.buffer@[k].1 == self.hints@[self.base@ + k]
            }
        &&& forall|i: int|
            0 <= i < self.slots@.len() && slot_live(#[trigger] self.slots@[i]) ==> {
                &&& self.slots@[i].unwrap().offset <= self.buffer@.len()
                &&& self.slots@[i].unwrap().hint == self.hint_at(
                    self.base@ + self.slots@[i].unwrap().offset as nat,
                )
            }
        &&& forall|i: int|
            0 <= i < self.slots@.len() && (#[trigger] self.slots@[i]) is Some && !slot_live(
                self.slots@[i],
            ) ==> {
                &&& self.ended
                &&& self.slots@[i].unwrap().hint == self.hint_at(self.produced@.len())
            }
        &&& forall|i: int|
            0 <= i < self.slots@.len() && #[trigger] self.slots@[i] is None ==> self.wakers@[i]
                is None
        &&& self.stats.count() == live_count(self.slots@)
    }

    spec fn released_exactly(&self) -> bool {
        ||| has_oldest_reader(self.slots@)
        ||| live_count(self.slots@) == 0 && self.buffer@.len() == 0
    }

    /// The hub's internal invariant.
    pub closed spec fn wf(&self) -> bool {
        &&& self.core_wf()
        &&& self.released_exactly()
    }

    /// Lets go of every buffered item that no live consumer still has to read.
    fn release(&mut self)
        requires
            old(self).core_wf(),
        ensures
            final(self).wf(),
            final(self).hints().len() == final(self).produced().len(),
            final(self).consumers() == old(self).consumers(),
            final(self).produced() == old(self).produced(),
            final(self).hints() == old(self).hints(),
            final(self).first_hint() == old(self).first_hint(),
            final(self).ended() == old(self).ended(),
            final(self).stats_view() == old(self).stats_view(),
            final(self).capacity() == old(self).capacity(),
    {
        let ghost old_slots = self.slots@;
        let ghost old_buf = self.buffer@;
        let ghost old_base = self.base@;
        let n = self.slots.len();
        // The smallest offset of a live consumer, or the buffer length if none is live.
        let mut m = self.buffer.len();
        let mut i: usize = 0;
        while i < n
            invariant
                self.core_wf(),
                self.slots@ == old_slots,
                self.buffer@ == old_buf,
                n == old_slots.len(),
                i <= n,
                m <= old_buf.len(),
                forall|j: int|
                    0 <= j < i && slot_live(#[trigger] old_slots[j]) ==> m <= old_slots[j].unwrap().offset,
                m == old_buf.len() || exists|j: int|
                    0 <= j < i && slot_live(#[trigger] old_slots[j]) && old_slots[j].unwrap().offset == m,
            decreases n - i,
        {
            match self.slots[i] {
                Some(s) => {
                    if s.live && s.offset < m {
                        m = s.offset;
                    }
                },
                None => {},
            }
            i += 1;
        }
        let mut k: usize = 0;
        while k < m
            invariant
                k <= m,
                m <= old_buf.len(),
                self.buffer@ == old_buf.subrange(k as int, old_buf.len() as int),
                self.slots@ == old_slots,
                self.wakers@ == old(self).wakers@,
                self.stats == old(self).stats,
                self.ended == old(self).ended,
                self.produced == old(self).produced,
                self.hints == old(self).hints,
                self.first_hint == old(self).first_hint,
                self.base == old(self).base,
                self.history == old(self).history,
            decreases m - k,
        {
            self.buffer.pop_front();
            k += 1;
        }
        let mut i: usize = 0;
        while i < n
            invariant
                i <= n,
                n == old_slots.len(),
                self.slots@.len() == n,
                forall|j: int| 0 <= j < i ==> self.slots@[j] == shifted(#[trigger] old_slots[j], m),
                forall|j: int| i <= j < n ==> self.slots@[j] == old_slots[j],
                forall|j: int|
                    0 <= j < n && slot_live(#[trigger] old_slots[j]) ==> m <= old_slots[j].unwrap().offset,
                self.buffer@ == old_buf.subrange(m as int, old_buf.len() as int),
                self.wakers@ == old(self).wakers@,
                self.stats == old(self).stats,
                self.ended == old(self).ended,
                self.produced == old(self).produced,
                self.hints == old(self).hints,
                self.first_hint == old(self).first_hint,
                self.base == old(self).base,
                self.history == old(self).history,
            decreases n - i,
        {
            match self.slots[i] {
                Some(s) => {
                    if s.live {
                        assert(slot_live(old_slots[i as int]));
                        self.slots.set(i, Some(Slot { offset: s.offset - m, hint: s.hint, live: true }));
                    }
                },
                None => {},
            }
            i += 1;
        }
        self.base = Ghost(old_base + m as nat);
        proof {
            let new_slots = self.slots@;
            assert forall|j: int| 0 <= j < n implies slot_live(#[trigger] new_slots[j]) == slot_live(
                old_slots[j],
            ) by {
                assert(new_slots[j] == shifted(old_slots[j], m));
            }
            lemma_live_count_ext(old_slots, new_slots);
            assert forall|j: int|
                0 <= j < new_slots.len() && slot_live(#[trigger] new_slots[j]) implies {
                &&& new_slots[j].unwrap().offset <= self.buffer@.len()
                &&& new_slots[j].unwrap().hint == self.hint_at(
                    self.base@ + new_slots[j].unwrap().offset as nat,
                )
            } by {
                assert(new_slots[j] == shifted(old_slots[j], m));
                assert(slot_live(old_slots[j]));
            }
            assert forall|j: int| 0 <= j < new_slots.len() && (#[trigger] new_slots[j]) is Some implies
                new_slots[j] == shifted(old_slots[j], m) by {}
            assert forall|j: int| 0 <= j < new_slots.len() && #[trigger] new_slots[j] is None implies self.wakers@[j] is None by {
                assert(new_slots[j] == shifted(old_slots[j], m));
            }
            if m < old_buf.len() {
                let j = choose|j: int|
                    0 <= j < n && slot_live(#[trigger] old_slots[j]) && old_slots[j].unwrap().offset == m;
                assert(new_slots[j] == shifted(old_slots[j], m));
                assert(slot_live(new_slots[j]) && new_slots[j].unwrap().offset == 0);
            } else if exists|j: int| 0 <= j < n && slot_live(#[trigger] old_slots[j]) {
                let j = choose|j: int| 0 <= j < n && slot_live(#[trigger] old_slots[j]);
                assert(new_slots[j] == shifted(old_slots[j], m));
                assert(slot_live(new_slots[j]) && new_slots[j].unwrap().offset == 0);
            } else {
                lemma_live_count_zero(old_slots);
            }
            assert(self.consumers() =~= old(self).consumers()) by {
                assert forall|id: usize| #[trigger] self.consumers().contains_key(id) == old(self).consumers().contains_key(id) by {
                    if id < n {
                        assert(new_slots[id as int] == shifted(old_slots[id as int], m));
                    }
                }
                assert forall|id: usize| #[trigger] self.consumers().contains_key(id) implies self.consumers()[id] == old(self).consumers()[id] by {
                    assert(new_slots[id as int] == shifted(old_slots[id as int], m));
                }
            }
        }
    }

    /// The active-clone count is exactly the number of consumers that are
    /// still reading: each one counts from its creation (or clone) until it
    /// is dropped or reaches the end of the stream.
    pub proof fn lemma_count_is_live_consumers(&self)
        requires
            self.wf(),
        ensures
            live_consumers(self.consumers()).finite(),
            self.stats_view().count() == live_consumers(self.consumers()).len(),
    {
        let n = self.slots@.len();
        assert(self.slots@.len() == self.slots.len());
        lemma_live_ids(self.slots@, n);
        assert(self.slots@.subrange(0, n as int) =~= self.slots@);
        assert(live_ids(self.slots@, n) =~= live_consumers(self.consumers()));
    }

    /// An item is held exactly as long as some consumer that is still reading
    /// has not read it: every reading consumer stands between the oldest held
    /// item and the newest one, one of them stands at the oldest, and once no
    /// consumer reads any more, nothing is held.
    pub proof fn lemma_items_held_until_read(&self)
        requires
            self.wf(),
        ensures
            self.hints().len() == self.produced().len(),
            self.released() <= self.produced().len(),
            forall|id: usize|
                #[trigger] self.consumers().contains_key(id) && self.consumers()[id].live ==> self.released()
                    <= self.consumers()[id].pos <= self.produced().len(),
            live_consumers(self.consumers()).is_empty() ==> self.released() == self.produced().len(),
            !live_consumers(self.consumers()).is_empty() ==> exists|id: usize|
                #[trigger] self.consumers().contains_key(id) && self.consumers()[id].live
                    && self.consumers()[id].pos == self.released(),
    {
        assert(self.slots@.len() == self.slots.len());
        if exists|i: int|
            0 <= i < self.slots@.len() && slot_live(#[trigger] self.slots@[i])
                && self.slots@[i].unwrap().offset == 0 {
            let i = choose|i: int|
                0 <= i < self.slots@.len() && slot_live(#[trigger] self.slots@[i])
                    && self.slots@[i].unwrap().offset == 0;
            assert(self.consumers().contains_key(i as usize));
            assert(live_consumers(self.consumers()).contains(i as usize));
        } else {
            lemma_live_count_zero(self.slots@);
            assert(live_consumers(self.consumers()) =~= Set::empty()) by {
                assert forall|id: usize| !live_consumers(self.consumers()).contains(id) by {
                    if self.consumers().contains_key(id) {
                        assert(!slot_live(self.slots@[id as int]));
                    }
                }
            }
        }
    }

    /// The wakers the hub hands back (by [`StreamHub::feed`], and by
    /// [`StreamHub::close`] of a waiting consumer) are those of every open
    /// consumer that holds one, each once, in id order.
    pub proof fn lemma_every_waiter_is_handed_back(&self)
        requires
            self.wf(),
        ensures
            waiting_below(self.consumers(), self.capacity() as int) == Set::new(
                |j: usize| self.consumers().contains_key(j) && self.consumers()[j].waker is Some,
            ),
            lists_waiters_in_id_order(
                parked_wakers(self.consumers(), self.capacity()),
                self.consumers(),
                self.capacity() as int,
            ),
    {
        assert(self.slots@.len() == self.slots.len());
        lemma_parked_wakers_are_the_waiters(self.consumers(), self.capacity());
        assert(waiting_below(self.consumers(), self.capacity() as int) =~= Set::new(
            |j: usize| self.consumers().contains_key(j) && self.consumers()[j].waker is Some,
        ));
    }

    /// Every produced item has the size hint that followed it, and a consumer
    /// reports the source's size hint at the place it stands: after the last
    /// item it took (the source's first hint if it took none) while it is
    /// reading, and after the source's last item once it has stopped.
    pub proof fn lemma_hint_follows_position(&self, id: usize)
        requires
            self.wf(),
            self.consumers().contains_key(id),
        ensures
            self.hints().len() == self.produced().len(),
            self.consumers()[id].live ==> self.consumers()[id].pos <= self.produced().len()
                && self.consumers()[id].hint == self.hint_at(self.consumers()[id].pos),
            !self.consumers()[id].live ==> self.ended() && self.consumers()[id].hint
                == self.hint_at(self.produced().len()),
    {
        assert(self.slots@[id as int] is Some);
    }

    /// Each consumer is handed the source's items in order, none skipped or
    /// repeated: what it has read since it was created is exactly the source's
    /// items from its starting place up to where it stands. It stops only after
    /// the source has ended and it has read every item up to that end.
    pub proof fn lemma_reads_follow_the_source(&self, id: usize)
        requires
            self.wf(),
            self.consumers().contains_key(id),
        ensures
            self.consumers()[id].live ==> {
                &&& self.consumers()[id].start <= self.consumers()[id].pos <= self.produced().len()
                &&& self.consumers()[id].reads == self.produced().subrange(
                    self.consumers()[id].start as int,
                    self.consumers()[id].pos as int,
                )
            },
            !self.consumers()[id].live ==> {
                &&& self.ended()
                &&& self.consumers()[id].start <= self.produced().len()
                &&& self.consumers()[id].reads == self.produced().subrange(
                    self.consumers()[id].start as int,
                    self.produced().len() as int,
                )
            },
    {
        assert(self.slots@[id as int] is Some);
    }

    /// Given the whole sequence `all` the source yields, and that each size hint
    /// the source gave bounds the number of items it still had, every
    /// consumer's size hint bounds the number of items it will still read:
    /// the rest of `all` from where it stands, or nothing once it has stopped.
    pub proof fn lemma_size_hint_bounds_remaining(&self, all: Seq<T>, id: usize)
        requires
            self.wf(),
            self.consumers().contains_key(id),
            self.produced().len() <= all.len(),
            self.produced() == all.take(self.produced().len() as int),
            self.ended() ==> all.len() == self.produced().len(),
            forall|p: nat|
                p <= self.produced().len() ==> hint_bounds(#[trigger] self.hint_at(p), all.len() - p),
        ensures
            hint_bounds(
                self.consumers()[id].hint,
                if self.consumers()[id].live {
                    all.len() - self.consumers()[id].pos
                } else {
                    0
                },
            ),
    {
        self.lemma_hint_follows_position(id);
        if self.consumers()[id].live {
            assert(hint_bounds(self.hint_at(self.consumers()[id].pos), all.len() - self.consumers()[id].pos));
        } else {
            assert(hint_bounds(self.hint_at(self.produced().len()), all.len() - self.produced().len()));
        }
    }

    /// The source is asked for more only by a reading consumer that has read
    /// every item produced so far, and never after it has ended; so each item
    /// is pulled from the source once, however many consumers read it.
    pub proof fn lemma_source_asked_only_for_new_items(&self, id: usize)
        requires
            self.wf(),
            self.consumers().contains_key(id),
            self.next_of(id) == Next::Wait,
        ensures
            self.consumers()[id].live,
            self.consumers()[id].pos == self.produced().len(),
            !self.ended(),
    {
        self.lemma_hint_follows_position(id);
    }

    /// Consumers that stand at the same place read the same thing next: a
    /// clone and the stream it was cloned from see the same items.
    pub proof fn lemma_same_place_same_next(&self, a: usize, b: usize)
        requires
            self.wf(),
            self.consumers().contains_key(a),
            self.consumers().contains_key(b),
            self.consumers()[a].live == self.consumers()[b].live,
            self.consumers()[a].pos == self.consumers()[b].pos,
        ensures
            self.next_of(a) == self.next_of(b),
    {
    }

    /// A consumer that has stopped reading only ever reports the end of the
    /// stream.
    pub proof fn lemma_stopped_stays_stopped(&self, id: usize)
        requires
            self.wf(),
            self.consumers().contains_key(id),
            !self.consumers()[id].live,
        ensures
            self.next_of(id) == Next::End,
    {
    }

    /// Takes every waker left with the hub, in id order.
    fn take_wakers(&mut self) -> (woken: Vec<W>)
        requires
            old(self).wf(),
        ensures
            final(self).wf(),
            woken@ == parked_wakers(old(self).consumers(), old(self).capacity()),
            lists_waiters_in_id_order(woken@, old(self).consumers(), old(self).capacity() as int),
            final(self).consumers() == without_wakers(old(self).consumers()),
            final(self).produced() == old(self).produced(),
            final(self).hints() == old(self).hints(),
            final(self).first_hint() == old(self).first_hint(),
            final(self).ended() == old(self).ended(),
            final(self).released() == old(self).released(),
            final(self).capacity() == old(self).capacity(),
            final(self).stats_view() == old(self).stats_view(),
    {
        let ghost mid = self.consumers();
        let ghost pre = *self;
        let mut woken: Vec<W> = Vec::new();
        let n = self.wakers.len();
        let mut i: usize = 0;
        while i < n
            invariant
                i <= n,
                n == self.wakers@.len(),
                self.core_wf(),
                self.released_exactly(),
                pre.core_wf(),
                self.slots@ == pre.slots@,
                self.buffer@ == pre.buffer@,
                self.stats == pre.stats,
                self.ended == pre.ended,
                self.produced == pre.produced,
                self.hints == pre.hints,
                self.first_hint == pre.first_hint,
                self.base == pre.base,
                self.history == pre.history,
                pre.wakers@.len() == n,
                mid == pre.consumers(),
                forall|j: int| 0 <= j < i ==> #[trigger] self.wakers@[j] is None,
                forall|j: int| i <= j < n ==> #[trigger] self.wakers@[j] == pre.wakers@[j],
                woken@ == parked_wakers(mid, i as nat),
            decreases n - i,
        {
            let w = self.wakers[i].take();
            match w {
                Some(w) => {
                    woken.push(w);
                },
                None => {},
            }
            i += 1;
        }
        proof {
            assert forall|id: usize| #[trigger] self.consumers().contains_key(id) implies self.consumers()[id]
                == without_wakers(pre.consumers())[id] by {
                assert(self.wakers@[id as int] is None);
            }
            assert(self.consumers() =~= without_wakers(pre.consumers()));
            assert(pre.slots@.len() == self.slots.len());
            lemma_parked_wakers_are_the_waiters(pre.consumers(), pre.slots@.len());
        }
        woken
    }

    /// Creates the hub for a source whose size hint is `hint`, with one
    /// consumer, id `0`, at the start of the stream.
    pub fn new(hint: SizeHint) -> (res: (Self, usize))
        ensures
            res.0.wf(),
            res.1 == 0,
            res.0.produced() == Seq::<T>::empty(),
            res.0.hints() == Seq::<SizeHint>::empty(),
            res.0.first_hint() == hint,
            !res.0.ended(),
            res.0.released() == 0,
            res.0.stats_view().count() == 1,
            res.0.capacity() == 1,
            res.0.consumers() == Map::<usize, Consumer<T, W>>::empty().insert(
                0,
                Consumer { live: true, pos: 0, hint, waker: None, start: 0, reads: Seq::empty() },
            ),
    {
        let mut slots: Vec<Option<Slot>> = Vec::new();
        slots.push(Some(Slot { offset: 0, hint, live: true }));
        let mut wakers: Vec<Option<W>> = Vec::new();
        wakers.push(None);
        let hub = StreamHub {
            buffer: VecDeque::new(),
            slots,
            wakers,
            ended: false,
            stats: Stats::new(),
            produced: Ghost(Seq::empty()),
            hints: Ghost(Seq::empty()),
            first_hint: Ghost(hint),
            base: Ghost(0),
            history: Ghost(Seq::<(nat, Seq<T>)>::empty().push((0nat, Seq::<T>::empty()))),
        };
        proof {
            assert(hub.slots@ =~= seq![Some(Slot { offset: 0, hint, live: true })]);
            lemma_live_count_push(Seq::<Option<Slot>>::empty(), Some(Slot { offset: 0, hint, live: true }));
            assert(Seq::<Option<Slot>>::empty().push(Some(Slot { offset: 0, hint, live: true })) =~= hub.slots@);
            assert(slot_live(hub.slots@[0]) && hub.slots@[0].unwrap().offset == 0);
            assert(hub.produced@.subrange(0, 0) =~= Seq::<T>::empty());
            assert(hub.consumers() =~= Map::<usize, Consumer<T, W>>::empty().insert(
                0,
                Consumer { live: true, pos: 0, hint, waker: None, start: 0, reads: Seq::empty() },
            ));
        }
        (hub, 0)
    }

    /// Clones consumer `id`: the new consumer starts where `id` stands, with
    /// the same size hint, and is still reading exactly when `id` is; a
    /// reading clone joins the active-clone count. Returns the new id.
    pub fn fork(&mut self, id: usize) -> (nid: usize)
        requires
            old(self).wf(),
            old(self).consumers().contains_key(id),
        ensures
            final(self).wf(),
            final(self).hints().len() == final(self).produced().len(),
            !old(self).consumers().contains_key(nid),
            nid <= old(self).capacity(),
            forall|j: usize| j < nid ==> old(self).consumers().contains_key(j),
            final(self).capacity() == if nid == old(self).capacity() {
                old(self).capacity() + 1
            } else {
                old(self).capacity()
            },
            final(self).consumers() == old(self).consumers().insert(
                nid,
                Consumer {
                    live: old(self).consumers()[id].live,
                    pos: old(self).consumers()[id].pos,
                    hint: old(self).consumers()[id].hint,
                    waker: None,
                    start: if old(self).consumers()[id].live {
                        old(self).consumers()[id].pos
                    } else {
                        old(self).produced().len()
                    },
                    reads: Seq::empty(),
                },
            ),
            final(self).produced() == old(self).produced(),
            final(self).hints() == old(self).hints(),
            final(self).first_hint() == old(self).first_hint(),
            final(self).ended() == old(self).ended(),
            final(self).released() == old(self).released(),
            final(self).stats_view().count() == if old(self).consumers()[id].live {
                old(self).stats_view().count() + 1
            } else {
                old(self).stats_view().count() as int
            },
    {
        let ghost old_slots = self.slots@;
        let s = self.slots[id].unwrap();
        let n = self.slots.len();
        let mut i: usize = 0;
        while i < n && self.slots[i].is_some()
            invariant
                i <= n,
                n == self.slots@.len(),
                self.slots@ == old_slots,
                forall|j: int| 0 <= j < i ==> #[trigger] old_slots[j] is Some,
            decreases n - i,
        {
            i += 1;
        }
        let ghost entry: (nat, Seq<T>) = (
            if s.live { self.base@ + s.offset as nat } else { self.produced@.len() },
            Seq::empty(),
        );
        proof {
            assert(self.produced@.subrange(entry.0 as int, entry.0 as int) =~= Seq::<T>::empty());
        }
        if i < n {
            self.slots.set(i, Some(s));
            self.history = Ghost(self.history@.update(i as int, entry));
            proof {
                lemma_live_count_update(old_slots, i as int, Some(s));
            }
        } else {
            self.slots.push(Some(s));
            self.wakers.push(None);
            self.history = Ghost(self.history@.push(entry));
            proof {
                lemma_live_count_push(old_slots, Some(s));
            }
        }
        proof {
            lemma_live_count_bound(self.slots@);
            assert(self.slots.len() == self.slots@.len());
            assert(self.slots@[i as int] == Some(s));
            assert forall|j: int| 0 <= j < self.slots@.len() && j != i implies #[trigger] self.slots@[j] == old_slots[j] by {}
        }
        if s.live {
            self.stats.increment();
        }
        proof {
            lemma_oldest_reader_kept(old_slots, self.slots@, i as int);
            assert(self.consumers() =~= old(self).consumers().insert(
                i,
                Consumer {
                    live: old(self).consumers()[id].live,
                    pos: old(self).consumers()[id].pos,
                    hint: old(self).consumers()[id].hint,
                    waker: None,
                    start: if old(self).consumers()[id].live {
                        old(self).consumers()[id].pos
                    } else {
                        old(self).produced().len()
                    },
                    reads: Seq::empty(),
                },
            ));
        }
        i
    }

    /// Drops consumer `id`. A consumer that was still reading leaves the
    /// active-clone count, and the items only it still needed are let go.
    ///
    /// A consumer that left a waker was the last to find the source not
    /// ready, and the source may keep only its waker: so the wakers of all
    /// the other waiting consumers are handed back, in id order, to be woken
    /// and ask the source again themselves.
    pub fn close(&mut self, id: usize) -> (woken: Vec<W>)
        requires
            old(self).wf(),
            old(self).consumers().contains_key(id),
        ensures
            final(self).wf(),
            final(self).hints().len() == final(self).produced().len(),
            final(self).consumers() == if old(self).consumers()[id].waker is Some {
                without_wakers(old(self).consumers().remove(id))
            } else {
                old(self).consumers().remove(id)
            },
            woken@ == if old(self).consumers()[id].waker is Some {
                parked_wakers(old(self).consumers().remove(id), old(self).capacity())
            } else {
                Seq::<W>::empty()
            },
            old(self).consumers()[id].waker is Some ==> lists_waiters_in_id_order(
                woken@,
                old(self).consumers().remove(id),
                old(self).capacity() as int,
            ),
            final(self).produced() == old(self).produced(),
            final(self).hints() == old(self).hints(),
            final(self).first_hint() == old(self).first_hint(),
            final(self).ended() == old(self).ended(),
            final(self).capacity() == old(self).capacity(),
            final(self).stats_view().count() == if old(self).consumers()[id].live {
                old(self).stats_view().count() - 1
            } else {
                old(self).stats_view().count() as int
            },
    {
        let ghost old_slots = self.slots@;
        let s = self.slots[id].unwrap();
        let was_waiting = self.wakers[id].is_some();
        proof {
            assert(old_slots.len() == self.slots.len());
            lemma_parked_wakers_are_the_waiters(old(self).consumers().remove(id), old_slots.len());
        }
        self.slots.set(id, None);
        self.wakers.set(id, None);
        proof {
            lemma_live_count_update(old_slots, id as int, None);
            assert(self.consumers() =~= old(self).consumers().remove(id));
        }
        if s.live {
            self.stats.decrement();
        }
        if s.live && s.offset == 0 {
            self.release();
        } else {
            proof {
                lemma_oldest_reader_kept(old_slots, self.slots@, id as int);
                if !has_oldest_reader(old_slots) {
                    lemma_live_count_zero(old_slots);
                    lemma_live_count_zero(self.slots@);
                }
            }
        }
        if was_waiting {
            self.take_wakers()
        } else {
            Vec::new()
        }
    }

    /// Leaves `waker` with consumer `id`, in place of any waker it left
    /// before; it is handed back by the next [`StreamHub::feed`].
    pub fn park(&mut self, id: usize, waker: W)
        requires
            old(self).wf(),
            old(self).consumers().contains_key(id),
        ensures
            final(self).wf(),
            final(self).hints().len() == final(self).produced().len(),
            final(self).consumers() == old(self).consumers().insert(
                id,
                Consumer { waker: Some(waker), ..old(self).consumers()[id] },
            ),
            final(self).produced() == old(self).produced(),
            final(self).hints() == old(self).hints(),
            final(self).first_hint() == old(self).first_hint(),
            final(self).ended() == old(self).ended(),
            final(self).released() == old(self).released(),
            final(self).capacity() == old(self).capacity(),
            final(self).stats_view() == old(self).stats_view(),
    {
        self.wakers.set(id, Some(waker));
        proof {
            assert(self.consumers() =~= old(self).consumers().insert(
                id,
                Consumer { waker: Some(waker), ..old(self).consumers()[id] },
            ));
        }
    }

    /// Records what the source answered when it was ready: the next item with
    /// the size hint that followed it, or its end. Every waker left with the
    /// hub is handed back, in id order, to be woken, since each consumer that
    /// waited may now read.
    pub fn feed(&mut self, pulled: Pulled<T>) -> (woken: Vec<W>)
        requires
            old(self).wf(),
            !old(self).ended(),
        ensures
            final(self).wf(),
            final(self).hints().len() == final(self).produced().len(),
            woken@ == parked_wakers(old(self).consumers(), old(self).capacity()),
            lists_waiters_in_id_order(woken@, old(self).consumers(), old(self).capacity() as int),
            final(self).consumers() == without_wakers(old(self).consumers()),
            final(self).first_hint() == old(self).first_hint(),
            final(self).capacity() == old(self).capacity(),
            final(self).stats_view() == old(self).stats_view(),
            match pulled {
                Pulled::Item(x, h) => {
                    &&& final(self).produced() == old(self).produced().push(x)
                    &&& final(self).hints() == old(self).hints().push(h)
                    &&& !final(self).ended()
                },
                Pulled::Exhausted => {
                    &&& final(self).produced() == old(self).produced()
                    &&& final(self).hints() == old(self).hints()
                    &&& final(self).ended()
                },
            },
    {
        match pulled {
            Pulled::Item(x, h) => {
                self.produced = Ghost(self.produced@.push(x));
                self.hints = Ghost(self.hints@.push(h));
                if self.stats.active_clones() == 0 {
                    // Nobody is left to read it.
                    self.base = Ghost(self.base@ + 1);
                } else {
                    self.buffer.push_back((x, h));
                }
            },
            Pulled::Exhausted => {
                self.ended = true;
            },
        }
        proof {
            if live_count(self.slots@) == 0 {
                lemma_live_count_zero(self.slots@);
            }
            assert forall|i: int|
                0 <= i < self.slots@.len() && slot_live(#[trigger] self.slots@[i]) implies {
                let p = self.base@ + self.slots@[i].unwrap().offset as nat;
                &&& self.history@[i].0 <= p
                &&& self.history@[i].1 == self.produced@.subrange(self.history@[i].0 as int, p as int)
            } by {
                let p = old(self).base@ + self.slots@[i].unwrap().offset as nat;
                assert(self.produced@.subrange(self.history@[i].0 as int, p as int)
                    =~= old(self).produced@.subrange(self.history@[i].0 as int, p as int));
            }
            assert(self.consumers() =~= old(self).consumers());
        }
        self.take_wakers()
    }

    /// Whether `id` names an open consumer.
    pub fn is_open(&self, id: usize) -> (b: bool)
        requires
            self.wf(),
        ensures
            b == self.consumers().contains_key(id),
    {
        id < self.slots.len() && self.slots[id].is_some()
    }

    /// Whether the source has reported its end.
    pub fn source_ended(&self) -> (b: bool)
        ensures
            b == self.ended(),
    {
        self.ended
    }

    /// The size hint consumer `id` reports.
    pub fn size_hint(&self, id: usize) -> (h: SizeHint)
        requires
            self.wf(),
            self.consumers().contains_key(id),
        ensures
            h == self.consumers()[id].hint,
    {
        match self.slots[id] {
            Some(s) => s.hint,
            None => (0, None),
        }
    }

    /// Whether consumer `id` has reached the end of the stream.
    pub fn is_terminated(&self, id: usize) -> (b: bool)
        requires
            self.wf(),
            self.consumers().contains_key(id),
        ensures
            b == !self.consumers()[id].live,
    {
        match self.slots[id] {
            Some(s) => !s.live,
            None => true,
        }
    }

    /// The active-clone count, read from the hub.
    pub fn stats(&self) -> (s: &Stats)
        ensures
            *s == self.stats_view(),
    {
        &self.stats
    }

    /// The number of consumers still reading, as the hub counts them now.
    pub fn active_clones(&self) -> (n: u64)
        requires
            self.wf(),
        ensures
            n == self.stats_view().count(),
            n == live_consumers(self.consumers()).len(),
    {
        proof {
            self.lemma_count_is_live_consumers();
        }
        self.stats.active_clones()
    }

    /// How many items the hub holds right now.
    pub fn buffered(&self) -> (n: usize)
        requires
            self.wf(),
        ensures
            n == self.produced().len() - self.released(),
    {
        self.buffer.len()
    }
}

impl<T: Clone, W> StreamHub<T, W> {
    /// Reads the next item for consumer `id`.
    ///
    /// An item the source has already produced is handed out as a clone, and
    /// the consumer moves past it, taking on the size hint the source gave
    /// after that item. At the end of a finished source the consumer stops
    /// reading for good and leaves the active-clone count. Otherwise the
    /// source has to be asked (see [`StreamHub::feed`]).
    pub fn poll(&mut self, id: usize) -> (r: Step<T>)
        requires
            old(self).wf(),
            old(self).consumers().contains_key(id),
        ensures
            final(self).wf(),
            final(self).hints().len() == final(self).produced().len(),
            final(self).produced() == old(self).produced(),
            final(self).hints() == old(self).hints(),
            final(self).first_hint() == old(self).first_hint(),
            final(self).ended() == old(self).ended(),
            final(self).capacity() == old(self).capacity(),
            match old(self).next_of(id) {
                Next::Item(k) => {
                    &&& r matches Step::Ready(x) && cloned(old(self).produced()[k as int], x)
                    &&& final(self).consumers() == old(self).consumers().insert(
                        id,
                        Consumer {
                            pos: k + 1,
                            hint: old(self).hints()[k as int],
                            reads: old(self).consumers()[id].reads.push(old(self).produced()[k as int]),
                            ..old(self).consumers()[id]
                        },
                    )
                    &&& final(self).stats_view() == old(self).stats_view()
                },
                Next::End => {
                    &&& r is Done
                    &&& final(self).consumers() == old(self).consumers().insert(
                        id,
                        Consumer { live: false, pos: 0, ..old(self).consumers()[id] },
                    )
                    &&& final(self).stats_view().count() == if old(self).consumers()[id].live {
                        old(self).stats_view().count() - 1
                    } else {
                        old(self).stats_view().count() as int
                    }
                },
                Next::Wait => {
                    &&& r is NeedsSource
                    &&& final(self).consumers() == old(self).consumers()
                    &&& final(self).stats_view() == old(self).stats_view()
                },
            },
    {
        let ghost old_slots = self.slots@;
        let s = self.slots[id].unwrap();
        if !s.live {
            return Step::Done;
        }
        if s.offset < self.buffer.len() {
            let item = self.buffer[s.offset].0.clone();
            let hint = self.buffer[s.offset].1;
            let new_slot = Slot { offset: s.offset + 1, hint, live: true };
            self.slots.set(id, Some(new_slot));
            let ghost h = self.history@[id as int];
            self.history = Ghost(
                self.history@.update(id as int, (h.0, h.1.push(self.produced@[self.base@ + s.offset])),
            ));
            proof {
                lemma_live_count_update(old_slots, id as int, Some(new_slot));
                let p = self.base@ + s.offset as nat;
                assert(self.produced@.subrange(h.0 as int, p + 1int) =~= h.1.push(self.produced@[p as int]));
                assert(self.consumers() =~= old(self).consumers().insert(
                    id,
                    Consumer {
                        pos: self.base@ + s.offset as nat + 1,
                        hint,
                        reads: h.1.push(self.produced@[p as int]),
                        ..old(self).consumers()[id]
                    },
                ));
                if s.offset != 0 {
                    lemma_oldest_reader_kept(old_slots, self.slots@, id as int);
                }
            }
            if s.offset == 0 {
                self.release();
            }
            Step::Ready(item)
        } else if self.ended {
            let new_slot = Slot { offset: s.offset, hint: s.hint, live: false };
            self.slots.set(id, Some(new_slot));
            proof {
                lemma_live_count_update(old_slots, id as int, Some(new_slot));
            }
            self.stats.decrement();
            proof {
                assert(self.consumers() =~= old(self).consumers().insert(
                    id,
                    Consumer { live: false, pos: 0, ..old(self).consumers()[id] },
                ));
                if s.offset != 0 {
                    lemma_oldest_reader_kept(old_slots, self.slots@, id as int);
                }
            }
            if s.offset == 0 {
                self.release();
            }
            Step::Done
        } else {
            Step::NeedsSource
        }
    }
}

} // verus!
