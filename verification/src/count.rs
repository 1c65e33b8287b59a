use vstd::prelude::*;

verus! {

/// A per-consumer record as the hub keeps it: where the consumer stands in the
/// buffer (relative to the oldest item still held), the size hint it reports,
/// and whether it is still reading.
#[derive(Clone, Copy)]
pub(crate) struct Slot {
    pub(crate) offset: usize,
    pub(crate) hint: (usize, Option<usize>),
    pub(crate) live: bool,
}

pub(crate) open spec fn slot_live(s: Option<Slot>) -> bool {
    s matches Some(x) && x.live
}

/// Number of occupied slots whose consumer is still reading.
pub(crate) open spec fn live_count(s: Seq<Option<Slot>>) -> nat
    decreases s.len(),
{
    if s.len() == 0 {
        0
    } else {
        live_count(s.drop_last()) + if slot_live(s.last()) { 1nat } else { 0nat }
    }
}

/// The indices below `n` whose slot holds a live consumer.
pub(crate) open spec fn live_ids(s: Seq<Option<Slot>>, n: nat) -> Set<usize>
    decreases n,
{
    if n == 0 {
        Set::empty()
    } else {
        let prev = live_ids(s, (n - 1) as nat);
        if slot_live(s[n - 1]) {
            prev.insert((n - 1) as usize)
        } else {
            prev
        }
    }
}

/// Some live consumer stands at the oldest held item.
pub(crate) open spec fn has_oldest_reader(s: Seq<Option<Slot>>) -> bool {
    exists|j: int| 0 <= j < s.len() && slot_live(#[trigger] s[j]) && s[j].unwrap().offset == 0
}

/// Changing one slot that is not a live consumer at the oldest held item
/// keeps some live consumer there.
pub(crate) proof fn lemma_oldest_reader_kept(old: Seq<Option<Slot>>, new: Seq<Option<Slot>>, id: int)
    requires
        old.len() <= new.len(),
        forall|j: int| 0 <= j < old.len() && j != id ==> new[j] == old[j],
        0 <= id < old.len() ==> !(slot_live(old[id]) && old[id].unwrap().offset == 0),
    ensures
        has_oldest_reader(old) ==> has_oldest_reader(new),
{
    if has_oldest_reader(old) {
        let j = choose|j: int| 0 <= j < old.len() && slot_live(#[trigger] old[j]) && old[j].unwrap().offset == 0;
        assert(new[j] == old[j]);
    }
}

pub(crate) proof fn lemma_live_count_push(s: Seq<Option<Slot>>, x: Option<Slot>)
    ensures
        live_count(s.push(x)) == live_count(s) + if slot_live(x) { 1nat } else { 0nat },
{
    assert(s.push(x).drop_last() =~= s);
}

pub(crate) proof fn lemma_live_count_ext(a: Seq<Option<Slot>>, b: Seq<Option<Slot>>)
    requires
        a.len() == b.len(),
        forall|i: int| 0 <= i < a.len() ==> slot_live(a[i]) == slot_live(b[i]),
    ensures
        live_count(a) == live_count(b),
    decreases a.len(),
{
    if a.len() > 0 {
        lemma_live_count_ext(a.drop_last(), b.drop_last());
    }
}

pub(crate) proof fn lemma_live_count_update(s: Seq<Option<Slot>>, i: int, x: Option<Slot>)
    requires
        0 <= i < s.len(),
    ensures
        live_count(s.update(i, x)) + (if slot_live(s[i]) { 1nat } else { 0nat })
            == live_count(s) + (if slot_live(x) { 1nat } else { 0nat }),
    decreases s.len(),
{
    let t = s.update(i, x);
    if i == s.len() - 1 {
        assert(t.drop_last() =~= s.drop_last());
    } else {
        assert(t.drop_last() =~= s.drop_last().update(i, x));
        lemma_live_count_update(s.drop_last(), i, x);
    }
}

pub(crate) proof fn lemma_live_count_bound(s: Seq<Option<Slot>>)
    ensures
        live_count(s) <= s.len(),
    decreases s.len(),
{
    if s.len() > 0 {
        lemma_live_count_bound(s.drop_last());
    }
}

pub(crate) proof fn lemma_live_count_zero(s: Seq<Option<Slot>>)
    ensures
        live_count(s) == 0 <==> forall|i: int| 0 <= i < s.len() ==> !slot_live(#[trigger] s[i]),
    decreases s.len(),
{
    if s.len() > 0 {
        lemma_live_count_zero(s.drop_last());
        if live_count(s) == 0 {
            assert forall|i: int| 0 <= i < s.len() implies !slot_live(#[trigger] s[i]) by {
                if i < s.len() - 1 {
                    assert(s[i] == s.drop_last()[i]);
                }
            }
        } else if forall|i: int| 0 <= i < s.len() ==> !slot_live(#[trigger] s[i]) {
            assert forall|i: int| 0 <= i < s.drop_last().len() implies !slot_live(
                #[trigger] s.drop_last()[i],
            ) by {
                assert(s.drop_last()[i] == s[i]);
            }
            assert(!slot_live(s[s.len() - 1]));
        }
    }
}

pub(crate) proof fn lemma_live_ids(s: Seq<Option<Slot>>, n: nat)
    requires
        n <= s.len(),
        s.len() <= usize::MAX + 1,
    ensures
        live_ids(s, n).finite(),
        forall|j: usize| #[trigger] live_ids(s, n).contains(j) <==> (j < n && slot_live(s[j as int])),
        live_ids(s, n).len() == live_count(s.subrange(0, n as int)),
    decreases n,
{
    if n == 0 {
        assert(s.subrange(0, 0).len() == 0);
    } else {
        lemma_live_ids(s, (n - 1) as nat);
        let prev = live_ids(s, (n - 1) as nat);
        assert(s.subrange(0, n as int).drop_last() =~= s.subrange(0, n - 1));
        assert(s.subrange(0, n as int).last() == s[n - 1]);
        if slot_live(s[n - 1]) {
            assert(!prev.contains((n - 1) as usize));
        }
    }
}

} // verus!
