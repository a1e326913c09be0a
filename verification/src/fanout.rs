//! Fan-out of merged snapshots to independent subscribers. Every
//! subscriber owns a bounded queue; publishing enqueues into each queue
//! and, when one is full, drops that queue's oldest snapshot first —
//! latest wins. Publishing therefore never blocks and never fails, so a
//! slow subscriber cannot stall ingestion; it only sees older snapshots
//! fall away.

use vstd::prelude::*;

use crate::aggregator::MergedBook;
use crate::book::{copy_levels, Level};

verus! {

/// A merged book reduced to what it carries: the two level sequences.
/// Queue contents are specified over these views, since distinct copies
/// of a book carry the same views.
pub open spec fn book_view(b: MergedBook) -> (Seq<Level>, Seq<Level>) {
    (b.bids@, b.asks@)
}

/// One downstream consumer: its pending snapshots, oldest first, and the
/// bound the queue was created with.
pub struct Subscriber {
    pub queue: Vec<MergedBook>,
    pub capacity: usize,
}

impl Subscriber {
    pub open spec fn wf(self) -> bool {
        &&& self.capacity >= 1
        &&& self.queue@.len() <= self.capacity
    }

    /// The queued snapshots by content, oldest first.
    pub open spec fn queue_view(self) -> Seq<(Seq<Level>, Seq<Level>)> {
        self.queue@.map_values(|b: MergedBook| book_view(b))
    }
}

/// What delivering one snapshot does to one queue: append it, displacing
/// the oldest entry when the queue is at capacity.
pub open spec fn enqueue_spec(
    q: Seq<(Seq<Level>, Seq<Level>)>,
    b: (Seq<Level>, Seq<Level>),
    cap: nat,
) -> Seq<(Seq<Level>, Seq<Level>)> {
    if q.len() < cap {
        q.push(b)
    } else {
        q.drop_first().push(b)
    }
}

/// A whole run of deliveries to one queue that is never drained.
pub open spec fn publish_all_spec(
    q: Seq<(Seq<Level>, Seq<Level>)>,
    books: Seq<(Seq<Level>, Seq<Level>)>,
    cap: nat,
) -> Seq<(Seq<Level>, Seq<Level>)>
    decreases books.len(),
{
    if books.len() == 0 {
        q
    } else {
        publish_all_spec(enqueue_spec(q, books[0], cap), books.drop_first(), cap)
    }
}

/// Law: a subscriber that never drains its queue holds, after any run of
/// deliveries, exactly the most recent snapshots its capacity admits —
/// never more than the capacity, and the tail of what was published once
/// enough was.
pub proof fn lemma_saturated_subscriber(
    q: Seq<(Seq<Level>, Seq<Level>)>,
    books: Seq<(Seq<Level>, Seq<Level>)>,
    cap: nat,
)
    requires
        cap >= 1,
        q.len() <= cap,
    ensures
        publish_all_spec(q, books, cap).len() <= cap,
        q.len() + books.len() >= cap ==> publish_all_spec(q, books, cap) == (q + books).skip(
            q.len() + books.len() - cap,
        ),
        q.len() + books.len() < cap ==> publish_all_spec(q, books, cap) == q + books,
    decreases books.len(),
{
    if books.len() == 0 {
        assert(q + books =~= q);
        if q.len() >= cap {
            assert((q + books).skip(q.len() + books.len() - cap) =~= q);
        }
    } else {
        let q1 = enqueue_spec(q, books[0], cap);
        lemma_saturated_subscriber(q1, books.drop_first(), cap);
        if q.len() < cap {
            assert(q1 + books.drop_first() =~= q + books);
        } else {
            assert(q1 + books.drop_first() =~= (q + books).skip(1));
            if q1.len() + books.drop_first().len() >= cap {
                assert((q + books).skip(1).skip(q1.len() + books.drop_first().len() - cap) =~= (q
                    + books).skip(q.len() + books.len() - cap));
            }
        }
    }
}

/// Law: starting from an empty queue, a never-drained subscriber ends up
/// with precisely the last `cap` published snapshots (all of them, while
/// fewer have been published).
pub proof fn lemma_slow_subscriber_latest_wins(books: Seq<(Seq<Level>, Seq<Level>)>, cap: nat)
    requires
        cap >= 1,
    ensures
        books.len() >= cap ==> publish_all_spec(Seq::empty(), books, cap) == books.skip(
            books.len() - cap,
        ),
        books.len() < cap ==> publish_all_spec(Seq::empty(), books, cap) == books,
{
    let e = Seq::<(Seq<Level>, Seq<Level>)>::empty();
    lemma_saturated_subscriber(e, books, cap);
    assert(e + books =~= books);
    if books.len() >= cap {
        assert((e + books).skip(books.len() - cap) =~= books.skip(books.len() - cap));
    }
}

/// Copies a merged book's contents.
pub fn duplicate_book(b: &MergedBook) -> (r: MergedBook)
    ensures
        book_view(r) == book_view(*b),
{
    MergedBook { bids: copy_levels(&b.bids), asks: copy_levels(&b.asks) }
}

/// Delivers one snapshot to one subscriber, displacing its oldest queued
/// snapshot when the queue is full. Total: no input is refused.
fn enqueue_book(s: &mut Subscriber, book: &MergedBook)
    requires
        old(s).wf(),
    ensures
        final(s).wf(),
        final(s).capacity == old(s).capacity,
        final(s).queue_view() == enqueue_spec(
            old(s).queue_view(),
            book_view(*book),
            old(s).capacity as nat,
        ),
{
    let ghost f = |b: MergedBook| book_view(b);
    let dup = duplicate_book(book);
    let ghost q0 = s.queue@;
    if s.queue.len() >= s.capacity {
        let _ = s.queue.remove(0);
        s.queue.push(dup);
        proof {
            assert(s.queue@ =~= q0.drop_first().push(dup));
            assert(s.queue@.map_values(f) =~= q0.map_values(f).drop_first().push(book_view(dup)));
        }
    } else {
        s.queue.push(dup);
        proof {
            assert(s.queue@.map_values(f) =~= q0.map_values(f).push(book_view(dup)));
        }
    }
}

/// The fan-out set: every active subscriber's bounded queue.
pub struct Distributor {
    pub subs: Vec<Subscriber>,
}

impl Distributor {
    pub open spec fn wf(self) -> bool {
        forall|i: int| 0 <= i < self.subs@.len() ==> (#[trigger] self.subs@[i]).wf()
    }

    /// A fan-out set with no subscribers.
    pub fn new() -> (r: Distributor)
        ensures
            r.wf(),
            r.subs@.len() == 0,
    {
        Distributor { subs: Vec::new() }
    }

    /// Registers a subscriber with an empty queue of the given bound.
    pub fn add_subscriber(&mut self, capacity: usize)
        requires
            old(self).wf(),
            capacity >= 1,
        ensures
            final(self).wf(),
            final(self).subs@.len() == old(self).subs@.len() + 1,
            forall|k: int|
                0 <= k < old(self).subs@.len() ==> final(self).subs@[k] == old(self).subs@[k],
            final(self).subs@.last().queue_view() == Seq::<(Seq<Level>, Seq<Level>)>::empty(),
            final(self).subs@.last().capacity == capacity,
    {
        let sub = Subscriber { queue: Vec::new(), capacity };
        proof {
            assert(sub.queue_view() =~= Seq::<(Seq<Level>, Seq<Level>)>::empty());
        }
        self.subs.push(sub);
    }

    /// Drops one subscriber from the fan-out set — the recovery for a
    /// failed delivery; every other subscriber is untouched.
    pub fn remove_subscriber(&mut self, i: usize)
        requires
            old(self).wf(),
            i < old(self).subs@.len(),
        ensures
            final(self).wf(),
            final(self).subs@ == old(self).subs@.remove(i as int),
    {
        let _ = self.subs.remove(i);
    }

    /// Delivers one merged snapshot to every subscriber, latest-wins on a
    /// full queue. Total — it never blocks and never fails, whatever the
    /// queues hold, so no subscriber's pace can stall the caller.
    pub fn publish(&mut self, book: &MergedBook)
        requires
            old(self).wf(),
        ensures
            final(self).wf(),
            final(self).subs@.len() == old(self).subs@.len(),
            forall|i: int|
                0 <= i < old(self).subs@.len() ==> (#[trigger] final(self).subs@[i]).capacity == old(self).subs@[i].capacity && final(self).subs@[i].queue_view() == enqueue_spec(
                    old(self).subs@[i].queue_view(),
                    book_view(*book),
                    old(self).subs@[i].capacity as nat,
                ),
    {
        let ghost subs0 = self.subs@;
        let mut done: Vec<Subscriber> = Vec::new();
        while self.subs.len() > 0
            invariant
                done@.len() + self.subs@.len() == subs0.len(),
                forall|k: int|
                    0 <= k < self.subs@.len() ==> #[trigger] self.subs@[k] == subs0[done@.len()
                        + k],
                forall|k: int|
                    0 <= k < done@.len() ==> (#[trigger] done@[k]).wf() && done@[k].capacity
                        == subs0[k].capacity && done@[k].queue_view() == enqueue_spec(
                        subs0[k].queue_view(),
                        book_view(*book),
                        subs0[k].capacity as nat,
                    ),
                forall|k: int| 0 <= k < subs0.len() ==> (#[trigger] subs0[k]).wf(),
            decreases self.subs@.len(),
        {
            let mut s = self.subs.remove(0);
            enqueue_book(&mut s, book);
            done.push(s);
        }
        self.subs = done;
    }

    /// Hands a subscriber's forwarding task its oldest pending snapshot,
    /// if any.
    pub fn next_snapshot(&mut self, i: usize) -> (r: Option<MergedBook>)
        requires
            old(self).wf(),
            i < old(self).subs@.len(),
        ensures
            final(self).wf(),
            final(self).subs@.len() == old(self).subs@.len(),
            forall|k: int|
                0 <= k < old(self).subs@.len() && k != i ==> final(self).subs@[k] == old(self).subs@[k],
            final(self).subs@[i as int].capacity == old(self).subs@[i as int].capacity,
            match r {
                Some(b) => old(self).subs@[i as int].queue_view().len() > 0 && book_view(b) == old(self).subs@[i as int].queue_view()[0] && final(self).subs@[i as int].queue_view() == old(self).subs@[i as int].queue_view().drop_first(),
                None => old(self).subs@[i as int].queue_view().len() == 0 && final(self).subs@[i as int].queue_view() == old(self).subs@[i as int].queue_view(),
            },
    {
        let ghost subs0 = self.subs@;
        let ghost f = |b: MergedBook| book_view(b);
        let mut s = self.subs.remove(i);
        let ghost q0 = s.queue@;
        let r = if s.queue.len() > 0 {
            let b = s.queue.remove(0);
            proof {
                assert(s.queue@ =~= q0.drop_first());
                assert(s.queue@.map_values(f) =~= q0.map_values(f).drop_first());
            }
            Some(b)
        } else {
            None
        };
        self.subs.insert(i, s);
        proof {
            assert forall|k: int|
                0 <= k < subs0.len() && k != i implies #[trigger] self.subs@[k] == subs0[k] by {
                if k < i {
                    assert(self.subs@[k] == subs0.remove(i as int)[k]);
                } else {
                    assert(self.subs@[k] == subs0.remove(i as int)[k - 1]);
                }
            }
        }
        r
    }
}

} // verus!
