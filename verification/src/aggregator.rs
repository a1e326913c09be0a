//! The single-writer merge engine. It keeps the most recent normalized
//! tick of every exchange; each accepted tick fully replaces that
//! exchange's previous contribution, and the consolidated book is
//! recomputed in full from the stored ticks: all live levels of every
//! exchange are collected in arrival order of the exchanges, ordered best
//! first (ties keep that arrival order, so the earliest-known exchange
//! wins), and cut to the configured depth.

use vstd::prelude::*;

use crate::book::{
    level_before, sort_levels, sort_levels_spec, sorted_for, ExchangeId, Level, NormalizedTick,
    Side,
};

verus! {

/// The consolidated, depth-limited, source-attributed book.
#[derive(Debug)]
pub struct MergedBook {
    pub bids: Vec<Level>,
    pub asks: Vec<Level>,
}

impl MergedBook {
    pub open spec fn wf(self, n: nat) -> bool {
        &&& sorted_for(Side::Bid, self.bids@)
        &&& sorted_for(Side::Ask, self.asks@)
        &&& self.bids@.len() <= n
        &&& self.asks@.len() <= n
    }
}

/// The position of the exchange's entry in the stored ticks, or -1 when
/// it has none yet.
pub open spec fn index_of(s: Seq<NormalizedTick>, e: ExchangeId) -> int
    decreases s.len(),
{
    if s.len() == 0 {
        -1
    } else if s[0].exchange == e {
        0
    } else {
        let r = index_of(s.drop_first(), e);
        if r < 0 {
            -1
        } else {
            r + 1
        }
    }
}

/// What storing a tick does: overwrite the exchange's entry in place, or
/// append a first entry for it.
pub open spec fn upsert(s: Seq<NormalizedTick>, t: NormalizedTick) -> Seq<NormalizedTick> {
    let i = index_of(s, t.exchange);
    if i < 0 {
        s.push(t)
    } else {
        s.update(i, t)
    }
}

/// The levels of one side that carry any quantity; a zero amount marks an
/// absent level and never reaches the merged book.
pub open spec fn live(s: Seq<Level>) -> Seq<Level>
    decreases s.len(),
{
    if s.len() == 0 {
        Seq::empty()
    } else if s.last().amount > 0 {
        live(s.drop_last()).push(s.last())
    } else {
        live(s.drop_last())
    }
}

/// One tick's levels for the chosen side.
pub open spec fn side_of(side: Side, t: NormalizedTick) -> Seq<Level> {
    match side {
        Side::Bid => t.bids@,
        Side::Ask => t.asks@,
    }
}

/// Every stored exchange's live levels for one side, in the order the
/// exchanges were first seen.
pub open spec fn all_live(side: Side, ts: Seq<NormalizedTick>) -> Seq<Level>
    decreases ts.len(),
{
    if ts.len() == 0 {
        Seq::empty()
    } else {
        all_live(side, ts.drop_last()) + live(side_of(side, ts.last()))
    }
}

/// The first `n` levels of a sequence.
pub open spec fn cap_len(s: Seq<Level>, n: nat) -> Seq<Level> {
    if s.len() <= n {
        s
    } else {
        s.take(n as int)
    }
}

/// What one side of the merged book is: all live levels of all stored
/// exchanges, ordered best first with ties kept in storage order, cut to
/// the configured depth.
pub open spec fn merged_side_spec(side: Side, ts: Seq<NormalizedTick>, n: nat) -> Seq<Level> {
    cap_len(sort_levels_spec(side, all_live(side, ts)), n)
}

/// No two levels quote the same price.
pub open spec fn distinct_prices(s: Seq<Level>) -> bool {
    forall|i: int, j: int| 0 <= i < j < s.len() ==> s[i].price != s[j].price
}

/// Sorted with no ties at all: every later level is strictly worse.
pub open spec fn strictly_sorted_for(side: Side, s: Seq<Level>) -> bool {
    forall|i: int, j: int| 0 <= i < j < s.len() ==> level_before(side, s[i], s[j])
}

proof fn lemma_index_of_props(s: Seq<NormalizedTick>, e: ExchangeId)
    ensures
        index_of(s, e) < 0 ==> forall|k: int| 0 <= k < s.len() ==> (#[trigger] s[k]).exchange != e,
        index_of(s, e) >= 0 ==> 0 <= index_of(s, e) < s.len() && s[index_of(s, e)].exchange == e
            && forall|k: int| 0 <= k < index_of(s, e) ==> (#[trigger] s[k]).exchange != e,
    decreases s.len(),
{
    if s.len() == 0 {
    } else if s[0].exchange == e {
    } else {
        lemma_index_of_props(s.drop_first(), e);
        let r = index_of(s.drop_first(), e);
        if r < 0 {
            assert forall|k: int| 0 <= k < s.len() implies (#[trigger] s[k]).exchange != e by {
                if k > 0 {
                    assert(s.drop_first()[k - 1] == s[k]);
                }
            }
        } else {
            assert(s[r + 1] == s.drop_first()[r]);
            assert forall|k: int| 0 <= k < r + 1 implies (#[trigger] s[k]).exchange != e by {
                if k > 0 {
                    assert(s.drop_first()[k - 1] == s[k]);
                }
            }
        }
    }
}

proof fn lemma_index_of_at(s: Seq<NormalizedTick>, e: ExchangeId, i: int)
    requires
        0 <= i < s.len(),
        s[i].exchange == e,
        forall|k: int| 0 <= k < i ==> (#[trigger] s[k]).exchange != e,
    ensures
        index_of(s, e) == i,
    decreases i,
{
    if i == 0 {
    } else {
        assert(s[0].exchange != e);
        assert forall|k: int| 0 <= k < i - 1 implies (#[trigger] s.drop_first()[k]).exchange
            != e by {
            assert(s.drop_first()[k] == s[k + 1]);
        }
        assert(s.drop_first()[i - 1] == s[i]);
        lemma_index_of_at(s.drop_first(), e, i - 1);
    }
}

proof fn lemma_index_of_absent(s: Seq<NormalizedTick>, e: ExchangeId)
    requires
        forall|k: int| 0 <= k < s.len() ==> (#[trigger] s[k]).exchange != e,
    ensures
        index_of(s, e) == -1,
    decreases s.len(),
{
    if s.len() == 0 {
    } else {
        assert forall|k: int| 0 <= k < s.drop_first().len() implies (
        #[trigger] s.drop_first()[k]).exchange != e by {
            assert(s.drop_first()[k] == s[k + 1]);
        }
        lemma_index_of_absent(s.drop_first(), e);
    }
}

proof fn lemma_live_elem(s: Seq<Level>, y: Level)
    ensures
        live(s).contains(y) <==> (s.contains(y) && y.amount > 0),
    decreases s.len(),
{
    if s.len() == 0 {
    } else {
        lemma_live_elem(s.drop_last(), y);
        let rest = live(s.drop_last());
        if s.last().amount > 0 {
            let r = rest.push(s.last());
            if r.contains(y) {
                let k = choose|k: int| 0 <= k < r.len() && r[k] == y;
                if k < rest.len() {
                    assert(rest[k] == y);
                    assert(s.drop_last().contains(y));
                    let m = choose|m: int| 0 <= m < s.drop_last().len() && s.drop_last()[m] == y;
                    assert(s[m] == y);
                } else {
                    assert(y == s.last());
                    assert(s[s.len() - 1] == y);
                }
            }
            if s.contains(y) && y.amount > 0 {
                let k = choose|k: int| 0 <= k < s.len() && s[k] == y;
                if k < s.len() - 1 {
                    assert(s.drop_last()[k] == y);
                    assert(rest.contains(y));
                    let m = choose|m: int| 0 <= m < rest.len() && rest[m] == y;
                    assert(r[m] == y);
                } else {
                    assert(r[r.len() - 1] == y);
                }
            }
        } else {
            if rest.contains(y) {
                assert(s.drop_last().contains(y));
                let m = choose|m: int| 0 <= m < s.drop_last().len() && s.drop_last()[m] == y;
                assert(s[m] == y);
            }
            if s.contains(y) && y.amount > 0 {
                let k = choose|k: int| 0 <= k < s.len() && s[k] == y;
                if k == s.len() - 1 {
                    assert(y.amount == 0);
                } else {
                    assert(s.drop_last()[k] == y);
                }
            }
        }
    }
}

proof fn lemma_all_live_elem(side: Side, ts: Seq<NormalizedTick>, y: Level)
    ensures
        all_live(side, ts).contains(y) <==> (y.amount > 0 && exists|i: int|
            0 <= i < ts.len() && side_of(side, #[trigger] ts[i]).contains(y)),
    decreases ts.len(),
{
    if ts.len() == 0 {
    } else {
        lemma_all_live_elem(side, ts.drop_last(), y);
        lemma_live_elem(side_of(side, ts.last()), y);
        let pre = all_live(side, ts.drop_last());
        let tail = live(side_of(side, ts.last()));
        let r = pre + tail;
        if r.contains(y) {
            let k = choose|k: int| 0 <= k < r.len() && r[k] == y;
            if k < pre.len() {
                assert(pre[k] == y);
                assert(pre.contains(y));
                let i = choose|i: int|
                    0 <= i < ts.drop_last().len() && side_of(side, ts.drop_last()[i]).contains(y);
                assert(side_of(side, ts[i]).contains(y));
            } else {
                assert(tail[k - pre.len()] == y);
                assert(tail.contains(y));
                assert(side_of(side, ts[ts.len() - 1]).contains(y));
            }
        }
        if y.amount > 0 && exists|i: int| 0 <= i < ts.len() && side_of(side, #[trigger] ts[i]).contains(
            y,
        ) {
            let i = choose|i: int| 0 <= i < ts.len() && side_of(side, #[trigger] ts[i]).contains(y);
            if i < ts.len() - 1 {
                assert(ts.drop_last()[i] == ts[i]);
                assert(pre.contains(y));
                let m = choose|m: int| 0 <= m < pre.len() && pre[m] == y;
                assert(r[m] == y);
            } else {
                assert(tail.contains(y));
                let m = choose|m: int| 0 <= m < tail.len() && tail[m] == y;
                assert(r[pre.len() + m] == y);
            }
        }
    }
}

/// One side of the merged book is always free of inversions, never longer
/// than the configured depth, and holds only live levels of stored ticks.
pub proof fn lemma_merged_side_props(side: Side, ts: Seq<NormalizedTick>, n: nat)
    ensures
        sorted_for(side, merged_side_spec(side, ts, n)),
        merged_side_spec(side, ts, n).len() <= n,
        forall|y: Level| #[trigger]
            merged_side_spec(side, ts, n).contains(y) ==> all_live(side, ts).contains(y),
{
    let flat = all_live(side, ts);
    let sorted = sort_levels_spec(side, flat);
    crate::book::lemma_sort_levels_spec_props(side, flat);
    let m = merged_side_spec(side, ts, n);
    assert forall|i: int, j: int| 0 <= i < j < m.len() implies !level_before(side, m[j], m[i]) by {
        assert(m[i] == sorted[i]);
        assert(m[j] == sorted[j]);
    }
    assert forall|y: Level| #[trigger] m.contains(y) implies flat.contains(y) by {
        let k = choose|k: int| 0 <= k < m.len() && m[k] == y;
        assert(sorted[k] == y);
        assert(sorted.contains(y));
    }
}

/// Law: re-ingesting the same tick for the same exchange twice in a row
/// leaves the stored ticks — and with them the merged book, which is a
/// function of the stored ticks alone — exactly as after the first
/// ingestion.
pub proof fn lemma_ingest_idempotent(ts: Seq<NormalizedTick>, t: NormalizedTick)
    ensures
        upsert(upsert(ts, t), t) == upsert(ts, t),
        forall|side: Side, n: nat|
            #[trigger] merged_side_spec(side, upsert(upsert(ts, t), t), n) == merged_side_spec(
                side,
                upsert(ts, t),
                n,
            ),
{
    let e = t.exchange;
    lemma_index_of_props(ts, e);
    let i = index_of(ts, e);
    let ts1 = upsert(ts, t);
    let p: int = if i < 0 {
        ts.len() as int
    } else {
        i
    };
    assert(ts1[p] == t);
    assert forall|k: int| 0 <= k < p implies (#[trigger] ts1[k]).exchange != e by {
        assert(ts1[k] == ts[k]);
    }
    lemma_index_of_at(ts1, e, p);
    assert(upsert(ts1, t) =~= ts1);
}

/// Law: when no two live levels quote the same price, one side of the
/// merged book is strictly ordered — bids strictly descending by price,
/// asks strictly ascending. (With equal prices from two venues the order
/// is non-strict and ties keep the venues' storage order.)
pub proof fn lemma_merged_side_strict(side: Side, ts: Seq<NormalizedTick>, n: nat)
    requires
        distinct_prices(all_live(side, ts)),
    ensures
        strictly_sorted_for(side, merged_side_spec(side, ts, n)),
        merged_side_spec(side, ts, n).len() <= n,
{
    let flat = all_live(side, ts);
    let sorted = sort_levels_spec(side, flat);
    crate::book::lemma_sort_levels_spec_props(side, flat);
    lemma_merged_side_props(side, ts, n);
    assert forall|a: int, b: int|
        0 <= a < flat.len() && 0 <= b < flat.len() && a != b implies flat[a] != flat[b] by {
        if a < b {
            assert(flat[a].price != flat[b].price);
        } else {
            assert(flat[b].price != flat[a].price);
        }
    }
    flat.lemma_multiset_has_no_duplicates();
    assert(forall|x: Level|
        sorted.to_multiset().contains(x) ==> sorted.to_multiset().count(x) == 1);
    sorted.lemma_multiset_has_no_duplicates_conv();
    assert forall|i: int, j: int|
        0 <= i < j < sorted.len() implies sorted[i].price != sorted[j].price by {
        assert(sorted[i] != sorted[j]);
        if sorted[i].price == sorted[j].price {
            assert(sorted.contains(sorted[i]));
            assert(sorted.contains(sorted[j]));
            assert(flat.contains(sorted[i]));
            assert(flat.contains(sorted[j]));
            let a = choose|a: int| 0 <= a < flat.len() && flat[a] == sorted[i];
            let b = choose|b: int| 0 <= b < flat.len() && flat[b] == sorted[j];
            assert(a != b);
            if a < b {
                assert(flat[a].price != flat[b].price);
            } else {
                assert(flat[b].price != flat[a].price);
            }
        }
    }
    let m = merged_side_spec(side, ts, n);
    assert forall|i: int, j: int| 0 <= i < j < m.len() implies level_before(side, m[i], m[j]) by {
        assert(m[i] == sorted[i]);
        assert(m[j] == sorted[j]);
        assert(!level_before(side, sorted[j], sorted[i]));
        assert(sorted[i].price != sorted[j].price);
    }
}

/// Law: after storing a tick whose chosen side is empty, that side of the
/// merged book carries nothing from that exchange, and the pool of live
/// levels it is computed from holds exactly the other exchanges' live
/// levels, untouched.
pub proof fn lemma_empty_side_replaces(
    side: Side,
    ts: Seq<NormalizedTick>,
    t: NormalizedTick,
    n: nat,
)
    requires
        forall|i: int| 0 <= i < ts.len() ==> (#[trigger] ts[i]).wf(),
        forall|i: int, j: int| 0 <= i < j < ts.len() ==> ts[i].exchange != ts[j].exchange,
        side_of(side, t).len() == 0,
    ensures
        forall|k: int|
            0 <= k < merged_side_spec(side, upsert(ts, t), n).len() ==> (
            #[trigger] merged_side_spec(side, upsert(ts, t), n)[k]).source != t.exchange,
        forall|y: Level| #[trigger]
            all_live(side, upsert(ts, t)).contains(y) <==> (all_live(side, ts).contains(y)
                && y.source != t.exchange),
{
    let e = t.exchange;
    lemma_index_of_props(ts, e);
    let i = index_of(ts, e);
    let ts2 = upsert(ts, t);
    let p: int = if i < 0 {
        ts.len() as int
    } else {
        i
    };
    assert forall|y: Level| #[trigger]
        all_live(side, ts2).contains(y) implies (all_live(side, ts).contains(y) && y.source
        != e) by {
        lemma_all_live_elem(side, ts2, y);
        let j = choose|j: int| 0 <= j < ts2.len() && side_of(side, #[trigger] ts2[j]).contains(y);
        assert(j != p);
        assert(ts2[j] == ts[j]);
        let m = choose|m: int|
            0 <= m < side_of(side, ts[j]).len() && side_of(side, ts[j])[m] == y;
        assert(y.source == ts[j].exchange) by {
            match side {
                Side::Bid => {
                    assert(ts[j].bids@[m].source == ts[j].exchange);
                },
                Side::Ask => {
                    assert(ts[j].asks@[m].source == ts[j].exchange);
                },
            }
        }
        assert(ts[j].exchange != e) by {
            if i >= 0 {
                assert(ts[i as int].exchange == e);
                if j < i {
                    assert(ts[j].exchange != ts[i as int].exchange);
                } else {
                    assert(ts[i as int].exchange != ts[j].exchange);
                }
            }
        }
        lemma_all_live_elem(side, ts, y);
    }
    assert forall|y: Level|
        all_live(side, ts).contains(y) && y.source != e implies #[trigger] all_live(
        side,
        ts2,
    ).contains(y) by {
        lemma_all_live_elem(side, ts, y);
        let j = choose|j: int| 0 <= j < ts.len() && side_of(side, #[trigger] ts[j]).contains(y);
        let m = choose|m: int|
            0 <= m < side_of(side, ts[j]).len() && side_of(side, ts[j])[m] == y;
        assert(y.source == ts[j].exchange) by {
            match side {
                Side::Bid => {
                    assert(ts[j].bids@[m].source == ts[j].exchange);
                },
                Side::Ask => {
                    assert(ts[j].asks@[m].source == ts[j].exchange);
                },
            }
        }
        assert(j != p);
        assert(ts2[j] == ts[j]);
        lemma_all_live_elem(side, ts2, y);
    }
    lemma_merged_side_props(side, ts2, n);
    let merged = merged_side_spec(side, ts2, n);
    assert forall|k: int| 0 <= k < merged.len() implies (#[trigger] merged[k]).source != e by {
        assert(merged.contains(merged[k]));
    }
}

/// Collects the live levels of one side of one tick.
fn live_levels(v: &Vec<Level>) -> (r: Vec<Level>)
    ensures
        r@ == live(v@),
{
    let mut out: Vec<Level> = Vec::new();
    let mut i: usize = 0;
    while i < v.len()
        invariant
            0 <= i <= v@.len(),
            out@ == live(v@.take(i as int)),
        decreases v@.len() - i,
    {
        proof {
            assert(v@.take(i + 1).drop_last() =~= v@.take(i as int));
            assert(v@.take(i + 1).last() == v@[i as int]);
        }
        if v[i].amount > 0 {
            out.push(v[i]);
        }
        i += 1;
    }
    proof {
        assert(v@.take(v@.len() as int) =~= v@);
    }
    out
}

/// Concatenates every stored exchange's live levels for one side, in
/// storage order.
fn collect_side(side: Side, ticks: &Vec<NormalizedTick>) -> (r: Vec<Level>)
    ensures
        r@ == all_live(side, ticks@),
{
    let mut out: Vec<Level> = Vec::new();
    let mut i: usize = 0;
    while i < ticks.len()
        invariant
            0 <= i <= ticks@.len(),
            out@ == all_live(side, ticks@.take(i as int)),
        decreases ticks@.len() - i,
    {
        proof {
            assert(ticks@.take(i + 1).drop_last() =~= ticks@.take(i as int));
            assert(ticks@.take(i + 1).last() == ticks@[i as int]);
        }
        let t = &ticks[i];
        let mut part = match side {
            Side::Bid => live_levels(&t.bids),
            Side::Ask => live_levels(&t.asks),
        };
        out.append(&mut part);
        i += 1;
    }
    proof {
        assert(ticks@.take(ticks@.len() as int) =~= ticks@);
    }
    out
}

/// Owns the latest tick per exchange and the merge over them. Exactly one
/// task writes it; connectors reach it only through message passing.
pub struct Aggregator {
    /// Latest tick of each exchange, in the order the exchanges were
    /// first seen; at most one entry per exchange.
    pub ticks: Vec<NormalizedTick>,
    /// How many levels each side of the merged book may carry.
    pub depth: usize,
}

impl Aggregator {
    pub open spec fn wf(self) -> bool {
        &&& self.depth >= 1
        &&& forall|i: int| 0 <= i < self.ticks@.len() ==> (#[trigger] self.ticks@[i]).wf()
        &&& forall|i: int, j: int|
            0 <= i < j < self.ticks@.len() ==> self.ticks@[i].exchange != self.ticks@[j].exchange
    }

    /// An aggregator with no exchange contributions yet.
    pub fn new(depth: usize) -> (r: Aggregator)
        requires
            depth >= 1,
        ensures
            r.wf(),
            r.ticks@.len() == 0,
            r.depth == depth,
    {
        Aggregator { ticks: Vec::new(), depth }
    }

    /// One side of the merged book over the currently stored ticks.
    pub fn merged_side(&self, side: Side) -> (r: Vec<Level>)
        ensures
            r@ == merged_side_spec(side, self.ticks@, self.depth as nat),
    {
        let flat = collect_side(side, &self.ticks);
        let mut sorted = sort_levels(side, &flat);
        sorted.truncate(self.depth);
        proof {
            let full = sort_levels_spec(side, all_live(side, self.ticks@));
            if full.len() <= self.depth {
                assert(sorted@ =~= full);
            } else {
                assert(sorted@ =~= full.take(self.depth as int));
            }
        }
        sorted
    }

    /// Stores the tick as its exchange's newest contribution — replacing
    /// the previous one entirely — and returns the recomputed merged
    /// book. Never fails on a well-formed tick.
    pub fn ingest(&mut self, tick: NormalizedTick) -> (book: MergedBook)
        requires
            old(self).wf(),
            tick.wf(),
        ensures
            final(self).wf(),
            final(self).depth == old(self).depth,
            final(self).ticks@ == upsert(old(self).ticks@, tick),
            book.bids@ == merged_side_spec(Side::Bid, final(self).ticks@, old(self).depth as nat),
            book.asks@ == merged_side_spec(Side::Ask, final(self).ticks@, old(self).depth as nat),
            book.wf(old(self).depth as nat),
    {
        let ghost ts0 = self.ticks@;
        let ghost tk = tick;
        let e = tick.exchange;
        let mut i: usize = 0;
        while i < self.ticks.len() && self.ticks[i].exchange != e
            invariant
                *self == *old(self),
                e == tk.exchange,
                0 <= i <= self.ticks@.len(),
                forall|k: int| 0 <= k < i ==> (#[trigger] self.ticks@[k]).exchange != tk.exchange,
            decreases self.ticks@.len() - i,
        {
            i += 1;
        }
        if i < self.ticks.len() {
            proof {
                lemma_index_of_at(ts0, tk.exchange, i as int);
            }
            let _ = self.ticks.remove(i);
            self.ticks.insert(i, tick);
            proof {
                assert(self.ticks@ =~= ts0.update(i as int, tk));
                assert(upsert(ts0, tk) == ts0.update(i as int, tk));
            }
        } else {
            proof {
                lemma_index_of_absent(ts0, tk.exchange);
            }
            self.ticks.push(tick);
        }
        proof {
            assert forall|a: int, b: int| 0 <= a < b < self.ticks@.len() implies self.ticks@[a].exchange
                != self.ticks@[b].exchange by {
                assert(old(self).wf());
            }
            lemma_merged_side_props(Side::Bid, self.ticks@, self.depth as nat);
            lemma_merged_side_props(Side::Ask, self.ticks@, self.depth as nat);
        }
        let bids = self.merged_side(Side::Bid);
        let asks = self.merged_side(Side::Ask);
        MergedBook { bids, asks }
    }
}

} // verus!
