//! Shared order-book value types: one price/quantity point (`Level`), the
//! side of the book it sits on, the closed set of supported exchanges, and
//! the normalized per-exchange snapshot (`NormalizedTick`).
//!
//! Prices and amounts are fixed-point integers: callers scale a venue's
//! decimal quotes into `u64` units before they enter the library, so every
//! comparison the merge logic makes is on plain machine integers.

use vstd::prelude::*;

verus! {

/// How many levels per side a normalized tick or merged book may carry.
pub const DEPTH: usize = 10;

/// Which side of the order book a level belongs to.
#[derive(Clone, Copy, Debug, PartialEq, Eq, Structural)]
pub enum Side {
    Bid,
    Ask,
}

/// The closed set of supported venues.
#[derive(Clone, Copy, Debug, PartialEq, Eq, Structural)]
pub enum ExchangeId {
    Bitstamp,
    Binance,
    Kraken,
    Coinbase,
    Gateio,
}

/// One price/quantity point on one side of one exchange's book.
///
/// `price` must be positive; an `amount` of zero marks a level that is
/// absent in snapshot terms and is excluded when books are merged.
/// `source` is provenance, fixed at construction.
#[derive(Clone, Copy, Debug, PartialEq, Eq, Structural)]
pub struct Level {
    pub side: Side,
    pub price: u64,
    pub amount: u64,
    pub source: ExchangeId,
}

impl Level {
    pub open spec fn wf(self) -> bool {
        self.price > 0
    }

    /// Builds a level with its side and provenance attached.
    pub fn new(side: Side, price: u64, amount: u64, source: ExchangeId) -> (r: Level)
        requires
            price > 0,
        ensures
            r == (Level { side, price, amount, source }),
            r.wf(),
    {
        Level { side, price, amount, source }
    }
}

/// Strict ordering of two levels on one side: on the bid side a higher
/// price comes first, on the ask side a lower one.
pub open spec fn level_before(side: Side, a: Level, b: Level) -> bool {
    match side {
        Side::Bid => a.price > b.price,
        Side::Ask => a.price < b.price,
    }
}

/// The sequence has no inversion for `side`: bids never increase in price
/// from left to right, asks never decrease.
pub open spec fn sorted_for(side: Side, s: Seq<Level>) -> bool {
    forall|i: int, j: int| 0 <= i < j < s.len() ==> !level_before(side, s[j], s[i])
}

/// Where a new level lands in an already ordered sequence: before the
/// first element it strictly precedes, after every element it ties with.
/// Ties therefore keep their arrival order.
pub open spec fn insert_level(side: Side, s: Seq<Level>, l: Level) -> Seq<Level>
    decreases s.len(),
{
    if s.len() == 0 {
        seq![l]
    } else if level_before(side, l, s[0]) {
        seq![l] + s
    } else {
        seq![s[0]] + insert_level(side, s.drop_first(), l)
    }
}

/// Insertion sort of a level sequence, processing elements left to right;
/// stable, so ties stay in their original order.
pub open spec fn sort_levels_spec(side: Side, s: Seq<Level>) -> Seq<Level>
    decreases s.len(),
{
    if s.len() == 0 {
        Seq::empty()
    } else {
        insert_level(side, sort_levels_spec(side, s.drop_last()), s.last())
    }
}

pub proof fn lemma_insert_level_len(side: Side, s: Seq<Level>, l: Level)
    ensures
        insert_level(side, s, l).len() == s.len() + 1,
    decreases s.len(),
{
    if s.len() == 0 {
    } else if level_before(side, l, s[0]) {
    } else {
        lemma_insert_level_len(side, s.drop_first(), l);
    }
}

pub proof fn lemma_insert_level_contains(side: Side, s: Seq<Level>, l: Level, y: Level)
    ensures
        insert_level(side, s, l).contains(y) <==> (y == l || s.contains(y)),
    decreases s.len(),
{
    if s.len() == 0 {
        assert(insert_level(side, s, l) =~= seq![l]);
        if y == l {
            assert(seq![l][0] == y);
        }
    } else if level_before(side, l, s[0]) {
        let r = seq![l] + s;
        if y == l {
            assert(r[0] == y);
        }
        if s.contains(y) {
            let k = choose|k: int| 0 <= k < s.len() && s[k] == y;
            assert(r[k + 1] == y);
        }
        if r.contains(y) {
            let k = choose|k: int| 0 <= k < r.len() && r[k] == y;
            if k > 0 {
                assert(s[k - 1] == y);
            }
        }
    } else {
        lemma_insert_level_contains(side, s.drop_first(), l, y);
        let rest = insert_level(side, s.drop_first(), l);
        let r = seq![s[0]] + rest;
        assert(insert_level(side, s, l) == r);
        if y == l || s.contains(y) {
            if y == s[0] {
                assert(r[0] == y);
            } else if s.contains(y) {
                let k = choose|k: int| 0 <= k < s.len() && s[k] == y;
                assert(k > 0);
                assert(s.drop_first()[k - 1] == y);
                assert(rest.contains(y));
                let m = choose|m: int| 0 <= m < rest.len() && rest[m] == y;
                assert(r[m + 1] == y);
            } else {
                assert(rest.contains(y));
                let m = choose|m: int| 0 <= m < rest.len() && rest[m] == y;
                assert(r[m + 1] == y);
            }
        }
        if r.contains(y) {
            let k = choose|k: int| 0 <= k < r.len() && r[k] == y;
            if k == 0 {
                assert(s[0] == y);
            } else {
                assert(rest[k - 1] == y);
                assert(rest.contains(y));
                if !(y == l) {
                    assert(s.drop_first().contains(y));
                    let m = choose|m: int| 0 <= m < s.drop_first().len() && s.drop_first()[m] == y;
                    assert(s[m + 1] == y);
                }
            }
        }
    }
}

pub proof fn lemma_insert_level_sorted(side: Side, s: Seq<Level>, l: Level)
    requires
        sorted_for(side, s),
    ensures
        sorted_for(side, insert_level(side, s, l)),
    decreases s.len(),
{
    if s.len() == 0 {
    } else if level_before(side, l, s[0]) {
        let r = seq![l] + s;
        assert forall|i: int, j: int| 0 <= i < j < r.len() implies !level_before(side, r[j], r[i]) by {
            if i == 0 {
                if j >= 1 {
                    assert(r[j] == s[j - 1]);
                    if level_before(side, r[j], l) {
                        assert(!level_before(side, s[j - 1], s[0]) || j == 1);
                    }
                }
            } else {
                assert(r[i] == s[i - 1]);
                assert(r[j] == s[j - 1]);
            }
        }
    } else {
        assert(sorted_for(side, s.drop_first())) by {
            assert forall|i: int, j: int|
                0 <= i < j < s.drop_first().len() implies !level_before(
                side,
                s.drop_first()[j],
                s.drop_first()[i],
            ) by {
                assert(s.drop_first()[i] == s[i + 1]);
                assert(s.drop_first()[j] == s[j + 1]);
            }
        }
        lemma_insert_level_sorted(side, s.drop_first(), l);
        lemma_insert_level_len(side, s.drop_first(), l);
        let rest = insert_level(side, s.drop_first(), l);
        let r = seq![s[0]] + rest;
        assert forall|i: int, j: int| 0 <= i < j < r.len() implies !level_before(side, r[j], r[i]) by {
            if i == 0 {
                assert(rest.contains(r[j])) by {
                    assert(rest[j - 1] == r[j]);
                }
                lemma_insert_level_contains(side, s.drop_first(), l, r[j]);
                if r[j] == l {
                    assert(!level_before(side, l, s[0]));
                } else {
                    let m = choose|m: int|
                        0 <= m < s.drop_first().len() && s.drop_first()[m] == r[j];
                    assert(s[m + 1] == r[j]);
                    assert(!level_before(side, s[m + 1], s[0]));
                }
            } else {
                assert(r[i] == rest[i - 1]);
                assert(r[j] == rest[j - 1]);
            }
        }
    }
}

pub proof fn lemma_insert_level_multiset(side: Side, s: Seq<Level>, l: Level)
    ensures
        insert_level(side, s, l).to_multiset() =~= s.to_multiset().insert(l),
    decreases s.len(),
{
    broadcast use vstd::seq_lib::group_to_multiset_ensures;
    broadcast use vstd::multiset::group_multiset_axioms;

    if s.len() == 0 {
        assert(seq![l] =~= Seq::<Level>::empty().push(l));
    } else if level_before(side, l, s[0]) {
        vstd::seq_lib::lemma_multiset_commutative(seq![l], s);
        assert(seq![l] =~= Seq::<Level>::empty().push(l));
    } else {
        lemma_insert_level_multiset(side, s.drop_first(), l);
        let rest = insert_level(side, s.drop_first(), l);
        vstd::seq_lib::lemma_multiset_commutative(seq![s[0]], rest);
        vstd::seq_lib::lemma_multiset_commutative(seq![s[0]], s.drop_first());
        assert(seq![s[0]] + s.drop_first() =~= s);
        assert(seq![s[0]] =~= Seq::<Level>::empty().push(s[0]));
    }
}

pub proof fn lemma_sort_levels_spec_props(side: Side, s: Seq<Level>)
    ensures
        sort_levels_spec(side, s).len() == s.len(),
        sorted_for(side, sort_levels_spec(side, s)),
        forall|y: Level| #[trigger] sort_levels_spec(side, s).contains(y) <==> s.contains(y),
        sort_levels_spec(side, s).to_multiset() =~= s.to_multiset(),
    decreases s.len(),
{
    broadcast use vstd::seq_lib::group_to_multiset_ensures;

    if s.len() == 0 {
        assert(sort_levels_spec(side, s).to_multiset() =~= s.to_multiset());
    } else {
        lemma_insert_level_multiset(side, sort_levels_spec(side, s.drop_last()), s.last());
        assert(s.drop_last().push(s.last()) =~= s);
        lemma_sort_levels_spec_props(side, s.drop_last());
        let inner = sort_levels_spec(side, s.drop_last());
        lemma_insert_level_len(side, inner, s.last());
        lemma_insert_level_sorted(side, inner, s.last());
        let r = sort_levels_spec(side, s);
        assert forall|y: Level| #[trigger] r.contains(y) <==> s.contains(y) by {
            lemma_insert_level_contains(side, inner, s.last(), y);
            if y == s.last() {
                assert(s[s.len() - 1] == y);
                assert(s.contains(y));
            }
            if s.drop_last().contains(y) {
                let k = choose|k: int| 0 <= k < s.drop_last().len() && s.drop_last()[k] == y;
                assert(s[k] == y);
            }
            if s.contains(y) && y != s.last() {
                let k = choose|k: int| 0 <= k < s.len() && s[k] == y;
                if k < s.len() - 1 {
                    assert(s.drop_last()[k] == y);
                }
            }
        }
    }
}

proof fn lemma_insert_level_at(side: Side, s: Seq<Level>, l: Level, i: int)
    requires
        0 <= i <= s.len(),
        forall|k: int| 0 <= k < i ==> !level_before(side, l, #[trigger] s[k]),
        i < s.len() ==> level_before(side, l, s[i]),
    ensures
        insert_level(side, s, l) =~= s.take(i) + seq![l] + s.skip(i),
    decreases i,
{
    if s.len() == 0 {
    } else if i == 0 {
    } else {
        assert(!level_before(side, l, s[0]));
        assert forall|k: int| 0 <= k < i - 1 implies !level_before(
            side,
            l,
            #[trigger] s.drop_first()[k],
        ) by {
            assert(s.drop_first()[k] == s[k + 1]);
        }
        assert(i - 1 < s.drop_first().len() ==> level_before(side, l, s.drop_first()[i - 1]));
        lemma_insert_level_at(side, s.drop_first(), l, i - 1);
        assert(insert_level(side, s, l) =~= seq![s[0]] + (s.drop_first().take(i - 1) + seq![l]
            + s.drop_first().skip(i - 1)));
    }
}

/// Decides `level_before` executably.
pub fn strictly_before(side: Side, a: &Level, b: &Level) -> (r: bool)
    ensures
        r == level_before(side, *a, *b),
{
    match side {
        Side::Bid => a.price > b.price,
        Side::Ask => a.price < b.price,
    }
}

/// Places `l` in the ordered vector `v`, keeping it ordered; ties land
/// after the levels already present.
pub fn insert_level_exec(side: Side, v: &mut Vec<Level>, l: Level)
    ensures
        final(v)@ == insert_level(side, old(v)@, l),
{
    let ghost s = v@;
    let mut i: usize = 0;
    while i < v.len() && !strictly_before(side, &l, &v[i])
        invariant
            0 <= i <= v@.len(),
            v@ == s,
            forall|k: int| 0 <= k < i ==> !level_before(side, l, #[trigger] s[k]),
        decreases v@.len() - i,
    {
        i += 1;
    }
    proof {
        lemma_insert_level_at(side, s, l, i as int);
    }
    v.insert(i, l);
    proof {
        assert(v@ =~= s.take(i as int) + seq![l] + s.skip(i as int));
    }
}

/// Stable insertion sort: the result is exactly `sort_levels_spec` of the
/// input, so ties keep their arrival order.
pub fn sort_levels(side: Side, src: &Vec<Level>) -> (r: Vec<Level>)
    ensures
        r@ == sort_levels_spec(side, src@),
{
    let mut out: Vec<Level> = Vec::new();
    let mut i: usize = 0;
    while i < src.len()
        invariant
            0 <= i <= src@.len(),
            out@ == sort_levels_spec(side, src@.take(i as int)),
        decreases src@.len() - i,
    {
        insert_level_exec(side, &mut out, src[i]);
        proof {
            assert(src@.take(i + 1).drop_last() =~= src@.take(i as int));
            assert(src@.take(i + 1).last() == src@[i as int]);
        }
        i += 1;
    }
    proof {
        assert(src@.take(src@.len() as int) =~= src@);
    }
    out
}

/// Copies a level vector element by element.
pub fn copy_levels(v: &Vec<Level>) -> (r: Vec<Level>)
    ensures
        r@ == v@,
{
    let mut out: Vec<Level> = Vec::new();
    let mut i: usize = 0;
    while i < v.len()
        invariant
            0 <= i <= v@.len(),
            out@ == v@.take(i as int),
        decreases v@.len() - i,
    {
        out.push(v[i]);
        proof {
            assert(v@.take(i + 1) =~= v@.take(i as int).push(v@[i as int]));
        }
        i += 1;
    }
    proof {
        assert(v@.take(v@.len() as int) =~= v@);
    }
    out
}

/// One exchange's depth update in the common schema: bids ordered best
/// (highest) first, asks ordered best (lowest) first, every level carrying
/// this exchange as its source, at most `DEPTH` levels per side.
#[derive(Clone, Debug)]
pub struct NormalizedTick {
    pub exchange: ExchangeId,
    pub bids: Vec<Level>,
    pub asks: Vec<Level>,
}

impl NormalizedTick {
    pub open spec fn wf(self) -> bool {
        &&& sorted_for(Side::Bid, self.bids@)
        &&& sorted_for(Side::Ask, self.asks@)
        &&& self.bids@.len() <= DEPTH
        &&& self.asks@.len() <= DEPTH
        &&& forall|i: int|
            0 <= i < self.bids@.len() ==> (#[trigger] self.bids@[i]).source == self.exchange
                && self.bids@[i].side == Side::Bid && self.bids@[i].wf()
        &&& forall|i: int|
            0 <= i < self.asks@.len() ==> (#[trigger] self.asks@[i]).source == self.exchange
                && self.asks@[i].side == Side::Ask && self.asks@[i].wf()
    }
}

} // verus!

