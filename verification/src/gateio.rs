//! Gate.io connector: the pure half of the per-exchange adapter contract.
//!
//! Socket frames arrive as a `Frame`; control and keepalive frames produce
//! no tick. The payload of a text frame is decoded (outside this module)
//! into a `VenueEvent`; `maybe_to_tick` turns a depth event into a
//! `NormalizedTick` whose sides are sorted and cut to the top `DEPTH`
//! levels, and rejects malformed level data as a protocol error. The
//! module also computes the venue stream URL and the subscribe request for
//! a trading pair, so the I/O layer only dials and sends.

use vstd::prelude::*;

use crate::book::{
    level_before, sort_levels, sort_levels_spec, sorted_for, ExchangeId, Level, NormalizedTick,
    Side, DEPTH,
};
use crate::error::FeedError;

verus! {

/// One inbound socket frame, as the transport hands it over.
#[derive(Debug, Clone)]
pub enum Frame {
    Text(Vec<u8>),
    Binary(Vec<u8>),
    Ping(Vec<u8>),
    Pong(Vec<u8>),
    Close,
    Raw(Vec<u8>),
}

/// One raw price/quantity pair as the venue quotes it, already scaled to
/// fixed-point units.
#[derive(Clone, Copy, Debug, PartialEq, Eq, Structural)]
pub struct RawLevel {
    pub price: u64,
    pub amount: u64,
}

/// One decoded venue message: either a depth snapshot or one of the
/// administrative events the venue sends around it.
#[derive(Debug, Clone)]
pub enum VenueEvent {
    /// A depth snapshot for the subscribed contract.
    Depth { bids: Vec<RawLevel>, asks: Vec<RawLevel> },
    /// The venue's acknowledgement of a subscribe request.
    Ack,
    /// An error event from the venue.
    Failure { label: Vec<u8>, message: Vec<u8> },
    /// An echo of a subscribe request.
    SubscribeEcho,
}

/// Only a text frame can carry a depth event; every control or keepalive
/// frame yields nothing.
pub fn frame_text(f: Frame) -> (r: Option<Vec<u8>>)
    ensures
        match f {
            Frame::Text(t) => r == Some(t),
            _ => r is None,
        },
{
    match f {
        Frame::Text(t) => Some(t),
        _ => None,
    }
}

/// A raw side is malformed when some level quotes a price of zero.
pub open spec fn has_bad_price(s: Seq<RawLevel>) -> bool {
    exists|i: int| 0 <= i < s.len() && (#[trigger] s[i]).price == 0
}

/// Each raw level with this side and this venue attached.
pub open spec fn attach(side: Side, s: Seq<RawLevel>) -> Seq<Level> {
    s.map_values(
        |rl: RawLevel|
            Level { side, price: rl.price, amount: rl.amount, source: ExchangeId::Gateio },
    )
}

/// The first `DEPTH` levels of a sequence.
pub open spec fn top_depth(s: Seq<Level>) -> Seq<Level> {
    if s.len() <= DEPTH {
        s
    } else {
        s.take(DEPTH as int)
    }
}

/// What one raw side normalizes to: attach side and source, order best
/// first, keep the top `DEPTH` levels.
pub open spec fn normalized_side(side: Side, s: Seq<RawLevel>) -> Seq<Level> {
    top_depth(sort_levels_spec(side, attach(side, s)))
}

proof fn lemma_normalized_side_wf(side: Side, s: Seq<RawLevel>)
    requires
        !has_bad_price(s),
    ensures
        sorted_for(side, normalized_side(side, s)),
        normalized_side(side, s).len() <= DEPTH,
        forall|i: int|
            0 <= i < normalized_side(side, s).len() ==> (#[trigger] normalized_side(side, s)[i])
                == (Level {
                side,
                price: normalized_side(side, s)[i].price,
                amount: normalized_side(side, s)[i].amount,
                source: ExchangeId::Gateio,
            }) && normalized_side(side, s)[i].price > 0,
{
    let a = attach(side, s);
    let sorted = sort_levels_spec(side, a);
    crate::book::lemma_sort_levels_spec_props(side, a);
    let r = normalized_side(side, s);
    assert forall|i: int, j: int| 0 <= i < j < r.len() implies !level_before(side, r[j], r[i]) by {
        assert(r[i] == sorted[i]);
        assert(r[j] == sorted[j]);
    }
    assert forall|i: int| 0 <= i < r.len() implies (#[trigger] r[i]) == (Level {
        side,
        price: r[i].price,
        amount: r[i].amount,
        source: ExchangeId::Gateio,
    }) && r[i].price > 0 by {
        assert(r[i] == sorted[i]);
        assert(sorted.contains(sorted[i]));
        assert(a.contains(sorted[i]));
        let k = choose|k: int| 0 <= k < a.len() && a[k] == sorted[i];
        assert(a[k] == (Level {
            side,
            price: s[k].price,
            amount: s[k].amount,
            source: ExchangeId::Gateio,
        }));
        assert(s[k].price != 0);
    }
}

/// Attaches side and venue to every raw level of one side, or reports
/// that the side is malformed.
fn convert_side(side: Side, raw: &Vec<RawLevel>) -> (r: Option<Vec<Level>>)
    ensures
        match r {
            Some(lv) => lv@ == attach(side, raw@) && !has_bad_price(raw@),
            None => has_bad_price(raw@),
        },
{
    let mut out: Vec<Level> = Vec::new();
    let mut i: usize = 0;
    while i < raw.len()
        invariant
            0 <= i <= raw@.len(),
            out@ == attach(side, raw@.take(i as int)),
            forall|k: int| 0 <= k < i ==> (#[trigger] raw@[k]).price != 0,
        decreases raw@.len() - i,
    {
        let rl = raw[i];
        if rl.price == 0 {
            return None;
        }
        out.push(Level::new(side, rl.price, rl.amount, ExchangeId::Gateio));
        proof {
            assert(attach(side, raw@.take(i + 1)) =~= attach(side, raw@.take(i as int)).push(
                Level {
                    side,
                    price: raw@[i as int].price,
                    amount: raw@[i as int].amount,
                    source: ExchangeId::Gateio,
                },
            ));
        }
        i += 1;
    }
    proof {
        assert(raw@.take(raw@.len() as int) =~= raw@);
    }
    Some(out)
}

/// Copies a byte vector.
fn copy_bytes(v: &Vec<u8>) -> (r: Vec<u8>)
    ensures
        r@ == v@,
{
    let mut out: Vec<u8> = Vec::new();
    let mut i: usize = 0;
    while i < v.len()
        invariant
            0 <= i <= v@.len(),
            out@ == v@.take(i as int),
        decreases v@.len() - i,
    {
        out.push(v[i]);
        proof {
            assert(v@.take(i + 1) =~= v@.take(i as int).push(v@[i as int]));
        }
        i += 1;
    }
    proof {
        assert(v@.take(v@.len() as int) =~= v@);
    }
    out
}

/// Sorts one converted side best-first and keeps the top `DEPTH` levels.
fn normalize_side(side: Side, lv: Vec<Level>) -> (r: Vec<Level>)
    ensures
        r@ == top_depth(sort_levels_spec(side, lv@)),
{
    let mut sorted = sort_levels(side, &lv);
    sorted.truncate(DEPTH);
    proof {
        if sort_levels_spec(side, lv@).len() <= DEPTH {
            assert(sorted@ =~= sort_levels_spec(side, lv@));
        } else {
            assert(sorted@ =~= sort_levels_spec(side, lv@).take(DEPTH as int));
        }
    }
    sorted
}

/// The adapter's normalization step: a depth event becomes a tick whose
/// sides are sorted best-first and cut to the top `DEPTH` levels, with
/// side and venue attached to every level; any other event yields no
/// tick; a depth event quoting a zero price is rejected as a protocol
/// error carrying the raw payload.
pub fn maybe_to_tick(ev: &VenueEvent, raw: &Vec<u8>) -> (r: Result<
    Option<NormalizedTick>,
    FeedError,
>)
    ensures
        match *ev {
            VenueEvent::Depth { bids, asks } => {
                if has_bad_price(bids@) || has_bad_price(asks@) {
                    &&& r is Err
                    &&& r->Err_0 matches FeedError::Protocol { payload } && payload@ == raw@
                } else {
                    &&& r is Ok
                    &&& r->Ok_0 is Some
                    &&& (r->Ok_0->0).exchange == ExchangeId::Gateio
                    &&& (r->Ok_0->0).bids@ == normalized_side(Side::Bid, bids@)
                    &&& (r->Ok_0->0).asks@ == normalized_side(Side::Ask, asks@)
                    &&& (r->Ok_0->0).wf()
                }
            },
            _ => r == Result::<Option<NormalizedTick>, FeedError>::Ok(None),
        },
{
    match ev {
        VenueEvent::Depth { bids, asks } => {
            let cb = convert_side(Side::Bid, bids);
            let ca = convert_side(Side::Ask, asks);
            match (cb, ca) {
                (Some(bl), Some(al)) => {
                    let tb = normalize_side(Side::Bid, bl);
                    let ta = normalize_side(Side::Ask, al);
                    proof {
                        lemma_normalized_side_wf(Side::Bid, bids@);
                        lemma_normalized_side_wf(Side::Ask, asks@);
                    }
                    Ok(Some(NormalizedTick { exchange: ExchangeId::Gateio, bids: tb, asks: ta }))
                },
                _ => Err(FeedError::Protocol { payload: copy_bytes(raw) }),
            }
        },
        _ => Ok(None),
    }
}

/// The venue's fixed stream URL base, `wss://fx-ws.gateio.ws/v4/ws`, as
/// bytes.
pub open spec fn gateio_url_seq() -> Seq<u8> {
    seq![
        119u8, 115u8, 115u8, 58u8, 47u8, 47u8, 102u8, 120u8, 45u8, 119u8, 115u8, 46u8, 103u8,
        97u8, 116u8, 101u8, 105u8, 111u8, 46u8, 119u8, 115u8, 47u8, 118u8, 52u8, 47u8, 119u8,
        115u8,
    ]
}

/// The depth channel name, `futures.order_book`, as bytes.
pub open spec fn channel_seq() -> Seq<u8> {
    seq![
        102u8, 117u8, 116u8, 117u8, 114u8, 101u8, 115u8, 46u8, 111u8, 114u8, 100u8, 101u8, 114u8,
        95u8, 98u8, 111u8, 111u8, 107u8,
    ]
}

/// An ASCII letter lowercased; any other byte unchanged.
pub open spec fn ascii_lower(c: u8) -> u8 {
    if 65 <= c <= 90 {
        (c + 32) as u8
    } else {
        c
    }
}

/// An ASCII letter uppercased; any other byte unchanged.
pub open spec fn ascii_upper(c: u8) -> u8 {
    if 97 <= c <= 122 {
        (c - 32) as u8
    } else {
        c
    }
}

/// What follows the last slash of a trading pair (the whole string when
/// it has no slash): the pair's quote currency.
pub open spec fn tail_after_last_slash(s: Seq<u8>) -> Seq<u8>
    decreases s.len(),
{
    if s.len() == 0 {
        Seq::empty()
    } else if s.last() == 47u8 {
        Seq::empty()
    } else {
        tail_after_last_slash(s.drop_last()).push(s.last())
    }
}

/// The venue stream URL for a trading pair: the fixed base, a slash, and
/// the pair's quote currency lowercased.
pub open spec fn stream_url_spec(sym: Seq<u8>) -> Seq<u8> {
    gateio_url_seq() + seq![47u8] + tail_after_last_slash(sym).map_values(
        |c: u8| ascii_lower(c),
    )
}

/// The pair as the venue's wire contract name: uppercased, with the
/// slash replaced by an underscore.
pub open spec fn wire_symbol_spec(sym: Seq<u8>) -> Seq<u8> {
    sym.map_values(
        |c: u8|
            if c == 47 {
                95u8
            } else {
                ascii_upper(c)
            },
    )
}

proof fn lemma_tail_after_last_slash(s: Seq<u8>, start: int)
    requires
        0 <= start <= s.len(),
        start > 0 ==> s[start - 1] == 47,
        forall|k: int| start <= k < s.len() ==> s[k] != 47,
    ensures
        tail_after_last_slash(s) =~= s.skip(start),
    decreases s.len(),
{
    if s.len() == 0 {
    } else if s.last() == 47 {
        assert(start == s.len());
    } else {
        assert(start < s.len());
        lemma_tail_after_last_slash(s.drop_last(), start);
        assert(tail_after_last_slash(s) =~= s.drop_last().skip(start).push(s.last()));
    }
}

/// Lowercases one byte.
fn ascii_lower_exec(c: u8) -> (r: u8)
    ensures
        r == ascii_lower(c),
{
    if 65 <= c && c <= 90 {
        c + 32
    } else {
        c
    }
}

/// Pushes the fixed URL base onto a byte vector.
fn push_url_base(v: &mut Vec<u8>)
    ensures
        final(v)@ == old(v)@ + gateio_url_seq(),
{
    let ghost v0 = v@;
    v.push(119u8);
    v.push(115u8);
    v.push(115u8);
    v.push(58u8);
    v.push(47u8);
    v.push(47u8);
    v.push(102u8);
    v.push(120u8);
    v.push(45u8);
    v.push(119u8);
    v.push(115u8);
    v.push(46u8);
    v.push(103u8);
    v.push(97u8);
    v.push(116u8);
    v.push(101u8);
    v.push(105u8);
    v.push(111u8);
    v.push(46u8);
    v.push(119u8);
    v.push(115u8);
    v.push(47u8);
    v.push(118u8);
    v.push(52u8);
    v.push(47u8);
    v.push(119u8);
    v.push(115u8);
    proof {
        assert(v@ =~= v0 + gateio_url_seq());
    }
}

/// The compute half of connecting: resolves the venue stream URL for the
/// trading pair. (Dialing the socket is the I/O layer's job.)
pub fn stream_url(symbol: &Vec<u8>) -> (r: Vec<u8>)
    ensures
        r@ == stream_url_spec(symbol@),
{
    let mut start: usize = 0;
    let mut i: usize = 0;
    while i < symbol.len()
        invariant
            0 <= start <= i <= symbol@.len(),
            start > 0 ==> symbol@[start - 1] == 47,
            forall|k: int| start <= k < i ==> symbol@[k] != 47,
        decreases symbol@.len() - i,
    {
        if symbol[i] == 47 {
            start = i + 1;
        }
        i += 1;
    }
    let mut out: Vec<u8> = Vec::new();
    push_url_base(&mut out);
    out.push(47u8);
    let ghost prefix = out@;
    let mut tail: Vec<u8> = Vec::new();
    let mut j: usize = start;
    while j < symbol.len()
        invariant
            start <= j <= symbol@.len(),
            tail@ == symbol@.subrange(start as int, j as int).map_values(|c: u8| ascii_lower(c)),
        decreases symbol@.len() - j,
    {
        let low = ascii_lower_exec(symbol[j]);
        tail.push(low);
        proof {
            assert(symbol@.subrange(start as int, j + 1).map_values(|c: u8| ascii_lower(c)) =~= (
            symbol@.subrange(start as int, j as int).map_values(|c: u8| ascii_lower(c))).push(
                ascii_lower(symbol@[j as int]),
            ));
        }
        j += 1;
    }
    out.append(&mut tail);
    proof {
        lemma_tail_after_last_slash(symbol@, start as int);
        assert(out@ =~= stream_url_spec(symbol@));
    }
    out
}

/// The subscribe request for one trading pair at the venue's bounded
/// depth, stamped with the caller's clock reading.
pub struct SubscribeRequest {
    /// The caller's current time in milliseconds.
    pub time_ms: i64,
    /// Always the depth channel name.
    pub channel: Vec<u8>,
    /// The wire contract name of the pair.
    pub symbol: Vec<u8>,
    /// How many levels to request, as decimal text.
    pub depth_limit: Vec<u8>,
    /// The update interval selector, as decimal text.
    pub interval: Vec<u8>,
}

/// The compute half of subscribing: the request declaring interest in the
/// pair's depth channel at twenty levels, interval zero. (Serializing and
/// sending it is the I/O layer's job.)
pub fn make_subscribe(symbol: &Vec<u8>, time_ms: i64) -> (r: SubscribeRequest)
    ensures
        r.time_ms == time_ms,
        r.channel@ == channel_seq(),
        r.symbol@ == wire_symbol_spec(symbol@),
        r.depth_limit@ == seq![50u8, 48u8],
        r.interval@ == seq![48u8],
{
    let mut channel: Vec<u8> = Vec::new();
    channel.push(102u8);
    channel.push(117u8);
    channel.push(116u8);
    channel.push(117u8);
    channel.push(114u8);
    channel.push(101u8);
    channel.push(115u8);
    channel.push(46u8);
    channel.push(111u8);
    channel.push(114u8);
    channel.push(100u8);
    channel.push(101u8);
    channel.push(114u8);
    channel.push(95u8);
    channel.push(98u8);
    channel.push(111u8);
    channel.push(111u8);
    channel.push(107u8);
    proof {
        assert(channel@ =~= channel_seq());
    }
    let mut wire: Vec<u8> = Vec::new();
    let mut i: usize = 0;
    while i < symbol.len()
        invariant
            0 <= i <= symbol@.len(),
            wire@ == symbol@.take(i as int).map_values(
                |c: u8|
                    if c == 47 {
                        95u8
                    } else {
                        ascii_upper(c)
                    },
            ),
        decreases symbol@.len() - i,
    {
        let c = symbol[i];
        let w = if c == 47u8 {
            95u8
        } else if 97 <= c && c <= 122 {
            c - 32
        } else {
            c
        };
        wire.push(w);
        proof {
            let f = |c: u8|
                if c == 47 {
                    95u8
                } else {
                    ascii_upper(c)
                };
            assert(symbol@.take(i + 1).map_values(f) =~= symbol@.take(i as int).map_values(f).push(
                f(symbol@[i as int]),
            ));
        }
        i += 1;
    }
    proof {
        assert(symbol@.take(symbol@.len() as int) =~= symbol@);
    }
    let mut depth_limit: Vec<u8> = Vec::new();
    depth_limit.push(50u8);
    depth_limit.push(48u8);
    let mut interval: Vec<u8> = Vec::new();
    interval.push(48u8);
    proof {
        assert(depth_limit@ =~= seq![50u8, 48u8]);
        assert(interval@ =~= seq![48u8]);
    }
    SubscribeRequest { time_ms, channel, symbol: wire, depth_limit, interval }
}

} // verus!
