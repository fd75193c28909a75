//! A price-level order book. Each side is a ladder of aggregated price
//! levels kept sorted with the best quote first: bids descending, asks
//! ascending. Mutations bump a monotonic sequence number; the best quote is
//! cached and read in constant time.
//!
//! Prices and quantities are integers in fixed units chosen by the caller.
//! Prices are capped at [`MAX_PRICE`] so that spreads, midpoints and
//! depth-weighted aggregates are computed exactly.

use vstd::prelude::*;

use crate::cache_optimized::current_timestamp_nanos;
use crate::errors::EngineError;
use crate::numeric::bytes_eq;
use vstd::string::StringSliceAdditionalSpecFns;

verus! {

/// Largest accepted price, 2^60 price units: room enough for any realistic
/// ladder while keeping every spread and weighted sum inside the machine
/// integers used to report them.
pub const MAX_PRICE: u64 = 0x1000_0000_0000_0000;

/// Which side of the book an order rests on.
#[derive(Debug, Clone, Copy, PartialEq, Eq, Structural)]
pub enum Side {
    Buy,
    Sell,
}

/// Aggregate resting interest at one price.
#[derive(Debug, Clone, Copy, PartialEq, Eq, Structural)]
pub struct PriceLevel {
    pub price: u64,
    pub size: u64,
    pub order_count: u64,
    pub timestamp: u64,
}

/// One order to be folded into the book.
#[derive(Debug, Clone)]
pub struct Order {
    pub order_id: String,
    pub side: Side,
    pub price: u64,
    pub quantity: u64,
    pub timestamp: u64,
}

/// Best bid and offer: the book's top of both ladders. The midpoint may
/// fall between two price units, so it is carried doubled and exact.
#[derive(Debug, Clone)]
pub struct BestBidOffer {
    pub symbol: String,
    pub bid_price: Option<u64>,
    pub bid_size: Option<u64>,
    pub ask_price: Option<u64>,
    pub ask_size: Option<u64>,
    pub spread: Option<i64>,
    pub mid_price_x2: Option<u64>,
    pub timestamp: u64,
}

/// The top `depth` levels of both ladders, best first.
#[derive(Debug, Clone)]
pub struct Level2Snapshot {
    pub symbol: String,
    pub bids: Vec<PriceLevel>,
    pub asks: Vec<PriceLevel>,
    pub timestamp: u64,
    pub sequence: u64,
}

/// Aggregate statistics of one book. The spread is reported in thousandths
/// of a basis point, rounded toward zero.
#[derive(Debug, Clone)]
pub struct OrderBookStats {
    pub symbol: String,
    pub bid_levels: usize,
    pub ask_levels: usize,
    pub total_bid_volume: u64,
    pub total_ask_volume: u64,
    pub spread_milli_bps: Option<i64>,
    pub mid_price_x2: Option<u64>,
    pub sequence: u64,
    pub last_update_time: u64,
}

/// `a` is closer to the top of its ladder than `b`: higher for bids,
/// lower for asks.
pub open spec fn better(a: u64, b: u64, descending: bool) -> bool {
    if descending {
        a > b
    } else {
        a < b
    }
}

/// The ladder is strictly ordered, best price first.
pub open spec fn sorted_side(s: Seq<PriceLevel>, descending: bool) -> bool {
    forall|i: int, j: int| 0 <= i < j < s.len() ==> better(s[i].price, s[j].price, descending)
}

/// Every level is non-empty, carries a positive capped price, and counts at
/// least one order.
pub open spec fn levels_wf(s: Seq<PriceLevel>) -> bool {
    forall|i: int|
        0 <= i < s.len() ==> {
            &&& 1 <= #[trigger] s[i].price <= MAX_PRICE
            &&& s[i].size >= 1
            &&& s[i].order_count >= 1
        }
}

/// No order count outran the book's mutation counter: each aggregated order
/// arrived through one sequenced mutation.
pub open spec fn counts_bounded(s: Seq<PriceLevel>, sequence: u64) -> bool {
    forall|i: int| 0 <= i < s.len() ==> #[trigger] s[i].order_count <= sequence
}

/// Total resting size of a ladder.
pub open spec fn total_size(s: Seq<PriceLevel>) -> int
    decreases s.len(),
{
    if s.len() == 0 {
        0
    } else {
        total_size(s.drop_last()) + s.last().size
    }
}

/// Price-weighted resting size of a ladder.
pub open spec fn weighted_sum(s: Seq<PriceLevel>) -> int
    decreases s.len(),
{
    if s.len() == 0 {
        0
    } else {
        weighted_sum(s.drop_last()) + s.last().price * s.last().size
    }
}

/// The ladder as a map from price to its level.
pub open spec fn levels_map(s: Seq<PriceLevel>) -> Map<u64, PriceLevel>
    decreases s.len(),
{
    if s.len() == 0 {
        Map::empty()
    } else {
        levels_map(s.drop_last()).insert(s.last().price, s.last())
    }
}

/// The top-of-ladder price, if the ladder is non-empty.
pub open spec fn side_best(s: Seq<PriceLevel>) -> Option<u64> {
    if s.len() == 0 {
        Option::None
    } else {
        Option::Some(s[0].price)
    }
}

/// The level an order folds into: the resting level grown by the order, or
/// a fresh level of the order alone.
pub open spec fn bumped_level(m: Map<u64, PriceLevel>, price: u64, qty: u64, ts: u64) -> PriceLevel {
    if m.dom().contains(price) {
        PriceLevel {
            price,
            size: (m[price].size + qty) as u64,
            order_count: (m[price].order_count + 1) as u64,
            timestamp: ts,
        }
    } else {
        PriceLevel { price, size: qty, order_count: 1, timestamp: ts }
    }
}

/// An order the book accepts: positive quantity, positive capped price.
pub open spec fn order_valid(price: u64, quantity: u64) -> bool {
    1 <= price <= MAX_PRICE && quantity >= 1
}

// ---------------------------------------------------------------------------
// Ladder lemmas: how the map, total and order transform under one mutation.
// ---------------------------------------------------------------------------

proof fn lemma_total_size_update(s: Seq<PriceLevel>, i: int, l: PriceLevel)
    requires
        0 <= i < s.len(),
    ensures
        total_size(s.update(i, l)) == total_size(s) - s[i].size + l.size,
    decreases s.len(),
{
    if i == s.len() - 1 {
        assert(s.update(i, l).drop_last() =~= s.drop_last());
    } else {
        assert(s.update(i, l).drop_last() =~= s.drop_last().update(i, l));
        lemma_total_size_update(s.drop_last(), i, l);
    }
}

proof fn lemma_total_size_insert(s: Seq<PriceLevel>, i: int, l: PriceLevel)
    requires
        0 <= i <= s.len(),
    ensures
        total_size(s.insert(i, l)) == total_size(s) + l.size,
    decreases s.len(),
{
    if i == s.len() {
        assert(s.insert(i, l).drop_last() =~= s);
    } else {
        assert(s.insert(i, l).drop_last() =~= s.drop_last().insert(i, l));
        assert(s.insert(i, l).last() == s.last());
        lemma_total_size_insert(s.drop_last(), i, l);
    }
}

proof fn lemma_total_size_remove(s: Seq<PriceLevel>, i: int)
    requires
        0 <= i < s.len(),
    ensures
        total_size(s.remove(i)) == total_size(s) - s[i].size,
    decreases s.len(),
{
    if i == s.len() - 1 {
        assert(s.remove(i) =~= s.drop_last());
    } else {
        assert(s.remove(i).drop_last() =~= s.drop_last().remove(i));
        assert(s.remove(i).last() == s.last());
        lemma_total_size_remove(s.drop_last(), i);
    }
}

/// No level holds more size than its whole ladder.
proof fn lemma_total_size_element(s: Seq<PriceLevel>, i: int)
    requires
        0 <= i < s.len(),
    ensures
        s[i].size <= total_size(s),
        total_size(s) >= 0,
    decreases s.len(),
{
    if s.len() > 0 {
        if i == s.len() - 1 {
            lemma_total_size_nonneg(s.drop_last());
        } else {
            lemma_total_size_element(s.drop_last(), i);
        }
    }
}

proof fn lemma_total_size_nonneg(s: Seq<PriceLevel>)
    ensures
        total_size(s) >= 0,
    decreases s.len(),
{
    if s.len() > 0 {
        lemma_total_size_nonneg(s.drop_last());
    }
}

/// A capped ladder's weighted size is bounded by its total times the cap.
proof fn lemma_weighted_sum_bound(s: Seq<PriceLevel>)
    requires
        levels_wf(s),
    ensures
        0 <= weighted_sum(s),
        weighted_sum(s) <= MAX_PRICE * total_size(s),
    decreases s.len(),
{
    if s.len() > 0 {
        assert(levels_wf(s.drop_last())) by {
            assert(forall|i: int|
                0 <= i < s.len() - 1 ==> s.drop_last()[i] == s[i]);
        }
        lemma_weighted_sum_bound(s.drop_last());
        lemma_total_size_nonneg(s.drop_last());
        let l = s.last();
        assert(l.price * l.size <= MAX_PRICE * l.size) by {
            vstd::arithmetic::mul::lemma_mul_inequality(l.price as int, MAX_PRICE as int, l.size as int);
        }
        assert(l.price * l.size >= 0) by {
            vstd::arithmetic::mul::lemma_mul_nonnegative(l.price as int, l.size as int);
        }
        assert(MAX_PRICE * total_size(s.drop_last()) + MAX_PRICE * l.size == MAX_PRICE * total_size(
            s,
        )) by {
            vstd::arithmetic::mul::lemma_mul_is_distributive_add(
                MAX_PRICE as int,
                total_size(s.drop_last()),
                l.size as int,
            );
        }
    }
}

/// In a strictly ordered ladder, no two levels share a price.
proof fn lemma_sorted_distinct(s: Seq<PriceLevel>, descending: bool, i: int, j: int)
    requires
        sorted_side(s, descending),
        0 <= i < s.len(),
        0 <= j < s.len(),
        i != j,
    ensures
        s[i].price != s[j].price,
{
    if i < j {
        assert(better(s[i].price, s[j].price, descending));
    } else {
        assert(better(s[j].price, s[i].price, descending));
    }
}

/// A price found in the ladder map rests at some index, and vice versa.
proof fn lemma_levels_map_dom(s: Seq<PriceLevel>, p: u64)
    ensures
        levels_map(s).dom().contains(p) <==> exists|i: int| 0 <= i < s.len() && s[i].price == p,
    decreases s.len(),
{
    if s.len() > 0 {
        lemma_levels_map_dom(s.drop_last(), p);
        if s.last().price == p {
            assert(s[s.len() - 1].price == p);
        } else if levels_map(s).dom().contains(p) {
            let i = choose|i: int| 0 <= i < s.len() - 1 && s.drop_last()[i].price == p;
            assert(s[i].price == p);
        } else if exists|i: int| 0 <= i < s.len() && s[i].price == p {
            let i = choose|i: int| 0 <= i < s.len() && s[i].price == p;
            assert(i < s.len() - 1 && s.drop_last()[i].price == p);
        }
    }
}

/// The ladder map sends each resting price to its level.
proof fn lemma_levels_map_index(s: Seq<PriceLevel>, descending: bool, i: int)
    requires
        sorted_side(s, descending),
        0 <= i < s.len(),
    ensures
        levels_map(s).dom().contains(s[i].price),
        levels_map(s)[s[i].price] == s[i],
    decreases s.len(),
{
    if i == s.len() - 1 {
    } else {
        assert(sorted_side(s.drop_last(), descending)) by {
            assert(forall|k: int| 0 <= k < s.len() - 1 ==> s.drop_last()[k] == s[k]);
        }
        lemma_levels_map_index(s.drop_last(), descending, i);
        lemma_sorted_distinct(s, descending, i, s.len() - 1);
    }
}

/// Replacing the level at one price updates the ladder map at that price.
proof fn lemma_levels_map_update(s: Seq<PriceLevel>, descending: bool, i: int, l: PriceLevel)
    requires
        sorted_side(s, descending),
        0 <= i < s.len(),
        l.price == s[i].price,
    ensures
        levels_map(s.update(i, l)) =~= levels_map(s).insert(l.price, l),
    decreases s.len(),
{
    if i == s.len() - 1 {
        assert(s.update(i, l).drop_last() =~= s.drop_last());
    } else {
        assert(sorted_side(s.drop_last(), descending)) by {
            assert(forall|k: int| 0 <= k < s.len() - 1 ==> s.drop_last()[k] == s[k]);
        }
        assert(s.update(i, l).drop_last() =~= s.drop_last().update(i, l));
        assert(s.update(i, l).last() == s.last());
        lemma_levels_map_update(s.drop_last(), descending, i, l);
        lemma_sorted_distinct(s, descending, i, s.len() - 1);
    }
}

/// Splicing a level at a fresh price inserts it into the ladder map.
proof fn lemma_levels_map_insert(s: Seq<PriceLevel>, i: int, l: PriceLevel)
    requires
        0 <= i <= s.len(),
        forall|k: int| 0 <= k < s.len() ==> s[k].price != l.price,
    ensures
        levels_map(s.insert(i, l)) =~= levels_map(s).insert(l.price, l),
    decreases s.len(),
{
    if i == s.len() {
        assert(s.insert(i, l).drop_last() =~= s);
    } else {
        assert(s.insert(i, l).drop_last() =~= s.drop_last().insert(i, l));
        assert(s.insert(i, l).last() == s.last());
        assert(forall|k: int| 0 <= k < s.len() - 1 ==> s.drop_last()[k] == s[k]);
        lemma_levels_map_insert(s.drop_last(), i, l);
    }
}

/// Taking out the level at one price removes it from the ladder map.
proof fn lemma_levels_map_remove(s: Seq<PriceLevel>, descending: bool, i: int)
    requires
        sorted_side(s, descending),
        0 <= i < s.len(),
    ensures
        levels_map(s.remove(i)) =~= levels_map(s).remove(s[i].price),
    decreases s.len(),
{
    assert(sorted_side(s.drop_last(), descending)) by {
        assert(forall|k: int| 0 <= k < s.len() - 1 ==> s.drop_last()[k] == s[k]);
    }
    if i == s.len() - 1 {
        assert(s.remove(i) =~= s.drop_last());
        lemma_levels_map_dom(s.drop_last(), s[i].price);
        assert(forall|k: int| 0 <= k < s.len() - 1 ==> s.drop_last()[k].price != s[i].price) by {
            assert forall|k: int| 0 <= k < s.len() - 1 implies s.drop_last()[k].price != s[i].price by {
                lemma_sorted_distinct(s, descending, k, i);
            }
        }
        assert(!levels_map(s.drop_last()).dom().contains(s[i].price));
    } else {
        assert(s.remove(i).drop_last() =~= s.drop_last().remove(i));
        assert(s.remove(i).last() == s.last());
        lemma_levels_map_remove(s.drop_last(), descending, i);
        lemma_sorted_distinct(s, descending, i, s.len() - 1);
    }
}

// ---------------------------------------------------------------------------
// One ladder mutation, shared by both sides of the book.
// ---------------------------------------------------------------------------

/// Folds one order into a ladder: grows the resting level at its price, or
/// splices a fresh level in at the ordered position.
fn side_upsert(
    levels: &mut Vec<PriceLevel>,
    descending: bool,
    price: u64,
    qty: u64,
    ts: u64,
    Ghost(count_cap): Ghost<u64>,
)
    requires
        sorted_side(old(levels)@, descending),
        levels_wf(old(levels)@),
        counts_bounded(old(levels)@, count_cap),
        count_cap < u64::MAX,
        order_valid(price, qty),
        total_size(old(levels)@) + qty <= u64::MAX,
    ensures
        sorted_side(final(levels)@, descending),
        levels_wf(final(levels)@),
        counts_bounded(final(levels)@, (count_cap + 1) as u64),
        levels_map(final(levels)@) =~= levels_map(old(levels)@).insert(
            price,
            bumped_level(levels_map(old(levels)@), price, qty, ts),
        ),
        total_size(final(levels)@) == total_size(old(levels)@) + qty,
        final(levels)@.len() >= 1,
        side_best(final(levels)@) == Option::Some(
            if old(levels)@.len() == 0 || better(price, old(levels)@[0].price, descending) {
                price
            } else {
                old(levels)@[0].price
            },
        ),
{
    let ghost s0 = levels@;
    // Binary search for the boundary: everything before it outranks the
    // price, nothing at or past it does.
    let mut lo: usize = 0;
    let mut hi: usize = levels.len();
    while lo < hi
        invariant
            s0 == levels@,
            sorted_side(s0, descending),
            lo <= hi <= s0.len(),
            forall|j: int| 0 <= j < lo ==> better(s0[j].price, price, descending),
            forall|j: int| hi <= j < s0.len() ==> !better(s0[j].price, price, descending),
        decreases hi - lo,
    {
        let mid = lo + (hi - lo) / 2;
        let outranks = if descending {
            levels[mid].price > price
        } else {
            levels[mid].price < price
        };
        if outranks {
            proof {
                assert forall|j: int| 0 <= j < mid + 1 implies better(
                    s0[j].price,
                    price,
                    descending,
                ) by {
                    if j < mid {
                        assert(better(s0[j].price, s0[mid as int].price, descending));
                    }
                }
            }
            lo = mid + 1;
        } else {
            proof {
                assert forall|j: int| mid <= j < s0.len() implies !better(
                    s0[j].price,
                    price,
                    descending,
                ) by {
                    if j > mid {
                        assert(better(s0[mid as int].price, s0[j].price, descending));
                    }
                }
            }
            hi = mid;
        }
    }
    let i = lo;
    if i < levels.len() {
        let cur = levels[i];
        if cur.price == price {
            proof {
                lemma_total_size_element(s0, i as int);
                lemma_levels_map_index(s0, descending, i as int);
            }
            let grown = PriceLevel {
                price,
                size: cur.size + qty,
                order_count: cur.order_count + 1,
                timestamp: ts,
            };
            levels.set(i, grown);
            proof {
                lemma_levels_map_update(s0, descending, i as int, grown);
                lemma_total_size_update(s0, i as int, grown);
                assert(sorted_side(levels@, descending)) by {
                    assert(forall|k: int|
                        0 <= k < s0.len() ==> levels@[k].price == #[trigger] s0[k].price);
                }
            }
            return ;
        }
    }
    // The price is fresh: everything before i is better, everything at and
    // past i is strictly worse.
    proof {
        assert forall|k: int| 0 <= k < s0.len() implies s0[k].price != price by {
            if k >= i {
                if k > i {
                    assert(better(s0[i as int].price, s0[k].price, descending));
                }
            }
        }
        lemma_levels_map_dom(s0, price);
    }
    let fresh = PriceLevel { price, size: qty, order_count: 1, timestamp: ts };
    levels.insert(i, fresh);
    proof {
        lemma_levels_map_insert(s0, i as int, fresh);
        lemma_total_size_insert(s0, i as int, fresh);
        assert(sorted_side(levels@, descending)) by {
            assert(forall|k: int| 0 <= k < i ==> levels@[k] == #[trigger] s0[k]);
            assert(forall|k: int|
                i < k < levels@.len() ==> levels@[k] == #[trigger] s0[k - 1]);
            assert forall|a: int, b: int| 0 <= a < b < levels@.len() implies better(
                levels@[a].price,
                levels@[b].price,
                descending,
            ) by {
                if a == i && b > i {
                    if !better(price, s0[b - 1].price, descending) {
                        assert(better(s0[i as int].price, s0[b - 1].price, descending) || i == b - 1);
                    }
                } else if b == i && a < i {
                } else if a < i && b > i {
                    if !better(s0[a].price, s0[b - 1].price, descending) {
                        assert(a == b - 1);
                    }
                }
            }
        }
    }
}

/// The index of the level resting at `price`, if any.
fn side_find(levels: &Vec<PriceLevel>, price: u64) -> (r: Option<usize>)
    ensures
        r matches Some(i) ==> i < levels@.len() && levels@[i as int].price == price,
        r is None ==> forall|j: int| 0 <= j < levels@.len() ==> levels@[j].price != price,
{
    let mut i: usize = 0;
    while i < levels.len()
        invariant
            i <= levels@.len(),
            forall|j: int| 0 <= j < i ==> levels@[j].price != price,
        decreases levels@.len() - i,
    {
        if levels[i].price == price {
            return Some(i);
        }
        i = i + 1;
    }
    None
}

// ---------------------------------------------------------------------------
// The book itself.
// ---------------------------------------------------------------------------

/// Per-symbol book state: the two ladders, the cached best quotes, running
/// volume totals and the mutation sequence.
pub struct OrderBook {
    symbol: String,
    bids: Vec<PriceLevel>,
    asks: Vec<PriceLevel>,
    best_bid: Option<u64>,
    best_ask: Option<u64>,
    sequence: u64,
    total_bid_volume: u64,
    total_ask_volume: u64,
    last_update_time: u64,
}

impl OrderBook {
    pub closed spec fn spec_symbol(&self) -> Seq<char> {
        self.symbol@
    }

    /// The symbol's UTF-8 bytes, the identity the manager keys books by.
    pub open spec fn spec_symbol_bytes(&self) -> Seq<u8> {
        vstd::utf8::encode_utf8(self.spec_symbol())
    }

    pub closed spec fn spec_bids(&self) -> Seq<PriceLevel> {
        self.bids@
    }

    pub closed spec fn spec_asks(&self) -> Seq<PriceLevel> {
        self.asks@
    }

    pub closed spec fn spec_best_bid(&self) -> Option<u64> {
        self.best_bid
    }

    pub closed spec fn spec_best_ask(&self) -> Option<u64> {
        self.best_ask
    }

    pub closed spec fn spec_sequence(&self) -> u64 {
        self.sequence
    }

    pub closed spec fn spec_bid_volume(&self) -> u64 {
        self.total_bid_volume
    }

    pub closed spec fn spec_ask_volume(&self) -> u64 {
        self.total_ask_volume
    }

    pub closed spec fn spec_last_update(&self) -> u64 {
        self.last_update_time
    }

    /// The book invariant: both ladders strictly ordered best-first with
    /// well-formed levels, the cached best quotes equal to the top of each
    /// ladder, and the volume totals equal to the ladder sums.
    pub open spec fn wf(&self) -> bool {
        &&& sorted_side(self.spec_bids(), true)
        &&& sorted_side(self.spec_asks(), false)
        &&& levels_wf(self.spec_bids())
        &&& levels_wf(self.spec_asks())
        &&& counts_bounded(self.spec_bids(), self.spec_sequence())
        &&& counts_bounded(self.spec_asks(), self.spec_sequence())
        &&& self.spec_best_bid() == side_best(self.spec_bids())
        &&& self.spec_best_ask() == side_best(self.spec_asks())
        &&& self.spec_bid_volume() == total_size(self.spec_bids())
        &&& self.spec_ask_volume() == total_size(self.spec_asks())
    }

    /// Top-of-book spread: ask minus bid, negative if the book is crossed.
    pub open spec fn spec_spread(&self) -> Option<int> {
        if self.spec_bids().len() > 0 && self.spec_asks().len() > 0 {
            Option::Some(self.spec_asks()[0].price - self.spec_bids()[0].price)
        } else {
            Option::None
        }
    }

    /// Twice the midpoint price, exact in price units.
    pub open spec fn spec_mid_x2(&self) -> Option<u64> {
        if self.spec_bids().len() > 0 && self.spec_asks().len() > 0 {
            Option::Some((self.spec_bids()[0].price + self.spec_asks()[0].price) as u64)
        } else {
            Option::None
        }
    }

    /// The spread in thousandths of a basis point, rounded toward zero:
    /// 10000000 * spread / mid, with mid the average of bid and ask.
    pub open spec fn spec_spread_milli_bps(&self) -> Option<int> {
        if self.spec_bids().len() > 0 && self.spec_asks().len() > 0 {
            let bid = self.spec_bids()[0].price as int;
            let ask = self.spec_asks()[0].price as int;
            if ask >= bid {
                Option::Some(20_000_000 * (ask - bid) / (bid + ask))
            } else {
                Option::Some(-(20_000_000 * (bid - ask) / (bid + ask)))
            }
        } else {
            Option::None
        }
    }

    /// An empty book for one symbol.
    pub fn new(symbol: String) -> (r: Self)
        ensures
            r.wf(),
            r.spec_symbol() == symbol@,
            r.spec_bids().len() == 0,
            r.spec_asks().len() == 0,
            r.spec_sequence() == 0,
            r.spec_bid_volume() == 0,
            r.spec_ask_volume() == 0,
    {
        OrderBook {
            symbol,
            bids: Vec::new(),
            asks: Vec::new(),
            best_bid: None,
            best_ask: None,
            sequence: 0,
            total_bid_volume: 0,
            total_ask_volume: 0,
            last_update_time: current_timestamp_nanos(),
        }
    }

    /// Folds one order into its side of the book. Rejected orders leave the
    /// book untouched: a zero or over-cap price or a zero quantity is
    /// invalid, and a side whose volume counter or whose sequence would
    /// overflow reports exhaustion.
    pub fn add_order(&mut self, order: Order) -> (r: Result<(), EngineError>)
        requires
            old(self).wf(),
        ensures
            final(self).wf(),
            r matches Err(e) ==> *final(self) == *old(self),
            (r matches Err(e) && e == EngineError::InvalidArgument) <==> !order_valid(
                order.price,
                order.quantity,
            ),
            (r matches Err(e) && e == EngineError::CapacityExceeded) <==> order_valid(
                order.price,
                order.quantity,
            ) && (old(self).side_volume(order.side) + order.quantity > u64::MAX || old(
                self,
            ).spec_sequence() == u64::MAX),
            r is Ok <==> order_valid(order.price, order.quantity) && old(self).side_volume(
                order.side,
            ) + order.quantity <= u64::MAX && old(self).spec_sequence() < u64::MAX,
            r is Ok ==> old(self).add_order_post(*final(self), order),
    {
        if order.price == 0 || order.price > MAX_PRICE || order.quantity == 0 {
            return Err(EngineError::InvalidArgument);
        }
        if self.sequence == u64::MAX {
            return Err(EngineError::CapacityExceeded);
        }
        match order.side {
            Side::Buy => {
                if order.quantity > u64::MAX - self.total_bid_volume {
                    return Err(EngineError::CapacityExceeded);
                }
                proof {
                    lemma_total_size_nonneg(self.bids@);
                }
                side_upsert(
                    &mut self.bids,
                    true,
                    order.price,
                    order.quantity,
                    order.timestamp,
                    Ghost(self.sequence),
                );
                self.total_bid_volume = self.total_bid_volume + order.quantity;
                let new_best = match self.best_bid {
                    None => Some(order.price),
                    Some(b) => if order.price > b {
                        Some(order.price)
                    } else {
                        Some(b)
                    },
                };
                self.best_bid = new_best;
            },
            Side::Sell => {
                if order.quantity > u64::MAX - self.total_ask_volume {
                    return Err(EngineError::CapacityExceeded);
                }
                proof {
                    lemma_total_size_nonneg(self.asks@);
                }
                side_upsert(
                    &mut self.asks,
                    false,
                    order.price,
                    order.quantity,
                    order.timestamp,
                    Ghost(self.sequence),
                );
                self.total_ask_volume = self.total_ask_volume + order.quantity;
                let new_best = match self.best_ask {
                    None => Some(order.price),
                    Some(b) => if order.price < b {
                        Some(order.price)
                    } else {
                        Some(b)
                    },
                };
                self.best_ask = new_best;
            },
        }
        self.sequence = self.sequence + 1;
        self.last_update_time = current_timestamp_nanos();
        Ok(())
    }

    /// The volume counter of one side.
    pub open spec fn side_volume(&self, side: Side) -> u64 {
        if side == Side::Buy {
            self.spec_bid_volume()
        } else {
            self.spec_ask_volume()
        }
    }

    /// The ladder of one side.
    pub open spec fn side_levels(&self, side: Side) -> Seq<PriceLevel> {
        if side == Side::Buy {
            self.spec_bids()
        } else {
            self.spec_asks()
        }
    }

    /// What a successful `add_order` did: the order's side gained the order
    /// at its price, the other side is untouched, the volume grew by the
    /// quantity and the sequence moved up by one.
    pub open spec fn add_order_post(self, post: Self, order: Order) -> bool {
        &&& post.spec_symbol() == self.spec_symbol()
        &&& post.spec_sequence() == self.spec_sequence() + 1
        &&& levels_map(post.side_levels(order.side)) =~= levels_map(
            self.side_levels(order.side),
        ).insert(
            order.price,
            bumped_level(
                levels_map(self.side_levels(order.side)),
                order.price,
                order.quantity,
                order.timestamp,
            ),
        )
        &&& post.side_levels(flip(order.side)) == self.side_levels(flip(order.side))
        &&& post.side_volume(order.side) == self.side_volume(order.side) + order.quantity
        &&& post.side_volume(flip(order.side)) == self.side_volume(flip(order.side))
    }

    /// What a successful `remove_quantity` did: the level at the price gave
    /// up the quantity — leaving the ladder entirely when drained — the
    /// volume shrank by it and the sequence moved up by one.
    pub open spec fn remove_quantity_post(self, post: Self, side: Side, price: u64, qty: u64) -> bool {
        let m = levels_map(self.side_levels(side));
        &&& post.spec_symbol() == self.spec_symbol()
        &&& post.spec_sequence() == self.spec_sequence() + 1
        &&& m.dom().contains(price)
        &&& qty <= m[price].size
        &&& levels_map(post.side_levels(side)) =~= if m[price].size == qty {
            m.remove(price)
        } else {
            m.insert(
                price,
                PriceLevel {
                    price,
                    size: (m[price].size - qty) as u64,
                    order_count: m[price].order_count,
                    timestamp: m[price].timestamp,
                },
            )
        }
        &&& post.side_levels(flip(side)) == self.side_levels(flip(side))
        &&& post.side_volume(side) == self.side_volume(side) - qty
        &&& post.side_volume(flip(side)) == self.side_volume(flip(side))
    }

    /// Takes quantity out of the level resting at `price`. Fails with
    /// NotFound when no level rests there, with InsufficientSize when the
    /// level is smaller than the quantity, and leaves the book untouched on
    /// every failure.
    #[verifier::rlimit(100)]
    #[verifier::spinoff_prover]
    pub fn remove_quantity(&mut self, side: Side, price: u64, quantity: u64) -> (r: Result<
        (),
        EngineError,
    >)
        requires
            old(self).wf(),
        ensures
            final(self).wf(),
            r matches Err(e) ==> *final(self) == *old(self),
            (r matches Err(e) && e == EngineError::NotFound) <==> !levels_map(
                old(self).side_levels(side),
            ).dom().contains(price),
            (r matches Err(e) && e == EngineError::InsufficientSize) <==> levels_map(
                old(self).side_levels(side),
            ).dom().contains(price) && levels_map(old(self).side_levels(side))[price].size
                < quantity,
            (r matches Err(e) && e == EngineError::CapacityExceeded) <==> levels_map(
                old(self).side_levels(side),
            ).dom().contains(price) && levels_map(old(self).side_levels(side))[price].size
                >= quantity && old(self).spec_sequence() == u64::MAX,
            r is Ok <==> levels_map(old(self).side_levels(side)).dom().contains(price)
                && levels_map(old(self).side_levels(side))[price].size >= quantity && old(
                self,
            ).spec_sequence() < u64::MAX,
            r is Ok ==> old(self).remove_quantity_post(*final(self), side, price, quantity),
    {
        let ghost descending = (side == Side::Buy);
        let found = match side {
            Side::Buy => side_find(&self.bids, price),
            Side::Sell => side_find(&self.asks, price),
        };
        proof {
            lemma_levels_map_dom(old(self).side_levels(side), price);
        }
        let i = match found {
            None => {
                return Err(EngineError::NotFound);
            },
            Some(i) => i,
        };
        proof {
            lemma_levels_map_index(old(self).side_levels(side), descending, i as int);
        }
        let cur = match side {
            Side::Buy => self.bids[i],
            Side::Sell => self.asks[i],
        };
        if cur.size < quantity {
            return Err(EngineError::InsufficientSize);
        }
        if self.sequence == u64::MAX {
            return Err(EngineError::CapacityExceeded);
        }
        proof {
            lemma_total_size_element(old(self).side_levels(side), i as int);
        }
        match side {
            Side::Buy => {
                let ghost s0 = self.bids@;
                if cur.size == quantity {
                    self.bids.remove(i);
                    proof {
                        lemma_levels_map_remove(s0, true, i as int);
                        lemma_total_size_remove(s0, i as int);
                        lemma_sorted_remove(s0, true, i as int);
                    }
                } else {
                    let shrunk = PriceLevel {
                        price,
                        size: cur.size - quantity,
                        order_count: cur.order_count,
                        timestamp: cur.timestamp,
                    };
                    self.bids.set(i, shrunk);
                    proof {
                        lemma_levels_map_update(s0, true, i as int, shrunk);
                        lemma_total_size_update(s0, i as int, shrunk);
                        assert(sorted_side(self.bids@, true)) by {
                            assert(forall|k: int|
                                0 <= k < s0.len() ==> self.bids@[k].price == #[trigger] s0[k].price);
                        }
                    }
                }
                self.total_bid_volume = self.total_bid_volume - quantity;
                self.best_bid = if self.bids.len() == 0 {
                    None
                } else {
                    Some(self.bids[0].price)
                };
            },
            Side::Sell => {
                let ghost s0 = self.asks@;
                if cur.size == quantity {
                    self.asks.remove(i);
                    proof {
                        lemma_levels_map_remove(s0, false, i as int);
                        lemma_total_size_remove(s0, i as int);
                        lemma_sorted_remove(s0, false, i as int);
                    }
                } else {
                    let shrunk = PriceLevel {
                        price,
                        size: cur.size - quantity,
                        order_count: cur.order_count,
                        timestamp: cur.timestamp,
                    };
                    self.asks.set(i, shrunk);
                    proof {
                        lemma_levels_map_update(s0, false, i as int, shrunk);
                        lemma_total_size_update(s0, i as int, shrunk);
                        assert(sorted_side(self.asks@, false)) by {
                            assert(forall|k: int|
                                0 <= k < s0.len() ==> self.asks@[k].price == #[trigger] s0[k].price);
                        }
                    }
                }
                self.total_ask_volume = self.total_ask_volume - quantity;
                self.best_ask = if self.asks.len() == 0 {
                    None
                } else {
                    Some(self.asks[0].price)
                };
            },
        }
        self.sequence = self.sequence + 1;
        self.last_update_time = current_timestamp_nanos();
        Ok(())
    }

    /// The best quote of both sides, their sizes, the exact spread and the
    /// exact doubled midpoint, read from the cached top of book.
    pub fn get_best_bid_offer(&self) -> (r: BestBidOffer)
        requires
            self.wf(),
        ensures
            r.symbol@ == self.spec_symbol(),
            r.bid_price == self.spec_best_bid(),
            r.ask_price == self.spec_best_ask(),
            r.bid_size == (if self.spec_bids().len() > 0 {
                Option::Some(self.spec_bids()[0].size)
            } else {
                Option::<u64>::None
            }),
            r.ask_size == (if self.spec_asks().len() > 0 {
                Option::Some(self.spec_asks()[0].size)
            } else {
                Option::<u64>::None
            }),
            r.spread is Some <==> self.spec_spread() is Some,
            r.spread matches Some(sp) ==> Option::Some(sp as int) == self.spec_spread(),
            r.mid_price_x2 == self.spec_mid_x2(),
            r.timestamp == self.spec_last_update(),
    {
        let bid_size = if self.bids.len() > 0 {
            Some(self.bids[0].size)
        } else {
            None
        };
        let ask_size = if self.asks.len() > 0 {
            Some(self.asks[0].size)
        } else {
            None
        };
        let mut spread: Option<i64> = None;
        let mut mid_price_x2: Option<u64> = None;
        if self.bids.len() > 0 && self.asks.len() > 0 {
            let bid = self.bids[0].price;
            let ask = self.asks[0].price;
            spread = Some(ask as i64 - bid as i64);
            mid_price_x2 = Some(bid + ask);
        }
        BestBidOffer {
            symbol: self.symbol.clone(),
            bid_price: self.best_bid,
            bid_size,
            ask_price: self.best_ask,
            ask_size,
            spread,
            mid_price_x2,
            timestamp: self.last_update_time,
        }
    }

    /// Copies of the top `depth` levels of both ladders, best first.
    pub fn get_level2_snapshot(&self, depth: usize) -> (r: Level2Snapshot)
        requires
            self.wf(),
        ensures
            r.symbol@ == self.spec_symbol(),
            r.bids@ == self.spec_bids().take(min_usize(depth, self.spec_bids().len() as usize) as int),
            r.asks@ == self.spec_asks().take(min_usize(depth, self.spec_asks().len() as usize) as int),
            r.sequence == self.spec_sequence(),
            r.timestamp == self.spec_last_update(),
    {
        let bids = copy_prefix(&self.bids, depth);
        let asks = copy_prefix(&self.asks, depth);
        Level2Snapshot {
            symbol: self.symbol.clone(),
            bids,
            asks,
            timestamp: self.last_update_time,
            sequence: self.sequence,
        }
    }

    /// The depth-weighted average price over the top `depth` levels of one
    /// side, as the exact pair (price-weighted size, total size): the value
    /// it names is their quotient. None when no level is in range.
    pub fn calculate_vwap(&self, side: Side, depth: usize) -> (r: Option<(u128, u64)>)
        requires
            self.wf(),
        ensures
            r is None <==> depth == 0 || self.side_levels(side).len() == 0,
            r matches Some(p) ==> {
                let lv = self.side_levels(side).take(
                    min_usize(depth, self.side_levels(side).len() as usize) as int,
                );
                p.0 == weighted_sum(lv) && p.1 == total_size(lv) && p.1 >= 1
            },
    {
        let levels = match side {
            Side::Buy => &self.bids,
            Side::Sell => &self.asks,
        };
        let n = if depth < levels.len() {
            depth
        } else {
            levels.len()
        };
        if n == 0 {
            return None;
        }
        let ghost lv = levels@.take(n as int);
        proof {
            assert(levels_wf(lv)) by {
                assert(forall|k: int| 0 <= k < n ==> lv[k] == #[trigger] levels@[k]);
            }
            assert(lv.take(0int) =~= Seq::<PriceLevel>::empty());
        }
        let mut num: u128 = 0;
        let mut den: u64 = 0;
        let mut i: usize = 0;
        while i < n
            invariant
                n <= levels@.len(),
                i <= n,
                lv == levels@.take(n as int),
                levels_wf(lv),
                levels_wf(levels@),
                total_size(levels@) <= u64::MAX,
                num == weighted_sum(lv.take(i as int)),
                den == total_size(lv.take(i as int)),
                num <= MAX_PRICE as u128 * den as u128,
            decreases n - i,
        {
            proof {
                assert(lv.take(i + 1).drop_last() =~= lv.take(i as int));
                assert(lv.take(i + 1).last() == lv[i as int]);
                assert(lv[i as int] == levels@[i as int]);
                lemma_prefix_total_le(levels@, n as int, i + 1);
                lemma_weighted_step_bound(lv[i as int]);
                lemma_total_size_nonneg(lv.take(i as int));
                let sz = lv[i as int].size as int;
                vstd::arithmetic::mul::lemma_mul_inequality(
                    den as int,
                    u64::MAX as int,
                    MAX_PRICE as int,
                );
                vstd::arithmetic::mul::lemma_mul_inequality(
                    sz,
                    u64::MAX as int,
                    MAX_PRICE as int,
                );
                vstd::arithmetic::mul::lemma_mul_is_commutative(den as int, MAX_PRICE as int);
                vstd::arithmetic::mul::lemma_mul_is_commutative(sz, MAX_PRICE as int);
                vstd::arithmetic::mul::lemma_mul_is_distributive_add(
                    MAX_PRICE as int,
                    den as int,
                    sz,
                );
            }
            let l = levels[i];
            num = num + (l.price as u128) * (l.size as u128);
            den = den + l.size;
            i = i + 1;
        }
        proof {
            assert(lv.take(n as int) =~= lv);
            lemma_total_size_element(lv, 0int);
        }
        Some((num, den))
    }

    /// Aggregate statistics: level counts, volume totals, the spread in
    /// thousandths of a basis point, the doubled midpoint and the sequence.
    pub fn get_statistics(&self) -> (r: OrderBookStats)
        requires
            self.wf(),
        ensures
            r.symbol@ == self.spec_symbol(),
            r.bid_levels == self.spec_bids().len(),
            r.ask_levels == self.spec_asks().len(),
            r.total_bid_volume == self.spec_bid_volume(),
            r.total_ask_volume == self.spec_ask_volume(),
            r.spread_milli_bps is Some <==> self.spec_spread_milli_bps() is Some,
            r.spread_milli_bps matches Some(v) ==> Option::Some(v as int)
                == self.spec_spread_milli_bps(),
            r.mid_price_x2 == self.spec_mid_x2(),
            r.sequence == self.spec_sequence(),
            r.last_update_time == self.spec_last_update(),
    {
        let mut spread_milli_bps: Option<i64> = None;
        let mut mid_price_x2: Option<u64> = None;
        if self.bids.len() > 0 && self.asks.len() > 0 {
            let bid = self.bids[0].price;
            let ask = self.asks[0].price;
            let den = (bid + ask) as u128;
            if ask >= bid {
                let num = 20_000_000u128 * ((ask - bid) as u128);
                proof {
                    lemma_milli_bps_bound((ask - bid) as int, (bid + ask) as int);
                }
                spread_milli_bps = Some((num / den) as i64);
            } else {
                let num = 20_000_000u128 * ((bid - ask) as u128);
                proof {
                    lemma_milli_bps_bound((bid - ask) as int, (bid + ask) as int);
                }
                let q = (num / den) as i64;
                spread_milli_bps = Some(-q);
            }
            mid_price_x2 = Some(bid + ask);
        }
        OrderBookStats {
            symbol: self.symbol.clone(),
            bid_levels: self.bids.len(),
            ask_levels: self.asks.len(),
            total_bid_volume: self.total_bid_volume,
            total_ask_volume: self.total_ask_volume,
            spread_milli_bps,
            mid_price_x2,
            sequence: self.sequence,
            last_update_time: self.last_update_time,
        }
    }

    /// Empties both ladders and the volume totals; the sequence still moves
    /// up by one, as for every mutation.
    pub fn clear(&mut self)
        requires
            old(self).wf(),
            old(self).spec_sequence() < u64::MAX,
        ensures
            final(self).wf(),
            final(self).spec_symbol() == old(self).spec_symbol(),
            final(self).spec_bids().len() == 0,
            final(self).spec_asks().len() == 0,
            final(self).spec_bid_volume() == 0,
            final(self).spec_ask_volume() == 0,
            final(self).spec_best_bid() is None,
            final(self).spec_best_ask() is None,
            final(self).spec_sequence() == old(self).spec_sequence() + 1,
    {
        self.bids.clear();
        self.asks.clear();
        self.best_bid = None;
        self.best_ask = None;
        self.total_bid_volume = 0;
        self.total_ask_volume = 0;
        self.sequence = self.sequence + 1;
        self.last_update_time = current_timestamp_nanos();
    }

    pub fn symbol(&self) -> (r: &str)
        ensures
            r@ == self.spec_symbol(),
    {
        self.symbol.as_str()
    }

    pub fn sequence(&self) -> (r: u64)
        ensures
            r == self.spec_sequence(),
    {
        self.sequence
    }
}

/// The other side of the book.
pub open spec fn flip(side: Side) -> Side {
    if side == Side::Buy {
        Side::Sell
    } else {
        Side::Buy
    }
}

/// The smaller of two lengths.
pub open spec fn min_usize(a: usize, b: usize) -> usize {
    if a <= b {
        a
    } else {
        b
    }
}

/// Copies the first min(depth, len) levels of a ladder.
fn copy_prefix(levels: &Vec<PriceLevel>, depth: usize) -> (r: Vec<PriceLevel>)
    ensures
        r@ == levels@.take(min_usize(depth, levels@.len() as usize) as int),
{
    let n = if depth < levels.len() {
        depth
    } else {
        levels.len()
    };
    let mut out: Vec<PriceLevel> = Vec::with_capacity(n);
    let mut i: usize = 0;
    while i < n
        invariant
            n <= levels@.len(),
            i <= n,
            out@ =~= levels@.take(i as int),
        decreases n - i,
    {
        out.push(levels[i]);
        proof {
            assert(out@ =~= levels@.take(i + 1));
        }
        i = i + 1;
    }
    proof {
        assert(out@ =~= levels@.take(min_usize(depth, levels@.len() as usize) as int));
    }
    out
}

/// Removing one level keeps a ladder strictly ordered.
proof fn lemma_sorted_remove(s: Seq<PriceLevel>, descending: bool, i: int)
    requires
        sorted_side(s, descending),
        0 <= i < s.len(),
    ensures
        sorted_side(s.remove(i), descending),
{
    assert forall|a: int, b: int| 0 <= a < b < s.remove(i).len() implies better(
        s.remove(i)[a].price,
        s.remove(i)[b].price,
        descending,
    ) by {
        let a0 = if a < i {
            a
        } else {
            a + 1
        };
        let b0 = if b < i {
            b
        } else {
            b + 1
        };
        assert(s.remove(i)[a] == s[a0]);
        assert(s.remove(i)[b] == s[b0]);
    }
}

/// A longer prefix of a ladder carries at least the size of a shorter one,
/// and no prefix outweighs the whole ladder.
proof fn lemma_prefix_total_le(s: Seq<PriceLevel>, n: int, i: int)
    requires
        levels_wf(s),
        0 <= i <= n <= s.len(),
    ensures
        total_size(s.take(n).take(i)) <= total_size(s),
    decreases s.len() - i,
{
    assert(s.take(n).take(i) =~= s.take(i));
    lemma_take_total_le(s, i);
}

proof fn lemma_take_total_le(s: Seq<PriceLevel>, i: int)
    requires
        0 <= i <= s.len(),
    ensures
        total_size(s.take(i)) <= total_size(s),
    decreases s.len() - i,
{
    if i < s.len() {
        assert(s.take(i + 1).drop_last() =~= s.take(i));
        lemma_take_total_le(s, i + 1);
        if i + 1 == s.len() {
            assert(s.take(i + 1) =~= s);
        }
    } else {
        assert(s.take(i) =~= s);
    }
}

/// One level's contribution to the weighted sum stays under the price cap
/// times its size.
proof fn lemma_weighted_step_bound(l: PriceLevel)
    requires
        1 <= l.price <= MAX_PRICE,
    ensures
        0 <= l.price * l.size,
        l.price * l.size <= MAX_PRICE * l.size,
{
    vstd::arithmetic::mul::lemma_mul_inequality(l.price as int, MAX_PRICE as int, l.size as int);
    vstd::arithmetic::mul::lemma_mul_nonnegative(l.price as int, l.size as int);
}

/// The milli-basis-point quotient stays under 20 million once the spread's
/// magnitude is bounded by the doubled midpoint.
proof fn lemma_milli_bps_bound(diff: int, den: int)
    requires
        0 <= diff <= den,
        den >= 1,
    ensures
        0 <= 20_000_000 * diff / den <= 20_000_000,
        20_000_000 * diff >= 0,
        20_000_000 * diff <= 20_000_000 * den,
    decreases 0int,
{
    vstd::arithmetic::mul::lemma_mul_inequality(diff, den, 20_000_000);
    vstd::arithmetic::div_mod::lemma_div_is_ordered(20_000_000 * diff, 20_000_000 * den, den);
    vstd::arithmetic::div_mod::lemma_div_multiples_vanish(20_000_000, den);
    vstd::arithmetic::div_mod::lemma_div_pos_is_pos(20_000_000 * diff, den);
}

// ---------------------------------------------------------------------------
// Laws of the book.
// ---------------------------------------------------------------------------

/// Best-quote invariant: on a well-formed book the cached best bid is the
/// maximum resting bid price and the cached best ask the minimum resting ask
/// price, each carrying the current size of its level.
pub proof fn lemma_best_quote_invariant(b: OrderBook)
    requires
        b.wf(),
    ensures
        b.spec_bids().len() == 0 ==> b.spec_best_bid() is None,
        b.spec_bids().len() > 0 ==> b.spec_best_bid() == Option::Some(b.spec_bids()[0].price)
            && forall|i: int|
            0 <= i < b.spec_bids().len() ==> #[trigger] b.spec_bids()[i].price <= b.spec_bids()[0].price,
        b.spec_asks().len() == 0 ==> b.spec_best_ask() is None,
        b.spec_asks().len() > 0 ==> b.spec_best_ask() == Option::Some(b.spec_asks()[0].price)
            && forall|i: int|
            0 <= i < b.spec_asks().len() ==> #[trigger] b.spec_asks()[i].price >= b.spec_asks()[0].price,
{
    if b.spec_bids().len() > 0 {
        assert forall|i: int| 0 <= i < b.spec_bids().len() implies #[trigger] b.spec_bids()[i].price
            <= b.spec_bids()[0].price by {
            if i > 0 {
                assert(better(b.spec_bids()[0].price, b.spec_bids()[i].price, true));
            }
        }
    }
    if b.spec_asks().len() > 0 {
        assert forall|i: int| 0 <= i < b.spec_asks().len() implies #[trigger] b.spec_asks()[i].price
            >= b.spec_asks()[0].price by {
            if i > 0 {
                assert(better(b.spec_asks()[0].price, b.spec_asks()[i].price, false));
            }
        }
    }
}

/// Spread sanity: on an uncrossed book with both sides resting, the spread
/// is non-negative, and the reported milli-basis-point figure is exactly
/// 10000000 * spread / mid with mid half the bid-ask sum.
pub proof fn lemma_spread_sanity(b: OrderBook)
    requires
        b.wf(),
        b.spec_bids().len() > 0,
        b.spec_asks().len() > 0,
        b.spec_bids()[0].price <= b.spec_asks()[0].price,
    ensures
        b.spec_spread() matches Some(sp) && sp >= 0,
        b.spec_spread_milli_bps() == Option::Some(
            20_000_000 * (b.spec_asks()[0].price - b.spec_bids()[0].price) / (b.spec_bids()[0].price
                + b.spec_asks()[0].price),
        ),
        b.spec_spread_milli_bps() matches Some(v) && v >= 0,
{
    let bid = b.spec_bids()[0].price as int;
    let ask = b.spec_asks()[0].price as int;
    lemma_milli_bps_bound(ask - bid, bid + ask);
}

/// VWAP identity: over a single resting level the volume-weighted average
/// price is that level's price — the weighted sum is exactly the price
/// times the total size.
pub proof fn lemma_vwap_single_level(s: Seq<PriceLevel>)
    requires
        s.len() == 1,
    ensures
        weighted_sum(s) == s[0].price * total_size(s),
        total_size(s) == s[0].size,
{
    assert(s.last() == s[0]);
    assert(s.drop_last().len() == 0);
    assert(weighted_sum(s.drop_last()) == 0);
    assert(total_size(s.drop_last()) == 0);
    assert(weighted_sum(s) == s[0].price * s[0].size);
}

/// Clear idempotence: a book whose ladders are empty — as they are after
/// `clear` — reports null best quotes, a null spread and midpoint, and zero
/// volumes on both sides.
pub proof fn lemma_clear_yields_null_book(b: OrderBook)
    requires
        b.wf(),
        b.spec_bids().len() == 0,
        b.spec_asks().len() == 0,
    ensures
        b.spec_best_bid() is None,
        b.spec_best_ask() is None,
        b.spec_spread() is None,
        b.spec_mid_x2() is None,
        b.spec_spread_milli_bps() is None,
        b.spec_bid_volume() == 0,
        b.spec_ask_volume() == 0,
{
}

// ---------------------------------------------------------------------------
// The multi-symbol manager.
// ---------------------------------------------------------------------------

/// Books for many symbols, created lazily on first reference and never
/// dropped implicitly. Books are keyed by the symbol's UTF-8 bytes.
pub struct OrderBookManager {
    books: Vec<OrderBook>,
}

/// The index of the first book whose symbol bytes match, or the number of
/// books when none does.
pub open spec fn book_index(books: Seq<OrderBook>, sym: Seq<u8>) -> int
    decreases books.len(),
{
    if books.len() == 0 {
        0
    } else if books[0].spec_symbol_bytes() == sym {
        0
    } else {
        1 + book_index(books.drop_first(), sym)
    }
}

/// Where the first matching book lies: never past the count, on a match
/// when inside it, and past every earlier non-match.
pub proof fn lemma_book_index_props(books: Seq<OrderBook>, sym: Seq<u8>)
    ensures
        0 <= book_index(books, sym) <= books.len(),
        book_index(books, sym) < books.len() ==> books[book_index(books, sym)].spec_symbol_bytes()
            == sym,
        forall|k: int| 0 <= k < book_index(books, sym) ==> books[k].spec_symbol_bytes() != sym,
    decreases books.len(),
{
    if books.len() > 0 && books[0].spec_symbol_bytes() != sym {
        lemma_book_index_props(books.drop_first(), sym);
        assert(forall|k: int| 0 <= k < books.len() - 1 ==> books.drop_first()[k] == books[k + 1]);
        assert forall|k: int| 0 <= k < book_index(books, sym) implies books[k].spec_symbol_bytes()
            != sym by {
            if k > 0 {
                assert(books.drop_first()[k - 1].spec_symbol_bytes() != sym);
            }
        }
    }
}

/// Under pairwise-distinct symbols, a matching index is the first one.
proof fn lemma_book_index_at(books: Seq<OrderBook>, sym: Seq<u8>, i: int)
    requires
        0 <= i < books.len(),
        books[i].spec_symbol_bytes() == sym,
        forall|a: int, b: int|
            0 <= a < b < books.len() ==> books[a].spec_symbol_bytes()
                != books[b].spec_symbol_bytes(),
    ensures
        book_index(books, sym) == i,
{
    lemma_book_index_props(books, sym);
    let j = book_index(books, sym);
    if j == books.len() {
        assert(books[i].spec_symbol_bytes() != sym);
    } else if j < i {
        assert(books[j].spec_symbol_bytes() != books[i].spec_symbol_bytes());
    } else if j > i {
        assert(books[i].spec_symbol_bytes() != sym);
    }
}

/// With no matching book, the first-match index is the count.
proof fn lemma_book_index_none(books: Seq<OrderBook>, sym: Seq<u8>)
    requires
        forall|k: int| 0 <= k < books.len() ==> (#[trigger] books[k]).spec_symbol_bytes() != sym,
    ensures
        book_index(books, sym) == books.len(),
{
    lemma_book_index_props(books, sym);
    let j = book_index(books, sym);
    if j < books.len() {
        assert(books[j].spec_symbol_bytes() != sym);
    }
}

/// What a successful fold of one order into a fresh empty book leaves: the
/// order alone as one level on its side, nothing on the other side, the
/// first sequence number spent.
pub open spec fn add_into_fresh_post(post: OrderBook, symbol_bytes: Seq<u8>, order: Order) -> bool {
    &&& post.spec_symbol_bytes() == symbol_bytes
    &&& post.spec_sequence() == 1
    &&& levels_map(post.side_levels(order.side)) =~= Map::<u64, PriceLevel>::empty().insert(
        order.price,
        (PriceLevel {
            price: order.price,
            size: order.quantity,
            order_count: 1,
            timestamp: order.timestamp,
        }),
    )
    &&& post.side_levels(flip(order.side)).len() == 0
    &&& post.side_volume(order.side) == order.quantity
    &&& post.side_volume(flip(order.side)) == 0
}

impl OrderBookManager {
    pub closed spec fn spec_books(&self) -> Seq<OrderBook> {
        self.books@
    }

    /// Every book is well-formed and no two books share a symbol.
    pub open spec fn wf(&self) -> bool {
        &&& forall|i: int| 0 <= i < self.spec_books().len() ==> (#[trigger] self.spec_books()[i]).wf()
        &&& forall|i: int, j: int|
            0 <= i < j < self.spec_books().len() ==> self.spec_books()[i].spec_symbol_bytes()
                != self.spec_books()[j].spec_symbol_bytes()
    }

    pub fn new() -> (r: Self)
        ensures
            r.wf(),
            r.spec_books().len() == 0,
    {
        OrderBookManager { books: Vec::new() }
    }

    /// The index of the symbol's book, making an empty one first when the
    /// symbol is new; existing books are never touched.
    pub fn get_or_create_book(&mut self, symbol: &str) -> (idx: usize)
        requires
            old(self).wf(),
        ensures
            final(self).wf(),
            idx < final(self).spec_books().len(),
            final(self).spec_books()[idx as int].spec_symbol_bytes() == symbol.spec_bytes(),
            old(self).spec_books().len() <= final(self).spec_books().len() <= old(
                self,
            ).spec_books().len() + 1,
            forall|j: int|
                0 <= j < old(self).spec_books().len() ==> final(self).spec_books()[j] == old(
                    self,
                ).spec_books()[j],
            (final(self).spec_books().len() == old(self).spec_books().len()) <==> exists|i: int|
                0 <= i < old(self).spec_books().len() && old(self).spec_books()[i].spec_symbol_bytes()
                    == symbol.spec_bytes(),
            final(self).spec_books().len() > old(self).spec_books().len() ==> idx == old(
                self,
            ).spec_books().len() && final(self).spec_books()[idx as int].spec_bids().len() == 0
                && final(self).spec_books()[idx as int].spec_asks().len() == 0 && final(self).spec_books()[idx as int].spec_sequence() == 0
                && final(self).spec_books()[idx as int].spec_bid_volume() == 0 && final(self).spec_books()[idx as int].spec_ask_volume() == 0,
    {
        let target = symbol.as_bytes();
        let mut i: usize = 0;
        while i < self.books.len()
            invariant
                *self == *old(self),
                self.wf(),
                i <= self.books@.len(),
                target@ == symbol.spec_bytes(),
                forall|j: int|
                    0 <= j < i ==> (#[trigger] self.books@[j]).spec_symbol_bytes()
                        != symbol.spec_bytes(),
            decreases self.books@.len() - i,
        {
            let book_sym = self.books[i].symbol().as_bytes();
            if bytes_eq(book_sym, target) {
                return i;
            }
            i = i + 1;
        }
        let fresh = OrderBook::new(symbol.to_owned());
        self.books.push(fresh);
        proof {
            assert forall|a: int, b: int|
                0 <= a < b < self.books@.len() implies self.books@[a].spec_symbol_bytes()
                != self.books@[b].spec_symbol_bytes() by {
                if b == self.books@.len() - 1 {
                    assert(self.books@[a] == old(self).books@[a]);
                }
            }
        }
        self.books.len() - 1
    }

    /// A borrow of the book at an index `get_or_create_book` returned.
    pub fn book_at(&self, idx: usize) -> (r: &OrderBook)
        requires
            idx < self.spec_books().len(),
        ensures
            *r == self.spec_books()[idx as int],
    {
        &self.books[idx]
    }

    /// The symbol's book, if one was created for it.
    pub fn get_book(&self, symbol: &str) -> (r: Option<&OrderBook>)
        requires
            self.wf(),
        ensures
            r matches Some(b) ==> b.spec_symbol_bytes() == symbol.spec_bytes() && exists|i: int|
                0 <= i < self.spec_books().len() && self.spec_books()[i] == *b,
            r is None ==> forall|i: int|
                0 <= i < self.spec_books().len() ==> (#[trigger] self.spec_books()[i]).spec_symbol_bytes()
                    != symbol.spec_bytes(),
    {
        let target = symbol.as_bytes();
        let mut i: usize = 0;
        while i < self.books.len()
            invariant
                i <= self.books@.len(),
                target@ == symbol.spec_bytes(),
                forall|j: int|
                    0 <= j < i ==> (#[trigger] self.books@[j]).spec_symbol_bytes()
                        != symbol.spec_bytes(),
            decreases self.books@.len() - i,
        {
            let book_sym = self.books[i].symbol().as_bytes();
            if bytes_eq(book_sym, target) {
                let b = &self.books[i];
                proof {
                    assert(exists|j: int|
                        0 <= j < self.spec_books().len() && self.spec_books()[j] == *b) by {
                        assert(self.spec_books()[i as int] == *b);
                    }
                }
                return Some(b);
            }
            i = i + 1;
        }
        None
    }

    /// The symbols of every book, in creation order.
    pub fn get_symbols(&self) -> (r: Vec<String>)
        ensures
            r@.len() == self.spec_books().len(),
            forall|i: int|
                0 <= i < r@.len() ==> (#[trigger] r@[i])@ == self.spec_books()[i].spec_symbol(),
    {
        let mut out: Vec<String> = Vec::with_capacity(self.books.len());
        let mut i: usize = 0;
        while i < self.books.len()
            invariant
                i <= self.books@.len(),
                out@.len() == i,
                forall|j: int|
                    0 <= j < i ==> (#[trigger] out@[j])@ == self.books@[j].spec_symbol(),
            decreases self.books@.len() - i,
        {
            out.push(self.books[i].symbol().to_owned());
            i = i + 1;
        }
        out
    }

    /// Folds one order into the symbol's book, creating the book on first
    /// reference. The outcome is exactly that of `add_order` on the book
    /// that was there — or on a fresh empty book when the symbol is new —
    /// and no other book changes.
    pub fn add_order(&mut self, symbol: &str, order: Order) -> (r: Result<(), EngineError>)
        requires
            old(self).wf(),
        ensures
            final(self).wf(),
            ({
                let pre = old(self).spec_books();
                let post = final(self).spec_books();
                let j = book_index(pre, symbol.spec_bytes());
                let had = j < pre.len();
                &&& post.len() == if had {
                    pre.len()
                } else {
                    pre.len() + 1
                }
                &&& forall|k: int| 0 <= k < pre.len() && k != j ==> post[k] == pre[k]
                &&& post[j].spec_symbol_bytes() == symbol.spec_bytes()
                &&& ((r matches Err(e) && e == EngineError::InvalidArgument) <==> !order_valid(
                    order.price,
                    order.quantity,
                ))
                &&& ((r matches Err(e) && e == EngineError::CapacityExceeded) <==> order_valid(
                    order.price,
                    order.quantity,
                ) && had && (pre[j].side_volume(order.side) + order.quantity > u64::MAX || pre[
                    j
                ].spec_sequence() == u64::MAX))
                &&& (r is Ok <==> order_valid(order.price, order.quantity) && (had ==> pre[
                    j
                ].side_volume(order.side) + order.quantity <= u64::MAX && pre[j].spec_sequence()
                    < u64::MAX))
                &&& (r is Err && had ==> post[j] == pre[j])
                &&& (r is Err && !had ==> post[j].spec_bids().len() == 0 && post[j].spec_asks().len()
                    == 0 && post[j].spec_sequence() == 0 && post[j].spec_bid_volume() == 0 && post[
                    j
                ].spec_ask_volume() == 0)
                &&& (r is Ok && had ==> pre[j].add_order_post(post[j], order))
                &&& (r is Ok && !had ==> add_into_fresh_post(post[j], symbol.spec_bytes(), order))
            }),
    {
        let ghost pre0 = old(self).spec_books();
        let ghost sym = symbol.spec_bytes();
        let idx = self.get_or_create_book(symbol);
        let ghost pre_books = self.books@;
        proof {
            // The returned index is the first-match index of the old books:
            // the one match when the symbol was known, the count otherwise.
            if pre_books.len() == pre0.len() {
                lemma_book_index_at(pre0, sym, idx as int);
            } else {
                assert forall|k: int|
                    0 <= k < pre0.len() implies (#[trigger] pre0[k]).spec_symbol_bytes() != sym by {
                    if pre0[k].spec_symbol_bytes() == sym {
                        assert(exists|i: int|
                            0 <= i < pre0.len() && pre0[i].spec_symbol_bytes() == sym);
                    }
                }
                lemma_book_index_none(pre0, sym);
            }
        }
        let book = &mut self.books[idx];
        let ghost pre_book = *book;
        let r = book.add_order(order);
        proof {
            assert(self.books@ =~= pre_books.update(idx as int, self.books@[idx as int]));
            assert forall|a: int, b: int|
                0 <= a < b < self.books@.len() implies self.books@[a].spec_symbol_bytes()
                != self.books@[b].spec_symbol_bytes() by {
                assert(pre_books[a].spec_symbol_bytes() != pre_books[b].spec_symbol_bytes());
            }
            let j = book_index(pre0, sym);
            let had = j < pre0.len();
            if !had {
                // The designated book was fresh: empty ladders, zero
                // volumes, sequence zero.
                assert(pre_book.side_volume(order.side) == 0);
                assert(levels_map(pre_book.side_levels(order.side)) =~= Map::<u64, PriceLevel>::empty());
                if r is Ok {
                    assert(levels_map(pre_book.side_levels(order.side)) == Map::<u64, PriceLevel>::empty());
                    assert(!Map::<u64, PriceLevel>::empty().dom().contains(order.price));
                    assert(add_into_fresh_post(self.spec_books()[j], sym, order));
                }
            }
        }
        r
    }

    /// Replaces the symbol's book with the given depth snapshot: the book —
    /// created first when the symbol is new — is cleared and each bid and
    /// ask level is folded back in as one order; no other book changes. The
    /// levels must be well-formed market data — positive capped prices and
    /// sizes with totals inside the volume counters — and the book's
    /// sequence must leave room for the snapshot's mutations.
    pub fn process_market_data(
        &mut self,
        symbol: &str,
        bids: Vec<PriceLevel>,
        asks: Vec<PriceLevel>,
    )
        requires
            old(self).wf(),
            forall|i: int|
                0 <= i < bids@.len() ==> order_valid((#[trigger] bids@[i]).price, bids@[i].size),
            forall|i: int|
                0 <= i < asks@.len() ==> order_valid((#[trigger] asks@[i]).price, asks@[i].size),
            total_size(bids@) <= u64::MAX,
            total_size(asks@) <= u64::MAX,
            1 + bids@.len() + asks@.len() <= u64::MAX,
            forall|i: int|
                0 <= i < old(self).spec_books().len() && (#[trigger] old(
                    self,
                ).spec_books()[i]).spec_symbol_bytes() == symbol.spec_bytes() ==> old(
                    self,
                ).spec_books()[i].spec_sequence() + 1 + bids@.len() + asks@.len() <= u64::MAX,
        ensures
            final(self).wf(),
            ({
                let pre = old(self).spec_books();
                let post = final(self).spec_books();
                let j = book_index(pre, symbol.spec_bytes());
                let had = j < pre.len();
                &&& post.len() == if had {
                    pre.len()
                } else {
                    pre.len() + 1
                }
                &&& forall|k: int| 0 <= k < pre.len() && k != j ==> post[k] == pre[k]
                &&& post[j].spec_symbol_bytes() == symbol.spec_bytes()
                &&& levels_map(post[j].spec_bids()) =~= side_fold(bids@)
                &&& levels_map(post[j].spec_asks()) =~= side_fold(asks@)
                &&& post[j].spec_bid_volume() == total_size(bids@)
                &&& post[j].spec_ask_volume() == total_size(asks@)
                &&& post[j].spec_sequence() == (if had {
                    pre[j].spec_sequence()
                } else {
                    0
                }) + 1 + bids@.len() + asks@.len()
            }),
    {
        let ghost pre0 = old(self).spec_books();
        let ghost sym = symbol.spec_bytes();
        let idx = self.get_or_create_book(symbol);
        let ghost pre_books = self.books@;
        proof {
            if pre_books.len() == pre0.len() {
                lemma_book_index_at(pre0, sym, idx as int);
            } else {
                assert forall|k: int|
                    0 <= k < pre0.len() implies (#[trigger] pre0[k]).spec_symbol_bytes() != sym by {
                    if pre0[k].spec_symbol_bytes() == sym {
                        assert(exists|i: int|
                            0 <= i < pre0.len() && pre0[i].spec_symbol_bytes() == sym);
                    }
                }
                lemma_book_index_none(pre0, sym);
            }
        }
        let book = &mut self.books[idx];
        replay_levels(book, bids, asks);
        proof {
            assert(self.books@ =~= pre_books.update(idx as int, self.books@[idx as int]));
            assert forall|a: int, b: int|
                0 <= a < b < self.books@.len() implies self.books@[a].spec_symbol_bytes()
                != self.books@[b].spec_symbol_bytes() by {
                assert(pre_books[a].spec_symbol_bytes() != pre_books[b].spec_symbol_bytes());
            }
        }
    }
}

/// The ladder map that results from folding a run of levels into an empty
/// ladder, each level entering as one order.
pub open spec fn side_fold(inputs: Seq<PriceLevel>) -> Map<u64, PriceLevel>
    decreases inputs.len(),
{
    if inputs.len() == 0 {
        Map::empty()
    } else {
        let m = side_fold(inputs.drop_last());
        let l = inputs.last();
        m.insert(l.price, bumped_level(m, l.price, l.size, l.timestamp))
    }
}

/// Clears one book and folds a snapshot's levels back into it.
fn replay_levels(book: &mut OrderBook, bids: Vec<PriceLevel>, asks: Vec<PriceLevel>)
    requires
        old(book).wf(),
        forall|i: int|
            0 <= i < bids@.len() ==> order_valid((#[trigger] bids@[i]).price, bids@[i].size),
        forall|i: int|
            0 <= i < asks@.len() ==> order_valid((#[trigger] asks@[i]).price, asks@[i].size),
        total_size(bids@) <= u64::MAX,
        total_size(asks@) <= u64::MAX,
        old(book).spec_sequence() + 1 + bids@.len() + asks@.len() <= u64::MAX,
    ensures
        final(book).wf(),
        final(book).spec_symbol() == old(book).spec_symbol(),
        levels_map(final(book).spec_bids()) =~= side_fold(bids@),
        levels_map(final(book).spec_asks()) =~= side_fold(asks@),
        final(book).spec_bid_volume() == total_size(bids@),
        final(book).spec_ask_volume() == total_size(asks@),
        final(book).spec_sequence() == old(book).spec_sequence() + 1 + bids@.len() + asks@.len(),
{
    book.clear();
    proof {
        assert(levels_map(book.spec_bids()) =~= side_fold(bids@.take(0int)));
        assert(levels_map(book.spec_asks()) =~= Map::<u64, PriceLevel>::empty());
        assert(total_size(bids@.take(0int)) == 0);
        lemma_total_size_nonneg(bids@);
        lemma_total_size_nonneg(asks@);
    }
    let mut i: usize = 0;
    while i < bids.len()
        invariant
            book.wf(),
            book.spec_symbol() == old(book).spec_symbol(),
            i <= bids@.len(),
            forall|k: int|
                0 <= k < bids@.len() ==> order_valid((#[trigger] bids@[k]).price, bids@[k].size),
            total_size(bids@) <= u64::MAX,
            levels_map(book.spec_bids()) =~= side_fold(bids@.take(i as int)),
            book.spec_bid_volume() == total_size(bids@.take(i as int)),
            book.spec_asks().len() == 0,
            book.spec_ask_volume() == 0,
            book.spec_sequence() == old(book).spec_sequence() + 1 + i,
            old(book).spec_sequence() + 1 + bids@.len() + asks@.len() <= u64::MAX,
        decreases bids@.len() - i,
    {
        let l = bids[i];
        proof {
            assert(bids@.take(i + 1).drop_last() =~= bids@.take(i as int));
            assert(bids@.take(i + 1).last() == bids@[i as int]);
            lemma_take_total_le(bids@, i + 1);
        }
        let ghost m_pre = levels_map(book.spec_bids());
        let order = Order {
            order_id: String::new(),
            side: Side::Buy,
            price: l.price,
            quantity: l.size,
            timestamp: l.timestamp,
        };
        let r = book.add_order(order);
        match r {
            Ok(_) => {},
            Err(_) => {
                proof {
                    assert(false);
                }
            },
        }
        proof {
            assert(m_pre == side_fold(bids@.take(i as int)));
        }
        i = i + 1;
    }
    proof {
        assert(bids@.take(bids@.len() as int) =~= bids@);
    }
    let ghost mid_seq = book.spec_sequence();
    let mut j: usize = 0;
    while j < asks.len()
        invariant
            book.wf(),
            book.spec_symbol() == old(book).spec_symbol(),
            j <= asks@.len(),
            forall|k: int|
                0 <= k < asks@.len() ==> order_valid((#[trigger] asks@[k]).price, asks@[k].size),
            total_size(asks@) <= u64::MAX,
            levels_map(book.spec_bids()) =~= side_fold(bids@),
            book.spec_bid_volume() == total_size(bids@),
            levels_map(book.spec_asks()) =~= side_fold(asks@.take(j as int)),
            book.spec_ask_volume() == total_size(asks@.take(j as int)),
            book.spec_sequence() == mid_seq + j,
            mid_seq + asks@.len() <= u64::MAX,
        decreases asks@.len() - j,
    {
        let l = asks[j];
        proof {
            assert(asks@.take(j + 1).drop_last() =~= asks@.take(j as int));
            assert(asks@.take(j + 1).last() == asks@[j as int]);
            lemma_take_total_le(asks@, j + 1);
        }
        let ghost m_pre = levels_map(book.spec_asks());
        let order = Order {
            order_id: String::new(),
            side: Side::Sell,
            price: l.price,
            quantity: l.size,
            timestamp: l.timestamp,
        };
        let r = book.add_order(order);
        match r {
            Ok(_) => {},
            Err(_) => {
                proof {
                    assert(false);
                }
            },
        }
        proof {
            assert(m_pre == side_fold(asks@.take(j as int)));
        }
        j = j + 1;
    }
    proof {
        assert(asks@.take(asks@.len() as int) =~= asks@);
    }
}

} // verus!
