//! Cache-line-sized market-data records, padded event counters, a
//! structure-of-arrays price history, and a sliding-window moving average.
//!
//! Prices are carried as integers in a fixed price unit chosen by the caller,
//! so sums, averages and maxima are exact.

use vstd::prelude::*;

use crate::errors::EngineError;
use crate::numeric::{max_u64, sum_i64, sum_u64};
use crate::numeric::{lemma_max_u64_push, lemma_sum_i64_bounds, lemma_sum_i64_push,
    lemma_sum_u64_push};

verus! {

/// Reads the system clock.
///
/// Relies on std::time::SystemTime::now / duration_since: nanoseconds since
/// the Unix epoch, truncated to 64 bits. The result depends on the clock, so
/// nothing is promised of it.
#[verifier::external_body]
pub fn current_timestamp_nanos() -> u64 {
    match std::time::SystemTime::now().duration_since(std::time::UNIX_EPOCH) {
        Ok(d) => d.as_nanos() as u64,
        Err(_) => 0,
    }
}

/// The length of the symbol prefix that precedes the first zero byte, at
/// most 8: the part of a padded symbol field that carries the name.
pub open spec fn symbol_prefix_len(s: Seq<u8>) -> nat
    decreases s.len(),
{
    if s.len() == 0 {
        0
    } else if s[0] == 0 {
        0
    } else {
        1 + symbol_prefix_len(s.drop_first())
    }
}

/// A market-data record whose fields fill one 64-byte cache line: an 8-byte
/// zero-padded symbol, then price, volume, timestamp, bid, ask and session
/// high as 8-byte values, and session low and sequence as 4-byte values.
#[derive(Debug, Clone, Copy)]
pub struct CacheOptimizedMarketData {
    pub symbol: [u8; 8],
    pub price: u64,
    pub volume: u64,
    pub timestamp: u64,
    pub bid: u64,
    pub ask: u64,
    pub high: u64,
    pub low: u32,
    pub sequence: u32,
}

impl CacheOptimizedMarketData {
    /// Builds a record for one tick: the symbol is truncated or zero-padded
    /// to 8 bytes, the bid and ask are seeded one price unit inside the
    /// price, the session high and low start at the price, and the
    /// timestamp is read from the system clock.
    pub fn new(symbol: &[u8], price: u64, volume: u64) -> (r: Self)
        ensures
            r.symbol@.len() == 8,
            forall|i: int|
                0 <= i < 8 ==> r.symbol@[i] == if i < symbol@.len() {
                    symbol@[i]
                } else {
                    0u8
                },
            r.price == price,
            r.volume == volume,
            r.bid == if price >= 1 {
                (price - 1) as u64
            } else {
                0u64
            },
            r.ask == if price <= u64::MAX - 1 {
                (price + 1) as u64
            } else {
                u64::MAX
            },
            r.high == price,
            r.low == if price <= u32::MAX {
                price as u32
            } else {
                u32::MAX
            },
            r.sequence == 0,
    {
        let mut symbol_bytes: [u8; 8] = [0u8; 8];
        let n = if symbol.len() < 8 {
            symbol.len()
        } else {
            8
        };
        let mut i: usize = 0;
        while i < n
            invariant
                n <= 8,
                n <= symbol@.len(),
                i <= n,
                symbol_bytes@.len() == 8,
                forall|j: int|
                    0 <= j < 8 ==> symbol_bytes@[j] == if j < i {
                        symbol@[j]
                    } else {
                        0u8
                    },
            decreases n - i,
        {
            symbol_bytes[i] = symbol[i];
            i = i + 1;
        }
        let bid = if price >= 1 {
            price - 1
        } else {
            0
        };
        let ask = if price <= u64::MAX - 1 {
            price + 1
        } else {
            u64::MAX
        };
        let low = if price <= u32::MAX as u64 {
            price as u32
        } else {
            u32::MAX
        };
        CacheOptimizedMarketData {
            symbol: symbol_bytes,
            price,
            volume,
            timestamp: current_timestamp_nanos(),
            bid,
            ask,
            high: price,
            low,
            sequence: 0,
        }
    }

    /// The symbol bytes that precede the zero padding.
    pub fn symbol_bytes(&self) -> (r: Vec<u8>)
        ensures
            r@ == self.symbol@.take(symbol_prefix_len(self.symbol@) as int),
    {
        let mut out: Vec<u8> = Vec::new();
        let mut i: usize = 0;
        while i < 8
            invariant
                i <= 8,
                self.symbol@.len() == 8,
                forall|j: int| 0 <= j < i ==> self.symbol@[j] != 0,
                out@ =~= self.symbol@.take(i as int),
            decreases 8 - i,
        {
            let b = self.symbol[i];
            if b == 0 {
                proof {
                    lemma_symbol_prefix_stops(self.symbol@, i as int);
                }
                return out;
            }
            out.push(b);
            i = i + 1;
        }
        proof {
            lemma_symbol_prefix_stops(self.symbol@, 8int);
        }
        out
    }

    /// The same record under a producer-assigned sequence number.
    pub fn with_sequence(self, seq: u32) -> (r: Self)
        ensures
            r == (Self { sequence: seq, ..self }),
    {
        Self { sequence: seq, ..self }
    }
}

/// If the first i bytes are nonzero and either i is the length or byte i is
/// zero, the symbol prefix ends exactly at i.
proof fn lemma_symbol_prefix_stops(s: Seq<u8>, i: int)
    requires
        0 <= i <= s.len(),
        forall|j: int| 0 <= j < i ==> s[j] != 0,
        i < s.len() ==> s[i] == 0,
    ensures
        symbol_prefix_len(s) == i,
    decreases s.len(),
{
    if i > 0 {
        assert(forall|j: int| 0 <= j < i - 1 ==> s.drop_first()[j] == s[j + 1]);
        lemma_symbol_prefix_stops(s.drop_first(), i - 1);
    }
}

/// Event counters, each meant to sit on its own cache line to avoid false
/// sharing; every counter wraps around at 2^64 as a hardware fetch-and-add
/// does.
pub struct CacheAlignedCounters {
    trades_count: u64,
    volume_total: u64,
    price_updates: u64,
    last_timestamp: u64,
}

/// A point-in-time copy of the counters.
#[derive(Debug, Clone)]
pub struct CounterStats {
    pub trades_count: u64,
    pub volume_total: u64,
    pub price_updates: u64,
    pub last_timestamp: u64,
}

impl CacheAlignedCounters {
    pub fn new() -> (r: Self)
        ensures
            r.trades() == 0,
            r.volume() == 0,
            r.price_update_count() == 0,
            r.last_time() == 0,
    {
        CacheAlignedCounters { trades_count: 0, volume_total: 0, price_updates: 0, last_timestamp: 0 }
    }

    pub closed spec fn trades(&self) -> u64 {
        self.trades_count
    }

    pub closed spec fn volume(&self) -> u64 {
        self.volume_total
    }

    pub closed spec fn price_update_count(&self) -> u64 {
        self.price_updates
    }

    pub closed spec fn last_time(&self) -> u64 {
        self.last_timestamp
    }

    /// Counts one trade of the given volume; both counters wrap at 2^64.
    pub fn update_trade(&mut self, volume: u64, timestamp: u64)
        ensures
            final(self).trades() == (old(self).trades() + 1) % 0x1_0000_0000_0000_0000,
            final(self).volume() == (old(self).volume() + volume) % 0x1_0000_0000_0000_0000,
            final(self).price_update_count() == old(self).price_update_count(),
            final(self).last_time() == timestamp,
    {
        self.trades_count = self.trades_count.wrapping_add(1);
        self.volume_total = self.volume_total.wrapping_add(volume);
        self.last_timestamp = timestamp;
    }

    /// Counts one price update; the counter wraps at 2^64.
    pub fn update_price(&mut self, timestamp: u64)
        ensures
            final(self).price_update_count() == (old(self).price_update_count() + 1)
                % 0x1_0000_0000_0000_0000,
            final(self).trades() == old(self).trades(),
            final(self).volume() == old(self).volume(),
            final(self).last_time() == timestamp,
    {
        self.price_updates = self.price_updates.wrapping_add(1);
        self.last_timestamp = timestamp;
    }

    pub fn get_stats(&self) -> (r: CounterStats)
        ensures
            r.trades_count == self.trades(),
            r.volume_total == self.volume(),
            r.price_updates == self.price_update_count(),
            r.last_timestamp == self.last_time(),
    {
        CounterStats {
            trades_count: self.trades_count,
            volume_total: self.volume_total,
            price_updates: self.price_updates,
            last_timestamp: self.last_timestamp,
        }
    }
}

/// Price history in structure-of-arrays layout: four parallel arrays so that
/// reductions over prices touch only the price array. The capacity is fixed
/// at construction and the length only grows.
pub struct CacheOptimizedPriceArray {
    capacity: usize,
    prices: Vec<u64>,
    volumes: Vec<u64>,
    timestamps: Vec<u64>,
    symbols: Vec<[u8; 8]>,
}

impl CacheOptimizedPriceArray {
    pub closed spec fn wf(&self) -> bool {
        &&& self.volumes@.len() == self.prices@.len()
        &&& self.timestamps@.len() == self.prices@.len()
        &&& self.symbols@.len() == self.prices@.len()
        &&& self.prices@.len() <= self.spec_capacity()
    }

    pub closed spec fn spec_capacity(&self) -> usize {
        self.capacity
    }

    pub closed spec fn spec_prices(&self) -> Seq<u64> {
        self.prices@
    }

    pub closed spec fn spec_volumes(&self) -> Seq<u64> {
        self.volumes@
    }

    pub closed spec fn spec_timestamps(&self) -> Seq<u64> {
        self.timestamps@
    }

    pub closed spec fn spec_symbols(&self) -> Seq<Seq<u8>> {
        Seq::new(self.symbols@.len(), |i: int| self.symbols@[i]@)
    }

    pub fn new(capacity: usize) -> (r: Self)
        ensures
            r.wf(),
            r.spec_capacity() == capacity,
            r.spec_prices().len() == 0,
    {
        CacheOptimizedPriceArray {
            capacity,
            prices: Vec::with_capacity(capacity),
            volumes: Vec::with_capacity(capacity),
            timestamps: Vec::with_capacity(capacity),
            symbols: Vec::with_capacity(capacity),
        }
    }

    /// Appends one record; fails once the fixed capacity is reached.
    pub fn push(&mut self, data: &CacheOptimizedMarketData) -> (r: Result<(), EngineError>)
        requires
            old(self).wf(),
        ensures
            final(self).wf(),
            final(self).spec_capacity() == old(self).spec_capacity(),
            r matches Err(e) ==> e == EngineError::CapacityExceeded && *final(self) == *old(self),
            r is Err <==> old(self).spec_prices().len() == old(self).spec_capacity(),
            r is Ok ==> {
                &&& final(self).spec_prices() == old(self).spec_prices().push(data.price)
                &&& final(self).spec_volumes() == old(self).spec_volumes().push(data.volume)
                &&& final(self).spec_timestamps() == old(self).spec_timestamps().push(data.timestamp)
                &&& final(self).spec_symbols() =~= old(self).spec_symbols().push(data.symbol@)
            },
    {
        if self.prices.len() == self.capacity {
            return Err(EngineError::CapacityExceeded);
        }
        self.prices.push(data.price);
        self.volumes.push(data.volume);
        self.timestamps.push(data.timestamp);
        self.symbols.push(data.symbol);
        Ok(())
    }

    /// Overwrites a contiguous range of prices; the range must lie inside
    /// the filled part of the array.
    pub fn update_prices_vectorized(&mut self, start_idx: usize, new_prices: &[u64]) -> (r: Result<
        (),
        EngineError,
    >)
        requires
            old(self).wf(),
        ensures
            final(self).wf(),
            final(self).spec_capacity() == old(self).spec_capacity(),
            r matches Err(e) ==> e == EngineError::OutOfBounds && *final(self) == *old(self),
            r is Err <==> start_idx + new_prices@.len() > old(self).spec_prices().len(),
            r is Ok ==> {
                &&& final(self).spec_prices().len() == old(self).spec_prices().len()
                &&& forall|i: int|
                    0 <= i < final(self).spec_prices().len() ==> final(self).spec_prices()[i] == if start_idx <= i
                        < start_idx + new_prices@.len() {
                        new_prices@[i - start_idx]
                    } else {
                        old(self).spec_prices()[i]
                    }
                &&& final(self).spec_volumes() == old(self).spec_volumes()
                &&& final(self).spec_timestamps() == old(self).spec_timestamps()
                &&& final(self).spec_symbols() == old(self).spec_symbols()
            },
    {
        if new_prices.len() > self.prices.len() || start_idx > self.prices.len() - new_prices.len()
        {
            return Err(EngineError::OutOfBounds);
        }
        let mut i: usize = 0;
        while i < new_prices.len()
            invariant
                start_idx + new_prices@.len() <= self.prices@.len(),
                self.prices@.len() <= usize::MAX,
                i <= new_prices@.len(),
                self.capacity == old(self).capacity,
                self.prices@.len() == old(self).prices@.len(),
                self.volumes == old(self).volumes,
                self.timestamps == old(self).timestamps,
                self.symbols == old(self).symbols,
                forall|j: int|
                    0 <= j < self.prices@.len() ==> self.prices@[j] == if start_idx <= j < start_idx
                        + i {
                        new_prices@[j - start_idx]
                    } else {
                        old(self).prices@[j]
                    },
            decreases new_prices@.len() - i,
        {
            self.prices.set(start_idx + i, new_prices[i]);
            i = i + 1;
        }
        Ok(())
    }

    /// A copy of a range of prices, for vectorized consumers.
    pub fn get_prices_slice(&self, start: usize, len: usize) -> (r: Result<Vec<u64>, EngineError>)
        requires
            self.wf(),
        ensures
            r matches Err(e) ==> e == EngineError::OutOfBounds,
            r is Err <==> start + len > self.spec_prices().len(),
            r matches Ok(v) ==> v@ == self.spec_prices().subrange(start as int, start + len),
    {
        if len > self.prices.len() || start > self.prices.len() - len {
            return Err(EngineError::OutOfBounds);
        }
        let mut out: Vec<u64> = Vec::with_capacity(len);
        let mut i: usize = 0;
        while i < len
            invariant
                start + len <= self.prices@.len(),
                start + len <= usize::MAX,
                i <= len,
                out@ =~= self.prices@.subrange(start as int, start + i),
            decreases len - i,
        {
            out.push(self.prices[start + i]);
            proof {
                assert(out@ =~= self.prices@.subrange(start as int, start + i + 1));
            }
            i = i + 1;
        }
        Ok(out)
    }

    /// The floor of the mean of a range of prices; exact in the sum.
    pub fn calculate_avg_price_vectorized(&self, start: usize, len: usize) -> (r: Result<
        u64,
        EngineError,
    >)
        requires
            self.wf(),
        ensures
            r matches Err(e) ==> e == EngineError::OutOfBounds,
            r is Err <==> start + len > self.spec_prices().len() || len == 0,
            r matches Ok(a) ==> a == sum_u64(self.spec_prices().subrange(start as int, start + len))
                / len as int,
    {
        if len == 0 || len > self.prices.len() || start > self.prices.len() - len {
            return Err(EngineError::OutOfBounds);
        }
        let ghost range = self.prices@.subrange(start as int, start + len);
        let mut total: u128 = 0;
        let mut i: usize = 0;
        while i < len
            invariant
                start + len <= self.prices@.len(),
                start + len <= usize::MAX,
                i <= len,
                range == self.prices@.subrange(start as int, start + len),
                total == sum_u64(range.subrange(0, i as int)),
                total <= i * 0xffff_ffff_ffff_ffff,
            decreases len - i,
        {
            proof {
                assert(range.subrange(0, i + 1) =~= range.subrange(0, i as int).push(range[i as int]));
                lemma_sum_u64_push(range.subrange(0, i as int), range[i as int]);
            }
            total = total + self.prices[start + i] as u128;
            i = i + 1;
        }
        proof {
            assert(range.subrange(0, len as int) =~= range);
            vstd::arithmetic::div_mod::lemma_div_is_ordered(
                total as int,
                len as int * 0xffff_ffff_ffff_ffff,
                len as int,
            );
            vstd::arithmetic::div_mod::lemma_div_multiples_vanish(
                0xffff_ffff_ffff_ffff,
                len as int,
            );
        }
        Ok((total / len as u128) as u64)
    }

    /// The largest price in a range; exact, with no identity element: an
    /// empty range is rejected.
    pub fn find_max_price_vectorized(&self, start: usize, len: usize) -> (r: Result<
        u64,
        EngineError,
    >)
        requires
            self.wf(),
        ensures
            r matches Err(e) ==> e == EngineError::OutOfBounds,
            r is Err <==> start + len > self.spec_prices().len() || len == 0,
            r matches Ok(m) ==> m == max_u64(
                self.spec_prices().subrange(start as int, start + len),
            ),
    {
        if len == 0 || len > self.prices.len() || start > self.prices.len() - len {
            return Err(EngineError::OutOfBounds);
        }
        let ghost range = self.prices@.subrange(start as int, start + len);
        let mut best: u64 = 0;
        let mut i: usize = 0;
        while i < len
            invariant
                start + len <= self.prices@.len(),
                start + len <= usize::MAX,
                i <= len,
                range == self.prices@.subrange(start as int, start + len),
                best == max_u64(range.subrange(0, i as int)),
            decreases len - i,
        {
            proof {
                assert(range.subrange(0, i + 1) =~= range.subrange(0, i as int).push(range[i as int]));
                lemma_max_u64_push(range.subrange(0, i as int), range[i as int]);
            }
            let p = self.prices[start + i];
            if p > best {
                best = p;
            }
            i = i + 1;
        }
        proof {
            assert(range.subrange(0, len as int) =~= range);
        }
        Ok(best)
    }

    pub fn len(&self) -> (r: usize)
        ensures
            r == self.spec_prices().len(),
    {
        self.prices.len()
    }

    pub fn capacity(&self) -> (r: usize)
        ensures
            r == self.spec_capacity(),
    {
        self.capacity
    }
}

/// The window a moving average ranges over: the last `period` inputs, or all
/// of them while fewer have been seen.
pub open spec fn ma_window(inputs: Seq<i64>, period: nat) -> Seq<i64> {
    if inputs.len() <= period {
        inputs
    } else {
        inputs.subrange(inputs.len() - period, inputs.len() as int)
    }
}

/// A fixed-period sliding-window average over a circular buffer. The exact
/// window sum and element count are reported as a pair, so the mean they
/// stand for carries no rounding at all.
pub struct CacheOptimizedMovingAverage {
    buffer: Vec<i64>,
    index: usize,
    sum: i128,
    count: usize,
    period: usize,
    filled: bool,
    inputs: Ghost<Seq<i64>>,
}

impl CacheOptimizedMovingAverage {
    /// Every input this average has seen, oldest first.
    pub closed spec fn history(&self) -> Seq<i64> {
        self.inputs@
    }

    pub closed spec fn spec_period(&self) -> nat {
        self.period as nat
    }

    pub closed spec fn wf(&self) -> bool {
        let n = self.inputs@.len() as int;
        let p = self.period as int;
        &&& self.period >= 1
        &&& self.buffer@.len() == self.period
        &&& self.count == ma_window(self.inputs@, self.period as nat).len()
        &&& (self.filled <==> n >= p)
        &&& self.index == n % p
        &&& self.sum == sum_i64(ma_window(self.inputs@, self.period as nat))
        &&& forall|k: int|
            n - self.count <= k < n ==> self.buffer@[k % p] == #[trigger] self.inputs@[k]
    }

    pub fn new(period: usize) -> (r: Result<Self, EngineError>)
        ensures
            r matches Err(e) ==> e == EngineError::InvalidArgument,
            r is Err <==> period == 0,
            r matches Ok(ma) ==> ma.wf() && ma.spec_period() == period && ma.history().len() == 0,
    {
        if period == 0 {
            return Err(EngineError::InvalidArgument);
        }
        let ma = CacheOptimizedMovingAverage {
            buffer: vec![0i64; period],
            index: 0,
            sum: 0,
            count: 0,
            period,
            filled: false,
            inputs: Ghost(Seq::<i64>::empty()),
        };
        proof {
            vstd::arithmetic::div_mod::lemma_small_mod(0nat, period as nat);
        }
        Ok(ma)
    }

    /// Folds one value into the window and returns the pair (window sum,
    /// window length): for the first k <= period inputs the sum of all k,
    /// afterwards the sum of exactly the last `period` inputs.
    pub fn add(&mut self, value: i64) -> (r: (i128, usize))
        requires
            old(self).wf(),
        ensures
            final(self).wf(),
            final(self).spec_period() == old(self).spec_period(),
            final(self).history() == old(self).history().push(value),
            r.1 == ma_window(final(self).history(), final(self).spec_period()).len(),
            r.0 == sum_i64(ma_window(final(self).history(), final(self).spec_period())),
            1 <= r.1 <= final(self).spec_period(),
    {
        let ghost prior = self.inputs@;
        let ghost p = self.period as int;
        let ghost n = prior.len() as int;
        let ghost w_old = ma_window(prior, self.period as nat);
        proof {
            vstd::arithmetic::div_mod::lemma_mod_bound(n, p);
        }
        let old_value = self.buffer[self.index];
        self.buffer.set(self.index, value);
        self.inputs = Ghost(prior.push(value));
        if self.filled {
            proof {
                assert((n - p) % p == n % p) by {
                    vstd::arithmetic::div_mod::lemma_mod_add_multiples_vanish(n - p, p);
                }
                // The displaced slot held the input that leaves the window.
                assert(old_value == prior[n - p]);
                assert(w_old[0] == prior[n - p]);
                assert(sum_i64(w_old) == w_old[0] + sum_i64(w_old.drop_first()));
                lemma_sum_i64_bounds(w_old.drop_first());
                lemma_window_slide(prior, self.period as nat, value);
            }
            self.sum = self.sum - old_value as i128 + value as i128;
        } else {
            proof {
                assert(w_old =~= prior);
                assert(ma_window(prior.push(value), self.period as nat) =~= prior.push(value));
                lemma_sum_i64_bounds(prior);
                lemma_sum_i64_push(prior, value);
            }
            self.sum = self.sum + value as i128;
            self.count = self.count + 1;
            if self.count == self.period {
                self.filled = true;
            }
        }
        if self.index + 1 == self.period {
            self.index = 0;
        } else {
            self.index = self.index + 1;
        }
        proof {
            assert(self.index == (n + 1) % p) by {
                vstd::arithmetic::div_mod::lemma_add_mod_noop(n, 1, p);
                if p == 1 {
                    vstd::arithmetic::div_mod::lemma_mod_bound(n + 1, p);
                    vstd::arithmetic::div_mod::lemma_mod_bound(1, p);
                } else {
                    vstd::arithmetic::div_mod::lemma_small_mod(1nat, p as nat);
                    if n % p + 1 == p {
                        vstd::arithmetic::div_mod::lemma_mod_self_0(p);
                    } else {
                        vstd::arithmetic::div_mod::lemma_small_mod((n % p + 1) as nat, p as nat);
                    }
                }
            }
            let count_new = self.count as int;
            assert forall|k: int| n + 1 - count_new <= k < n + 1 implies self.buffer@[k % p]
                == #[trigger] self.inputs@[k] by {
                vstd::arithmetic::div_mod::lemma_mod_bound(k, p);
                if k == n {
                    assert(self.buffer@[n % p] == value);
                } else {
                    assert(old(self).buffer@[k % p] == prior[k]);
                    lemma_slot_distinct(k, n, p);
                }
            }
        }
        (self.sum, self.count)
    }

    /// The current (window sum, window length) pair without a new input;
    /// (0, 0) before the first input.
    pub fn current_average(&self) -> (r: (i128, usize))
        requires
            self.wf(),
        ensures
            r.1 == ma_window(self.history(), self.spec_period()).len(),
            r.0 == sum_i64(ma_window(self.history(), self.spec_period())),
    {
        (self.sum, self.count)
    }
}

/// Sliding a full window by one input drops the oldest element and gains the
/// newest: the sum moves by their difference.
proof fn lemma_window_slide(inputs: Seq<i64>, period: nat, value: i64)
    requires
        period >= 1,
        inputs.len() >= period,
    ensures
        sum_i64(ma_window(inputs.push(value), period)) == sum_i64(ma_window(inputs, period))
            - inputs[inputs.len() - period] + value,
{
    let w_old = ma_window(inputs, period);
    let w_new = ma_window(inputs.push(value), period);
    assert(w_new =~= w_old.drop_first().push(value));
    lemma_sum_i64_push(w_old.drop_first(), value);
    assert(sum_i64(w_old) == w_old[0] + sum_i64(w_old.drop_first()));
    assert(w_old[0] == inputs[inputs.len() - period]);
}

/// Two inputs less than one period apart occupy distinct buffer slots.
proof fn lemma_slot_distinct(k: int, n: int, p: int)
    requires
        p >= 1,
        1 <= n - k < p,
    ensures
        k % p != n % p,
{
    if k % p == n % p {
        vstd::arithmetic::div_mod::lemma_mod_equivalence(n, k, p);
        assert((n - k) % p == 0);
        vstd::arithmetic::div_mod::lemma_small_mod((n - k) as nat, p as nat);
        assert(false);
    }
}

} // verus!
