//! A memory-mapped append-only ring log. A region of S bytes (S a power of
//! two) is addressed by two monotonic, unbounded cursors: the producer
//! cursor W and the consumer cursor R. The physical position of a cursor is
//! its value modulo S; occupancy is W - R and never exceeds S.
//!
//! The region lives in a memory mapping so that appends are plain stores
//! with no system call; a file-backed mapping can be supplied by the caller,
//! and an anonymous one is made here.

use vstd::prelude::*;

use memmap2::MmapMut;

use crate::errors::EngineError;
use crate::numeric::{is_pow2, is_power_of_two};

verus! {

#[verifier::external_type_specification]
#[verifier::external_body]
pub struct ExMmapMut(MmapMut);

/// The bytes a mapping holds, as a sequence indexed by physical offset.
pub uninterp spec fn region_bytes(m: &MmapMut) -> Seq<u8>;

/// Relies on memmap2::MmapMut::map_anon: an anonymous, private mapping of
/// the requested length, zero-initialized by the operating system.
#[verifier::external_body]
fn region_new(len: usize) -> (r: Result<MmapMut, EngineError>)
    ensures
        r matches Ok(m) ==> region_bytes(&m) == Seq::new(len as nat, |i: int| 0u8),
        r matches Err(e) ==> e == EngineError::IoError,
{
    MmapMut::map_anon(len).map_err(|_| EngineError::IoError)
}

/// Relies on memmap2::MmapMut::len: the length in bytes of the mapping.
#[verifier::external_body]
fn region_len(m: &MmapMut) -> (r: usize)
    ensures
        r == region_bytes(m).len(),
{
    m.len()
}

/// Relies on memmap2::MmapMut's DerefMut to `[u8]`: a store through the
/// mapping replaces exactly the addressed bytes.
#[verifier::external_body]
fn region_write(m: &mut MmapMut, offset: usize, data: &[u8])
    requires
        offset + data@.len() <= region_bytes(old(m)).len(),
    ensures
        region_bytes(final(m)) == region_bytes(old(m)).subrange(0, offset as int) + data@
            + region_bytes(old(m)).subrange(
            offset + data@.len(),
            region_bytes(old(m)).len() as int,
        ),
{
    m[offset..offset + data.len()].copy_from_slice(data);
}

/// Relies on memmap2::MmapMut's Deref to `[u8]`: a load through the mapping
/// returns the addressed bytes.
#[verifier::external_body]
fn region_read(m: &MmapMut, offset: usize, len: usize) -> (r: Vec<u8>)
    requires
        offset + len <= region_bytes(m).len(),
    ensures
        r@ == region_bytes(m).subrange(offset as int, offset + len),
{
    m[offset..offset + len].to_vec()
}

/// Relies on memmap2::MmapMut::flush: flushes the mapping synchronously;
/// only the success of the OS call is reported.
#[verifier::external_body]
fn region_flush(m: &MmapMut) -> Result<(), EngineError> {
    m.flush().map_err(|_| EngineError::IoError)
}

/// Relies on memmap2::MmapMut::flush_async: schedules a flush of the
/// mapping without waiting for it; only the success of the OS call is
/// reported.
#[verifier::external_body]
fn region_flush_async(m: &MmapMut) -> Result<(), EngineError> {
    m.flush_async().map_err(|_| EngineError::IoError)
}

/// The region after `data` is stored starting at physical position `start`,
/// wrapping past the end of the region back to offset zero.
pub open spec fn wrap_write(region: Seq<u8>, start: int, data: Seq<u8>) -> Seq<u8> {
    Seq::new(
        region.len(),
        |i: int|
            {
                let off = (i - start) % (region.len() as int);
                if off < data.len() {
                    data[off]
                } else {
                    region[i]
                }
            },
    )
}

/// The state of a ring log: its region by physical offset, the two logical
/// cursors, and the running totals its statistics report.
pub struct LogView {
    pub region: Seq<u8>,
    pub size: nat,
    pub write_pos: nat,
    pub read_pos: nat,
    pub writes_count: nat,
    pub bytes_written: nat,
}

impl LogView {
    /// What holds of every reachable log state.
    pub open spec fn wf(self) -> bool {
        &&& self.region.len() == self.size
        &&& is_pow2(self.size)
        &&& self.size >= 4
        &&& self.read_pos <= self.write_pos
        &&& self.write_pos - self.read_pos <= self.size
        &&& self.bytes_written == self.write_pos
        &&& self.writes_count <= self.bytes_written
        &&& self.write_pos <= usize::MAX
    }

    /// Space an append may still reserve before reaching the reader.
    pub open spec fn available(self) -> int {
        self.size - (self.write_pos - self.read_pos)
    }
}

/// A multi-producer append-only ring over a memory-mapped region.
#[derive(Debug)]
pub struct UltraFastLog {
    mmap: MmapMut,
    size: usize,
    mask: usize,
    write_pos: usize,
    read_pos: usize,
    writes_count: usize,
    bytes_written: usize,
}

/// A point-in-time copy of the log's counters.
#[derive(Debug, Clone)]
pub struct LogStats {
    pub size: usize,
    pub write_pos: usize,
    pub read_pos: usize,
    pub writes_count: usize,
    pub bytes_written: usize,
    pub available_space: usize,
}

impl View for UltraFastLog {
    type V = LogView;

    closed spec fn view(&self) -> LogView {
        LogView {
            region: region_bytes(&self.mmap),
            size: self.size as nat,
            write_pos: self.write_pos as nat,
            read_pos: self.read_pos as nat,
            writes_count: self.writes_count as nat,
            bytes_written: self.bytes_written as nat,
        }
    }
}

impl UltraFastLog {
    /// The view invariant together with the private mask field.
    pub closed spec fn wf(&self) -> bool {
        &&& self@.wf()
        &&& self.mask == self.size - 1
    }

    /// A fresh log over an anonymous zeroed mapping of size_mb mebibytes,
    /// which must be a power of two.
    pub fn new(size_mb: usize) -> (r: Result<Self, EngineError>)
        ensures
            r matches Err(e) ==> e == EngineError::InvalidArgument || e == EngineError::IoError,
            (r matches Err(e) && e == EngineError::InvalidArgument) <==> !(size_mb >= 1 && size_mb
                * 0x10_0000 <= usize::MAX && is_pow2((size_mb * 0x10_0000) as nat)),
            r matches Ok(log) ==> {
                &&& log.wf()
                &&& log@.size == size_mb * 0x10_0000
                &&& log@.write_pos == 0
                &&& log@.read_pos == 0
                &&& log@.writes_count == 0
                &&& log@.region == Seq::new(log@.size, |i: int| 0u8)
            },
    {
        if size_mb == 0 || size_mb > usize::MAX / 0x10_0000 {
            return Err(EngineError::InvalidArgument);
        }
        let size = size_mb * 0x10_0000;
        if !is_power_of_two(size) {
            return Err(EngineError::InvalidArgument);
        }
        let mmap = match region_new(size) {
            Ok(m) => m,
            Err(e) => {
                return Err(e);
            },
        };
        Ok(
            UltraFastLog {
                mmap,
                size,
                mask: size - 1,
                write_pos: 0,
                read_pos: 0,
                writes_count: 0,
                bytes_written: 0,
            },
        )
    }

    /// A fresh log over a mapping the caller made (usually file-backed);
    /// its length must be a power of two of at least 4 bytes.
    pub fn from_region(mmap: MmapMut) -> (r: Result<Self, EngineError>)
        ensures
            r matches Err(e) ==> e == EngineError::InvalidArgument,
            r is Err <==> !(is_pow2(region_bytes(&mmap).len()) && region_bytes(&mmap).len() >= 4),
            r matches Ok(log) ==> {
                &&& log.wf()
                &&& log@.size == region_bytes(&mmap).len()
                &&& log@.region == region_bytes(&mmap)
                &&& log@.write_pos == 0
                &&& log@.read_pos == 0
                &&& log@.writes_count == 0
            },
    {
        let size = region_len(&mmap);
        if size < 4 || !is_power_of_two(size) {
            return Err(EngineError::InvalidArgument);
        }
        Ok(
            UltraFastLog {
                mmap,
                size,
                mask: size - 1,
                write_pos: 0,
                read_pos: 0,
                writes_count: 0,
                bytes_written: 0,
            },
        )
    }

    pub fn size(&self) -> (r: usize)
        ensures
            r == self@.size,
    {
        self.size
    }

    pub fn mask(&self) -> (r: usize)
        requires
            self.wf(),
        ensures
            r == self@.size - 1,
    {
        self.mask
    }

    /// Stores `data` at the wrapped physical position `pos`, which must lie
    /// inside the region; the payload may straddle the wrap boundary, in
    /// which case it is split into two contiguous stores.
    fn write_wrapped(&mut self, pos: usize, data: &[u8])
        requires
            old(self).wf(),
            pos < old(self)@.size,
            data@.len() <= old(self)@.size,
        ensures
            final(self).wf(),
            final(self)@ == (LogView {
                region: wrap_write(old(self)@.region, pos as int, data@),
                ..old(self)@
            }),
    {
        let ghost s = self.size as int;
        let ghost pre = region_bytes(&self.mmap);
        if data.len() <= self.size - pos {
            region_write(&mut self.mmap, pos, data);
            proof {
                lemma_wrap_write_single(pre, pos as int, data@);
            }
        } else {
            let first = self.size - pos;
            region_write(&mut self.mmap, pos, &data[0..first]);
            let ghost mid = region_bytes(&self.mmap);
            region_write(&mut self.mmap, 0, &data[first..data.len()]);
            proof {
                lemma_wrap_write_split(pre, mid, region_bytes(&self.mmap), pos as int, data@);
            }
        }
    }

    /// Appends one record and returns the physical position it was stored
    /// at. The record must be non-empty and at most a quarter of the ring;
    /// the append fails with BufferFull when the reservation would run into
    /// the bytes the reader has not consumed yet, and the buffer is left
    /// unchanged on every failure.
    pub fn append(&mut self, data: &[u8]) -> (r: Result<usize, EngineError>)
        requires
            old(self).wf(),
        ensures
            final(self).wf(),
            r matches Err(e) ==> *final(self) == *old(self),
            (r matches Err(e) && e == EngineError::InvalidArgument) <==> data@.len() == 0,
            (r matches Err(e) && e == EngineError::CapacityExceeded) <==> data@.len() >= 1 && (data@.len()
                > old(self)@.size / 4 || old(self)@.write_pos + data@.len() > usize::MAX),
            (r matches Err(e) && e == EngineError::BufferFull) <==> 1 <= data@.len() <= old(
                self,
            )@.size / 4 && old(self)@.write_pos + data@.len() <= usize::MAX && data@.len() > old(
                self,
            )@.available(),
            r is Ok <==> 1 <= data@.len() <= old(self)@.size / 4 && old(self)@.write_pos + data@.len()
                <= usize::MAX && data@.len() <= old(self)@.available(),
            r matches Ok(pos) ==> {
                &&& pos == old(self)@.write_pos % old(self)@.size
                &&& final(self)@.write_pos == old(self)@.write_pos + data@.len()
                &&& final(self)@.read_pos == old(self)@.read_pos
                &&& final(self)@.writes_count == old(self)@.writes_count + 1
                &&& final(self)@.bytes_written == old(self)@.bytes_written + data@.len()
                &&& final(self)@.size == old(self)@.size
                &&& final(self)@.region == wrap_write(old(self)@.region, pos as int, data@)
            },
    {
        let data_len = data.len();
        if data_len == 0 {
            return Err(EngineError::InvalidArgument);
        }
        if data_len > self.size / 4 || data_len > usize::MAX - self.write_pos {
            return Err(EngineError::CapacityExceeded);
        }
        if data_len > self.size - (self.write_pos - self.read_pos) {
            return Err(EngineError::BufferFull);
        }
        let actual_pos = self.write_pos % self.size;
        proof {
            vstd::arithmetic::div_mod::lemma_mod_bound(old(self).write_pos as int, self.size as int);
        }
        self.write_wrapped(actual_pos, data);
        self.write_pos = self.write_pos + data_len;
        self.writes_count = self.writes_count + 1;
        self.bytes_written = self.bytes_written + data_len;
        Ok(actual_pos)
    }

    /// Appends a batch of records under a single reservation and returns the
    /// physical position of each. The batch must be non-empty records whose
    /// total stays within half the ring; as with `append`, the buffer is
    /// left unchanged on every failure.
    pub fn batch_append(&mut self, items: &Vec<Vec<u8>>) -> (r: Result<Vec<usize>, EngineError>)
        requires
            old(self).wf(),
        ensures
            final(self).wf(),
            r matches Err(e) ==> *final(self) == *old(self),
            (r matches Err(e) && e == EngineError::InvalidArgument) <==> exists|i: int|
                0 <= i < items@.len() && items@[i]@.len() == 0,
            (r matches Err(e) && e == EngineError::CapacityExceeded) <==> (forall|i: int|
                0 <= i < items@.len() ==> items@[i]@.len() >= 1) && (batch_total(items@) > old(
                self,
            )@.size / 2 || old(self)@.write_pos + batch_total(items@) > usize::MAX),
            (r matches Err(e) && e == EngineError::BufferFull) <==> (forall|i: int|
                0 <= i < items@.len() ==> items@[i]@.len() >= 1) && batch_total(items@) <= old(
                self,
            )@.size / 2 && old(self)@.write_pos + batch_total(items@) <= usize::MAX && batch_total(
                items@,
            ) > old(self)@.available(),
            r is Ok <==> (forall|i: int| 0 <= i < items@.len() ==> items@[i]@.len() >= 1)
                && batch_total(items@) <= old(self)@.size / 2 && old(self)@.write_pos + batch_total(
                items@,
            ) <= usize::MAX && batch_total(items@) <= old(self)@.available(),
            r matches Ok(positions) ==> {
                &&& positions@.len() == items@.len()
                &&& forall|i: int|
                    0 <= i < items@.len() ==> positions@[i] == (old(self)@.write_pos + batch_total(
                        items@.take(i),
                    )) % (old(self)@.size as int)
                &&& final(self)@.write_pos == old(self)@.write_pos + batch_total(items@)
                &&& final(self)@.read_pos == old(self)@.read_pos
                &&& final(self)@.writes_count == old(self)@.writes_count + items@.len()
                &&& final(self)@.bytes_written == old(self)@.bytes_written + batch_total(items@)
                &&& final(self)@.size == old(self)@.size
                &&& final(self)@.region == wrap_write(
                    old(self)@.region,
                    (old(self)@.write_pos % old(self)@.size) as int,
                    batch_flatten(items@),
                )
            },
    {
        let ghost pre = *self;
        let mut total_wide: u128 = 0;
        let mut i: usize = 0;
        while i < items.len()
            invariant
                self.wf(),
                *self == *old(self),
                i <= items@.len(),
                total_wide == batch_total(items@.take(i as int)),
                total_wide <= i * 0xffff_ffff_ffff_ffff,
                forall|j: int| 0 <= j < i ==> items@[j]@.len() >= 1,
            decreases items@.len() - i,
        {
            proof {
                lemma_batch_take_succ(items@, i as int);
            }
            let item_len = items[i].len();
            if item_len == 0 {
                return Err(EngineError::InvalidArgument);
            }
            total_wide = total_wide + item_len as u128;
            i = i + 1;
        }
        proof {
            assert(items@.take(items@.len() as int) =~= items@);
            lemma_batch_total_is_flatten_len(items@);
            lemma_batch_total_lower(items@);
        }
        if total_wide > (self.size / 2) as u128 {
            return Err(EngineError::CapacityExceeded);
        }
        let total = total_wide as usize;
        if total > usize::MAX - self.write_pos {
            return Err(EngineError::CapacityExceeded);
        }
        if total > self.size - (self.write_pos - self.read_pos) {
            return Err(EngineError::BufferFull);
        }
        let start_pos = self.write_pos;
        let mut positions: Vec<usize> = Vec::with_capacity(items.len());
        let mut written: usize = 0;
        let mut k: usize = 0;
        proof {
            assert(batch_flatten(items@.take(0int)) =~= Seq::<u8>::empty());
            assert(wrap_write(pre@.region, ((start_pos as int) % (pre@.size as int)), Seq::<u8>::empty())
                =~= pre@.region);
            vstd::arithmetic::div_mod::lemma_mod_bound(start_pos as int, pre@.size as int);
        }
        while k < items.len()
            invariant
                self.wf(),
                k <= items@.len(),
                self.size == pre.size,
                self.write_pos == pre.write_pos,
                self.read_pos == pre.read_pos,
                self.writes_count == pre.writes_count,
                self.bytes_written == pre.bytes_written,
                start_pos == pre@.write_pos,
                written == batch_total(items@.take(k as int)),
                written <= batch_total(items@),
                batch_total(items@) == batch_flatten(items@).len(),
                batch_total(items@) <= pre@.size / 2,
                start_pos + batch_total(items@) <= usize::MAX,
                positions@.len() == k,
                forall|j: int|
                    0 <= j < k ==> positions@[j] == (pre@.write_pos + batch_total(items@.take(j)))
                        % (pre@.size as int),
                region_bytes(&self.mmap) == wrap_write(
                    pre@.region,
                    ((start_pos as int) % (pre@.size as int)),
                    batch_flatten(items@.take(k as int)),
                ),
            decreases items@.len() - k,
        {
            let ghost s = pre@.size as int;
            let ghost start0 = (start_pos as int) % s;
            proof {
                lemma_batch_take_succ(items@, k as int);
                lemma_batch_total_mono(items@, k as int + 1, items@.len() as int);
                assert(items@.take(items@.len() as int) =~= items@);
                assert(written + items@[k as int]@.len() <= batch_total(items@));
                vstd::arithmetic::div_mod::lemma_mod_bound((start_pos + written) as int, s);
                vstd::arithmetic::div_mod::lemma_mod_bound(start_pos as int, s);
            }
            let pos_k = (start_pos + written) % self.size;
            let ghost before = region_bytes(&self.mmap);
            self.write_wrapped(pos_k, items[k].as_slice());
            proof {
                // The wrapped store of this record extends the wrapped store
                // of the records before it in the batch.
                vstd::arithmetic::div_mod::lemma_add_mod_noop_right(
                    written as int,
                    start_pos as int,
                    s,
                );
                assert(pos_k == (start0 + batch_flatten(items@.take(k as int)).len()) % s);
                lemma_wrap_write_concat(
                    pre@.region,
                    start0,
                    batch_flatten(items@.take(k as int)),
                    items@[k as int]@,
                );
                assert(batch_flatten(items@.take(k as int + 1)) =~= batch_flatten(
                    items@.take(k as int),
                ) + items@[k as int]@);
            }
            positions.push(pos_k);
            written = written + items[k].len();
            k = k + 1;
        }
        proof {
            assert(items@.take(items@.len() as int) =~= items@);
        }
        self.write_pos = self.write_pos + total;
        self.writes_count = self.writes_count + items.len();
        self.bytes_written = self.bytes_written + total;
        Ok(positions)
    }

    /// Reads `length` bytes at the physical position `position`; the range
    /// must lie inside the region and does not wrap.
    pub fn read_at(&self, position: usize, length: usize) -> (r: Result<Vec<u8>, EngineError>)
        requires
            self.wf(),
        ensures
            r matches Err(e) ==> e == EngineError::OutOfBounds,
            r is Err <==> position + length > self@.size,
            r matches Ok(v) ==> v@ == self@.region.subrange(position as int, position + length),
    {
        if length > self.size || position > self.size - length {
            return Err(EngineError::OutOfBounds);
        }
        Ok(region_read(&self.mmap, position, length))
    }

    /// Moves the consumer cursor forward over `bytes` consumed bytes; it
    /// cannot pass the producer cursor.
    pub fn advance_read_pos(&mut self, bytes: usize) -> (r: Result<(), EngineError>)
        requires
            old(self).wf(),
        ensures
            final(self).wf(),
            r matches Err(e) ==> e == EngineError::OutOfBounds && *final(self) == *old(self),
            r is Err <==> bytes > old(self)@.write_pos - old(self)@.read_pos,
            r is Ok ==> final(self)@ == (LogView {
                read_pos: (old(self)@.read_pos + bytes) as nat,
                ..old(self)@
            }),
    {
        if bytes > self.write_pos - self.read_pos {
            return Err(EngineError::OutOfBounds);
        }
        self.read_pos = self.read_pos + bytes;
        Ok(())
    }

    /// A copy of the log's counters.
    pub fn stats(&self) -> (r: LogStats)
        requires
            self.wf(),
        ensures
            r.size == self@.size,
            r.write_pos == self@.write_pos,
            r.read_pos == self@.read_pos,
            r.writes_count == self@.writes_count,
            r.bytes_written == self@.bytes_written,
            r.available_space == self@.available(),
    {
        LogStats {
            size: self.size,
            write_pos: self.write_pos,
            read_pos: self.read_pos,
            writes_count: self.writes_count,
            bytes_written: self.bytes_written,
            available_space: self.available_space(),
        }
    }

    /// Bytes an append may still reserve before reaching the reader.
    pub fn available_space(&self) -> (r: usize)
        requires
            self.wf(),
        ensures
            r == self@.available(),
    {
        self.size - (self.write_pos - self.read_pos)
    }

    /// Flushes the mapping synchronously; advisory for durability, never
    /// needed for in-memory readers.
    pub fn sync(&self) -> Result<(), EngineError> {
        region_flush(&self.mmap)
    }

    /// Schedules an asynchronous flush of the mapping.
    pub fn sync_async(&self) -> Result<(), EngineError> {
        region_flush_async(&self.mmap)
    }
}

/// Total length of a batch's records.
pub open spec fn batch_total(items: Seq<Vec<u8>>) -> int
    decreases items.len(),
{
    if items.len() == 0 {
        0
    } else {
        batch_total(items.drop_last()) + items.last()@.len()
    }
}

/// A batch's records laid end to end.
pub open spec fn batch_flatten(items: Seq<Vec<u8>>) -> Seq<u8>
    decreases items.len(),
{
    if items.len() == 0 {
        Seq::empty()
    } else {
        batch_flatten(items.drop_last()) + items.last()@
    }
}

proof fn lemma_batch_take_succ(items: Seq<Vec<u8>>, i: int)
    requires
        0 <= i < items.len(),
    ensures
        batch_total(items.take(i + 1)) == batch_total(items.take(i)) + items[i]@.len(),
        batch_flatten(items.take(i + 1)) == batch_flatten(items.take(i)) + items[i]@,
        batch_total(items.take(i)) <= batch_flatten(items.take(i)).len() + 0,
        batch_total(items.take(i + 1)) == batch_flatten(items.take(i + 1)).len(),
{
    assert(items.take(i + 1).drop_last() =~= items.take(i));
    assert(items.take(i + 1).last() == items[i]);
    lemma_batch_total_is_flatten_len(items.take(i));
    lemma_batch_total_is_flatten_len(items.take(i + 1));
}

proof fn lemma_batch_total_is_flatten_len(items: Seq<Vec<u8>>)
    ensures
        batch_total(items) == batch_flatten(items).len(),
    decreases items.len(),
{
    if items.len() > 0 {
        lemma_batch_total_is_flatten_len(items.drop_last());
    }
}

/// A prefix of a batch never holds more bytes than the whole batch.
proof fn lemma_batch_total_mono(items: Seq<Vec<u8>>, i: int, j: int)
    requires
        0 <= i <= j <= items.len(),
    ensures
        batch_total(items.take(i)) <= batch_total(items.take(j)),
    decreases j - i,
{
    if i < j {
        lemma_batch_take_succ(items, i);
        lemma_batch_total_mono(items, i + 1, j);
    }
}

/// A batch of non-empty records holds at least one byte per record.
proof fn lemma_batch_total_lower(items: Seq<Vec<u8>>)
    requires
        forall|j: int| 0 <= j < items.len() ==> items[j]@.len() >= 1,
    ensures
        batch_total(items) >= items.len(),
    decreases items.len(),
{
    if items.len() > 0 {
        lemma_batch_total_lower(items.drop_last());
    }
}

/// A store that does not reach the end of the region is a wrapped store.
proof fn lemma_wrap_write_single(region: Seq<u8>, start: int, data: Seq<u8>)
    requires
        0 <= start < region.len(),
        start + data.len() <= region.len(),
    ensures
        region.subrange(0, start) + data + region.subrange(start + data.len(), region.len() as int)
            =~= wrap_write(region, start, data),
{
    let s = region.len() as int;
    assert forall|i: int| 0 <= i < s implies (region.subrange(0, start) + data + region.subrange(
        start + data.len(),
        s,
    ))[i] == wrap_write(region, start, data)[i] by {
        lemma_wrap_off(i, start, s, data.len() as int);
    }
}

/// Where a physical offset lands relative to a wrapped store: inside the
/// stored range the wrapped offset picks the stored byte, outside it the
/// region byte survives.
proof fn lemma_wrap_off(i: int, start: int, s: int, len: int)
    requires
        0 <= i < s,
        0 <= start < s,
        0 <= len <= s,
    ensures
        start <= i < start + len ==> (i - start) % s == i - start,
        i < start && i + s < start + len ==> (i - start) % s == i - start + s,
        (i < start && i + s >= start + len) ==> (i - start) % s >= len,
        i >= start + len ==> (i - start) % s >= len,
{
    if start <= i {
        vstd::arithmetic::div_mod::lemma_small_mod((i - start) as nat, s as nat);
    } else {
        assert((i - start) % s == (i - start + s) % s) by {
            vstd::arithmetic::div_mod::lemma_mod_add_multiples_vanish(i - start, s);
        }
        vstd::arithmetic::div_mod::lemma_small_mod((i - start + s) as nat, s as nat);
    }
}

/// A store that straddles the end of the region is the two contiguous
/// stores it splits into.
proof fn lemma_wrap_write_split(
    pre: Seq<u8>,
    mid: Seq<u8>,
    post: Seq<u8>,
    start: int,
    data: Seq<u8>,
)
    requires
        0 <= start < pre.len(),
        start + data.len() > pre.len(),
        data.len() <= pre.len(),
        mid =~= pre.subrange(0, start) + data.subrange(0, pre.len() - start) + pre.subrange(
            pre.len() as int,
            pre.len() as int,
        ),
        post =~= mid.subrange(0, 0) + data.subrange(pre.len() - start, data.len() as int)
            + mid.subrange(start + data.len() - pre.len(), mid.len() as int),
    ensures
        post =~= wrap_write(pre, start, data),
{
    let s = pre.len() as int;
    let first = s - start;
    assert(mid.len() == s);
    assert(post.len() == s);
    assert forall|i: int| 0 <= i < s implies post[i] == wrap_write(pre, start, data)[i] by {
        lemma_wrap_off(i, start, s, data.len() as int);
        if i < data.len() - first {
            assert(post[i] == data[first + i]);
            assert((i - start) % s == i - start + s);
        } else if i < start {
            assert(post[i] == mid[i]);
            assert((i - start) % s >= data.len());
        } else {
            assert(post[i] == mid[i]);
            assert(mid[i] == data[i - start]);
            assert((i - start) % s == i - start);
        }
    }
}

/// Reducing the left operand of a subtraction modulo m does not change the
/// remainder of the difference.
proof fn lemma_mod_sub_left(x: int, y: int, m: int)
    requires
        0 < m,
    ensures
        ((x % m) - y) % m == (x - y) % m,
{
    vstd::arithmetic::div_mod::lemma_sub_mod_noop(x, y, m);
    vstd::arithmetic::div_mod::lemma_sub_mod_noop_right(x % m, y, m);
}

/// Two wrapped stores laid end to end are one wrapped store of the
/// concatenated payload, as long as the payloads together fit the region.
proof fn lemma_wrap_write_concat(region: Seq<u8>, start: int, d1: Seq<u8>, d2: Seq<u8>)
    requires
        0 <= start < region.len(),
        d1.len() + d2.len() <= region.len(),
    ensures
        wrap_write(wrap_write(region, start, d1), (start + d1.len()) % (region.len() as int), d2)
            =~= wrap_write(region, start, d1 + d2),
{
    let s = region.len() as int;
    let w1 = wrap_write(region, start, d1);
    let start2 = (start + d1.len()) % s;
    let lhs = wrap_write(w1, start2, d2);
    let rhs = wrap_write(region, start, d1 + d2);
    vstd::arithmetic::div_mod::lemma_mod_bound(start + d1.len(), s);
    assert forall|i: int| 0 <= i < s implies lhs[i] == rhs[i] by {
        let off = (i - start) % s;
        let off2 = (i - start2) % s;
        vstd::arithmetic::div_mod::lemma_mod_bound(i - start, s);
        vstd::arithmetic::div_mod::lemma_mod_bound(i - start2, s);
        // The offset past the second store trails the offset past the first
        // by the first payload's length, modulo the region size.
        assert(off2 == (off - d1.len()) % s) by {
            vstd::arithmetic::div_mod::lemma_sub_mod_noop_right(i, start + d1.len(), s);
            assert((i - start2) % s == (i - (start + d1.len())) % s);
            lemma_mod_sub_left(i - start, d1.len() as int, s);
            assert((off - d1.len()) % s == (i - start - d1.len()) % s);
        }
        if off < d1.len() {
            // Covered by the first store and outside the second.
            assert(off2 == off - d1.len() + s) by {
                vstd::arithmetic::div_mod::lemma_mod_add_multiples_vanish(off - d1.len(), s);
                vstd::arithmetic::div_mod::lemma_small_mod((off - d1.len() + s) as nat, s as nat);
            }
            assert(off2 >= d2.len());
            assert(lhs[i] == w1[i]);
        } else if off < d1.len() + d2.len() {
            // Covered by the second store.
            assert(off2 == off - d1.len()) by {
                vstd::arithmetic::div_mod::lemma_small_mod((off - d1.len()) as nat, s as nat);
            }
            assert(lhs[i] == d2[off - d1.len()]);
        } else {
            // Untouched by both stores.
            assert(off2 == off - d1.len()) by {
                vstd::arithmetic::div_mod::lemma_small_mod((off - d1.len()) as nat, s as nat);
            }
            assert(lhs[i] == w1[i]);
            assert(w1[i] == region[i]);
        }
    }
}

/// Under a wrapped store of `data` at `start`, the byte at wrapped position
/// `start + j` is `data[j]`: reads modulo the region size return the bytes
/// written for those positions, however far the cursors have advanced.
pub proof fn lemma_wrap_write_at(region: Seq<u8>, start: int, data: Seq<u8>, j: int)
    requires
        0 <= start < region.len(),
        data.len() <= region.len(),
        0 <= j < data.len(),
    ensures
        wrap_write(region, start, data)[(start + j) % (region.len() as int)] == data[j],
{
    let s = region.len() as int;
    vstd::arithmetic::div_mod::lemma_mod_bound(start + j, s);
    let i = (start + j) % s;
    assert((i - start) % s == j) by {
        lemma_mod_sub_left(start + j, start, s);
        assert((i - start) % s == (start + j - start) % s);
        vstd::arithmetic::div_mod::lemma_small_mod(j as nat, s as nat);
    }
}

/// Appending and then reading back the record's physical range returns the
/// record, byte for byte, whenever the record did not straddle the wrap
/// boundary (a straddling range cannot be named by one physical interval).
pub proof fn lemma_append_round_trip(region: Seq<u8>, pos: int, data: Seq<u8>)
    requires
        0 <= pos < region.len(),
        pos + data.len() <= region.len(),
    ensures
        wrap_write(region, pos, data).subrange(pos, pos + data.len()) =~= data,
{
    assert forall|j: int| 0 <= j < data.len() implies wrap_write(region, pos, data)[pos + j]
        == data[j] by {
        lemma_wrap_off(pos + j, pos, region.len() as int, data.len() as int);
    }
}

/// Successful appends hand out disjoint reservations that partition the
/// consumed region: `append` moves the producer cursor from w to w + len,
/// so of two reservations the later one begins at or past the end of the
/// earlier one, and no logical byte belongs to both records.
pub proof fn lemma_reservation_disjointness(w1: nat, l1: nat, w2: nat, l2: nat, b: int)
    requires
        w1 + l1 <= w2,
        w1 <= b < w1 + l1,
    ensures
        !(w2 <= b < w2 + l2),
{
}

} // verus!
