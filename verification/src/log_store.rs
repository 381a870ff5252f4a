//! The retained log: entries in the order of arrival, in chunks that snapshots
//! share, with the bytes that they account for.

use std::collections::VecDeque;
use std::sync::Arc;

use vstd::prelude::*;

use crate::model::{LogEntry, ENTRY_OVERHEAD};

verus! {

/// The number of entries that a full chunk holds.
pub const CHUNK_SIZE: usize = 1024;

/// The bytes that a chunk accounts for besides the payload of its entries.
pub open spec fn chunk_bytes() -> nat {
    CHUNK_SIZE as nat * vstd::layout::size_of::<LogEntry>() + 64
}

/// The payload of a row of entries.
pub open spec fn total_payload(entries: Seq<LogEntry>) -> nat
    decreases entries.len(),
{
    if entries.len() == 0 {
        0
    } else {
        total_payload(entries.drop_last()) + entries.last().payload()
    }
}

/// The number of chunks that hold `len` entries, where the first chunk has lost
/// its first `offset` entries.
pub open spec fn chunks_for(offset: int, len: int) -> int {
    if len <= 0 {
        0
    } else {
        (offset + len + CHUNK_SIZE - 1) / CHUNK_SIZE as int
    }
}

/// The bytes that a row of entries accounts for.
pub open spec fn memory_of(entries: Seq<LogEntry>, offset: int) -> int {
    total_payload(entries) + chunks_for(offset, entries.len() as int) * chunk_bytes()
}

/// How many entries the first chunk has lost once `count` more are gone.
pub open spec fn offset_after(offset: int, len: int, count: int) -> int {
    if count >= len {
        0
    } else {
        (offset + count) % CHUNK_SIZE as int
    }
}

/// The bytes that are left once the first `count` entries are gone.
pub open spec fn memory_after(entries: Seq<LogEntry>, offset: int, count: int) -> int {
    memory_of(entries.skip(count), offset_after(offset, entries.len() as int, count))
}

/// How many of the oldest entries have to go, counted on from `from`, until the
/// rest is within a target.
pub open spec fn excess(entries: Seq<LogEntry>, offset: int, target: int, from: int) -> int
    decreases entries.len() - from,
{
    if from >= entries.len() || memory_after(entries, offset, from) <= target {
        from
    } else {
        excess(entries, offset, target, from + 1)
    }
}

/// A run of entries that the store and its snapshots share.
pub struct Chunk(VecDeque<LogEntry>);

impl Chunk {
    /// The entries of the chunk.
    pub closed spec fn entries(&self) -> Seq<LogEntry> {
        self.0@
    }
}

impl Clone for Chunk {
    fn clone(&self) -> (r: Chunk)
        ensures
            r.entries() == self.entries(),
    {
        let mut entries: VecDeque<LogEntry> = VecDeque::with_capacity(CHUNK_SIZE);
        let mut i: usize = 0;
        while i < self.0.len()
            invariant
                i <= self.0@.len(),
                entries@ == self.0@.take(i as int),
            decreases self.0@.len() - i,
        {
            entries.push_back(self.0[i].clone());
            i += 1;
            assert(entries@ =~= self.0@.take(i as int));
        }
        assert(self.0@.take(i as int) =~= self.0@);
        Chunk(entries)
    }
}

/// `VecDeque::index_mut` borrows the element at an index: it starts as the
/// element that is there, and what it becomes is written back in its place.
#[verifier::external_body]
fn element_mut<T>(v: &mut VecDeque<T>, index: usize) -> (r: &mut T)
    requires
        index < old(v)@.len(),
    ensures
        *r == old(v)@[index as int],
        final(v)@ == old(v)@.update(index as int, *final(r)),
{
    &mut v[index]
}

/// `Arc::make_mut` borrows the shared value itself where nothing else holds it,
/// and else a clone that takes its place; a clone of a chunk holds the same
/// entries.
#[verifier::external_body]
fn chunk_mut(chunk: &mut Arc<Chunk>) -> (r: &mut Chunk)
    ensures
        (*r).entries() == (**old(chunk)).entries(),
        **final(chunk) == *final(r),
{
    Arc::make_mut(chunk)
}

/// Filter snapshots share immutable chunks. Capture only copies a changed chunk,
/// rather than all retained entries, when a snapshot is still in use.
pub struct LogStore {
    chunks: VecDeque<Arc<Chunk>>,
    offset: usize,
    len: usize,
    bytes: usize,
}

impl LogStore {
    /// The end of the entries in the numbering of the chunks' places.
    spec fn end(self) -> int {
        self.offset + self.len
    }

    /// Where the entries of a chunk begin in that numbering.
    spec fn start_of(self, chunk: int) -> int {
        if chunk == 0 {
            self.offset as int
        } else {
            CHUNK_SIZE * chunk
        }
    }

    /// The number of entries that a chunk holds.
    spec fn len_of(self, chunk: int) -> int {
        if chunk == self.chunks@.len() - 1 {
            self.end() - self.start_of(chunk)
        } else {
            CHUNK_SIZE * (chunk + 1) - self.start_of(chunk)
        }
    }

    /// The entry at an index.
    spec fn entry(self, i: int) -> LogEntry {
        let chunk = (self.offset + i) / CHUNK_SIZE as int;
        (*self.chunks@[chunk]).0@[self.offset + i - self.start_of(chunk)]
    }

    /// The retained entries, the oldest first.
    pub closed spec fn view(&self) -> Seq<LogEntry> {
        Seq::new(self.len as nat, |i: int| self.entry(i))
    }

    /// How many entries the first chunk has lost.
    pub closed spec fn lost(&self) -> int {
        self.offset as int
    }

    /// The bytes that the store accounts for.
    pub open spec fn memory(&self) -> int {
        memory_of(self.view(), self.lost())
    }

    /// Every chunk but the first and the last is full, none is empty, and the
    /// accounted bytes are those of the entries and the chunks.
    pub closed spec fn wf(&self) -> bool {
        &&& self.offset < CHUNK_SIZE
        &&& self.len == 0 ==> self.offset == 0
        &&& self.chunks@.len() == chunks_for(self.offset as int, self.len as int)
        &&& forall|c: int|
            0 <= c < self.chunks@.len() ==> (*(#[trigger] self.chunks@[c])).0@.len() == self.len_of(
                c,
            )
        &&& self.bytes == self.memory()
    }

    /// The parts of the representation that arithmetic needs.
    proof fn lemma_shape(&self)
        requires
            self.wf(),
        ensures
            self.len > 0 ==> CHUNK_SIZE * (self.chunks@.len() - 1) < self.end() <= CHUNK_SIZE
                * self.chunks@.len(),
            self.len == 0 ==> self.chunks@.len() == 0,
            self.view().len() == self.len,
    {
    }

    pub fn len(&self) -> (r: usize)
        requires
            self.wf(),
        ensures
            r == self@.len(),
    {
        self.len
    }

    pub fn is_empty(&self) -> (r: bool)
        requires
            self.wf(),
        ensures
            r == (self@.len() == 0),
    {
        self.len == 0
    }

    pub fn memory_bytes(&self) -> (r: usize)
        requires
            self.wf(),
        ensures
            r == self.memory(),
    {
        self.bytes
    }

    /// Appends an entry as the newest one.
    pub fn push(&mut self, entry: LogEntry)
        requires
            old(self).wf(),
            memory_of(old(self)@.push(entry), old(self).lost()) <= usize::MAX,
        ensures
            final(self).wf(),
            final(self)@ == old(self)@.push(entry),
            final(self).lost() == old(self).lost(),
    {
        let ghost before = *self;
        proof {
            self.lemma_shape();
            lemma_payload_push(before@, entry);
            lemma_chunks_cost(before.chunks@.len() as int);
            lemma_len_within_payload(before@.push(entry));
            assert(before@.push(entry).drop_last() =~= before@);
        }
        let count: usize = self.chunks.len();
        let full = count == 0 || self.chunks[count - 1].0.len() + (if count == 1 {
            self.offset
        } else {
            0
        }) == CHUNK_SIZE;
        assert(count > 0 ==> (*before.chunks@[count - 1]).0@.len() == before.len_of(count - 1));
        if full {
            proof {
                assert(before.end() == CHUNK_SIZE * count);
                assert(chunks_for(before.offset as int, before.len + 1) == count + 1);
            }
            self.chunks.push_back(Arc::new(Chunk(VecDeque::with_capacity(CHUNK_SIZE))));
            self.bytes += CHUNK_SIZE * core::mem::size_of::<LogEntry>() + 64;
        } else {
            proof {
                assert(chunks_for(before.offset as int, before.len + 1) == count);
            }
        }
        self.bytes += entry.payload_bytes();
        let last: usize = self.chunks.len() - 1;
        let ghost held = self.chunks@;
        let chunk = chunk_mut(element_mut(&mut self.chunks, last));
        chunk.0.push_back(entry);
        self.len += 1;
        proof {
            assert forall|c: int| 0 <= c < self.chunks@.len() implies (*(
            #[trigger] self.chunks@[c])).0@.len() == self.len_of(c) by {
                if c < count {
                    assert((*before.chunks@[c]).0@.len() == before.len_of(c));
                }
            }
            assert forall|i: int| 0 <= i < self.len implies #[trigger] self.entry(i) == before@.push(
                entry,
            )[i] by {
                let place = self.offset + i;
                let c = place / CHUNK_SIZE as int;
                if i < before.len {
                    assert(before@[i] == before.entry(i));
                    assert(c < count);
                }
            }
            assert(self@ =~= before@.push(entry));
        }
    }

    /// The entry at an index.
    pub fn get(&self, index: usize) -> (r: &LogEntry)
        requires
            self.wf(),
            index < self@.len(),
        ensures
            *r == self@[index as int],
    {
        proof {
            self.lemma_shape();
            lemma_len_within_payload(self@);
            lemma_cost_nonnegative(self.chunks@.len() as int);
        }
        let absolute: usize = self.offset + index;
        let chunk: usize = absolute / CHUNK_SIZE;
        let position: usize = if chunk == 0 {
            index
        } else {
            absolute % CHUNK_SIZE
        };
        proof {
            assert((*self.chunks@[chunk as int]).0@.len() == self.len_of(chunk as int));
            assert(self@[index as int] == self.entry(index as int));
        }
        &self.chunks[chunk].0[position]
    }

    /// Names the process of the entry at an index; an index past the end is
    /// ignored.
    pub fn set_process(&mut self, index: usize, process: Arc<str>)
        requires
            old(self).wf(),
            index < old(self)@.len() ==> memory_of(
                old(self)@.update(index as int, old(self)@[index as int].with_process(process)),
                old(self).lost(),
            ) <= usize::MAX,
        ensures
            final(self).wf(),
            final(self)@ == (if index < old(self)@.len() {
                old(self)@.update(index as int, old(self)@[index as int].with_process(process))
            } else {
                old(self)@
            }),
            final(self).lost() == old(self).lost(),
    {
        if index >= self.len {
            return;
        }
        let ghost before = *self;
        let ghost changed = before@[index as int].with_process(process);
        proof {
            self.lemma_shape();
            lemma_payload_update(before@, index as int, changed);
            lemma_payload_part(before@, index as int);
            lemma_len_within_payload(before@);
            lemma_cost_nonnegative(self.chunks@.len() as int);
        }
        let absolute: usize = self.offset + index;
        let chunk: usize = absolute / CHUNK_SIZE;
        let position: usize = if chunk == 0 {
            index
        } else {
            absolute % CHUNK_SIZE
        };
        proof {
            assert((*self.chunks@[chunk as int]).0@.len() == self.len_of(chunk as int));
            assert(self@[index as int] == self.entry(index as int));
        }
        let entry = element_mut(&mut chunk_mut(element_mut(&mut self.chunks, chunk)).0, position);
        self.bytes -= entry.payload_bytes();
        entry.process = Some(process);
        self.bytes += entry.payload_bytes();
        proof {
            assert forall|c: int| 0 <= c < self.chunks@.len() implies (*(
            #[trigger] self.chunks@[c])).0@.len() == self.len_of(c) by {
                assert((*before.chunks@[c]).0@.len() == before.len_of(c));
            }
            assert forall|i: int| 0 <= i < self.len implies #[trigger] self.entry(i)
                == before@.update(index as int, changed)[i] by {
                assert(before@[i] == before.entry(i));
            }
            assert(self@ =~= before@.update(index as int, changed));
        }
    }

    /// Drops the oldest entry.
    fn drop_oldest(&mut self)
        requires
            old(self).wf(),
            old(self)@.len() > 0,
        ensures
            final(self).wf(),
            final(self)@ == old(self)@.skip(1),
            final(self).lost() == offset_after(old(self).lost(), old(self)@.len() as int, 1),
    {
        let ghost before = *self;
        proof {
            self.lemma_shape();
            assert((*self.chunks@[0]).0@.len() == self.len_of(0));
            assert(before@[0] == before.entry(0));
            lemma_payload_skip(before@, 1);
            lemma_payload_part(before@, 0);
            lemma_cost_nonnegative(self.chunks@.len() as int);
            lemma_cost_nonnegative(self.chunks@.len() - 1);
            lemma_chunks_cost(self.chunks@.len() - 1);
        }
        let chunk = chunk_mut(element_mut(&mut self.chunks, 0));
        let gone = chunk.0.pop_front();
        let emptied = chunk.0.len() == 0;
        if let Some(entry) = gone {
            self.bytes -= entry.payload_bytes();
        }
        self.offset += 1;
        self.len -= 1;
        if emptied {
            self.chunks.pop_front();
            self.bytes -= CHUNK_SIZE * core::mem::size_of::<LogEntry>() + 64;
            self.offset = 0;
        }
        proof {
            assert forall|c: int| 0 <= c < self.chunks@.len() implies (*(
            #[trigger] self.chunks@[c])).0@.len() == self.len_of(c) by {
                if emptied {
                    assert((*before.chunks@[c + 1]).0@.len() == before.len_of(c + 1));
                } else {
                    assert((*before.chunks@[c]).0@.len() == before.len_of(c));
                }
            }
            assert forall|i: int| 0 <= i < self.len implies #[trigger] self.entry(i)
                == before@.skip(1)[i] by {
                assert(before@[i + 1] == before.entry(i + 1));
            }
            assert(self@ =~= before@.skip(1));
        }
    }

    /// Drops the oldest `count` entries.
    pub fn drain_front(&mut self, count: usize)
        requires
            old(self).wf(),
            count <= old(self)@.len(),
        ensures
            final(self).wf(),
            final(self)@ == old(self)@.skip(count as int),
            final(self).lost() == offset_after(
                old(self).lost(),
                old(self)@.len() as int,
                count as int,
            ),
    {
        let ghost before = *self;
        let mut i: usize = 0;
        proof {
            assert(before@.skip(0) =~= before@);
            before.lemma_shape();
            before.lemma_accounting();
        }
        while i < count
            invariant
                i <= count <= before@.len(),
                0 <= before.lost() < CHUNK_SIZE,
                self.wf(),
                self@ == before@.skip(i as int),
                self.lost() == offset_after(before.lost(), before@.len() as int, i as int),
            decreases count - i,
        {
            self.drop_oldest();
            proof {
                lemma_one_more_gone(before@, before.lost(), i as int);
            }
            i += 1;
        }
    }

    /// Drops the oldest entries until the accounted bytes are within a target,
    /// and no more; returns how many are gone.
    pub fn trim_to_bytes(&mut self, target: usize) -> (removed: usize)
        requires
            old(self).wf(),
        ensures
            final(self).wf(),
            removed <= old(self)@.len(),
            final(self)@ == old(self)@.skip(removed as int),
            final(self).lost() == offset_after(
                old(self).lost(),
                old(self)@.len() as int,
                removed as int,
            ),
            final(self).memory() <= target,
            removed == excess(old(self)@, old(self).lost(), target as int, 0),
    {
        let ghost before = *self;
        let mut removed: usize = 0;
        proof {
            assert(before@.skip(0) =~= before@);
            before.lemma_shape();
            before.lemma_accounting();
            self.lemma_empty();
        }
        while self.memory_bytes() > target && !self.is_empty()
            invariant
                removed <= before@.len(),
                before@.len() <= usize::MAX,
                0 <= before.lost() < CHUNK_SIZE,
                self.wf(),
                self@ == before@.skip(removed as int),
                self.lost() == offset_after(before.lost(), before@.len() as int, removed as int),
                self@.len() == 0 ==> self.memory() == 0,
                forall|n: int|
                    0 <= n < removed ==> target < #[trigger] memory_after(
                        before@,
                        before.lost(),
                        n,
                    ),
            decreases self@.len(),
        {
            assert(memory_after(before@, before.lost(), removed as int) == self.memory());
            self.drain_front(1);
            proof {
                lemma_one_more_gone(before@, before.lost(), removed as int);
                self.lemma_empty();
            }
            removed += 1;
        }
        proof {
            assert(memory_after(before@, before.lost(), removed as int) == self.memory());
            lemma_excess_is(before@, before.lost(), target as int, 0, removed as int);
        }
        removed
    }

    /// An empty store accounts for nothing.
    pub proof fn lemma_empty(&self)
        requires
            self.wf(),
        ensures
            self@.len() == 0 ==> self.memory() == 0,
    {
        assert(0 * chunk_bytes() == 0);
    }

    /// What holds of every store: it has room in memory, accounts for every entry
    /// and for its chunks, and the first chunk has not lost all its places.
    pub proof fn lemma_accounting(&self)
        requires
            self.wf(),
        ensures
            0 <= self.lost() < CHUNK_SIZE,
            self@.len() == 0 ==> self.lost() == 0,
            self.memory() <= usize::MAX,
            self@.len() * ENTRY_OVERHEAD <= self.memory(),
            total_payload(self@) <= self.memory(),
    {
        lemma_len_within_payload(self@);
        lemma_cost_nonnegative(chunks_for(self.offset as int, self@.len() as int));
        self.lemma_shape();
    }

    /// Appending beside a snapshot: the store holds what it held and the new entry, and
    /// the snapshot still holds and accounts for what the store held before.
    pub proof fn lemma_append_beside_snapshot(
        before: LogStore,
        after: LogStore,
        snapshot: LogStore,
        entry: LogEntry,
    )
        requires
            snapshot@ == before@,
            snapshot.lost() == before.lost(),
            after@ == before@.push(entry),
        ensures
            after@.len() == before@.len() + 1,
            after@ == snapshot@ + seq![entry],
            snapshot@.len() == before@.len(),
            snapshot.memory() == before.memory(),
            forall|i: int| 0 <= i < snapshot@.len() ==> #[trigger] snapshot@[i] == after@[i],
    {
    }

    /// The retained entries, the oldest first.
    pub fn iter(&self) -> (r: std::vec::IntoIter<&LogEntry>)
        requires
            self.wf(),
        ensures
            vstd::std_specs::iter::IteratorSpec::remaining(&r).len() == self@.len(),
            forall|i: int|
                0 <= i < self@.len() ==> *(
                #[trigger] vstd::std_specs::iter::IteratorSpec::remaining(&r)[i]) == self@[i],
    {
        let mut rows: Vec<&LogEntry> = Vec::new();
        let mut i: usize = 0;
        while i < self.len
            invariant
                self.wf(),
                i <= self@.len() == self.len,
                rows@.len() == i,
                forall|j: int| 0 <= j < i ==> *(#[trigger] rows@[j]) == self@[j],
            decreases self.len - i,
        {
            rows.push(self.get(i));
            i += 1;
        }
        rows.into_iter()
    }

    /// The number of chunks in use.
    pub fn chunk_count(&self) -> (r: usize)
        requires
            self.wf(),
        ensures
            r == chunks_for(self.lost(), self@.len() as int),
    {
        self.chunks.len()
    }

    /// Whether one more entry can be accounted for, in a new chunk where it needs one.
    pub fn has_room(&self, entry: &LogEntry) -> (r: bool)
        requires
            self.wf(),
        ensures
            r == (memory_of(self@.push(*entry), self.lost()) <= usize::MAX),
    {
        let process: usize = match &entry.process {
            Some(process) => process.as_bytes().len(),
            None => 0,
        };
        let full = (self.offset as u128 + self.len as u128) % (CHUNK_SIZE as u128) == 0;
        let chunk: u128 = if full {
            CHUNK_SIZE as u128 * (core::mem::size_of::<LogEntry>() as u128) + 64
        } else {
            0
        };
        let payload: u128 = entry.time.as_bytes().len() as u128 + entry.tag.as_bytes().len() as u128
            + entry.message.as_bytes().len() as u128 + process as u128 + ENTRY_OVERHEAD as u128;
        proof {
            lemma_payload_push(self@, *entry);
            self.lemma_shape();
            let k = self.chunks@.len() as int;
            lemma_chunks_cost(k);
            let more = chunks_for(self.lost(), self@.len() as int + 1);
            assert(more == (if full {
                k + 1
            } else {
                k
            }));
        }
        self.bytes as u128 + chunk + payload <= usize::MAX as u128
    }
}

/// The bytes that a chunk accounts for besides the payload of its entries.
pub fn chunk_cost() -> (r: Option<usize>)
    ensures
        r is Some <==> chunk_bytes() <= usize::MAX,
        r matches Some(bytes) ==> bytes == chunk_bytes(),
{
    let size: usize = core::mem::size_of::<LogEntry>();
    if size <= (usize::MAX - 64) / CHUNK_SIZE {
        Some(CHUNK_SIZE * size + 64)
    } else {
        None
    }
}

impl Default for LogStore {
    fn default() -> (r: LogStore)
        ensures
            r.wf(),
            r@.len() == 0,
            r.lost() == 0,
    {
        let store = LogStore { chunks: VecDeque::new(), offset: 0, len: 0, bytes: 0 };
        assert(0 * chunk_bytes() == 0);
        store
    }
}

impl Clone for LogStore {
    fn clone(&self) -> (r: LogStore)
        ensures
            r@ == self@,
            r.lost() == self.lost(),
            self.wf() ==> r.wf(),
    {
        let mut chunks: VecDeque<Arc<Chunk>> = VecDeque::with_capacity(self.chunks.len());
        let mut i: usize = 0;
        while i < self.chunks.len()
            invariant
                i <= self.chunks@.len(),
                chunks@ == self.chunks@.take(i as int),
            decreases self.chunks@.len() - i,
        {
            chunks.push_back(self.chunks[i].clone());
            i += 1;
            assert(chunks@ =~= self.chunks@.take(i as int));
        }
        let copy = LogStore { chunks, offset: self.offset, len: self.len, bytes: self.bytes };
        assert(copy.chunks@ =~= self.chunks@);
        assert(copy@ =~= self@);
        copy
    }
}

impl std::ops::Index<usize> for LogStore {
    type Output = LogEntry;

    fn index(&self, index: usize) -> (r: &LogEntry)
        ensures
            *r == self@[index as int],
    {
        self.get(index)
    }
}

impl vstd::std_specs::core::IndexSpecImpl<usize> for LogStore {
    open spec fn index_req(&self, index: &usize) -> bool {
        self.wf() && *index < self@.len()
    }
}

// ---------------------------------------------------------------------------
// Accounting
// ---------------------------------------------------------------------------

/// One more chunk costs the bytes of one chunk.
proof fn lemma_chunks_cost(k: int)
    ensures
        (k + 1) * chunk_bytes() == k * chunk_bytes() + chunk_bytes(),
{
    assert((k + 1) * chunk_bytes() == k * chunk_bytes() + chunk_bytes()) by (nonlinear_arith);
}

/// Chunks never cost less than nothing.
proof fn lemma_cost_nonnegative(k: int)
    ensures
        k >= 0 ==> k * chunk_bytes() >= 0,
        k >= 1 ==> k * chunk_bytes() >= chunk_bytes(),
{
    let b = chunk_bytes() as int;
    assert(k >= 0 ==> k * b >= 0) by (nonlinear_arith)
        requires
            b >= 0,
    ;
    assert(k >= 1 ==> k * b >= b) by (nonlinear_arith)
        requires
            b >= 0,
    ;
}

/// The excess is the least number of entries without which the rest is within
/// the target.
proof fn lemma_excess_is(s: Seq<LogEntry>, offset: int, target: int, from: int, n: int)
    requires
        0 <= from <= n <= s.len(),
        forall|k: int| from <= k < n ==> target < #[trigger] memory_after(s, offset, k),
        memory_after(s, offset, n) <= target,
    ensures
        excess(s, offset, target, from) == n,
    decreases n - from,
{
    if from < n {
        assert(target < memory_after(s, offset, from));
        lemma_excess_is(s, offset, target, from + 1, n);
    }
}

/// No fewer entries than the excess could go: the rest would still be over the
/// target.
pub proof fn lemma_excess_is_least(s: Seq<LogEntry>, offset: int, target: int, from: int, n: int)
    requires
        0 <= from <= n < excess(s, offset, target, from),
    ensures
        target < memory_after(s, offset, n),
    decreases s.len() - from,
{
    if n > from {
        lemma_excess_is_least(s, offset, target, from + 1, n);
    }
}

/// Dropping entries one after the other is dropping them at once.
proof fn lemma_one_more_gone(s: Seq<LogEntry>, offset: int, n: int)
    requires
        0 <= n < s.len(),
        0 <= offset < CHUNK_SIZE,
    ensures
        s.skip(n).skip(1) == s.skip(n + 1),
        offset_after(offset_after(offset, s.len() as int, n), s.len() - n, 1) == offset_after(
            offset,
            s.len() as int,
            n + 1,
        ),
{
    assert(s.skip(n).skip(1) =~= s.skip(n + 1));
}

/// The payload grows by that of the appended entry.
pub proof fn lemma_payload_push(s: Seq<LogEntry>, entry: LogEntry)
    ensures
        total_payload(s.push(entry)) == total_payload(s) + entry.payload(),
{
    assert(s.push(entry).drop_last() =~= s);
}

/// The payload splits at any place.
pub proof fn lemma_payload_skip(s: Seq<LogEntry>, n: int)
    requires
        0 <= n <= s.len(),
    ensures
        total_payload(s) == total_payload(s.take(n)) + total_payload(s.skip(n)),
        n == 1 ==> total_payload(s) == s[0].payload() + total_payload(s.skip(1)),
    decreases s.len(),
{
    if n == s.len() {
        assert(s.take(n) =~= s);
        assert(s.skip(n) =~= seq![]);
    } else {
        lemma_payload_skip(s.drop_last(), n);
        assert(s.drop_last().take(n) =~= s.take(n));
        assert(s.skip(n).drop_last() =~= s.drop_last().skip(n));
        assert(s.skip(n).last() == s.last());
    }
    if n == 1 {
        assert(s.take(1).drop_last() =~= seq![]);
        assert(total_payload(s.take(1).drop_last()) == 0);
        assert(s.take(1).last() == s[0]);
    }
}

/// No entry has more payload than all of them.
pub proof fn lemma_payload_part(s: Seq<LogEntry>, i: int)
    requires
        0 <= i < s.len(),
    ensures
        s[i].payload() <= total_payload(s),
    decreases s.len(),
{
    if i < s.len() - 1 {
        lemma_payload_part(s.drop_last(), i);
        assert(s.drop_last()[i] == s[i]);
    }
}

/// Replacing an entry exchanges its payload for the other's.
pub proof fn lemma_payload_update(s: Seq<LogEntry>, i: int, entry: LogEntry)
    requires
        0 <= i < s.len(),
    ensures
        total_payload(s.update(i, entry)) == total_payload(s) - s[i].payload() + entry.payload(),
    decreases s.len(),
{
    if i == s.len() - 1 {
        assert(s.update(i, entry).drop_last() =~= s.drop_last());
    } else {
        lemma_payload_update(s.drop_last(), i, entry);
        assert(s.update(i, entry).drop_last() =~= s.drop_last().update(i, entry));
    }
}

/// Every entry accounts for at least its share of the indexes.
pub proof fn lemma_len_within_payload(s: Seq<LogEntry>)
    ensures
        s.len() * ENTRY_OVERHEAD <= total_payload(s),
    decreases s.len(),
{
    if s.len() > 0 {
        lemma_len_within_payload(s.drop_last());
    }
}

/// What one more entry accounts for: its payload, and where it begins a chunk, which is
/// once in 1024 places, the bytes of the chunk. An empty log accounts for nothing.
pub proof fn lemma_bytes_of_a_new_entry(entries: Seq<LogEntry>, offset: int, entry: LogEntry)
    requires
        0 <= offset < 1024,
    ensures
        memory_of(Seq::empty(), offset) == 0,
        memory_of(entries.push(entry), offset) == memory_of(entries, offset) + entry.payload() + (
        if entries.len() == 0 || (offset + entries.len()) % 1024 == 0 {
            1024 * vstd::layout::size_of::<LogEntry>() + 64
        } else {
            0
        }),
{
    let k = chunks_for(offset, entries.len() as int);
    lemma_payload_push(entries, entry);
    lemma_chunks_cost(k);
    assert(0 * chunk_bytes() == 0);
    let more = chunks_for(offset, entries.len() as int + 1);
    assert(more == (if entries.len() == 0 || (offset + entries.len()) % 1024 == 0 {
        k + 1
    } else {
        k
    }));
}

} // verus!
