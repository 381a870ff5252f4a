//! The byte budget of the entries that wait between the reader and the view.

use vstd::prelude::*;

use crate::model::{LogEntry, ENTRY_OVERHEAD};

verus! {

/// The bytes that waiting entries may hold in all.
pub const QUEUE_BYTES: usize = 16_777_216;

/// The bytes that an entry reserves while it waits: its payload and its row, but
/// never more than the whole budget.
pub open spec fn reserved_for(entry: LogEntry) -> int {
    let bytes = entry.payload() + vstd::layout::size_of::<LogEntry>();
    if bytes > QUEUE_BYTES {
        QUEUE_BYTES as int
    } else {
        bytes as int
    }
}

/// The bytes that waiting entries hold.
pub struct QueueBudget {
    pub used: usize,
}

/// The right to hold a number of bytes.
pub struct QueuePermit {
    pub bytes: usize,
}

/// An entry that waits, with its reservation.
pub struct QueuedLogEntry {
    pub entry: LogEntry,
    pub permit: QueuePermit,
}

impl Default for QueueBudget {
    fn default() -> (r: QueueBudget)
        ensures
            r.wf(),
            r.used == 0,
    {
        QueueBudget { used: 0 }
    }
}

impl QueueBudget {
    /// The budget is never exceeded.
    pub open spec fn wf(self) -> bool {
        self.used <= QUEUE_BYTES
    }

    /// Reserves bytes; without room for them the producer has to wait.
    pub fn reserve(&mut self, bytes: usize) -> (r: Option<QueuePermit>)
        requires
            old(self).wf(),
        ensures
            final(self).wf(),
            r is Some <==> old(self).used + bytes <= QUEUE_BYTES,
            match r {
                Some(permit) => permit.bytes == bytes && final(self).used == old(self).used + bytes,
                None => final(self).used == old(self).used,
            },
    {
        if bytes > QUEUE_BYTES - self.used {
            return None;
        }
        self.used += bytes;
        Some(QueuePermit { bytes })
    }

    /// Gives a reservation back.
    pub fn release(&mut self, permit: QueuePermit)
        requires
            old(self).wf(),
            permit.bytes <= old(self).used,
        ensures
            final(self).wf(),
            final(self).used == old(self).used - permit.bytes,
    {
        self.used -= permit.bytes;
    }
}

/// The bytes that an entry reserves while it waits.
pub fn reservation(entry: &LogEntry) -> (r: usize)
    ensures
        r == reserved_for(*entry),
        r <= QUEUE_BYTES,
{
    let process: usize = match &entry.process {
        Some(process) => process.as_bytes().len(),
        None => 0,
    };
    let bytes: u128 = entry.time.as_bytes().len() as u128 + entry.tag.as_bytes().len() as u128
        + entry.message.as_bytes().len() as u128 + process as u128 + ENTRY_OVERHEAD as u128
        + core::mem::size_of::<LogEntry>() as u128;
    if bytes > QUEUE_BYTES as u128 {
        QUEUE_BYTES
    } else {
        bytes as usize
    }
}

impl QueuedLogEntry {
    /// Lets an entry wait, where there is room for it; without room it is handed
    /// back.
    pub fn queue(entry: LogEntry, budget: &mut QueueBudget) -> (r: Result<QueuedLogEntry, LogEntry>)
        requires
            old(budget).wf(),
        ensures
            final(budget).wf(),
            old(budget).used == 0 ==> r is Ok,
            r is Ok <==> old(budget).used + reserved_for(entry) <= QUEUE_BYTES,
            match r {
                Ok(queued) => queued.entry == entry && queued.permit.bytes == reserved_for(entry)
                    && final(budget).used == old(budget).used + reserved_for(entry),
                Err(back) => back == entry && final(budget).used == old(budget).used,
            },
    {
        let bytes = reservation(&entry);
        match budget.reserve(bytes) {
            Some(permit) => Ok(QueuedLogEntry { entry, permit }),
            None => Err(entry),
        }
    }

    /// Takes the entry out of the queue and gives its reservation back.
    pub fn into_inner(self, budget: &mut QueueBudget) -> (r: LogEntry)
        requires
            old(budget).wf(),
            self.permit.bytes <= old(budget).used,
        ensures
            final(budget).wf(),
            r == self.entry,
            final(budget).used == old(budget).used - self.permit.bytes,
    {
        budget.release(self.permit);
        self.entry
    }
}

/// What an entry reserves: the bytes of its texts, 192 and the size of its row, and never
/// more than sixteen mebibytes, so that an empty queue takes any entry.
pub proof fn lemma_reservation(entry: LogEntry)
    ensures
        ({
            let bytes = vstd::utf8::encode_utf8(entry.time@).len() + vstd::utf8::encode_utf8(
                entry.tag@,
            ).len() + vstd::utf8::encode_utf8(entry.message@).len() + entry.process_bytes() + 192
                + vstd::layout::size_of::<LogEntry>();
            &&& bytes <= 16 * 1024 * 1024 ==> reserved_for(entry) == bytes
            &&& bytes > 16 * 1024 * 1024 ==> reserved_for(entry) == 16 * 1024 * 1024
        }),
{
}

} // verus!
