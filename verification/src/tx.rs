//! Read snapshots and write transactions with savepoints.

use crate::segment::CurrentSegment;
use vstd::prelude::*;

verus! {

/// A point a write transaction can roll back to: the next append offset and
/// frame number when it was taken, and the page-index entries added since.
pub struct Savepoint {
    /// Next in-segment offset at the time the savepoint was taken.
    pub next_offset: u32,
    /// Next frame number at the time the savepoint was taken.
    pub next_frame_no: u64,
    /// One entry per frame appended under this savepoint: the page it holds
    /// and its in-segment offset, in append order.
    pub index: Vec<(u32, u32)>,
}

/// A stable snapshot of the log taken when a connection begins reading.
#[derive(Clone, Copy)]
pub struct ReadTransaction {
    /// Fresh identifier handed out by the coordinator.
    pub id: u64,
    /// Last committed frame number at begin; nothing newer is visible.
    pub max_frame_no: u64,
    /// Logical database size in pages at begin.
    pub db_size: u32,
    /// The connection that begun the transaction.
    pub conn_id: u64,
    /// Pages served to this transaction so far.
    pub pages_read: u64,
}

/// The writer's state: it wraps the read snapshot it was upgraded from and
/// carries a stack of savepoints over the frames it appends.
pub struct WriteTransaction {
    /// The snapshot this writer was upgraded from.
    pub read_tx: ReadTransaction,
    /// Savepoint stack, oldest first; never empty.
    pub savepoints: Vec<Savepoint>,
    /// Frame number the next appended frame will take.
    pub next_frame_no: u64,
    /// In-segment offset the next appended frame will take.
    pub next_offset: u32,
    /// Whether a size-after-bearing frame has been appended.
    pub is_commited: bool,
}

/// Either side of the upgrade boundary.
pub enum Transaction {
    Read(ReadTransaction),
    Write(WriteTransaction),
}

impl Transaction {
    /// The snapshot bound: no frame above it is visible to this transaction.
    pub open spec fn spec_max_frame_no(&self) -> u64 {
        match self {
            Transaction::Read(r) => r.max_frame_no,
            Transaction::Write(w) => w.read_tx.max_frame_no,
        }
    }

    /// The connection that owns this transaction.
    pub open spec fn spec_conn_id(&self) -> u64 {
        match self {
            Transaction::Read(r) => r.conn_id,
            Transaction::Write(w) => w.read_tx.conn_id,
        }
    }

    /// Pages served so far.
    pub open spec fn spec_pages_read(&self) -> u64 {
        match self {
            Transaction::Read(r) => r.pages_read,
            Transaction::Write(w) => w.read_tx.pages_read,
        }
    }

    pub fn max_frame_no(&self) -> (r: u64)
        ensures
            r == self.spec_max_frame_no(),
    {
        match self {
            Transaction::Read(r) => r.max_frame_no,
            Transaction::Write(w) => w.read_tx.max_frame_no,
        }
    }
}

impl WriteTransaction {
    /// Offset of the first frame this writer may have appended: everything
    /// before it was already in the segment when the writer took the slot.
    pub open spec fn base_offset(&self) -> int {
        self.savepoints@[0].next_offset as int
    }

    /// Where savepoint `k`'s entries stop: the next savepoint's start, or
    /// the end of the segment for the top savepoint.
    pub open spec fn sp_end(&self, k: int, flen: int) -> int {
        if k + 1 < self.savepoints@.len() {
            self.savepoints@[k + 1].next_offset as int
        } else {
            flen
        }
    }

    /// How this writer relates to the segment it writes: its savepoints tile
    /// the appended region of the segment, entry by entry.
    pub open spec fn wf_for(&self, seg: &CurrentSegment) -> bool {
        let sps = self.savepoints@;
        let flen = seg.frames@.len() as int;
        &&& sps.len() >= 1
        &&& forall|k1: int, k2: int|
            0 <= k1 <= k2 < sps.len() ==> #[trigger] sps[k1].next_offset <= #[trigger] sps[k2].next_offset
        &&& forall|k: int| 0 <= k < sps.len() ==> #[trigger] sps[k].next_offset <= flen
        &&& forall|k: int|
            0 <= k < sps.len() ==> #[trigger] sps[k].next_frame_no == seg.start_frame_no + sps[k].next_offset
        &&& self.next_offset == flen
        &&& self.next_frame_no == seg.start_frame_no + flen
        &&& forall|k: int|
            0 <= k < sps.len() ==> #[trigger] sps[k].index@.len() == self.sp_end(k, flen)
                - sps[k].next_offset
        &&& forall|k: int, j: int|
            0 <= k < sps.len() && 0 <= j < sps[k].index@.len() ==> {
                &&& (#[trigger] sps[k].index@[j]).0 == seg.frames@[sps[k].next_offset + j].page_no
                &&& sps[k].index@[j].1 == sps[k].next_offset + j
            }
        &&& self.base_offset() <= seg.count_committed
        &&& (if self.is_commited {
            seg.count_committed == flen
        } else {
            seg.count_committed == self.base_offset()
        })
    }

    /// Pushes a fresh savepoint and returns its position in the stack.
    pub fn savepoint(&mut self) -> (k: usize)
        requires
            old(self).savepoints@.len() >= 1,
            old(self).savepoints@.len() < usize::MAX,
        ensures
            k == old(self).savepoints@.len(),
            final(self).savepoints@.len() == k + 1,
            final(self).read_tx == old(self).read_tx,
            final(self).next_frame_no == old(self).next_frame_no,
            final(self).next_offset == old(self).next_offset,
            final(self).is_commited == old(self).is_commited,
            forall|seg: CurrentSegment| old(self).wf_for(&seg) ==> final(self).wf_for(&seg),
    {
        let k = self.savepoints.len();
        self.savepoints.push(
            Savepoint { next_offset: self.next_offset, next_frame_no: self.next_frame_no, index: Vec::new() },
        );
        proof {
            assert forall|seg: CurrentSegment| old(self).wf_for(&seg) implies self.wf_for(&seg) by {
                let sps = self.savepoints@;
                let flen = seg.frames@.len() as int;
                assert(forall|q: int|
                    0 <= q < sps.len() - 1 ==> sps[q] == old(self).savepoints@[q]);
                assert(sps[k as int].index@.len() == 0);
            }
        }
        k
    }

    /// Discards every frame appended after savepoint `k` was taken: the
    /// segment's appended region, the offset and frame counters, and the
    /// index deltas all return to that point.
    pub fn rollback_to(&mut self, k: usize, seg: &mut CurrentSegment)
        requires
            old(self).wf_for(old(seg)),
            !old(self).is_commited,
            k < old(self).savepoints@.len(),
        ensures
            final(self).wf_for(final(seg)),
            !final(self).is_commited,
            final(self).read_tx == old(self).read_tx,
            final(self).savepoints@.len() == k + 1,
            final(seg).frames@ == old(seg).frames@.subrange(
                0,
                old(self).savepoints@[k as int].next_offset as int,
            ),
            final(seg).start_frame_no == old(seg).start_frame_no,
            final(seg).count_committed == old(seg).count_committed,
            final(seg).db_size == old(seg).db_size,
            final(seg).index == old(seg).index,
            final(seg).sealed == old(seg).sealed,
            final(seg).reader_count == old(seg).reader_count,
            final(self).next_offset == old(self).savepoints@[k as int].next_offset,
    {
        let ro: u32 = self.savepoints[k].next_offset;
        let rf: u64 = self.savepoints[k].next_frame_no;
        seg.frames.truncate(ro as usize);
        self.savepoints.truncate(k);
        self.savepoints.push(Savepoint { next_offset: ro, next_frame_no: rf, index: Vec::new() });
        self.next_offset = ro;
        self.next_frame_no = rf;
        proof {
            let sps = self.savepoints@;
            let osps = old(self).savepoints@;
            assert(forall|q: int| 0 <= q < k ==> sps[q] == osps[q]);
            assert(sps[k as int].next_offset == osps[k as int].next_offset);
            assert(seg.count_committed <= osps[k as int].next_offset);
        }
    }

    /// Marks the transaction committed. Everything it appended must already
    /// be visible: committing is a mark, not a flush.
    pub fn commit(&mut self)
        requires
            old(self).savepoints@.len() >= 1,
            old(self).next_offset == old(self).base_offset(),
        ensures
            final(self).is_commited,
            final(self).read_tx == old(self).read_tx,
            final(self).savepoints == old(self).savepoints,
            final(self).next_frame_no == old(self).next_frame_no,
            final(self).next_offset == old(self).next_offset,
            forall|seg: CurrentSegment| old(self).wf_for(&seg) ==> final(self).wf_for(&seg),
    {
        self.is_commited = true;
    }
}

} // verus!
