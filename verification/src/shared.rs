//! The shared coordinator of one database's log: reader/writer arbitration,
//! frame insertion, segment swap and checkpoint.

use crate::error::Error;
use crate::frame::Frame;
use crate::PAGE_SIZE;
use crate::bytes::copy_range_into;
use crate::sealed::{SealedSegment, apply_tail, tail_checkpoint, tail_latest, tail_read_page, tail_wf};
use crate::segment::{CurrentSegment, latest_page_at_most, page_matches};
use crate::tx::{ReadTransaction, Savepoint, Transaction, WriteTransaction};
use vstd::prelude::*;

verus! {

/// Commits beyond this many frames in one segment have it swapped out.
pub const SEGMENT_MAX_COMMITTED: usize = 1000;

/// Writer coordination state: who writes, who was promised the next try,
/// and who waits.
pub struct WalLock {
    /// Identifier of the transaction holding the writer slot.
    pub tx_id: Option<u64>,
    /// A connection granted the next attempt without queueing again; set
    /// when its fresh snapshot went stale through no reading of its own.
    pub reserved: Option<u64>,
    /// Source of fresh transaction identifiers.
    pub next_tx_id: u64,
    /// Connections waiting for the writer slot, first come first served.
    pub waiters: Vec<u64>,
}

/// What one attempt to take the writer slot did.
#[derive(Clone, Copy, Debug, PartialEq, Eq, Structural)]
pub enum UpgradeOutcome {
    /// The transaction now holds the writer slot.
    Acquired,
    /// The connection was queued; retry after being woken.
    Enqueued,
}

/// The per-database log state shared by every connection to it.
pub struct SharedWal {
    /// The appendable segment at the head of the log.
    pub current: CurrentSegment,
    /// Sealed segments not yet checkpointed, oldest first.
    pub tail: Vec<SealedSegment>,
    /// Writer coordination.
    pub wal_lock: WalLock,
    /// The base database file the log buffers changes to.
    pub db_file: Vec<u8>,
    /// Name this log is registered under.
    pub namespace: String,
    /// Highest frame number checkpointed into the base file.
    pub checkpointed_frame_no: u64,
    /// Last committed frame number published to listeners.
    pub new_frame_notifier: u64,
}

impl SharedWal {
    /// Frame numbers chain without gap from the checkpoint watermark through
    /// the sealed tail into the current segment, and the segment is quiescent
    /// whenever no writer holds the slot.
    pub open spec fn wf(&self) -> bool {
        &&& self.current.wf()
        &&& !self.current.sealed
        &&& tail_wf(self.tail@)
        &&& (self.tail@.len() > 0 ==> self.tail@[0].start_frame_no == self.checkpointed_frame_no
            + 1 && self.current.start_frame_no == self.tail@.last().end_frame_no + 1)
        &&& (self.tail@.len() == 0 ==> self.current.start_frame_no == self.checkpointed_frame_no
            + 1)
        &&& (self.wal_lock.tx_id is None ==> self.current.frames@.len()
            == self.current.count_committed)
    }

    /// A fresh log over `db_file`, whose first frame will be number 1.
    pub fn new(namespace: String, db_file: Vec<u8>, db_size: u32) -> (w: SharedWal)
        ensures
            w.wf(),
            w.namespace@ == namespace@,
            w.db_file@ == db_file@,
            w.checkpointed_frame_no == 0,
            w.current.start_frame_no == 1,
            w.current.count_committed == 0,
            w.current.db_size == db_size,
            w.tail@.len() == 0,
            w.wal_lock.tx_id is None,
            w.wal_lock.reserved is None,
            w.wal_lock.waiters@.len() == 0,
            w.wal_lock.next_tx_id == 0,
    {
        SharedWal {
            current: CurrentSegment::new(1, db_size),
            tail: Vec::new(),
            wal_lock: WalLock { tx_id: None, reserved: None, next_tx_id: 0, waiters: Vec::new() },
            db_file,
            namespace,
            checkpointed_frame_no: 0,
            new_frame_notifier: 0,
        }
    }

    /// Logical database size in pages as of the last commit.
    pub fn db_size(&self) -> (r: u32)
        ensures
            r == self.current.db_size,
    {
        self.current.db_size()
    }

    /// The last committed frame number.
    pub fn last_committed_frame_no(&self) -> (r: u64)
        requires
            self.wf(),
        ensures
            r == self.current.spec_last_committed(),
    {
        self.current.last_committed()
    }

    /// The name this log is registered under.
    pub fn namespace(&self) -> (r: &String)
        ensures
            r@ == self.namespace@,
    {
        &self.namespace
    }

    /// Highest frame number made durable in the base file so far.
    pub fn checkpointed_frame_no(&self) -> (r: u64)
        ensures
            r == self.checkpointed_frame_no,
    {
        self.checkpointed_frame_no
    }

    /// Opens a read transaction: a stable snapshot of the current segment.
    pub fn begin_read(&mut self, conn_id: u64) -> (tx: ReadTransaction)
        requires
            old(self).wf(),
            old(self).wal_lock.next_tx_id < u64::MAX,
            old(self).current.reader_count < usize::MAX,
        ensures
            final(self).wf(),
            tx.id == old(self).wal_lock.next_tx_id,
            tx.max_frame_no == old(self).current.spec_last_committed(),
            tx.db_size == old(self).current.db_size,
            tx.conn_id == conn_id,
            tx.pages_read == 0,
            final(self).wal_lock.next_tx_id == old(self).wal_lock.next_tx_id + 1,
            final(self).current.reader_count == old(self).current.reader_count + 1,
            final(self).current.frames == old(self).current.frames,
            final(self).current.count_committed == old(self).current.count_committed,
            final(self).current.start_frame_no == old(self).current.start_frame_no,
            final(self).current.db_size == old(self).current.db_size,
            final(self).tail == old(self).tail,
            final(self).db_file == old(self).db_file,
            final(self).checkpointed_frame_no == old(self).checkpointed_frame_no,
            final(self).wal_lock.tx_id == old(self).wal_lock.tx_id,
            final(self).wal_lock.reserved == old(self).wal_lock.reserved,
            final(self).wal_lock.waiters == old(self).wal_lock.waiters,
            final(self).namespace == old(self).namespace,
            final(self).new_frame_notifier == old(self).new_frame_notifier,
    {
        self.current.inc_reader_count();
        let header = self.current.with_header();
        let id = self.wal_lock.next_tx_id;
        self.wal_lock.next_tx_id = id + 1;
        ReadTransaction {
            id,
            max_frame_no: header.0,
            db_size: header.1,
            conn_id,
            pages_read: 0,
        }
    }

    /// Whether `read_tx` still reads from the newest committed state, so a
    /// write may begin on top of it.
    pub open spec fn snapshot_fresh(&self, read_tx: ReadTransaction) -> bool {
        read_tx.max_frame_no == self.current.spec_last_committed() && !self.current.sealed
    }

    /// Takes the writer slot for `read_tx`, or reports `BusySnapshot` when
    /// the log moved past its snapshot; a connection that had read at most
    /// one page is then granted the reserved retry slot.
    fn acquire_write(&mut self, read_tx: &ReadTransaction) -> (r: Result<WriteTransaction, Error>)
        requires
            old(self).wf(),
            old(self).wal_lock.tx_id is None,
        ensures
            final(self).wf(),
            final(self).current == old(self).current,
            final(self).tail == old(self).tail,
            final(self).db_file == old(self).db_file,
            final(self).checkpointed_frame_no == old(self).checkpointed_frame_no,
            final(self).namespace == old(self).namespace,
            final(self).new_frame_notifier == old(self).new_frame_notifier,
            final(self).wal_lock.next_tx_id == old(self).wal_lock.next_tx_id,
            final(self).wal_lock.waiters == old(self).wal_lock.waiters,
            old(self).snapshot_fresh(*read_tx) ==> {
                &&& (r matches Ok(w) && {
                    &&& w.read_tx == *read_tx
                    &&& !w.is_commited
                    &&& w.savepoints@.len() == 1
                    &&& w.savepoints@[0].next_offset == old(self).current.count_committed
                    &&& w.savepoints@[0].index@.len() == 0
                    &&& w.next_frame_no == old(self).current.spec_next_frame_no()
                    &&& w.next_offset == old(self).current.count_committed
                    &&& w.wf_for(&final(self).current)
                })
                &&& final(self).wal_lock.tx_id == Some(read_tx.id)
                &&& final(self).wal_lock.reserved == old(self).wal_lock.reserved
            },
            !old(self).snapshot_fresh(*read_tx) ==> {
                &&& r == Result::<WriteTransaction, Error>::Err(Error::BusySnapshot)
                &&& final(self).wal_lock.tx_id is None
                &&& final(self).wal_lock.reserved == (if read_tx.pages_read <= 1 {
                    Some(read_tx.conn_id)
                } else {
                    old(self).wal_lock.reserved
                })
            },
    {
        let last_committed = self.current.last_committed();
        if read_tx.max_frame_no != last_committed || self.current.is_sealed() {
            if read_tx.pages_read <= 1 {
                self.wal_lock.reserved = Some(read_tx.conn_id);
            }
            return Err(Error::BusySnapshot);
        }
        let next_offset: u32 = self.current.count_committed() as u32;
        let next_frame_no: u64 = self.current.next_frame_no();
        self.wal_lock.tx_id = Some(read_tx.id);
        let mut savepoints: Vec<Savepoint> = Vec::new();
        savepoints.push(Savepoint { next_offset, next_frame_no, index: Vec::new() });
        Ok(
            WriteTransaction {
                read_tx: *read_tx,
                savepoints,
                next_frame_no,
                next_offset,
                is_commited: false,
            },
        )
    }

    /// One step of the upgrade protocol: a reserved or uncontended connection
    /// attempts to take the writer slot; anyone else joins the queue and must
    /// park until woken by `end_write`.
    pub fn upgrade(&mut self, tx: &mut Transaction) -> (r: Result<UpgradeOutcome, Error>)
        requires
            old(self).wf(),
            old(tx) matches Transaction::Read(_),
            old(self).wal_lock.waiters@.len() < usize::MAX,
        ensures
            final(self).wf(),
            final(self).current == old(self).current,
            final(self).tail == old(self).tail,
            final(self).db_file == old(self).db_file,
            final(self).checkpointed_frame_no == old(self).checkpointed_frame_no,
            final(self).new_frame_notifier == old(self).new_frame_notifier,
            final(self).namespace == old(self).namespace,
            final(self).wal_lock.next_tx_id == old(self).wal_lock.next_tx_id,
            ({
                let rt = old(tx)->Read_0;
                let may_try = old(self).wal_lock.tx_id is None && (old(self).wal_lock.reserved
                    == Some(rt.conn_id) || old(self).wal_lock.waiters@.len() == 0);
                if may_try {
                    if old(self).snapshot_fresh(rt) {
                        &&& r == Result::<UpgradeOutcome, Error>::Ok(UpgradeOutcome::Acquired)
                        &&& (*final(tx) matches Transaction::Write(w) && w.read_tx == rt
                            && !w.is_commited && w.wf_for(&final(self).current)
                            && w.savepoints@.len() == 1
                            && w.savepoints@[0].next_offset == old(self).current.count_committed
                            && w.next_frame_no == old(self).current.spec_next_frame_no())
                        &&& final(self).wal_lock.tx_id == Some(rt.id)
                        &&& final(self).wal_lock.waiters == old(self).wal_lock.waiters
                    } else {
                        &&& r == Result::<UpgradeOutcome, Error>::Err(Error::BusySnapshot)
                        &&& *final(tx) == *old(tx)
                        &&& final(self).wal_lock.tx_id is None
                        &&& final(self).wal_lock.waiters == old(self).wal_lock.waiters
                        &&& final(self).wal_lock.reserved == (if rt.pages_read <= 1 {
                            Some(rt.conn_id)
                        } else if old(self).wal_lock.reserved == Some(rt.conn_id) {
                            None::<u64>
                        } else {
                            old(self).wal_lock.reserved
                        })
                    }
                } else {
                    &&& r == Result::<UpgradeOutcome, Error>::Ok(UpgradeOutcome::Enqueued)
                    &&& *final(tx) == *old(tx)
                    &&& final(self).wal_lock.tx_id == old(self).wal_lock.tx_id
                    &&& final(self).wal_lock.reserved == old(self).wal_lock.reserved
                    &&& final(self).wal_lock.waiters@ == old(self).wal_lock.waiters@.push(
                        rt.conn_id,
                    )
                }
            }),
    {
        let conn_id: u64 = match &*tx {
            Transaction::Read(r) => r.conn_id,
            Transaction::Write(_) => 0,
        };
        let is_reserved: bool = match self.wal_lock.reserved {
            Some(c) => c == conn_id,
            None => false,
        };
        let slot_free: bool = match self.wal_lock.tx_id {
            Some(_) => false,
            None => true,
        };
        if slot_free && (is_reserved || self.wal_lock.waiters.is_empty()) {
            if is_reserved {
                self.wal_lock.reserved = None;
            }
            let read_tx: ReadTransaction = match &*tx {
                Transaction::Read(r) => *r,
                Transaction::Write(w) => w.read_tx,
            };
            match self.acquire_write(&read_tx) {
                Ok(w) => {
                    *tx = Transaction::Write(w);
                    Ok(UpgradeOutcome::Acquired)
                },
                Err(e) => Err(e),
            }
        } else {
            self.wal_lock.waiters.push(conn_id);
            Ok(UpgradeOutcome::Enqueued)
        }
    }

    /// Releases the writer slot: frames never committed vanish from the
    /// segment, and the longest-waiting connection, if any, is granted the
    /// reserved slot and returned so the caller can wake it.
    pub fn end_write(&mut self, tx: WriteTransaction) -> (woken: Option<u64>)
        requires
            old(self).wf(),
            tx.wf_for(&old(self).current),
            old(self).wal_lock.tx_id == Some(tx.read_tx.id),
        ensures
            final(self).wf(),
            final(self).wal_lock.tx_id is None,
            final(self).tail == old(self).tail,
            final(self).db_file == old(self).db_file,
            final(self).checkpointed_frame_no == old(self).checkpointed_frame_no,
            final(self).new_frame_notifier == old(self).new_frame_notifier,
            final(self).namespace == old(self).namespace,
            final(self).wal_lock.next_tx_id == old(self).wal_lock.next_tx_id,
            tx.is_commited ==> final(self).current == old(self).current,
            !tx.is_commited ==> final(self).current == (CurrentSegment {
                frames: final(self).current.frames,
                ..old(self).current
            }) && final(self).current.frames@ == old(self).current.frames@.subrange(
                0,
                old(self).current.count_committed as int,
            ),
            ({
                let oldq = old(self).wal_lock.waiters@;
                if oldq.len() == 0 {
                    &&& woken is None
                    &&& final(self).wal_lock.waiters@.len() == 0
                    &&& final(self).wal_lock.reserved == old(self).wal_lock.reserved
                } else {
                    &&& woken == Some(oldq[0])
                    &&& final(self).wal_lock.waiters@ == oldq.drop_first()
                    &&& final(self).wal_lock.reserved == Some(oldq[0])
                }
            }),
    {
        if !tx.is_commited {
            let count = self.current.count_committed();
            self.current.frames.truncate(count);
        }
        self.wal_lock.tx_id = None;
        if self.wal_lock.waiters.len() > 0 {
            let c: u64 = self.wal_lock.waiters.remove(0);
            proof {
                assert(self.wal_lock.waiters@ =~= old(self).wal_lock.waiters@.drop_first());
            }
            self.wal_lock.reserved = Some(c);
            Some(c)
        } else {
            None
        }
    }
}

impl SharedWal {
    /// What a transaction reads for page `p`: its own appended frames and the
    /// committed frames of the current segment first, then the sealed tail,
    /// all bounded by its snapshot; pages in none of them come from the base
    /// file.
    pub open spec fn page_source(&self, tx: &Transaction, p: u32) -> PageSource {
        match self.current.find_spec(tx, p) {
            Some(off) => PageSource::Current(off as int),
            None => match tail_latest(self.tail@, tx.spec_max_frame_no(), p) {
                Some(sj) => PageSource::Tail(sj.0, sj.1),
                None => PageSource::Base,
            },
        }
    }

    /// Serves page `p` under `tx`: the newest frame of `p` visible to the
    /// transaction, from the current segment, then the sealed tail, then the
    /// base file; exactly `read_frame` of the log's interface.
    pub fn read_frame(&self, tx: &mut Transaction, page_no: u32, buffer: &mut Vec<u8>) -> (r:
        Result<(), Error>)
        requires
            self.wf(),
            page_no >= 1,
            *old(tx) matches Transaction::Write(w) ==> w.wf_for(&self.current),
            old(tx).spec_pages_read() < u64::MAX,
        ensures
            ({
                let src = self.page_source(old(tx), page_no);
                match src {
                    PageSource::Current(off) => r is Ok && final(buffer)@
                        == self.current.frames@[off].data@,
                    PageSource::Tail(s, j) => r is Ok && final(buffer)@
                        == self.tail@[s].frames@[j].data@,
                    PageSource::Base => {
                        if (page_no as int) * (PAGE_SIZE as int) <= self.db_file@.len() {
                            r is Ok && final(buffer)@ == self.db_file@.subrange(
                                (page_no - 1) * PAGE_SIZE,
                                (page_no as int) * (PAGE_SIZE as int),
                            )
                        } else {
                            r == Result::<(), Error>::Err(Error::Io) && final(buffer)@ == old(
                                buffer,
                            )@
                        }
                    },
                }
            }),
            r is Ok ==> tx_after_read(*old(tx), *final(tx)),
            r is Err ==> *final(tx) == *old(tx),
    {
        let ghost src = self.page_source(old(tx), page_no);
        match self.current.find_frame(page_no, tx) {
            Some(off) => {
                proof {
                    let flen = self.current.frames@.len() as int;
                    if *old(tx) is Write {
                        let w = old(tx)->Write_0;
                        crate::segment::lemma_latest_page_props(
                            self.current.frames@,
                            w.base_offset(),
                            flen,
                            u64::MAX,
                            page_no,
                        );
                    }
                    crate::segment::lemma_latest_page_props(
                        self.current.frames@,
                        0,
                        self.current.count_committed as int,
                        old(tx).spec_max_frame_no(),
                        page_no,
                    );
                }
                self.current.read_page_offset(off, buffer);
            },
            None => {
                let max = tx.max_frame_no();
                if !tail_read_page(&self.tail, page_no, max, buffer) {
                    let need: u64 = page_no as u64 * PAGE_SIZE as u64;
                    if need > self.db_file.len() as u64 {
                        return Err(Error::Io);
                    }
                    let at: usize = ((page_no as u64 - 1) * PAGE_SIZE as u64) as usize;
                    proof {
                        assert((page_no as int - 1) * (PAGE_SIZE as int) == (page_no as int) * (
                        PAGE_SIZE as int) - PAGE_SIZE) by (nonlinear_arith);
                    }
                    copy_range_into(buffer, &self.db_file, at, PAGE_SIZE as usize);
                }
            },
        }
        match tx {
            Transaction::Read(rt) => {
                rt.pages_read = rt.pages_read + 1;
            },
            Transaction::Write(wt) => {
                wt.read_tx.pages_read = wt.read_tx.pages_read + 1;
            },
        }
        Ok(())
    }

    /// Appends `pages` under the held writer; a commit publishes the new
    /// last-committed frame number to listeners, and a segment grown past
    /// `SEGMENT_MAX_COMMITTED` committed frames is swapped out.
    pub fn insert_frames(
        &mut self,
        tx: &mut WriteTransaction,
        pages: &Vec<(u32, Vec<u8>)>,
        size_after: Option<u32>,
    ) -> (r: Result<(), Error>)
        requires
            old(self).wf(),
            old(tx).wf_for(&old(self).current),
            old(self).wal_lock.tx_id == Some(old(tx).read_tx.id),
            !old(tx).is_commited,
            forall|q: int|
                0 <= q < pages@.len() ==> {
                    &&& (#[trigger] pages@[q]).0 >= 1
                    &&& pages@[q].1@.len() == PAGE_SIZE
                    &&& (pages@[q].0 as int) * (PAGE_SIZE as int) <= usize::MAX
                },
            old(self).current.frames@.len() + pages@.len() <= u32::MAX,
            old(self).current.start_frame_no + old(self).current.frames@.len() + pages@.len()
                <= u64::MAX,
            size_after matches Some(s) ==> s >= 1,
            pages@.len() >= 1 || size_after is None,
        ensures
            r is Ok,
            final(self).wf(),
            final(tx).read_tx == old(tx).read_tx,
            final(tx).is_commited == (size_after is Some),
            final(self).db_file == old(self).db_file,
            final(self).checkpointed_frame_no == old(self).checkpointed_frame_no,
            final(self).wal_lock == old(self).wal_lock,
            final(self).namespace == old(self).namespace,
            size_after is None ==> {
                &&& final(tx).wf_for(&final(self).current)
                &&& final(self).tail == old(self).tail
                &&& final(self).new_frame_notifier == old(self).new_frame_notifier
                &&& final(self).current.count_committed == old(self).current.count_committed
                &&& final(self).current.start_frame_no == old(self).current.start_frame_no
                &&& final(self).current.frames@.len() == old(self).current.frames@.len()
                    + pages@.len()
                &&& appended(old(self).current, final(self).current, pages@, size_after)
            },
            size_after is Some ==> {
                let last = (old(self).current.start_frame_no + old(self).current.frames@.len()
                    + pages@.len() - 1) as u64;
                &&& final(self).new_frame_notifier == last
                &&& (if old(self).current.frames@.len() + pages@.len()
                    > SEGMENT_MAX_COMMITTED {
                    // the grown segment was sealed and swapped out
                    &&& final(self).tail@.len() == old(self).tail@.len() + 1
                    &&& final(self).tail@.last().end_frame_no == last
                    &&& final(self).current.start_frame_no == last + 1
                    &&& final(self).current.count_committed == 0
                } else {
                    &&& final(self).tail == old(self).tail
                    &&& final(self).current.count_committed == old(self).current.frames@.len()
                        + pages@.len()
                    &&& final(self).current.start_frame_no == old(self).current.start_frame_no
                    &&& appended(old(self).current, final(self).current, pages@, size_after)
                    &&& final(self).current.db_size == size_after->0
                })
            },
    {
        let r = self.current.insert_pages(pages, size_after, tx);
        if let Some(last_committed) = r {
            self.new_frame_notifier = last_committed;
        }
        if tx.is_commited && self.current.count_committed() > SEGMENT_MAX_COMMITTED {
            crate::registry::swap_current(self, tx);
        }
        Ok(())
    }

    /// Swaps a full, committed current segment into the sealed tail and
    /// installs a fresh one behind it; a segment with no commits stays.
    pub fn swap_current(&mut self, tx: &WriteTransaction) -> (r: Result<(), Error>)
        requires
            old(self).wf(),
            tx.is_commited,
            tx.wf_for(&old(self).current),
        ensures
            r is Ok,
            final(self).wf(),
            swapped(*old(self), *final(self)),
    {
        crate::registry::swap_current(self, tx);
        Ok(())
    }

    /// Drains the sealed tail into the base file; returns the frame number
    /// the durable watermark advanced to, or nothing when the tail was empty.
    /// The watermark never moves backwards.
    pub fn checkpoint(&mut self) -> (r: Result<Option<u64>, Error>)
        requires
            old(self).wf(),
        ensures
            final(self).wf(),
            final(self).checkpointed_frame_no >= old(self).checkpointed_frame_no,
            final(self).current == old(self).current,
            final(self).wal_lock == old(self).wal_lock,
            final(self).namespace == old(self).namespace,
            final(self).tail@.len() == 0,
            final(self).db_file@ == apply_tail(old(self).db_file@, old(self).tail@),
            old(self).tail@.len() == 0 ==> {
                &&& r == Result::<Option<u64>, Error>::Ok(None::<u64>)
                &&& final(self).checkpointed_frame_no == old(self).checkpointed_frame_no
                &&& final(self).db_file@ == old(self).db_file@
                &&& final(self).new_frame_notifier == old(self).new_frame_notifier
            },
            old(self).tail@.len() > 0 ==> {
                let f = old(self).tail@.last().end_frame_no;
                &&& r == Result::<Option<u64>, Error>::Ok(Some(f))
                &&& final(self).checkpointed_frame_no == f
                &&& f > old(self).checkpointed_frame_no
            },
    {
        proof {
            if self.tail@.len() > 0 {
                lemma_tail_last_end(self.tail@);
            }
        }
        match tail_checkpoint(&mut self.tail, &mut self.db_file) {
            Some(frame_no) => {
                self.checkpointed_frame_no = frame_no;
                Ok(Some(frame_no))
            },
            None => Ok(None),
        }
    }
}

/// Where `read_frame` found its page.
pub enum PageSource {
    /// An offset into the current segment.
    Current(int),
    /// A segment position in the tail and an offset within that segment.
    Tail(int, int),
    /// The base database file.
    Base,
}

/// How a transaction looks after a successful page read: one more page read,
/// everything else unchanged.
pub open spec fn tx_after_read(before: Transaction, after: Transaction) -> bool {
    match (before, after) {
        (Transaction::Read(b), Transaction::Read(a)) => a == ReadTransaction {
            pages_read: (b.pages_read + 1) as u64,
            ..b
        },
        (Transaction::Write(b), Transaction::Write(a)) => {
            &&& a.read_tx == ReadTransaction { pages_read: (b.read_tx.pages_read + 1) as u64, ..b.read_tx }
            &&& a.savepoints == b.savepoints
            &&& a.next_frame_no == b.next_frame_no
            &&& a.next_offset == b.next_offset
            &&& a.is_commited == b.is_commited
        },
        _ => false,
    }
}

/// The frames `insert_pages` appends: one per page, in order, numbered on
/// from the end of the segment, the last one carrying `size_after`.
pub open spec fn appended(
    before: CurrentSegment,
    after: CurrentSegment,
    pages: Seq<(u32, Vec<u8>)>,
    size_after: Option<u32>,
) -> bool {
    &&& after.frames@.len() == before.frames@.len() + pages.len()
    &&& forall|q: int| 0 <= q < before.frames@.len() ==> #[trigger] after.frames@[q] == before.frames@[q]
    &&& forall|q: int|
        0 <= q < pages.len() ==> {
            let nf = #[trigger] after.frames@[before.frames@.len() + q];
            &&& nf.page_no == pages[q].0
            &&& nf.data@ == pages[q].1@
            &&& nf.frame_no == before.start_frame_no + before.frames@.len() + q
            &&& nf.size_after == (if size_after is Some && q == pages.len() - 1 {
                size_after->0
            } else {
                0
            })
        }
}

/// How a log looks after `swap_current`: nothing committed means nothing
/// moved; otherwise the whole committed segment stands sealed at the back of
/// the tail and a fresh current segment starts right after it.
pub open spec fn swapped(before: SharedWal, after: SharedWal) -> bool {
    &&& after.db_file == before.db_file
    &&& after.checkpointed_frame_no == before.checkpointed_frame_no
    &&& after.wal_lock == before.wal_lock
    &&& after.namespace == before.namespace
    &&& after.new_frame_notifier == before.new_frame_notifier
    &&& if before.current.count_committed == 0 {
        after == before
    } else {
        &&& after.tail@ == before.tail@.push(after.tail@.last())
        &&& after.tail@.last().start_frame_no == before.current.start_frame_no
        &&& after.tail@.last().end_frame_no == before.current.spec_last_committed()
        &&& after.tail@.last().size_after == before.current.db_size
        &&& after.tail@.last().frames@ == before.current.frames@
        &&& after.current.start_frame_no == after.tail@.last().end_frame_no + 1
        &&& after.current.count_committed == 0
        &&& after.current.frames@.len() == 0
        &&& after.current.db_size == before.current.db_size
        &&& !after.current.sealed
    }
}

/// Dropping the newest segment keeps a tail chained.
proof fn lemma_tail_wf_drop_last(tail: Seq<SealedSegment>)
    requires
        tail_wf(tail),
        tail.len() > 0,
    ensures
        tail_wf(tail.drop_last()),
{
    let d = tail.drop_last();
    assert forall|i: int| 0 <= i < d.len() implies (#[trigger] d[i]).wf() by {
        assert(d[i] == tail[i]);
    }
    assert forall|i: int| 0 <= i < d.len() - 1 implies (#[trigger] d[i + 1]).start_frame_no == d[i].end_frame_no + 1 by {
        assert(d[i] == tail[i]);
        assert(d[i + 1] == tail[i + 1]);
    }
}

/// In a chained tail the last segment ends at or after the first one starts.
pub proof fn lemma_tail_last_end(tail: Seq<SealedSegment>)
    requires
        tail_wf(tail),
        tail.len() > 0,
    ensures
        tail.last().end_frame_no >= tail[0].start_frame_no,
    decreases tail.len(),
{
    if tail.len() > 1 {
        lemma_tail_wf_drop_last(tail);
        lemma_tail_last_end(tail.drop_last());
        let i = tail.len() - 2;
        assert(tail[i + 1].start_frame_no == tail[i].end_frame_no + 1);
        assert(tail.drop_last().last() == tail[i]);
        assert(tail.drop_last()[0] == tail[0]);
    }
}

/// Every frame of the log in order: the sealed tail's, oldest first, then
/// the committed frames of the current segment.
pub open spec fn tail_frames(tail: Seq<SealedSegment>) -> Seq<Frame>
    decreases tail.len(),
{
    if tail.len() == 0 {
        Seq::empty()
    } else {
        tail_frames(tail.drop_last()).add(tail.last().frames@)
    }
}

/// The committed frames of the whole log, oldest first.
pub open spec fn wal_frames(w: SharedWal) -> Seq<Frame> {
    tail_frames(w.tail@).add(w.current.frames@.take(w.current.count_committed as int))
}

/// Frame numbers in a chained tail run without gap from `base`.
proof fn lemma_tail_frames_contiguous(tail: Seq<SealedSegment>, base: u64)
    requires
        tail_wf(tail),
        tail.len() > 0 ==> tail[0].start_frame_no == base,
    ensures
        forall|i: int|
            0 <= i < tail_frames(tail).len() ==> (#[trigger] tail_frames(tail)[i]).frame_no == base
                + i,
        tail.len() > 0 ==> base + tail_frames(tail).len() == tail.last().end_frame_no + 1,
        tail.len() == 0 ==> tail_frames(tail).len() == 0,
    decreases tail.len(),
{
    if tail.len() > 0 {
        lemma_tail_wf_drop_last(tail);
        if tail.len() > 1 {
            let i = tail.len() - 2;
            assert(tail.drop_last()[0] == tail[0]);
            assert(tail[i + 1].start_frame_no == tail[i].end_frame_no + 1);
            assert(tail.drop_last().last() == tail[i]);
        }
        lemma_tail_frames_contiguous(tail.drop_last(), base);
        let pre = tail_frames(tail.drop_last());
        let seg = tail.last();
        assert(seg.wf());
        assert forall|i: int| 0 <= i < tail_frames(tail).len() implies (#[trigger] tail_frames(
            tail,
        )[i]).frame_no == base + i by {
            if i < pre.len() {
                assert(tail_frames(tail)[i] == pre[i]);
            } else {
                assert(tail_frames(tail)[i] == seg.frames@[i - pre.len()]);
                assert(seg.frames@[i - pre.len()].frame_no == seg.start_frame_no + (i - pre.len()));
            }
        }
    }
}

/// Frame numbers issued by one database form a strictly increasing sequence
/// with no gaps: the `i`-th committed frame of the log, across all segments,
/// is numbered exactly `i + 1` past the checkpoint watermark.
pub proof fn lemma_frame_numbers_contiguous(w: SharedWal)
    requires
        w.wf(),
    ensures
        forall|i: int|
            0 <= i < wal_frames(w).len() ==> (#[trigger] wal_frames(w)[i]).frame_no
                == w.checkpointed_frame_no + 1 + i,
{
    lemma_tail_frames_contiguous(w.tail@, (w.checkpointed_frame_no + 1) as u64);
    let pre = tail_frames(w.tail@);
    let cur = w.current.frames@.take(w.current.count_committed as int);
    assert forall|i: int| 0 <= i < wal_frames(w).len() implies (#[trigger] wal_frames(w)[i]).frame_no
        == w.checkpointed_frame_no + 1 + i by {
        if i < pre.len() {
            assert(wal_frames(w)[i] == pre[i]);
        } else {
            assert(wal_frames(w)[i] == cur[i - pre.len()]);
            assert(cur[i - pre.len()] == w.current.frames@[i - pre.len()]);
            assert(w.current.frames@[i - pre.len()].frame_no == w.current.start_frame_no + (i
                - pre.len()));
        }
    }
}

/// A reader's snapshot excludes a later writer entirely: whatever frame the
/// search serves under the snapshot bound `max` is numbered at most `max`,
/// hence below every frame a writer that began after the snapshot appends.
pub proof fn lemma_snapshot_isolation(w: SharedWal, max: u64, p: u32, writer_first: u64)
    requires
        w.wf(),
        max < writer_first,
    ensures
        ({
            match latest_page_at_most(w.current.frames@, 0, w.current.count_committed as int, max, p) {
                Some(j) => w.current.frames@[j].frame_no < writer_first,
                None => true,
            }
        }),
        ({
            match tail_latest(w.tail@, max, p) {
                Some(sj) => w.tail@[sj.0].frames@[sj.1].frame_no < writer_first,
                None => true,
            }
        }),
{
    crate::segment::lemma_latest_page_props(
        w.current.frames@,
        0,
        w.current.count_committed as int,
        max,
        p,
    );
    lemma_tail_latest_in_bounds(w.tail@, max, p);
}

/// A hit in the tail names a real frame, and one visible under `max`.
proof fn lemma_tail_latest_in_bounds(tail: Seq<SealedSegment>, max: u64, p: u32)
    ensures
        match tail_latest(tail, max, p) {
            Some(sj) => 0 <= sj.0 < tail.len() && 0 <= sj.1 < tail[sj.0].frames@.len()
                && tail[sj.0].frames@[sj.1].frame_no <= max && tail[sj.0].frames@[sj.1].page_no
                == p,
            None => true,
        },
    decreases tail.len(),
{
    if tail.len() > 0 {
        crate::segment::lemma_latest_page_props(
            tail.last().frames@,
            0,
            tail.last().frames@.len() as int,
            max,
            p,
        );
        lemma_tail_latest_in_bounds(tail.drop_last(), max, p);
        if tail_latest(tail.drop_last(), max, p) is Some {
            let sj = tail_latest(tail.drop_last(), max, p)->Some_0;
            assert(tail.drop_last()[sj.0] == tail[sj.0]);
        }
    }
}

/// Wherever `read_frame` finds its page in the log, the stored payload is a
/// full page.
pub proof fn lemma_page_source_sizes(w: &SharedWal, tx: &Transaction, p: u32)
    requires
        w.wf(),
        *tx matches Transaction::Write(wt) ==> wt.wf_for(&w.current),
    ensures
        match w.page_source(tx, p) {
            PageSource::Current(off) => 0 <= off < w.current.frames@.len()
                && w.current.frames@[off].data@.len() == PAGE_SIZE,
            PageSource::Tail(s, j) => 0 <= s < w.tail@.len() && 0 <= j
                < w.tail@[s].frames@.len() && w.tail@[s].frames@[j].data@.len() == PAGE_SIZE,
            PageSource::Base => true,
        },
{
    let flen = w.current.frames@.len() as int;
    if *tx is Write {
        let wt = tx->Write_0;
        crate::segment::lemma_latest_page_props(
            w.current.frames@,
            wt.base_offset(),
            flen,
            u64::MAX,
            p,
        );
    }
    crate::segment::lemma_latest_page_props(
        w.current.frames@,
        0,
        w.current.count_committed as int,
        tx.spec_max_frame_no(),
        p,
    );
    lemma_tail_latest_in_bounds(w.tail@, tx.spec_max_frame_no(), p);
    if w.current.find_spec(tx, p) is None {
        if tail_latest(w.tail@, tx.spec_max_frame_no(), p) is Some {
            let sj = tail_latest(w.tail@, tx.spec_max_frame_no(), p)->Some_0;
            assert(w.tail@[sj.0].wf());
            assert(w.tail@[sj.0].frames@[sj.1].wf());
        }
    }
}

/// Whether sealed segment `s` visibly holds page `p` at offset `i` under
/// snapshot `max`.
pub open spec fn tail_matches(
    tail: Seq<SealedSegment>,
    max: u64,
    p: u32,
    s: int,
    i: int,
) -> bool {
    &&& 0 <= s < tail.len()
    &&& 0 <= i < tail[s].frames@.len()
    &&& tail[s].frames@[i].page_no == p
    &&& tail[s].frames@[i].frame_no <= max
}

/// The tail search returns a real visible match with nothing newer after it,
/// and misses only when no sealed segment holds one.
proof fn lemma_tail_latest_max(tail: Seq<SealedSegment>, max: u64, p: u32)
    ensures
        match tail_latest(tail, max, p) {
            Some(sj) => {
                &&& tail_matches(tail, max, p, sj.0, sj.1)
                &&& forall|i: int|
                    sj.1 < i < tail[sj.0].frames@.len() ==> !tail_matches(tail, max, p, sj.0, i)
                &&& forall|s: int, i: int| s > sj.0 ==> !tail_matches(tail, max, p, s, i)
            },
            None => forall|s: int, i: int| !tail_matches(tail, max, p, s, i),
        },
    decreases tail.len(),
{
    if tail.len() > 0 {
        let seg = tail.last();
        crate::segment::lemma_latest_page_props(seg.frames@, 0, seg.frames@.len() as int, max, p);
        lemma_tail_latest_max(tail.drop_last(), max, p);
        match latest_page_at_most(seg.frames@, 0, seg.frames@.len() as int, max, p) {
            Some(j) => {
                assert forall|i: int|
                    j < i < tail[tail.len() - 1].frames@.len() implies !(#[trigger] tail_matches(
                    tail,
                    max,
                    p,
                    tail.len() - 1,
                    i,
                )) by {
                    assert(!page_matches(seg.frames@, max, p, i));
                }
            },
            None => {
                assert forall|s: int, i: int|
                    tail_matches(tail, max, p, s, i) implies tail_matches(
                    tail.drop_last(),
                    max,
                    p,
                    s,
                    i,
                ) by {
                    if s < tail.len() - 1 {
                        assert(tail.drop_last()[s] == tail[s]);
                    } else {
                        assert(page_matches(seg.frames@, max, p, i));
                    }
                }
                if tail_latest(tail.drop_last(), max, p) is Some {
                    let sj = tail_latest(tail.drop_last(), max, p)->Some_0;
                    assert(tail.drop_last()[sj.0] == tail[sj.0]);
                    assert forall|i: int|
                        sj.1 < i < tail[sj.0].frames@.len() implies !tail_matches(
                        tail,
                        max,
                        p,
                        sj.0,
                        i,
                    ) by {
                        assert(!tail_matches(tail.drop_last(), max, p, sj.0, i));
                    }
                    assert forall|s: int, i: int| s > sj.0 implies !tail_matches(
                        tail,
                        max,
                        p,
                        s,
                        i,
                    ) by {
                        if s < tail.len() - 1 {
                            assert(!tail_matches(tail.drop_last(), max, p, s, i));
                            assert(tail.drop_last()[s] == tail[s]);
                        } else if s == tail.len() - 1 && 0 <= i < seg.frames@.len() {
                            assert(!page_matches(seg.frames@, max, p, i));
                        }
                    }
                } else {
                    assert forall|s: int, i: int| !tail_matches(tail, max, p, s, i) by {
                        if tail_matches(tail, max, p, s, i) {
                            assert(tail_matches(tail.drop_last(), max, p, s, i));
                        }
                    }
                }
            },
        }
    }
}

/// Segments earlier in the tail end before later ones begin.
proof fn lemma_tail_order(tail: Seq<SealedSegment>, s1: int, s2: int)
    requires
        tail_wf(tail),
        0 <= s1 < s2 < tail.len(),
    ensures
        tail[s1].end_frame_no < tail[s2].start_frame_no,
    decreases s2 - s1,
{
    assert(tail[s2 - 1 + 1].start_frame_no == tail[s2 - 1].end_frame_no + 1);
    if s1 < s2 - 1 {
        lemma_tail_order(tail, s1, s2 - 1);
        assert(tail[s2 - 1].wf());
    }
}

/// For every page `p`, the page served under a read snapshot is the payload
/// of the highest-numbered frame no newer than the snapshot holding `p`,
/// across the current segment and the sealed tail; only a page neither holds
/// comes from the base file.
pub proof fn lemma_read_serves_highest(w: SharedWal, tx: Transaction, p: u32)
    requires
        w.wf(),
        tx is Read,
    ensures
        ({
            let max = tx.spec_max_frame_no();
            let cur = w.current.frames@;
            let count = w.current.count_committed as int;
            match w.page_source(&tx, p) {
                PageSource::Current(off) => {
                    &&& 0 <= off < count
                    &&& page_matches(cur, max, p, off)
                    &&& forall|j: int| off < j < count ==> !page_matches(cur, max, p, j)
                    &&& forall|s: int, i: int|
                        tail_matches(w.tail@, max, p, s, i) ==> w.tail@[s].frames@[i].frame_no
                            < cur[off].frame_no
                },
                PageSource::Tail(s, j) => {
                    &&& tail_matches(w.tail@, max, p, s, j)
                    &&& forall|j2: int| 0 <= j2 < count ==> !page_matches(cur, max, p, j2)
                    &&& forall|s2: int, i2: int|
                        tail_matches(w.tail@, max, p, s2, i2) ==> w.tail@[s2].frames@[i2].frame_no
                            <= w.tail@[s].frames@[j].frame_no
                },
                PageSource::Base => {
                    &&& forall|j2: int| 0 <= j2 < count ==> !page_matches(cur, max, p, j2)
                    &&& forall|s2: int, i2: int| !tail_matches(w.tail@, max, p, s2, i2)
                },
            }
        }),
{
    let max = tx.spec_max_frame_no();
    let cur = w.current.frames@;
    let count = w.current.count_committed as int;
    crate::segment::lemma_latest_page_props(cur, 0, count, max, p);
    lemma_tail_latest_max(w.tail@, max, p);
    assert forall|s: int, i: int| tail_matches(w.tail@, max, p, s, i) implies w.tail@[s].frames@[i].frame_no
        < w.current.start_frame_no by {
        let seg = w.tail@[s];
        assert(seg.wf());
        assert(seg.frames@[i].frame_no == seg.start_frame_no + i);
        if s < w.tail@.len() - 1 {
            lemma_tail_order(w.tail@, s, w.tail@.len() - 1);
            assert(w.tail@.last().wf());
        }
    }
    match w.page_source(&tx, p) {
        PageSource::Current(off) => {
            assert(cur[off].frame_no == w.current.start_frame_no + off);
        },
        PageSource::Tail(s, j) => {
            let served = w.tail@[s].frames@[j];
            assert forall|s2: int, i2: int|
                tail_matches(w.tail@, max, p, s2, i2) implies w.tail@[s2].frames@[i2].frame_no
                <= served.frame_no by {
                if s2 < s {
                    lemma_tail_order(w.tail@, s2, s);
                    assert(w.tail@[s2].wf());
                    assert(w.tail@[s].wf());
                    assert(w.tail@[s2].frames@[i2].frame_no <= w.tail@[s2].end_frame_no);
                    assert(served.frame_no == w.tail@[s].start_frame_no + j);
                } else if s2 == s {
                    assert(w.tail@[s].wf());
                    if i2 > j {
                        assert(!tail_matches(w.tail@, max, p, s, i2));
                    }
                }
            }
        },
        PageSource::Base => {},
    }
}

/// Applying two runs of frames one after the other applies their
/// concatenation.
proof fn lemma_apply_frames_concat(db: Seq<u8>, a: Seq<Frame>, b: Seq<Frame>)
    ensures
        crate::sealed::apply_frames(db, a.add(b)) == crate::sealed::apply_frames(
            crate::sealed::apply_frames(db, a),
            b,
        ),
    decreases b.len(),
{
    if b.len() == 0 {
        assert(a.add(b) =~= a);
    } else {
        let bl = b.last();
        assert(a.add(b) =~= a.add(b.drop_last()).push(bl));
        assert(b.drop_last().push(bl) =~= b);
        lemma_apply_frames_concat(db, a, b.drop_last());
        crate::sealed::lemma_apply_frames_push(db, a.add(b.drop_last()), bl);
        crate::sealed::lemma_apply_frames_push(crate::sealed::apply_frames(db, a), b.drop_last(), bl);
    }
}

/// Applying the tail segment by segment applies all their frames in order.
proof fn lemma_apply_tail_flat(db: Seq<u8>, tail: Seq<SealedSegment>)
    ensures
        apply_tail(db, tail) == crate::sealed::apply_frames(db, tail_frames(tail)),
    decreases tail.len(),
{
    if tail.len() > 0 {
        let front = tail.drop_last();
        let seg = tail.last();
        assert(front.push(seg) =~= tail);
        crate::sealed::lemma_apply_tail_push(db, front, seg);
        lemma_apply_tail_flat(db, front);
        lemma_apply_frames_concat(db, tail_frames(front), seg.frames@);
    }
}

/// Every frame of a chained tail is well formed.
proof fn lemma_tail_frames_wf(tail: Seq<SealedSegment>)
    requires
        tail_wf(tail),
    ensures
        forall|i: int| 0 <= i < tail_frames(tail).len() ==> (#[trigger] tail_frames(tail)[i]).wf(),
    decreases tail.len(),
{
    if tail.len() > 0 {
        lemma_tail_wf_drop_last(tail);
        lemma_tail_frames_wf(tail.drop_last());
        let pre = tail_frames(tail.drop_last());
        let seg = tail.last();
        assert(seg.wf());
        assert forall|i: int| 0 <= i < tail_frames(tail).len() implies (#[trigger] tail_frames(
            tail,
        )[i]).wf() by {
            if i < pre.len() {
                assert(tail_frames(tail)[i] == pre[i]);
            } else {
                assert(tail_frames(tail)[i] == seg.frames@[i - pre.len()]);
            }
        }
    }
}

/// What a checkpoint leaves in the base file: for every page, its region
/// holds the data of the newest drained frame of that page; a page no
/// drained frame touched keeps its bytes.
pub proof fn lemma_checkpoint_serves_latest(db: Seq<u8>, tail: Seq<SealedSegment>, p: u32)
    requires
        tail_wf(tail),
        p >= 1,
    ensures
        ({
            let fs = tail_frames(tail);
            let out = apply_tail(db, tail);
            match latest_page_at_most(fs, 0, fs.len() as int, u64::MAX, p) {
                Some(j) => (p as int) * (PAGE_SIZE as int) <= out.len()
                    && crate::sealed::page_region(out, p) == fs[j].data@,
                None => (p as int) * (PAGE_SIZE as int) <= db.len()
                    ==> crate::sealed::page_region(out, p) == crate::sealed::page_region(db, p),
            }
        }),
{
    lemma_tail_frames_wf(tail);
    lemma_apply_tail_flat(db, tail);
    crate::sealed::lemma_apply_frames_page(db, tail_frames(tail), p);
}

/// The connections woken by draining a waiter queue, head first.
pub open spec fn drained_waiters(waiters: Seq<u64>) -> Seq<u64>
    decreases waiters.len(),
{
    if waiters.len() == 0 {
        Seq::empty()
    } else {
        seq![waiters[0]].add(drained_waiters(waiters.drop_first()))
    }
}

/// Upgrade liveness: draining the queue wakes every queued waiter exactly
/// once, in arrival order — the wake sequence is the queue itself, entry for
/// entry, as `end_write` pops exactly the head each time.
pub proof fn lemma_waiters_drain_in_order(waiters: Seq<u64>)
    ensures
        drained_waiters(waiters) == waiters,
    decreases waiters.len(),
{
    if waiters.len() > 0 {
        lemma_waiters_drain_in_order(waiters.drop_first());
        assert(drained_waiters(waiters) =~= waiters);
    }
}

} // verus!
