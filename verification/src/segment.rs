//! The current segment: the appendable tail of the log, its per-page index,
//! and the search for the newest visible frame of a page.

use crate::PAGE_SIZE;
use crate::bytes::{copy_bytes, copy_into};
use crate::frame::Frame;
use crate::tx::{Transaction, WriteTransaction};
use vstd::prelude::*;

verus! {

/// Whether frame `j` holds page `p` and is visible under snapshot `max`.
pub open spec fn page_matches(frames: Seq<Frame>, max: u64, p: u32, j: int) -> bool {
    frames[j].page_no == p && frames[j].frame_no <= max
}

/// The newest offset in `[lo, hi)` whose frame holds page `p` and is visible
/// under snapshot `max`, if any.
pub open spec fn latest_page_at_most(frames: Seq<Frame>, lo: int, hi: int, max: u64, p: u32) -> Option<
    int,
>
    decreases hi - lo,
{
    if hi <= lo {
        None
    } else if page_matches(frames, max, p, hi - 1) {
        Some(hi - 1)
    } else {
        latest_page_at_most(frames, lo, hi - 1, max, p)
    }
}

/// What the search result means: a hit is a visible match with nothing newer,
/// a miss means nothing in range matches.
pub proof fn lemma_latest_page_props(frames: Seq<Frame>, lo: int, hi: int, max: u64, p: u32)
    ensures
        match latest_page_at_most(frames, lo, hi, max, p) {
            Some(j) => lo <= j < hi && page_matches(frames, max, p, j) && forall|q: int|
                j < q < hi ==> !page_matches(frames, max, p, q),
            None => forall|q: int| lo <= q < hi ==> !page_matches(frames, max, p, q),
        },
    decreases hi - lo,
{
    if hi > lo && !page_matches(frames, max, p, hi - 1) {
        lemma_latest_page_props(frames, lo, hi - 1, max, p);
    }
}

/// A visible match with nothing newer in range is what the search returns.
pub proof fn lemma_latest_page_pins(frames: Seq<Frame>, lo: int, hi: int, max: u64, p: u32, j: int)
    requires
        lo <= j < hi,
        page_matches(frames, max, p, j),
        forall|q: int| j < q < hi ==> !page_matches(frames, max, p, q),
    ensures
        latest_page_at_most(frames, lo, hi, max, p) == Some(j),
    decreases hi - lo,
{
    if j < hi - 1 {
        lemma_latest_page_pins(frames, lo, hi - 1, max, p, j);
    }
}

/// If nothing in range matches, the search misses.
pub proof fn lemma_latest_page_none(frames: Seq<Frame>, lo: int, hi: int, max: u64, p: u32)
    requires
        forall|q: int| lo <= q < hi ==> !page_matches(frames, max, p, q),
    ensures
        latest_page_at_most(frames, lo, hi, max, p) is None,
    decreases hi - lo,
{
    if hi > lo {
        lemma_latest_page_none(frames, lo, hi - 1, max, p);
    }
}

/// The search only reads the range it is given: sequences that agree there
/// give the same answer.
pub proof fn lemma_latest_prefix(a: Seq<Frame>, b: Seq<Frame>, lo: int, hi: int, max: u64, p: u32)
    requires
        forall|j: int| lo <= j < hi ==> a[j] == b[j],
    ensures
        latest_page_at_most(a, lo, hi, max, p) == latest_page_at_most(b, lo, hi, max, p),
    decreases hi - lo,
{
    if hi > lo {
        assert(a[hi - 1] == b[hi - 1]);
        lemma_latest_prefix(a, b, lo, hi - 1, max, p);
    }
}

/// The appendable segment at the head of the log.
pub struct CurrentSegment {
    /// Frame number of the frame at offset 0.
    pub start_frame_no: u64,
    /// Every frame appended to this segment, committed prefix first.
    pub frames: Vec<Frame>,
    /// Length of the committed prefix of `frames`.
    pub count_committed: usize,
    /// Logical database size in pages as of the last commit.
    pub db_size: u32,
    /// Committed page index: entry `i` is the page held at offset `i`.
    pub index: Vec<(u32, u32)>,
    /// Once true the segment accepts no more frames, ever.
    pub sealed: bool,
    /// Readers currently holding this segment as their snapshot.
    pub reader_count: usize,
}

impl CurrentSegment {
    /// Frame numbers are contiguous from `start_frame_no`, the committed
    /// prefix is within bounds, and the index mirrors it entry for entry.
    pub open spec fn wf(&self) -> bool {
        &&& self.start_frame_no >= 1
        &&& self.count_committed <= self.frames@.len()
        &&& self.frames@.len() <= u32::MAX
        &&& self.start_frame_no + self.frames@.len() <= u64::MAX
        &&& forall|i: int| 0 <= i < self.frames@.len() ==> (#[trigger] self.frames@[i]).wf()
        &&& forall|i: int|
            0 <= i < self.frames@.len() ==> (#[trigger] self.frames@[i]).frame_no
                == self.start_frame_no + i
        &&& self.index@.len() == self.count_committed
        &&& forall|i: int|
            0 <= i < self.count_committed ==> (#[trigger] self.index@[i]).0
                == self.frames@[i].page_no && self.index@[i].1 == i
        &&& (self.count_committed > 0 ==> self.frames@[self.count_committed - 1].size_after
            == self.db_size && self.db_size >= 1)
    }

    /// A fresh, empty segment whose first frame will be `start_frame_no`.
    pub fn new(start_frame_no: u64, db_size: u32) -> (seg: CurrentSegment)
        requires
            start_frame_no >= 1,
        ensures
            seg.wf(),
            seg.start_frame_no == start_frame_no,
            seg.frames@.len() == 0,
            seg.count_committed == 0,
            seg.db_size == db_size,
            !seg.sealed,
            seg.reader_count == 0,
    {
        CurrentSegment {
            start_frame_no,
            frames: Vec::new(),
            count_committed: 0,
            db_size,
            index: Vec::new(),
            sealed: false,
            reader_count: 0,
        }
    }

    /// The last committed frame number; one less than `start_frame_no` when
    /// nothing is committed yet.
    pub open spec fn spec_last_committed(&self) -> int {
        self.start_frame_no + self.count_committed - 1
    }

    pub fn last_committed(&self) -> (r: u64)
        requires
            self.wf(),
        ensures
            r == self.spec_last_committed(),
    {
        self.start_frame_no - 1 + self.count_committed as u64
    }

    /// The frame number the next appended frame will take.
    pub open spec fn spec_next_frame_no(&self) -> int {
        self.start_frame_no + self.frames@.len()
    }

    pub fn next_frame_no(&self) -> (r: u64)
        requires
            self.wf(),
        ensures
            r == self.spec_next_frame_no(),
    {
        self.start_frame_no + self.frames.len() as u64
    }

    /// Both header scalars from one committed state.
    pub fn with_header(&self) -> (r: (u64, u32))
        requires
            self.wf(),
        ensures
            r.0 == self.spec_last_committed(),
            r.1 == self.db_size,
    {
        (self.last_committed(), self.db_size)
    }

    pub fn db_size(&self) -> (r: u32)
        ensures
            r == self.db_size,
    {
        self.db_size
    }

    pub fn count_committed(&self) -> (r: usize)
        ensures
            r == self.count_committed,
    {
        self.count_committed
    }

    pub fn is_sealed(&self) -> (r: bool)
        ensures
            r == self.sealed,
    {
        self.sealed
    }

    /// Whether nothing was ever committed to this segment.
    pub fn is_empty(&self) -> (r: bool)
        ensures
            r == (self.count_committed == 0),
    {
        self.count_committed == 0
    }

    /// Records one more reader holding this segment.
    pub fn inc_reader_count(&mut self)
        requires
            old(self).reader_count < usize::MAX,
        ensures
            *final(self) == (CurrentSegment { reader_count: (old(self).reader_count + 1) as usize, ..*old(self) }),
    {
        self.reader_count = self.reader_count + 1;
    }

    /// Records that a reader let go of this segment.
    pub fn dec_reader_count(&mut self)
        requires
            old(self).reader_count > 0,
        ensures
            *final(self) == (CurrentSegment { reader_count: (old(self).reader_count - 1) as usize, ..*old(self) }),
    {
        self.reader_count = self.reader_count - 1;
    }

    /// Closes the segment: once sealed it accepts no more frames.
    pub fn seal(&mut self)
        ensures
            *final(self) == (CurrentSegment { sealed: true, ..*old(self) }),
    {
        self.sealed = true;
    }

    /// Copies the page data of the frame at `offset` into `buf`.
    pub fn read_page_offset(&self, offset: u32, buf: &mut Vec<u8>)
        requires
            offset < self.frames@.len(),
        ensures
            final(buf)@ == self.frames@[offset as int].data@,
    {
        copy_into(buf, &self.frames[offset as usize].data);
    }

    /// What `find_frame` returns: a write transaction sees its own appended
    /// frames first, newest savepoint first; both kinds then see the newest
    /// committed frame no newer than their snapshot.
    pub open spec fn find_spec(&self, tx: &Transaction, p: u32) -> Option<u32> {
        let flen = self.frames@.len() as int;
        let own = match tx {
            Transaction::Write(w) => latest_page_at_most(
                self.frames@,
                w.base_offset(),
                flen,
                u64::MAX,
                p,
            ),
            Transaction::Read(_) => None,
        };
        match own {
            Some(j) => Some(j as u32),
            None => match latest_page_at_most(
                self.frames@,
                0,
                self.count_committed as int,
                tx.spec_max_frame_no(),
                p,
            ) {
                Some(j) => Some(j as u32),
                None => None,
            },
        }
    }

    /// Finds the in-segment offset `read_page_offset` should serve for page
    /// `p` under `tx`, if this segment holds one.
    #[verifier::loop_isolation(false)]
    pub fn find_frame(&self, p: u32, tx: &Transaction) -> (r: Option<u32>)
        requires
            self.wf(),
            tx matches Transaction::Write(w) ==> w.wf_for(self),
        ensures
            r == self.find_spec(tx, p),
    {
        let ghost flen = self.frames@.len() as int;
        if let Transaction::Write(w) = tx {
            let mut k: usize = w.savepoints.len();
            while k > 0
                invariant
                    self.wf(),
                    w.wf_for(self),
                    k <= w.savepoints@.len(),
                    forall|o: int|
                        spbound(w, k as int, flen) <= o < flen ==> !page_matches(
                            self.frames@,
                            u64::MAX,
                            p,
                            o,
                        ),
                    flen == self.frames@.len() as int,
                decreases k,
            {
                let nentries: usize = w.savepoints[k - 1].index.len();
                let base: u32 = w.savepoints[k - 1].next_offset;
                let mut j: usize = nentries;
                while j > 0
                    invariant
                        self.wf(),
                        w.wf_for(self),
                        k >= 1,
                        k <= w.savepoints@.len(),
                        nentries == w.savepoints@[k - 1].index@.len(),
                        base == w.savepoints@[k - 1].next_offset,
                        j <= nentries,
                        forall|o: int|
                            base + j <= o < flen ==> !page_matches(self.frames@, u64::MAX, p, o),
                        flen == self.frames@.len() as int,
                    decreases j,
                {
                    let e: (u32, u32) = w.savepoints[k - 1].index[j - 1];
                    if e.0 == p {
                        proof {
                            let o = base + j - 1;
                            assert(e.1 == o);
                            assert(page_matches(self.frames@, u64::MAX, p, o));
                            lemma_latest_page_pins(
                                self.frames@,
                                w.base_offset(),
                                flen,
                                u64::MAX,
                                p,
                                o,
                            );
                        }
                        return Some(e.1);
                    }
                    j = j - 1;
                }
                k = k - 1;
            }
            proof {
                lemma_latest_page_none(self.frames@, w.base_offset(), flen, u64::MAX, p);
            }
        }
        let max: u64 = tx.max_frame_no();
        let mut i: usize = self.count_committed;
        while i > 0
            invariant
                self.wf(),
                i <= self.count_committed,
                max == tx.spec_max_frame_no(),
                forall|o: int|
                    i <= o < self.count_committed ==> !page_matches(self.frames@, max, p, o),
            decreases i,
        {
            let e: (u32, u32) = self.index[i - 1];
            if e.0 == p && self.start_frame_no + (i as u64 - 1) <= max {
                proof {
                    assert(page_matches(self.frames@, max, p, i - 1));
                    lemma_latest_page_pins(
                        self.frames@,
                        0,
                        self.count_committed as int,
                        max,
                        p,
                        i - 1,
                    );
                }
                return Some(e.1);
            }
            proof {
                assert(self.frames@[i - 1].frame_no == self.start_frame_no + i - 1);
                assert(!page_matches(self.frames@, max, p, i - 1));
            }
            i = i - 1;
        }
        proof {
            lemma_latest_page_none(self.frames@, 0, self.count_committed as int, max, p);
        }
        None
    }

    /// Appends one frame per page under the held write transaction; when
    /// `size_after` is given, the batch commits: the appended frames become
    /// visible, the index absorbs them, and the last frame number comes back.
    #[verifier::loop_isolation(false)]
    pub fn insert_pages(
        &mut self,
        pages: &Vec<(u32, Vec<u8>)>,
        size_after: Option<u32>,
        tx: &mut WriteTransaction,
    ) -> (r: Option<u64>)
        requires
            old(self).wf(),
            !old(self).sealed,
            old(tx).wf_for(old(self)),
            !old(tx).is_commited,
            forall|q: int|
                0 <= q < pages@.len() ==> {
                    &&& (#[trigger] pages@[q]).0 >= 1
                    &&& pages@[q].1@.len() == PAGE_SIZE
                    &&& (pages@[q].0 as int) * (PAGE_SIZE as int) <= usize::MAX
                },
            old(self).frames@.len() + pages@.len() <= u32::MAX,
            old(self).start_frame_no + old(self).frames@.len() + pages@.len() <= u64::MAX,
            size_after matches Some(s) ==> s >= 1,
            pages@.len() >= 1 || size_after is None,
        ensures
            final(self).wf(),
            final(tx).wf_for(final(self)),
            !final(self).sealed,
            final(self).start_frame_no == old(self).start_frame_no,
            final(self).reader_count == old(self).reader_count,
            final(tx).read_tx == old(tx).read_tx,
            final(self).frames@.len() == old(self).frames@.len() + pages@.len(),
            forall|q: int|
                0 <= q < old(self).frames@.len() ==> #[trigger] final(self).frames@[q] == old(
                    self,
                ).frames@[q],
            forall|q: int|
                0 <= q < pages@.len() ==> {
                    let nf = #[trigger] final(self).frames@[old(self).frames@.len() + q];
                    &&& nf.page_no == pages@[q].0
                    &&& nf.data@ == pages@[q].1@
                    &&& nf.frame_no == old(self).start_frame_no + old(self).frames@.len() + q
                    &&& nf.size_after == (if size_after is Some && q == pages@.len() - 1 {
                        size_after->0
                    } else {
                        0
                    })
                },
            size_after is Some ==> {
                &&& final(self).count_committed == final(self).frames@.len()
                &&& final(self).db_size == size_after->0
                &&& final(tx).is_commited
                &&& r == Some(
                    (old(self).start_frame_no + old(self).frames@.len() + pages@.len() - 1) as u64,
                )
            },
            size_after is None ==> {
                &&& final(self).count_committed == old(self).count_committed
                &&& final(self).db_size == old(self).db_size
                &&& !final(tx).is_commited
                &&& r is None
            },
    {
        let n: usize = pages.len();
        let mut q: usize = 0;
        let is_commit: bool = match size_after {
            Some(_) => true,
            None => false,
        };
        let last_sp: usize = tx.savepoints.len() - 1;
        while q < n
            invariant
                self.wf(),
                tx.wf_for(self),
                !self.sealed,
                !tx.is_commited,
                q <= n,
                n == pages@.len(),
                last_sp == tx.savepoints@.len() - 1,
                forall|t: int|
                    0 <= t < pages@.len() ==> {
                        &&& (#[trigger] pages@[t]).0 >= 1
                        &&& pages@[t].1@.len() == PAGE_SIZE
                        &&& (pages@[t].0 as int) * (PAGE_SIZE as int) <= usize::MAX
                    },
                old(self).frames@.len() + n <= u32::MAX,
                old(self).start_frame_no + old(self).frames@.len() + n <= u64::MAX,
                self.frames@.len() == old(self).frames@.len() + q,
                self.start_frame_no == old(self).start_frame_no,
                self.count_committed == old(self).count_committed,
                self.db_size == old(self).db_size,
                self.index == old(self).index,
                self.reader_count == old(self).reader_count,
                tx.read_tx == old(tx).read_tx,
                forall|t: int|
                    0 <= t < old(self).frames@.len() ==> #[trigger] self.frames@[t] == old(
                        self,
                    ).frames@[t],
                forall|t: int|
                    0 <= t < q ==> {
                        let nf = #[trigger] self.frames@[old(self).frames@.len() + t];
                        &&& nf.page_no == pages@[t].0
                        &&& nf.data@ == pages@[t].1@
                        &&& nf.frame_no == old(self).start_frame_no + old(self).frames@.len() + t
                        &&& nf.size_after == (if is_commit && t == pages@.len() - 1 {
                            size_after->0
                        } else {
                            0
                        })
                    },
            decreases n - q,
        {
            let page_no: u32 = pages[q].0;
            let data: Vec<u8> = copy_bytes(&pages[q].1);
            let fno: u64 = self.start_frame_no + self.frames.len() as u64;
            let sa: u32 = if is_commit && q == n - 1 {
                match size_after {
                    Some(s) => s,
                    None => 0,
                }
            } else {
                0
            };
            let off: u32 = self.frames.len() as u32;
            self.frames.push(Frame { page_no, frame_no: fno, size_after: sa, data });
            tx.savepoints[last_sp].index.push((page_no, off));
            tx.next_offset = tx.next_offset + 1;
            tx.next_frame_no = tx.next_frame_no + 1;
            q = q + 1;
        }
        if is_commit {
            let ghost mid_self = *self;
            let ghost mid_tx = *tx;
            let mut j: usize = self.count_committed;
            let flen: usize = self.frames.len();
            while j < flen
                invariant
                    mid_self.count_committed <= j <= flen,
                    *tx == mid_tx,
                    self.frames == mid_self.frames,
                    self.start_frame_no == mid_self.start_frame_no,
                    self.count_committed == mid_self.count_committed,
                    self.db_size == mid_self.db_size,
                    self.sealed == mid_self.sealed,
                    self.reader_count == mid_self.reader_count,
                    self.index@.len() == j,
                    forall|t: int|
                        0 <= t < j ==> (#[trigger] self.index@[t]).0 == self.frames@[t].page_no
                            && self.index@[t].1 == t,
                decreases flen - j,
            {
                let pn: u32 = self.frames[j].page_no;
                self.index.push((pn, j as u32));
                j = j + 1;
            }
            self.count_committed = flen;
            let s: u32 = match size_after {
                Some(s) => s,
                None => 0,
            };
            self.db_size = s;
            tx.is_commited = true;
            proof {
                let nf = self.frames@[old(self).frames@.len() + (n - 1)];
                assert(nf.size_after == s);
                assert(self.frames@[flen - 1].size_after == s);
                assert(self.wf());
                assert(tx.wf_for(self));
            }
            Some(self.start_frame_no + (flen as u64 - 1))
        } else {
            None
        }
    }
}

/// The first offset not yet cleared by the savepoint scan: the start of
/// savepoint `k`, or the end of the segment once no savepoint is left above.
pub open spec fn spbound(w: &WriteTransaction, k: int, flen: int) -> int {
    if k < w.savepoints@.len() {
        w.savepoints@[k].next_offset as int
    } else {
        flen
    }
}

} // verus!
