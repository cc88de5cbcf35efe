//! Sealed segments: finalized runs of frames, searched newest first and
//! checkpointed oldest first into the base database file.

use crate::PAGE_SIZE;
use crate::bytes::copy_into;
use crate::frame::Frame;
use crate::segment::{latest_page_at_most, lemma_latest_page_none, lemma_latest_page_pins, page_matches};
use vstd::prelude::*;

verus! {

/// An immutable, fully committed run of frames.
pub struct SealedSegment {
    /// Frame number of the frame at offset 0.
    pub start_frame_no: u64,
    /// Frame number of the last frame; sealed segments are never empty.
    pub end_frame_no: u64,
    /// Logical database size in pages after the last commit in this segment.
    pub size_after: u32,
    /// The frames, in frame-number order.
    pub frames: Vec<Frame>,
}

impl SealedSegment {
    /// Contiguous frame numbers, a full page per frame, and the declared
    /// size matching the closing commit frame.
    pub open spec fn wf(&self) -> bool {
        &&& self.start_frame_no >= 1
        &&& self.frames@.len() >= 1
        &&& self.frames@.len() <= u32::MAX
        &&& self.start_frame_no + self.frames@.len() <= u64::MAX
        &&& self.end_frame_no == self.start_frame_no + self.frames@.len() - 1
        &&& forall|i: int| 0 <= i < self.frames@.len() ==> (#[trigger] self.frames@[i]).wf()
        &&& forall|i: int|
            0 <= i < self.frames@.len() ==> (#[trigger] self.frames@[i]).frame_no
                == self.start_frame_no + i
        &&& self.frames@[self.frames@.len() - 1].size_after == self.size_after
        &&& self.size_after >= 1
    }

    /// Serves page `p` as of snapshot `max` from this segment: fills `buf`
    /// with the newest visible frame of `p` and reports whether one exists.
    #[verifier::loop_isolation(false)]
    pub fn read_page(&self, p: u32, max: u64, buf: &mut Vec<u8>) -> (found: bool)
        requires
            self.wf(),
        ensures
            match latest_page_at_most(self.frames@, 0, self.frames@.len() as int, max, p) {
                Some(j) => found && final(buf)@ == self.frames@[j].data@,
                None => !found && final(buf)@ == old(buf)@,
            },
    {
        let n: usize = self.frames.len();
        let mut i: usize = n;
        while i > 0
            invariant
                i <= n,
                buf == old(buf),
                forall|o: int| i <= o < n ==> !page_matches(self.frames@, max, p, o),
            decreases i,
        {
            let f = &self.frames[i - 1];
            if f.page_no == p && f.frame_no <= max {
                proof {
                    lemma_latest_page_pins(self.frames@, 0, n as int, max, p, i - 1);
                }
                copy_into(buf, &f.data);
                return true;
            }
            i = i - 1;
        }
        proof {
            lemma_latest_page_none(self.frames@, 0, n as int, max, p);
        }
        false
    }
}

/// The sealed tail is well formed when each segment is and their frame
/// ranges chain one after the other, oldest first.
pub open spec fn tail_wf(tail: Seq<SealedSegment>) -> bool {
    &&& forall|i: int| 0 <= i < tail.len() ==> (#[trigger] tail[i]).wf()
    &&& forall|i: int|
        0 <= i < tail.len() - 1 ==> (#[trigger] tail[i + 1]).start_frame_no == tail[i].end_frame_no
            + 1
}

/// Where in the tail the newest visible frame of page `p` lives: the segment
/// position and the offset within it, scanning newest segment first.
pub open spec fn tail_latest(tail: Seq<SealedSegment>, max: u64, p: u32) -> Option<(int, int)>
    decreases tail.len(),
{
    if tail.len() == 0 {
        None
    } else {
        match latest_page_at_most(
            tail.last().frames@,
            0,
            tail.last().frames@.len() as int,
            max,
            p,
        ) {
            Some(j) => Some((tail.len() - 1, j)),
            None => tail_latest(tail.drop_last(), max, p),
        }
    }
}

/// Serves page `p` as of snapshot `max` from the sealed tail, newest
/// segment first; reports whether any sealed segment holds it.
#[verifier::loop_isolation(false)]
pub fn tail_read_page(tail: &Vec<SealedSegment>, p: u32, max: u64, buf: &mut Vec<u8>) -> (found:
    bool)
    requires
        tail_wf(tail@),
    ensures
        match tail_latest(tail@, max, p) {
            Some(sj) => found && final(buf)@ == tail@[sj.0].frames@[sj.1].data@,
            None => !found && final(buf)@ == old(buf)@,
        },
{
    let n: usize = tail.len();
    let mut k: usize = n;
    proof {
        assert(tail@.subrange(0, n as int) =~= tail@);
    }
    while k > 0
        invariant
            k <= n,
            buf@ == old(buf)@,
            tail_latest(tail@.subrange(0, k as int), max, p) == tail_latest(tail@, max, p),
        decreases k,
    {
        let ghost sub = tail@.subrange(0, k as int);
        proof {
            assert(sub.last() == tail@[k - 1]);
            assert(sub.drop_last() =~= tail@.subrange(0, k - 1));
        }
        let found = tail[k - 1].read_page(p, max, buf);
        if found {
            return true;
        }
        k = k - 1;
    }
    false
}

/// The base file after one frame is applied: the frame's page region holds
/// its data, the file grows with zeroes if the region lay beyond its end,
/// and every other byte keeps its value.
pub open spec fn apply_frame(db: Seq<u8>, f: Frame) -> Seq<u8> {
    let start = (f.page_no - 1) * PAGE_SIZE;
    let end = f.page_no * PAGE_SIZE;
    let n = if db.len() >= end {
        db.len() as int
    } else {
        end
    };
    Seq::new(
        n as nat,
        |i: int|
            if start <= i < end {
                f.data[i - start]
            } else if i < db.len() {
                db[i]
            } else {
                0
            },
    )
}

/// The base file after a run of frames is applied in order.
pub open spec fn apply_frames(db: Seq<u8>, frames: Seq<Frame>) -> Seq<u8>
    decreases frames.len(),
{
    if frames.len() == 0 {
        db
    } else {
        apply_frames(apply_frame(db, frames[0]), frames.drop_first())
    }
}

/// The base file after whole segments are applied, oldest first.
pub open spec fn apply_tail(db: Seq<u8>, tail: Seq<SealedSegment>) -> Seq<u8>
    decreases tail.len(),
{
    if tail.len() == 0 {
        db
    } else {
        apply_tail(apply_frames(db, tail[0].frames@), tail.drop_first())
    }
}

/// Applying one more frame after a run extends the run.
pub proof fn lemma_apply_frames_push(db: Seq<u8>, frames: Seq<Frame>, f: Frame)
    ensures
        apply_frames(db, frames.push(f)) == apply_frame(apply_frames(db, frames), f),
    decreases frames.len(),
{
    assert(apply_frames(db, frames.push(f)) == apply_frames(
        apply_frame(db, frames.push(f)[0]),
        frames.push(f).drop_first(),
    ));
    if frames.len() == 0 {
        assert(frames.push(f)[0] == f);
        assert(frames.push(f).drop_first() =~= frames);
        assert(apply_frames(db, frames) == db);
    } else {
        assert(frames.push(f)[0] == frames[0]);
        assert(frames.push(f).drop_first() =~= frames.drop_first().push(f));
        lemma_apply_frames_push(apply_frame(db, frames[0]), frames.drop_first(), f);
        assert(apply_frames(db, frames) == apply_frames(apply_frame(db, frames[0]), frames.drop_first()));
    }
}

/// Applying one more segment after a run of segments extends the run.
pub proof fn lemma_apply_tail_push(db: Seq<u8>, tail: Seq<SealedSegment>, seg: SealedSegment)
    ensures
        apply_tail(db, tail.push(seg)) == apply_frames(apply_tail(db, tail), seg.frames@),
    decreases tail.len(),
{
    assert(apply_tail(db, tail.push(seg)) == apply_tail(
        apply_frames(db, tail.push(seg)[0].frames@),
        tail.push(seg).drop_first(),
    ));
    if tail.len() == 0 {
        assert(tail.push(seg)[0] == seg);
        assert(tail.push(seg).drop_first() =~= tail);
        assert(apply_tail(db, tail) == db);
    } else {
        assert(tail.push(seg)[0] == tail[0]);
        assert(tail.push(seg).drop_first() =~= tail.drop_first().push(seg));
        lemma_apply_tail_push(apply_frames(db, tail[0].frames@), tail.drop_first(), seg);
        assert(apply_tail(db, tail) == apply_tail(apply_frames(db, tail[0].frames@), tail.drop_first()));
    }
}

/// The bytes of page `p` in a base file.
pub open spec fn page_region(db: Seq<u8>, p: u32) -> Seq<u8> {
    db.subrange((p - 1) * PAGE_SIZE, (p as int) * (PAGE_SIZE as int))
}

/// After a run of frames is applied in order, the region of page `p` holds
/// the data of the newest frame for `p`; a page no frame touched keeps its
/// bytes.
pub proof fn lemma_apply_frames_page(db: Seq<u8>, frames: Seq<Frame>, p: u32)
    requires
        forall|i: int| 0 <= i < frames.len() ==> (#[trigger] frames[i]).wf(),
        p >= 1,
    ensures
        apply_frames(db, frames).len() >= db.len(),
        match latest_page_at_most(frames, 0, frames.len() as int, u64::MAX, p) {
            Some(j) => (p as int) * (PAGE_SIZE as int) <= apply_frames(db, frames).len()
                && page_region(apply_frames(db, frames), p) == frames[j].data@,
            None => (p as int) * (PAGE_SIZE as int) <= db.len() ==> page_region(
                apply_frames(db, frames),
                p,
            ) == page_region(db, p),
        },
    decreases frames.len(),
{
    if frames.len() == 0 {
    } else {
        let front = frames.drop_last();
        let f = frames.last();
        let x = apply_frames(db, front);
        lemma_apply_frames_page(db, front, p);
        assert(front.push(f) =~= frames);
        lemma_apply_frames_push(db, front, f);
        let out = apply_frame(x, f);
        assert(apply_frames(db, frames) == out);
        assert(f.wf());
        let start = (f.page_no - 1) * (PAGE_SIZE as int);
        let end = (f.page_no as int) * (PAGE_SIZE as int);
        assert((f.page_no as int) * (PAGE_SIZE as int) == (f.page_no - 1) * (PAGE_SIZE as int)
            + PAGE_SIZE) by (nonlinear_arith);
        crate::segment::lemma_latest_prefix(front, frames, 0, front.len() as int, u64::MAX, p);
        if f.page_no == p {
            assert(page_matches(frames, u64::MAX, p, frames.len() - 1));
            assert(page_region(out, p) =~= f.data@);
        } else {
            assert(!page_matches(frames, u64::MAX, p, frames.len() - 1));
            assert(latest_page_at_most(frames, 0, frames.len() as int, u64::MAX, p)
                == latest_page_at_most(front, 0, front.len() as int, u64::MAX, p));
            if f.page_no < p {
                assert((f.page_no as int) * (PAGE_SIZE as int) <= (p - 1) * (PAGE_SIZE as int))
                    by (nonlinear_arith)
                    requires
                        f.page_no as int <= p - 1,
                ;
            } else {
                assert((f.page_no as int - 1) * (PAGE_SIZE as int) >= (p as int) * (
                PAGE_SIZE as int)) by (nonlinear_arith)
                    requires
                        f.page_no as int - 1 >= p,
                ;
            }
            let keeps = (p as int) * (PAGE_SIZE as int) <= x.len();
            if keeps {
                assert forall|i: int|
                    (p - 1) * (PAGE_SIZE as int) <= i < (p as int) * (PAGE_SIZE as int) implies #[trigger] out[i]
                    == x[i] by {
                    assert(!(start <= i < end));
                }
                assert(page_region(out, p) =~= page_region(x, p));
            }
            crate::segment::lemma_latest_page_props(front, 0, front.len() as int, u64::MAX, p);
            match latest_page_at_most(front, 0, front.len() as int, u64::MAX, p) {
                Some(j) => {
                    assert(keeps);
                    assert(front[j] == frames[j]);
                    assert(page_region(out, p) == frames[j].data@);
                },
                None => {
                    if (p as int) * (PAGE_SIZE as int) <= db.len() {
                        assert(keeps);
                        assert(page_region(out, p) == page_region(db, p));
                    }
                },
            }
        }
    }
}

/// Writes one frame's page into the base file at its page offset, growing
/// the file with zeroes if the page lies beyond its end.
#[verifier::loop_isolation(false)]
pub fn write_page(db: &mut Vec<u8>, f: &Frame)
    requires
        f.wf(),
    ensures
        final(db)@ == apply_frame(old(db)@, *f),
{
    proof {
        assert((f.page_no as int - 1) * (PAGE_SIZE as int) == (f.page_no as int) * (PAGE_SIZE as int)
            - PAGE_SIZE) by (nonlinear_arith);
    }
    let start: usize = (f.page_no as usize - 1) * PAGE_SIZE as usize;
    let end: usize = start + PAGE_SIZE as usize;
    while db.len() < end
        invariant
            db@.len() <= end || db@.len() == old(db)@.len(),
            db@.len() >= old(db)@.len(),
            forall|t: int| 0 <= t < old(db)@.len() ==> db@[t] == old(db)@[t],
            forall|t: int| old(db)@.len() <= t < db@.len() ==> db@[t] == 0,
        decreases end - db@.len(),
    {
        db.push(0);
    }
    let mut i: usize = 0;
    let ghost grown = db@;
    while i < PAGE_SIZE as usize
        invariant
            i <= PAGE_SIZE,
            db@.len() == grown.len(),
            end <= db@.len(),
            forall|t: int| 0 <= t < db@.len() && !(start <= t < start + i) ==> db@[t] == grown[t],
            forall|t: int| start <= t < start + i ==> db@[t] == f.data@[t - start],
        decreases PAGE_SIZE - i,
    {
        db[start + i] = f.data[i];
        i = i + 1;
    }
    proof {
        let res = apply_frame(old(db)@, *f);
        assert(db@.len() == res.len());
        assert forall|t: int| 0 <= t < db@.len() implies db@[t] == res[t] by {
            if start <= t < end {
                assert(db@[t] == f.data@[t - start]);
            } else if t < old(db)@.len() {
                assert(db@[t] == grown[t]);
            } else {
                assert(db@[t] == grown[t]);
            }
        }
        assert(db@ =~= res);
    }
}

/// Drains the sealed tail oldest-first into the base file and reports the
/// highest frame number made durable, if anything was there to write.
#[verifier::loop_isolation(false)]
pub fn tail_checkpoint(tail: &mut Vec<SealedSegment>, db: &mut Vec<u8>) -> (r: Option<u64>)
    requires
        tail_wf(old(tail)@),
    ensures
        final(db)@ == apply_tail(old(db)@, old(tail)@),
        final(tail)@.len() == 0,
        old(tail)@.len() == 0 ==> r is None,
        old(tail)@.len() > 0 ==> r == Some(old(tail)@.last().end_frame_no),
{
    let n: usize = tail.len();
    if n == 0 {
        return None;
    }
    let last_end: u64 = tail[n - 1].end_frame_no;
    let mut k: usize = 0;
    while k < n
        invariant
            k <= n,
            tail == old(tail),
            db@ == apply_tail(old(db)@, tail@.subrange(0, k as int)),
        decreases n - k,
    {
        let seg = &tail[k];
        let m: usize = seg.frames.len();
        let mut i: usize = 0;
        let ghost seg_db = db@;
        while i < m
            invariant
                i <= m,
                tail == old(tail),
                db@ == apply_frames(seg_db, seg.frames@.subrange(0, i as int)),
            decreases m - i,
        {
            let ghost donef = seg.frames@.subrange(0, i as int);
            write_page(db, &seg.frames[i]);
            proof {
                assert(seg.frames@.subrange(0, i + 1) =~= donef.push(seg.frames@[i as int]));
                lemma_apply_frames_push(seg_db, donef, seg.frames@[i as int]);
            }
            i = i + 1;
        }
        proof {
            let done = tail@.subrange(0, k as int);
            assert(seg.frames@.subrange(0, m as int) =~= seg.frames@);
            assert(tail@.subrange(0, k + 1) =~= done.push(tail@[k as int]));
            lemma_apply_tail_push(old(db)@, done, tail@[k as int]);
        }
        k = k + 1;
    }
    proof {
        assert(tail@.subrange(0, n as int) =~= tail@);
    }
    tail.clear();
    Some(last_end)
}

} // verus!
