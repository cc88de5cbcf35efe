//! The fixed-width frame record: one page of data plus its metadata.

use crate::PAGE_SIZE;
use crate::bytes::{from_le, get_u32_le, get_u64_le, le_bytes, lemma_le_bytes_len, lemma_u32_round_trip, lemma_u64_round_trip, put_le};
use vstd::prelude::*;

verus! {

/// Bytes of metadata in front of each frame's page data.
pub const FRAME_HEADER_SIZE: u32 = 16;

/// Bytes of one whole frame record: metadata then page data.
pub const FRAME_SIZE: u32 = 4112;

/// A page-sized payload plus metadata, as appended to the log.
pub struct Frame {
    /// Page of the database file this frame holds, numbered from 1.
    pub page_no: u32,
    /// Position of this frame in the log of its database, numbered from 1.
    pub frame_no: u64,
    /// Zero everywhere but on the last frame of a commit, where it holds the
    /// logical database size in pages right after that commit.
    pub size_after: u32,
    /// The page bytes, exactly `PAGE_SIZE` of them.
    pub data: Vec<u8>,
}

impl Frame {
    /// A frame is well formed when it addresses a real page whose bytes fit
    /// the address space and carries a full page of bytes.
    pub open spec fn wf(&self) -> bool {
        &&& self.page_no >= 1
        &&& self.frame_no >= 1
        &&& (self.page_no as int) * (PAGE_SIZE as int) <= usize::MAX
        &&& self.data@.len() == PAGE_SIZE
    }

    /// Frames on the last position of a commit declare the database size.
    pub open spec fn is_commit(&self) -> bool {
        self.size_after != 0
    }
}

/// The exact on-disk bytes of one frame record: page number, frame number
/// and size-after little-endian, then the page data.
pub open spec fn frame_bytes(f: Frame) -> Seq<u8> {
    le_bytes(f.page_no as nat, 4).add(le_bytes(f.frame_no as nat, 8)).add(
        le_bytes(f.size_after as nat, 4),
    ).add(f.data@)
}

pub proof fn lemma_frame_bytes_len(f: Frame)
    requires
        f.data@.len() == PAGE_SIZE,
    ensures
        frame_bytes(f).len() == FRAME_SIZE,
{
    lemma_le_bytes_len(f.page_no as nat, 4);
    lemma_le_bytes_len(f.frame_no as nat, 8);
    lemma_le_bytes_len(f.size_after as nat, 4);
}

/// The page number denoted by `FRAME_SIZE` bytes of record layout.
pub open spec fn parse_page_no(s: Seq<u8>) -> u32 {
    from_le(s.subrange(0, 4)) as u32
}

/// The frame number denoted by `FRAME_SIZE` bytes of record layout.
pub open spec fn parse_frame_no(s: Seq<u8>) -> u64 {
    from_le(s.subrange(4, 12)) as u64
}

/// The size-after field denoted by `FRAME_SIZE` bytes of record layout.
pub open spec fn parse_size_after(s: Seq<u8>) -> u32 {
    from_le(s.subrange(12, 16)) as u32
}

/// The page data portion of `FRAME_SIZE` bytes of record layout.
pub open spec fn parse_frame_data(s: Seq<u8>) -> Seq<u8> {
    s.subrange(FRAME_HEADER_SIZE as int, FRAME_SIZE as int)
}

/// Parsing the bytes of a well-formed frame yields its metadata and data back.
pub proof fn lemma_frame_round_trip(f: Frame)
    requires
        f.data@.len() == PAGE_SIZE,
    ensures
        parse_page_no(frame_bytes(f)) == f.page_no,
        parse_frame_no(frame_bytes(f)) == f.frame_no,
        parse_size_after(frame_bytes(f)) == f.size_after,
        parse_frame_data(frame_bytes(f)) == f.data@,
{
    let s = frame_bytes(f);
    lemma_le_bytes_len(f.page_no as nat, 4);
    lemma_le_bytes_len(f.frame_no as nat, 8);
    lemma_le_bytes_len(f.size_after as nat, 4);
    assert(s.subrange(0, 4) =~= le_bytes(f.page_no as nat, 4));
    assert(s.subrange(4, 12) =~= le_bytes(f.frame_no as nat, 8));
    assert(s.subrange(12, 16) =~= le_bytes(f.size_after as nat, 4));
    assert(s.subrange(FRAME_HEADER_SIZE as int, FRAME_SIZE as int) =~= f.data@);
    lemma_u32_round_trip(f.page_no);
    lemma_u64_round_trip(f.frame_no);
    lemma_u32_round_trip(f.size_after);
}

/// Appends the record bytes of `f` to `out`.
pub fn encode_frame(out: &mut Vec<u8>, f: &Frame)
    requires
        f.data@.len() == PAGE_SIZE,
    ensures
        final(out)@ == old(out)@.add(frame_bytes(*f)),
{
    let ghost orig = out@;
    put_le(out, f.page_no as u128, 4);
    put_le(out, f.frame_no as u128, 8);
    put_le(out, f.size_after as u128, 4);
    let mut i: usize = 0;
    let n: usize = f.data.len();
    let ghost mid = out@;
    while i < n
        invariant
            i <= n,
            n == f.data@.len(),
            out@ == mid.add(f.data@.subrange(0, i as int)),
        decreases n - i,
    {
        out.push(f.data[i]);
        proof {
            assert(mid.add(f.data@.subrange(0, i + 1)) =~= mid.add(
                f.data@.subrange(0, i as int),
            ).push(f.data@[i as int]));
        }
        i = i + 1;
    }
    proof {
        assert(f.data@.subrange(0, n as int) =~= f.data@);
        assert(out@ =~= orig.add(frame_bytes(*f)));
    }
}

/// Reads the frame record stored at `at`.
pub fn decode_frame(buf: &Vec<u8>, at: usize) -> (f: Frame)
    requires
        at + FRAME_SIZE <= buf@.len(),
    ensures
        f.page_no == parse_page_no(buf@.subrange(at as int, at + FRAME_SIZE)),
        f.frame_no == parse_frame_no(buf@.subrange(at as int, at + FRAME_SIZE)),
        f.size_after == parse_size_after(buf@.subrange(at as int, at + FRAME_SIZE)),
        f.data@ == parse_frame_data(buf@.subrange(at as int, at + FRAME_SIZE)),
        f.data@.len() == PAGE_SIZE,
{
    let ghost rec = buf@.subrange(at as int, at + FRAME_SIZE);
    let blen: usize = buf.len();
    let page_no = get_u32_le(buf, at);
    let frame_no = get_u64_le(buf, at + 4);
    let size_after = get_u32_le(buf, at + 12);
    let mut data: Vec<u8> = Vec::new();
    let mut i: usize = 0;
    while i < (FRAME_SIZE - FRAME_HEADER_SIZE) as usize
        invariant
            i <= PAGE_SIZE,
            at + FRAME_SIZE <= blen,
            blen == buf@.len(),
            data@ == buf@.subrange(at + FRAME_HEADER_SIZE as int, at + FRAME_HEADER_SIZE + i),
        decreases PAGE_SIZE - i,
    {
        data.push(buf[at + FRAME_HEADER_SIZE as usize + i]);
        proof {
            assert(buf@.subrange(at + FRAME_HEADER_SIZE as int, at + FRAME_HEADER_SIZE + i + 1)
                =~= buf@.subrange(at + FRAME_HEADER_SIZE as int, at + FRAME_HEADER_SIZE + i).push(
                buf@[at + FRAME_HEADER_SIZE + i],
            ));
        }
        i = i + 1;
    }
    proof {
        assert(rec.subrange(0, 4) =~= buf@.subrange(at as int, at + 4));
        assert(rec.subrange(4, 12) =~= buf@.subrange(at + 4, at + 12));
        assert(rec.subrange(12, 16) =~= buf@.subrange(at + 12, at + 16));
        assert(rec.subrange(FRAME_HEADER_SIZE as int, FRAME_SIZE as int) =~= buf@.subrange(
            at + FRAME_HEADER_SIZE as int,
            at + FRAME_HEADER_SIZE + PAGE_SIZE,
        ));
    }
    Frame { page_no, frame_no, size_after, data }
}

} // verus!
