//! Compacted segment files: header and footer validation and random frame
//! reads over the serialized form of a sealed segment.

use crate::PAGE_SIZE;
use crate::bytes::{from_le, get_u16_le, get_u32_le, get_u64_le, get_u128_le, le_bytes, lemma_le_bytes_len, lemma_u16_round_trip, lemma_u32_round_trip, lemma_u64_round_trip, lemma_u128_round_trip, put_le};
use crate::crc::{crc32, crc32_prefix};
use crate::error::Error;
use crate::frame::{FRAME_SIZE, Frame, encode_frame, frame_bytes, lemma_frame_bytes_len, parse_frame_data, parse_frame_no, parse_page_no, parse_size_after};
use vstd::prelude::*;

verus! {

/// First bytes of every compacted segment file.
pub const LIBSQL_MAGIC: u64 = 0x6C61_7771_7362_696C;

/// Format version this engine writes and accepts.
pub const LIBSQL_WAL_VERSION: u16 = 1;

/// Bytes of the compacted segment header.
pub const COMPACTED_HEADER_SIZE: u32 = 52;

/// Bytes of the compacted segment footer.
pub const COMPACTED_FOOTER_SIZE: u32 = 4;

/// Metadata in front of a compacted segment's frames, all little-endian.
#[derive(Clone, Copy, Debug, PartialEq, Eq, Structural)]
pub struct CompactedSegmentDataHeader {
    pub magic: u64,
    pub version: u16,
    pub frame_count: u32,
    pub segment_id: u128,
    pub start_frame_no: u64,
    pub end_frame_no: u64,
    pub size_after: u32,
    pub page_size: u16,
}

/// The checksum trailing a compacted segment's frames.
#[derive(Clone, Copy, Debug, PartialEq, Eq, Structural)]
pub struct CompactedSegmentDataFooter {
    pub checksum: u32,
}

impl CompactedSegmentDataHeader {
    /// Validates the fields a reader must not trust: magic, page size,
    /// and version, in that order.
    pub fn check(&self) -> (r: Result<(), Error>)
        ensures
            r == self.check_spec(),
    {
        if self.magic != LIBSQL_MAGIC {
            return Err(Error::InvalidHeaderMagic);
        }
        if self.page_size != PAGE_SIZE as u16 {
            return Err(Error::InvalidPageSize);
        }
        if self.version != LIBSQL_WAL_VERSION {
            return Err(Error::InvalidVersion);
        }
        Ok(())
    }

    /// What `check` returns: the first validation that fails, if any.
    pub open spec fn check_spec(&self) -> Result<(), Error> {
        if self.magic != LIBSQL_MAGIC {
            Err(Error::InvalidHeaderMagic)
        } else if self.page_size != PAGE_SIZE as u16 {
            Err(Error::InvalidPageSize)
        } else if self.version != LIBSQL_WAL_VERSION {
            Err(Error::InvalidVersion)
        } else {
            Ok(())
        }
    }
}

/// The exact on-disk bytes of a compacted segment header.
pub open spec fn header_bytes(h: CompactedSegmentDataHeader) -> Seq<u8> {
    le_bytes(h.magic as nat, 8).add(le_bytes(h.version as nat, 2)).add(
        le_bytes(h.frame_count as nat, 4),
    ).add(le_bytes(h.segment_id as nat, 16)).add(le_bytes(h.start_frame_no as nat, 8)).add(
        le_bytes(h.end_frame_no as nat, 8),
    ).add(le_bytes(h.size_after as nat, 4)).add(le_bytes(h.page_size as nat, 2))
}

/// The header denoted by the first `COMPACTED_HEADER_SIZE` bytes of `s`.
pub open spec fn parse_header(s: Seq<u8>) -> CompactedSegmentDataHeader {
    CompactedSegmentDataHeader {
        magic: from_le(s.subrange(0, 8)) as u64,
        version: from_le(s.subrange(8, 10)) as u16,
        frame_count: from_le(s.subrange(10, 14)) as u32,
        segment_id: from_le(s.subrange(14, 30)) as u128,
        start_frame_no: from_le(s.subrange(30, 38)) as u64,
        end_frame_no: from_le(s.subrange(38, 46)) as u64,
        size_after: from_le(s.subrange(46, 50)) as u32,
        page_size: from_le(s.subrange(50, 52)) as u16,
    }
}

pub proof fn lemma_header_bytes_len(h: CompactedSegmentDataHeader)
    ensures
        header_bytes(h).len() == COMPACTED_HEADER_SIZE,
{
    lemma_le_bytes_len(h.magic as nat, 8);
    lemma_le_bytes_len(h.version as nat, 2);
    lemma_le_bytes_len(h.frame_count as nat, 4);
    lemma_le_bytes_len(h.segment_id as nat, 16);
    lemma_le_bytes_len(h.start_frame_no as nat, 8);
    lemma_le_bytes_len(h.end_frame_no as nat, 8);
    lemma_le_bytes_len(h.size_after as nat, 4);
    lemma_le_bytes_len(h.page_size as nat, 2);
}

/// Parsing the serialized header yields the header back.
pub proof fn lemma_header_round_trip(h: CompactedSegmentDataHeader)
    ensures
        parse_header(header_bytes(h)) == h,
{
    let s = header_bytes(h);
    lemma_le_bytes_len(h.magic as nat, 8);
    lemma_le_bytes_len(h.version as nat, 2);
    lemma_le_bytes_len(h.frame_count as nat, 4);
    lemma_le_bytes_len(h.segment_id as nat, 16);
    lemma_le_bytes_len(h.start_frame_no as nat, 8);
    lemma_le_bytes_len(h.end_frame_no as nat, 8);
    lemma_le_bytes_len(h.size_after as nat, 4);
    lemma_le_bytes_len(h.page_size as nat, 2);
    assert(s.subrange(0, 8) =~= le_bytes(h.magic as nat, 8));
    assert(s.subrange(8, 10) =~= le_bytes(h.version as nat, 2));
    assert(s.subrange(10, 14) =~= le_bytes(h.frame_count as nat, 4));
    assert(s.subrange(14, 30) =~= le_bytes(h.segment_id as nat, 16));
    assert(s.subrange(30, 38) =~= le_bytes(h.start_frame_no as nat, 8));
    assert(s.subrange(38, 46) =~= le_bytes(h.end_frame_no as nat, 8));
    assert(s.subrange(46, 50) =~= le_bytes(h.size_after as nat, 4));
    assert(s.subrange(50, 52) =~= le_bytes(h.page_size as nat, 2));
    lemma_u64_round_trip(h.magic);
    lemma_u16_round_trip(h.version);
    lemma_u32_round_trip(h.frame_count);
    lemma_u128_round_trip(h.segment_id);
    lemma_u64_round_trip(h.start_frame_no);
    lemma_u64_round_trip(h.end_frame_no);
    lemma_u32_round_trip(h.size_after);
    lemma_u16_round_trip(h.page_size);
}

/// Appends the serialized header to `out`.
pub fn encode_header(out: &mut Vec<u8>, h: &CompactedSegmentDataHeader)
    ensures
        final(out)@ == old(out)@.add(header_bytes(*h)),
{
    let ghost orig = out@;
    put_le(out, h.magic as u128, 8);
    put_le(out, h.version as u128, 2);
    put_le(out, h.frame_count as u128, 4);
    put_le(out, h.segment_id, 16);
    put_le(out, h.start_frame_no as u128, 8);
    put_le(out, h.end_frame_no as u128, 8);
    put_le(out, h.size_after as u128, 4);
    put_le(out, h.page_size as u128, 2);
    proof {
        assert(out@ =~= orig.add(header_bytes(*h)));
    }
}

/// Reads the header stored at the front of `buf`.
pub fn decode_header(buf: &Vec<u8>) -> (h: CompactedSegmentDataHeader)
    requires
        buf@.len() >= COMPACTED_HEADER_SIZE,
    ensures
        h == parse_header(buf@),
{
    let magic = get_u64_le(buf, 0);
    let version = get_u16_le(buf, 8);
    let frame_count = get_u32_le(buf, 10);
    let segment_id = get_u128_le(buf, 14);
    let start_frame_no = get_u64_le(buf, 30);
    let end_frame_no = get_u64_le(buf, 38);
    let size_after = get_u32_le(buf, 46);
    let page_size = get_u16_le(buf, 50);
    CompactedSegmentDataHeader {
        magic,
        version,
        frame_count,
        segment_id,
        start_frame_no,
        end_frame_no,
        size_after,
        page_size,
    }
}

/// The concatenated frame records of a compacted segment's body.
pub open spec fn body_bytes(frames: Seq<Frame>) -> Seq<u8>
    decreases frames.len(),
{
    if frames.len() == 0 {
        Seq::empty()
    } else {
        body_bytes(frames.drop_last()).add(frame_bytes(frames.last()))
    }
}

/// All frames carrying full pages make a body of `FRAME_SIZE`-sized records.
pub proof fn lemma_body_bytes_len(frames: Seq<Frame>)
    requires
        forall|i: int| 0 <= i < frames.len() ==> #[trigger] frames[i].data@.len() == PAGE_SIZE,
    ensures
        body_bytes(frames).len() == FRAME_SIZE * frames.len(),
    decreases frames.len(),
{
    if frames.len() > 0 {
        lemma_body_bytes_len(frames.drop_last());
        lemma_frame_bytes_len(frames.last());
    }
}

/// Record `i` of the body is the serialization of frame `i`.
pub proof fn lemma_body_bytes_slice(frames: Seq<Frame>, i: int)
    requires
        forall|k: int| 0 <= k < frames.len() ==> #[trigger] frames[k].data@.len() == PAGE_SIZE,
        0 <= i < frames.len(),
    ensures
        body_bytes(frames).subrange(FRAME_SIZE * i, FRAME_SIZE * (i + 1)) == frame_bytes(
            frames[i],
        ),
    decreases frames.len(),
{
    lemma_body_bytes_len(frames);
    lemma_body_bytes_len(frames.drop_last());
    lemma_frame_bytes_len(frames.last());
    if i == frames.len() - 1 {
        assert(body_bytes(frames).subrange(FRAME_SIZE * i, FRAME_SIZE * (i + 1)) =~= frame_bytes(
            frames.last(),
        ));
    } else {
        lemma_body_bytes_slice(frames.drop_last(), i);
        assert(body_bytes(frames).subrange(FRAME_SIZE * i, FRAME_SIZE * (i + 1)) =~= body_bytes(
            frames.drop_last(),
        ).subrange(FRAME_SIZE * i, FRAME_SIZE * (i + 1)));
    }
}

/// The exact file bytes of a compacted segment: header, body, checksum.
pub open spec fn segment_bytes(h: CompactedSegmentDataHeader, frames: Seq<Frame>) -> Seq<u8> {
    let pre = header_bytes(h).add(body_bytes(frames));
    pre.add(le_bytes(crc32(pre) as nat, 4))
}

/// Serializes a compacted segment: header, each frame in order, then the
/// checksum of everything before it.
pub fn encode_segment(h: &CompactedSegmentDataHeader, frames: &Vec<Frame>) -> (out: Vec<u8>)
    requires
        forall|i: int| 0 <= i < frames@.len() ==> #[trigger] frames@[i].data@.len() == PAGE_SIZE,
    ensures
        out@ == segment_bytes(*h, frames@),
{
    let mut out: Vec<u8> = Vec::new();
    encode_header(&mut out, h);
    let mut i: usize = 0;
    let n: usize = frames.len();
    while i < n
        invariant
            i <= n,
            n == frames@.len(),
            forall|k: int| 0 <= k < frames@.len() ==> #[trigger] frames@[k].data@.len()
                == PAGE_SIZE,
            out@ == header_bytes(*h).add(body_bytes(frames@.subrange(0, i as int))),
        decreases n - i,
    {
        let ghost pre = out@;
        encode_frame(&mut out, &frames[i]);
        proof {
            let sub1 = frames@.subrange(0, i + 1);
            assert(sub1.drop_last() =~= frames@.subrange(0, i as int));
            assert(sub1.last() == frames@[i as int]);
            assert(out@ =~= header_bytes(*h).add(body_bytes(sub1)));
        }
        i = i + 1;
    }
    proof {
        assert(frames@.subrange(0, n as int) =~= frames@);
    }
    let end: usize = out.len();
    let c: u32 = crc32_prefix(&out, end);
    proof {
        assert(out@.subrange(0, end as int) =~= out@);
    }
    put_le(&mut out, c as u128, 4);
    out
}

/// A compacted segment opened for reading: its validated header and the
/// underlying file bytes.
#[derive(Debug)]
pub struct CompactedSegment {
    pub header: CompactedSegmentDataHeader,
    pub data: Vec<u8>,
}

impl CompactedSegment {
    /// Opens a compacted segment from its file bytes: reads the header and
    /// validates magic, page size and version.
    pub fn open(data: Vec<u8>) -> (r: Result<CompactedSegment, Error>)
        ensures
            ({
                let h = parse_header(data@);
                if data@.len() < COMPACTED_HEADER_SIZE {
                    r == Result::<CompactedSegment, Error>::Err(Error::Io)
                } else if h.check_spec() is Err {
                    r == Result::<CompactedSegment, Error>::Err(h.check_spec()->Err_0)
                } else {
                    r matches Ok(seg) && seg.header == h && seg.data@ == data@
                }
            }),
    {
        if data.len() < COMPACTED_HEADER_SIZE as usize {
            return Err(Error::Io);
        }
        let header = decode_header(&data);
        match header.check() {
            Err(e) => Err(e),
            Ok(()) => Ok(CompactedSegment { header, data }),
        }
    }

    /// Whether frame record `offset` lies within the file bytes.
    pub open spec fn frame_in_bounds(&self, offset: u32) -> bool {
        COMPACTED_HEADER_SIZE + FRAME_SIZE * (offset + 1) <= self.data@.len()
    }

    /// The byte position of frame record `offset`.
    pub open spec fn frame_at(&self, offset: u32) -> int {
        COMPACTED_HEADER_SIZE + FRAME_SIZE * offset
    }

    /// Reads frame record `offset`, at `COMPACTED_HEADER_SIZE` plus
    /// `offset` times `FRAME_SIZE` into the file.
    pub fn read_frame(&self, offset: u32) -> (r: Result<Frame, Error>)
        ensures
            !self.frame_in_bounds(offset) ==> r == Result::<Frame, Error>::Err(Error::Io),
            self.frame_in_bounds(offset) ==> (r matches Ok(f) && {
                let rec = self.data@.subrange(
                    self.frame_at(offset),
                    self.frame_at(offset) + FRAME_SIZE,
                );
                &&& f.page_no == parse_page_no(rec)
                &&& f.frame_no == parse_frame_no(rec)
                &&& f.size_after == parse_size_after(rec)
                &&& f.data@ == parse_frame_data(rec)
            }),
    {
        proof {
            assert(COMPACTED_HEADER_SIZE as u64 + FRAME_SIZE as u64 * offset as u64 + FRAME_SIZE
                <= u64::MAX) by (nonlinear_arith)
                requires
                    offset <= u32::MAX,
            ;
        }
        let at64: u64 = COMPACTED_HEADER_SIZE as u64 + FRAME_SIZE as u64 * offset as u64;
        let len: usize = self.data.len();
        proof {
            assert(FRAME_SIZE * (offset as int + 1) == FRAME_SIZE * (offset as int) + FRAME_SIZE)
                by (nonlinear_arith);
            assert(at64 == COMPACTED_HEADER_SIZE + FRAME_SIZE * (offset as int));
        }
        if at64 + FRAME_SIZE as u64 > len as u64 {
            return Err(Error::Io);
        }
        let at: usize = at64 as usize;
        Ok(crate::frame::decode_frame(&self.data, at))
    }

    /// Recomputes the checksum of header and body and compares it with the
    /// stored footer.
    pub fn verify_checksum(&self) -> (r: Result<(), Error>)
        ensures
            r == self.checksum_spec(),
    {
        let len: usize = self.data.len();
        proof {
            assert(COMPACTED_HEADER_SIZE as u64 + FRAME_SIZE as u64 * self.header.frame_count
                as u64 + COMPACTED_FOOTER_SIZE <= u64::MAX) by (nonlinear_arith)
                requires
                    self.header.frame_count <= u32::MAX,
            ;
        }
        let body_end64: u64 = COMPACTED_HEADER_SIZE as u64 + FRAME_SIZE as u64
            * self.header.frame_count as u64;
        if body_end64 + COMPACTED_FOOTER_SIZE as u64 > len as u64 {
            return Err(Error::Io);
        }
        let body_end: usize = body_end64 as usize;
        let computed: u32 = crc32_prefix(&self.data, body_end);
        let stored: u32 = get_u32_le(&self.data, body_end);
        if computed == stored {
            Ok(())
        } else {
            Err(Error::ChecksumMismatch)
        }
    }

    /// What `verify_checksum` returns: whether the stored footer equals the
    /// checksum of everything before it.
    pub open spec fn checksum_spec(&self) -> Result<(), Error> {
        let body_end = COMPACTED_HEADER_SIZE + FRAME_SIZE * self.header.frame_count;
        if body_end + COMPACTED_FOOTER_SIZE > self.data@.len() {
            Err(Error::Io)
        } else if crc32(self.data@.subrange(0, body_end)) == from_le(
            self.data@.subrange(body_end, body_end + COMPACTED_FOOTER_SIZE),
        ) {
            Ok(())
        } else {
            Err(Error::ChecksumMismatch)
        }
    }
}

/// Round trip: a serialized segment opens, every frame reads back exactly,
/// and the checksum validates.
pub proof fn lemma_segment_round_trip(h: CompactedSegmentDataHeader, frames: Seq<Frame>)
    requires
        forall|k: int| 0 <= k < frames.len() ==> #[trigger] frames[k].data@.len() == PAGE_SIZE,
        h.frame_count == frames.len(),
    ensures
        segment_bytes(h, frames).len() == COMPACTED_HEADER_SIZE + FRAME_SIZE * frames.len()
            + COMPACTED_FOOTER_SIZE,
        parse_header(segment_bytes(h, frames)) == h,
        forall|i: int|
            0 <= i < frames.len() ==> {
                let rec = #[trigger] segment_bytes(h, frames).subrange(
                    COMPACTED_HEADER_SIZE + FRAME_SIZE * i,
                    COMPACTED_HEADER_SIZE + FRAME_SIZE * i + FRAME_SIZE,
                );
                &&& parse_page_no(rec) == frames[i].page_no
                &&& parse_frame_no(rec) == frames[i].frame_no
                &&& parse_size_after(rec) == frames[i].size_after
                &&& parse_frame_data(rec) == frames[i].data@
            },
        crc32(segment_bytes(h, frames).subrange(0, COMPACTED_HEADER_SIZE + FRAME_SIZE
            * frames.len())) == from_le(segment_bytes(h, frames).subrange(
            COMPACTED_HEADER_SIZE + FRAME_SIZE * frames.len(),
            COMPACTED_HEADER_SIZE + FRAME_SIZE * frames.len() + COMPACTED_FOOTER_SIZE,
        )),
{
    let pre = header_bytes(h).add(body_bytes(frames));
    let s = segment_bytes(h, frames);
    lemma_header_bytes_len(h);
    lemma_body_bytes_len(frames);
    lemma_le_bytes_len(crc32(pre) as nat, 4);
    assert(s.subrange(0, COMPACTED_HEADER_SIZE as int) =~= header_bytes(h));
    lemma_header_round_trip(h);
    assert(parse_header(s) == parse_header(header_bytes(h))) by {
        assert(s.subrange(0, 8) =~= header_bytes(h).subrange(0, 8));
        assert(s.subrange(8, 10) =~= header_bytes(h).subrange(8, 10));
        assert(s.subrange(10, 14) =~= header_bytes(h).subrange(10, 14));
        assert(s.subrange(14, 30) =~= header_bytes(h).subrange(14, 30));
        assert(s.subrange(30, 38) =~= header_bytes(h).subrange(30, 38));
        assert(s.subrange(38, 46) =~= header_bytes(h).subrange(38, 46));
        assert(s.subrange(46, 50) =~= header_bytes(h).subrange(46, 50));
        assert(s.subrange(50, 52) =~= header_bytes(h).subrange(50, 52));
    }
    assert forall|i: int| 0 <= i < frames.len() implies {
        let rec = #[trigger] s.subrange(
            COMPACTED_HEADER_SIZE + FRAME_SIZE * i,
            COMPACTED_HEADER_SIZE + FRAME_SIZE * i + FRAME_SIZE,
        );
        &&& parse_page_no(rec) == frames[i].page_no
        &&& parse_frame_no(rec) == frames[i].frame_no
        &&& parse_size_after(rec) == frames[i].size_after
        &&& parse_frame_data(rec) == frames[i].data@
    } by {
        lemma_body_bytes_slice(frames, i);
        lemma_frame_round_trip_at(h, frames, i);
    }
    assert(s.subrange(0, COMPACTED_HEADER_SIZE + FRAME_SIZE * frames.len()) =~= pre);
    assert(s.subrange(
        COMPACTED_HEADER_SIZE + FRAME_SIZE * frames.len(),
        COMPACTED_HEADER_SIZE + FRAME_SIZE * frames.len() + COMPACTED_FOOTER_SIZE,
    ) =~= le_bytes(crc32(pre) as nat, 4));
    lemma_u32_round_trip(crc32(pre));
}

/// Frame record `i` of a serialized segment parses back to frame `i`.
proof fn lemma_frame_round_trip_at(h: CompactedSegmentDataHeader, frames: Seq<Frame>, i: int)
    requires
        forall|k: int| 0 <= k < frames.len() ==> #[trigger] frames[k].data@.len() == PAGE_SIZE,
        0 <= i < frames.len(),
    ensures
        ({
            let rec = segment_bytes(h, frames).subrange(
                COMPACTED_HEADER_SIZE + FRAME_SIZE * i,
                COMPACTED_HEADER_SIZE + FRAME_SIZE * i + FRAME_SIZE,
            );
            &&& parse_page_no(rec) == frames[i].page_no
            &&& parse_frame_no(rec) == frames[i].frame_no
            &&& parse_size_after(rec) == frames[i].size_after
            &&& parse_frame_data(rec) == frames[i].data@
        }),
{
    let s = segment_bytes(h, frames);
    let pre = header_bytes(h).add(body_bytes(frames));
    lemma_header_bytes_len(h);
    lemma_body_bytes_len(frames);
    lemma_le_bytes_len(crc32(pre) as nat, 4);
    lemma_body_bytes_slice(frames, i);
    lemma_frame_bytes_len(frames[i]);
    assert(s.subrange(
        COMPACTED_HEADER_SIZE + FRAME_SIZE * i,
        COMPACTED_HEADER_SIZE + FRAME_SIZE * i + FRAME_SIZE,
    ) =~= body_bytes(frames).subrange(FRAME_SIZE * i, FRAME_SIZE * (i + 1)));
    crate::frame::lemma_frame_round_trip(frames[i]);
}

} // verus!
