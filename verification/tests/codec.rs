//! Compacted segment codec: round trip, header validation, checksum.

use libsql_wal::compacted::{CompactedSegment, CompactedSegmentDataHeader, LIBSQL_MAGIC, LIBSQL_WAL_VERSION, encode_segment};
use libsql_wal::crc::crc32_prefix;
use libsql_wal::error::Error;
use libsql_wal::frame::Frame;

fn page(fill: u8) -> Vec<u8> {
    vec![fill; 4096]
}

fn sample_frames() -> Vec<Frame> {
    vec![
        Frame { page_no: 1, frame_no: 1, size_after: 0, data: page(0xAA) },
        Frame { page_no: 2, frame_no: 2, size_after: 0, data: page(0xBB) },
        Frame { page_no: 1, frame_no: 3, size_after: 2, data: page(0xCC) },
    ]
}

fn sample_header(frame_count: u32) -> CompactedSegmentDataHeader {
    CompactedSegmentDataHeader {
        magic: LIBSQL_MAGIC,
        version: LIBSQL_WAL_VERSION,
        frame_count,
        segment_id: 0x0123_4567_89AB_CDEF_0011_2233_4455_6677,
        start_frame_no: 1,
        end_frame_no: 3,
        size_after: 2,
        page_size: 4096,
    }
}

#[test]
fn segment_round_trip() {
    let frames = sample_frames();
    let header = sample_header(3);
    let bytes = encode_segment(&header, &frames);
    assert_eq!(bytes.len(), 52 + 3 * 4112 + 4);

    let seg = CompactedSegment::open(bytes).expect("serialized segment must open");
    assert_eq!(seg.header, header);
    for i in 0..3u32 {
        let f = seg.read_frame(i).expect("frame in bounds");
        assert_eq!(f.page_no, frames[i as usize].page_no);
        assert_eq!(f.frame_no, frames[i as usize].frame_no);
        assert_eq!(f.size_after, frames[i as usize].size_after);
        assert_eq!(f.data, frames[i as usize].data);
    }
    assert!(seg.read_frame(3).is_err());
    assert!(seg.verify_checksum().is_ok());
}

#[test]
fn open_rejects_flipped_magic() {
    let frames = sample_frames();
    let header = sample_header(3);
    let mut bytes = encode_segment(&header, &frames);
    bytes[0] ^= 1;
    assert_eq!(CompactedSegment::open(bytes).unwrap_err(), Error::InvalidHeaderMagic);
}

#[test]
fn open_rejects_wrong_page_size() {
    let frames = sample_frames();
    let mut header = sample_header(3);
    header.page_size = 512;
    let bytes = encode_segment(&header, &frames);
    assert_eq!(CompactedSegment::open(bytes).unwrap_err(), Error::InvalidPageSize);
}

#[test]
fn open_rejects_wrong_version() {
    let frames = sample_frames();
    let mut header = sample_header(3);
    header.version = 7;
    let bytes = encode_segment(&header, &frames);
    assert_eq!(CompactedSegment::open(bytes).unwrap_err(), Error::InvalidVersion);
}

#[test]
fn open_rejects_short_file() {
    assert_eq!(CompactedSegment::open(vec![0u8; 10]).unwrap_err(), Error::Io);
}

#[test]
fn checksum_detects_corruption() {
    let frames = sample_frames();
    let header = sample_header(3);
    let mut bytes = encode_segment(&header, &frames);
    bytes[100] ^= 0xFF;
    let seg = CompactedSegment::open(bytes).expect("header is intact");
    assert_eq!(seg.verify_checksum().unwrap_err(), Error::ChecksumMismatch);
}

#[test]
fn crc32_known_check_value() {
    let data: Vec<u8> = b"123456789".to_vec();
    assert_eq!(crc32_prefix(&data, 9), 0xCBF4_3926);
}
