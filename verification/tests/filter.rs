//! The at-rest encryption filter and the change-event filter.

use hmac::{Hmac, KeyInit, Mac};
use libsql_wal::crypt::CryptWal;
use libsql_wal::error::Error;
use libsql_wal::listen::{Action, AggregatorEvent, BroadcastMsg, LAGGED_MSG, filter_actions, stream_event};
use libsql_wal::shared::{SharedWal, UpgradeOutcome};
use libsql_wal::tx::Transaction;
use sha2::Sha256;

fn page(fill: u8) -> Vec<u8> {
    vec![fill; 4096]
}

fn filter() -> CryptWal {
    let key = "secret";
    let mut mac = Hmac::<Sha256>::new_from_slice(b"secret").unwrap();
    mac.update(key.as_bytes());
    let key_h: Vec<u8> = mac.finalize().into_bytes().to_vec();
    let iv = vec![42u8; 16];
    CryptWal::new(key_h, iv)
}

fn filtered_write_commit(
    crypt: &CryptWal,
    shared: &mut SharedWal,
    conn: u64,
    pages: Vec<(u32, Vec<u8>)>,
    size_after: u32,
) {
    let mut tx = Transaction::Read(shared.begin_read(conn));
    match shared.upgrade(&mut tx).unwrap() {
        UpgradeOutcome::Acquired => {}
        UpgradeOutcome::Enqueued => panic!("writer slot should have been free"),
    }
    match tx {
        Transaction::Write(mut w) => {
            crypt.insert_frames(shared, &mut w, &pages, Some(size_after)).unwrap();
            shared.end_write(w);
        }
        Transaction::Read(_) => panic!("upgrade left a read transaction"),
    }
}

fn filtered_read(crypt: &CryptWal, shared: &SharedWal, conn: u64, page_no: u32) -> Vec<u8> {
    let mut tx = Transaction::Read(libsql_wal::tx::ReadTransaction {
        id: 0,
        max_frame_no: shared.last_committed_frame_no(),
        db_size: shared.db_size(),
        conn_id: conn,
        pages_read: 0,
    });
    let mut buf = vec![0u8; 4096];
    crypt.read_frame(shared, &mut tx, page_no, &mut buf).unwrap();
    buf
}

#[test]
fn insert_and_read_page() {
    let crypt = filter();
    let mut shared = SharedWal::new(String::from("test/test.db"), Vec::new(), 0);

    filtered_write_commit(
        &crypt,
        &mut shared,
        1,
        vec![(1, page(0x01)), (2, page(0x02)), (3, page(0x03))],
        3,
    );

    assert_eq!(filtered_read(&crypt, &shared, 2, 1), page(0x01));
    assert_eq!(filtered_read(&crypt, &shared, 2, 2), page(0x02));
    assert_eq!(filtered_read(&crypt, &shared, 2, 3), page(0x03));
}

#[test]
fn page_one_is_never_transformed() {
    let crypt = filter();
    let mut shared = SharedWal::new(String::from("plain1"), Vec::new(), 0);
    filtered_write_commit(&crypt, &mut shared, 1, vec![(1, page(0xAB)), (2, page(0xCD))], 2);

    // page 1 is stored verbatim; other pages are stored transformed
    assert_eq!(shared.current.frames[0].data, page(0xAB));
    assert_ne!(shared.current.frames[1].data, page(0xCD));
    // and both decode back to what was inserted
    assert_eq!(filtered_read(&crypt, &shared, 2, 1), page(0xAB));
    assert_eq!(filtered_read(&crypt, &shared, 2, 2), page(0xCD));
}

#[test]
fn filter_actions_empty_list_matches_everything() {
    let msg = BroadcastMsg { delete: 0, insert: 0, update: 0, unknown: 0 };
    assert!(filter_actions(&msg, &Vec::new()));
}

#[test]
fn filter_actions_matches_requested_kind() {
    let msg = BroadcastMsg { delete: 0, insert: 2, update: 0, unknown: 0 };
    assert!(filter_actions(&msg, &vec![Action::INSERT]));
    assert!(filter_actions(&msg, &vec![Action::DELETE, Action::INSERT]));
}

#[test]
fn filter_actions_rejects_unrequested_kinds() {
    let msg = BroadcastMsg { delete: 0, insert: 2, update: 0, unknown: 0 };
    assert!(!filter_actions(&msg, &vec![Action::DELETE]));
    assert!(!filter_actions(&msg, &vec![Action::UPDATE, Action::UNKNOWN]));
}

#[test]
fn stream_forwards_matches_and_reports_lag() {
    let msg = BroadcastMsg { delete: 1, insert: 0, update: 0, unknown: 0 };
    let wanted = vec![Action::DELETE];
    match stream_event(Ok(msg), &wanted) {
        Some(AggregatorEvent::Changes(m)) => assert_eq!(m, msg),
        _ => panic!("a matching batch must be forwarded"),
    }
    assert!(stream_event(Ok(msg), &vec![Action::INSERT]).is_none());
    match stream_event(Err(3), &wanted) {
        Some(AggregatorEvent::Error(text)) => assert_eq!(text, LAGGED_MSG),
        _ => panic!("a lagging receiver must be told"),
    }
}

#[test]
fn errors_describe_themselves() {
    assert_eq!(Error::BusySnapshot.describe(), "busy snapshot");
    assert_eq!(Error::ChecksumMismatch.describe(), "checksum mismatch");
    assert_eq!(Error::NamespaceMissing.describe(), "namespace missing");
}
