//! The shared coordinator: transactions, upgrade arbitration, segment swap
//! and checkpoint.

use libsql_wal::error::Error;
use libsql_wal::registry::WalRegistry;
use libsql_wal::shared::{SharedWal, UpgradeOutcome};
use libsql_wal::tx::Transaction;

fn page(fill: u8) -> Vec<u8> {
    vec![fill; 4096]
}

fn fresh_wal(name: &str) -> SharedWal {
    SharedWal::new(String::from(name), Vec::new(), 0)
}

/// Runs one whole committed write transaction.
fn write_commit(shared: &mut SharedWal, conn: u64, pages: Vec<(u32, Vec<u8>)>, size_after: u32) {
    let rtx = shared.begin_read(conn);
    let mut tx = Transaction::Read(rtx);
    match shared.upgrade(&mut tx).unwrap() {
        UpgradeOutcome::Acquired => {}
        UpgradeOutcome::Enqueued => panic!("writer slot should have been free"),
    }
    match tx {
        Transaction::Write(mut w) => {
            shared.insert_frames(&mut w, &pages, Some(size_after)).unwrap();
            shared.end_write(w);
        }
        Transaction::Read(_) => panic!("upgrade left a read transaction"),
    }
}

fn read_page(shared: &SharedWal, conn: u64, page_no: u32) -> Result<Vec<u8>, Error> {
    let mut probe = shared_read_tx(shared, conn);
    let mut buf = vec![0u8; 4096];
    shared.read_frame(&mut probe, page_no, &mut buf)?;
    Ok(buf)
}

fn shared_read_tx(shared: &SharedWal, _conn: u64) -> Transaction {
    // a snapshot without touching reader counts: fields only
    Transaction::Read(libsql_wal::tx::ReadTransaction {
        id: 0,
        max_frame_no: shared.last_committed_frame_no(),
        db_size: shared.db_size(),
        conn_id: _conn,
        pages_read: 0,
    })
}

#[test]
fn checkpoint() {
    let mut shared = fresh_wal("test/data");
    assert_eq!(shared.checkpointed_frame_no(), 0);

    write_commit(&mut shared, 1, vec![(1, page(0x11))], 1);
    write_commit(&mut shared, 1, vec![(1, page(0x12)), (2, page(0x22)), (3, page(0x33))], 3);
    assert_eq!(shared.last_committed_frame_no(), 4);
    assert_eq!(shared.checkpointed_frame_no(), 0);

    let mut tx = Transaction::Read(shared.begin_read(666));
    match shared.upgrade(&mut tx).unwrap() {
        UpgradeOutcome::Acquired => {}
        UpgradeOutcome::Enqueued => panic!("no writer should be active"),
    }
    match tx {
        Transaction::Write(mut w) => {
            w.commit();
            shared.swap_current(&w).unwrap();
            shared.end_write(w);
        }
        Transaction::Read(_) => panic!("upgrade left a read transaction"),
    }

    let frame_no = shared.checkpoint().unwrap().unwrap();
    assert_eq!(frame_no, 4);
    assert_eq!(shared.checkpointed_frame_no(), 4);
    assert!(shared.checkpoint().unwrap().is_none());
}

#[test]
fn swap_current_chains_segments() {
    let mut shared = fresh_wal("swap");
    write_commit(&mut shared, 1, vec![(1, page(0x01)), (2, page(0x02))], 2);

    let mut tx = Transaction::Read(shared.begin_read(2));
    assert!(matches!(shared.upgrade(&mut tx), Ok(UpgradeOutcome::Acquired)));
    match tx {
        Transaction::Write(mut w) => {
            w.commit();
            shared.swap_current(&w).unwrap();
            shared.end_write(w);
        }
        Transaction::Read(_) => unreachable!(),
    }

    let sealed = &shared.tail[shared.tail.len() - 1];
    assert_eq!(sealed.start_frame_no, 1);
    assert_eq!(sealed.end_frame_no, 2);
    assert_eq!(shared.current.start_frame_no, sealed.end_frame_no + 1);
}

#[test]
fn frame_numbers_have_no_gaps() {
    let mut shared = fresh_wal("gapless");
    write_commit(&mut shared, 1, vec![(1, page(1))], 1);
    write_commit(&mut shared, 1, vec![(2, page(2)), (3, page(3))], 3);
    write_commit(&mut shared, 1, vec![(1, page(4))], 3);

    let mut expected = 1u64;
    for seg in shared.tail.iter() {
        for f in seg.frames.iter() {
            assert_eq!(f.frame_no, expected);
            expected += 1;
        }
    }
    for f in shared.current.frames.iter() {
        assert_eq!(f.frame_no, expected);
        expected += 1;
    }
    assert_eq!(expected, 5);
}

#[test]
fn read_serves_newest_visible_frame() {
    let mut shared = SharedWal::new(String::from("reads"), vec![0x44u8; 2 * 4096], 2);

    write_commit(&mut shared, 1, vec![(1, page(0xA1))], 2);
    let old_snapshot = shared_read_tx(&shared, 7);
    write_commit(&mut shared, 1, vec![(1, page(0xA2))], 2);

    // the old snapshot still sees the first version of page 1
    let mut probe = old_snapshot;
    let mut buf = vec![0u8; 4096];
    shared.read_frame(&mut probe, 1, &mut buf).unwrap();
    assert_eq!(buf, page(0xA1));

    // a fresh snapshot sees the newest
    assert_eq!(read_page(&shared, 8, 1).unwrap(), page(0xA2));

    // a page the log never saw comes from the base file
    assert_eq!(read_page(&shared, 8, 2).unwrap(), vec![0x44u8; 4096]);

    // a page beyond the base file is an error
    assert_eq!(read_page(&shared, 8, 3).unwrap_err(), Error::Io);
}

#[test]
fn write_tx_reads_its_own_frames() {
    let mut shared = fresh_wal("own");
    write_commit(&mut shared, 1, vec![(1, page(0x10))], 1);

    let mut tx = Transaction::Read(shared.begin_read(2));
    assert!(matches!(shared.upgrade(&mut tx), Ok(UpgradeOutcome::Acquired)));
    match tx {
        Transaction::Write(mut w) => {
            shared.insert_frames(&mut w, &vec![(5, page(0x55))], None).unwrap();
            let mut whole = Transaction::Write(w);
            let mut buf = vec![0u8; 4096];
            shared.read_frame(&mut whole, 5, &mut buf).unwrap();
            assert_eq!(buf, page(0x55));
            // nothing is committed: a plain reader cannot see page 5
            assert_eq!(read_page(&shared, 9, 5).unwrap_err(), Error::Io);
            match whole {
                Transaction::Write(w) => {
                    shared.end_write(w);
                }
                Transaction::Read(_) => unreachable!(),
            }
        }
        Transaction::Read(_) => unreachable!(),
    }
    // the uncommitted frame vanished with its transaction
    assert_eq!(shared.current.frames.len(), 1);
}

#[test]
fn savepoint_rollback_discards_appended_frames() {
    let mut shared = fresh_wal("savepoints");
    let mut tx = Transaction::Read(shared.begin_read(1));
    assert!(matches!(shared.upgrade(&mut tx), Ok(UpgradeOutcome::Acquired)));
    match tx {
        Transaction::Write(mut w) => {
            shared.insert_frames(&mut w, &vec![(1, page(0x01))], None).unwrap();
            let k = w.savepoint();
            shared.insert_frames(&mut w, &vec![(2, page(0x02)), (3, page(0x03))], None).unwrap();
            assert_eq!(shared.current.frames.len(), 3);
            w.rollback_to(k, &mut shared.current);
            assert_eq!(shared.current.frames.len(), 1);
            // the transaction can go on and commit what is left
            shared.insert_frames(&mut w, &vec![(4, page(0x04))], Some(2)).unwrap();
            shared.end_write(w);
        }
        Transaction::Read(_) => unreachable!(),
    }
    assert_eq!(shared.last_committed_frame_no(), 2);
    assert_eq!(read_page(&shared, 3, 4).unwrap(), page(0x04));
}

#[test]
fn busy_snapshot_retries_through_reserved_slot() {
    let mut shared = fresh_wal("busy");
    write_commit(&mut shared, 1, vec![(1, page(0x01))], 1);

    // connection 7 snapshots, then the log advances under it
    let stale = shared.begin_read(7);
    write_commit(&mut shared, 8, vec![(1, page(0x02))], 1);

    let mut tx = Transaction::Read(stale);
    assert_eq!(shared.upgrade(&mut tx).unwrap_err(), Error::BusySnapshot);
    assert_eq!(shared.wal_lock.reserved, Some(7));

    // with a fresh snapshot the reserved slot lets it through
    let mut tx = Transaction::Read(shared.begin_read(7));
    assert!(matches!(shared.upgrade(&mut tx), Ok(UpgradeOutcome::Acquired)));
    match tx {
        Transaction::Write(w) => {
            shared.end_write(w);
        }
        Transaction::Read(_) => unreachable!(),
    }
}

#[test]
fn waiters_wake_in_arrival_order() {
    let mut shared = fresh_wal("queue");

    let mut holder = Transaction::Read(shared.begin_read(10));
    assert!(matches!(shared.upgrade(&mut holder), Ok(UpgradeOutcome::Acquired)));

    let mut w1 = Transaction::Read(shared.begin_read(11));
    let mut w2 = Transaction::Read(shared.begin_read(12));
    let mut w3 = Transaction::Read(shared.begin_read(13));
    assert!(matches!(shared.upgrade(&mut w1), Ok(UpgradeOutcome::Enqueued)));
    assert!(matches!(shared.upgrade(&mut w2), Ok(UpgradeOutcome::Enqueued)));
    assert!(matches!(shared.upgrade(&mut w3), Ok(UpgradeOutcome::Enqueued)));

    let mut order = Vec::new();
    let mut release = |shared: &mut SharedWal, tx: Transaction| match tx {
        Transaction::Write(w) => shared.end_write(w),
        Transaction::Read(_) => panic!("expected the writer"),
    };
    let woken = release(&mut shared, holder).unwrap();
    order.push(woken);
    assert!(matches!(shared.upgrade(&mut w1), Ok(UpgradeOutcome::Acquired)));
    order.push(release(&mut shared, w1).unwrap());
    assert!(matches!(shared.upgrade(&mut w2), Ok(UpgradeOutcome::Acquired)));
    order.push(release(&mut shared, w2).unwrap());
    assert!(matches!(shared.upgrade(&mut w3), Ok(UpgradeOutcome::Acquired)));
    assert!(release(&mut shared, w3).is_none());

    assert_eq!(order, vec![11, 12, 13]);
}

#[test]
fn checkpointed_frame_no_is_monotonic() {
    let mut shared = fresh_wal("monotonic");
    let mut seen = vec![shared.checkpointed_frame_no()];

    for round in 0..3u8 {
        write_commit(&mut shared, 1, vec![(1, page(round))], 1);
        let mut tx = Transaction::Read(shared.begin_read(2));
        assert!(matches!(shared.upgrade(&mut tx), Ok(UpgradeOutcome::Acquired)));
        match tx {
            Transaction::Write(mut w) => {
                w.commit();
                shared.swap_current(&w).unwrap();
                shared.end_write(w);
            }
            Transaction::Read(_) => unreachable!(),
        }
        shared.checkpoint().unwrap();
        seen.push(shared.checkpointed_frame_no());
    }
    for i in 1..seen.len() {
        assert!(seen[i] >= seen[i - 1]);
    }
    assert_eq!(*seen.last().unwrap(), 3);
}

#[test]
fn registry_opens_each_namespace_once() {
    let mut registry = WalRegistry::new();
    let a = registry.open(String::from("ns-a"), Vec::new(), 0);
    let b = registry.open(String::from("ns-b"), Vec::new(), 0);
    let a_again = registry.open(String::from("ns-a"), Vec::new(), 0);
    assert_eq!(a, a_again);
    assert_ne!(a, b);
    assert_eq!(registry.resolve(&String::from("ns-b")).unwrap(), b);
    assert_eq!(
        registry.resolve(&String::from("ns-missing")).unwrap_err(),
        Error::NamespaceMissing
    );
}
