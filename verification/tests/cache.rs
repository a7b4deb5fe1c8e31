use bytes::Bytes;

use pageserver::page_cache::{
    init_page_cache, BufferTag, GetPageOutcome, PageError, RelTag, WALRecord,
};
use pageserver::PAGE_SZ;

fn tag(blknum: u32) -> BufferTag {
    BufferTag { spcnode: 1663, dbnode: 5, relnode: 100, forknum: 0, blknum }
}

fn rel() -> RelTag {
    RelTag { spcnode: 1663, dbnode: 5, relnode: 100, forknum: 0 }
}

fn page(b: u8) -> Bytes {
    Bytes::from(vec![b; PAGE_SZ])
}

fn expect_page(r: Result<GetPageOutcome, PageError>) -> Bytes {
    match r {
        Ok(GetPageOutcome::Page(b)) => b,
        Ok(GetPageOutcome::WaitForWal) => panic!("unexpected WaitForWal"),
        Ok(GetPageOutcome::AwaitRedo(_)) => panic!("unexpected AwaitRedo"),
        Err(_) => panic!("unexpected error"),
    }
}

#[test]
fn zero_page_for_unseen_tag() {
    let mut pcache = init_page_cache();
    pcache.init_valid_lsn(100);
    let b = expect_page(pcache.get_page_at_lsn(tag(7), 100));
    assert_eq!(b.len(), 8192);
    assert!(b.iter().all(|x| *x == 0));
}

#[test]
fn image_hit_returns_exact_bytes() {
    let mut pcache = init_page_cache();
    pcache.put_page_image(tag(7), 50, page(0xAA));
    pcache.init_valid_lsn(50);
    // a read ahead of the watermark waits; once the WAL has caught up to
    // the requested position, the image is served unchanged
    assert!(matches!(
        pcache.get_page_at_lsn(tag(7), 60),
        Ok(GetPageOutcome::WaitForWal)
    ));
    pcache.advance_last_valid_lsn(60);
    let b = expect_page(pcache.get_page_at_lsn(tag(7), 60));
    assert_eq!(b, page(0xAA));
}

#[test]
fn read_at_watermark_succeeds_without_waiting() {
    let mut pcache = init_page_cache();
    pcache.put_page_image(tag(7), 50, page(0xAA));
    pcache.init_valid_lsn(50);
    let b = expect_page(pcache.get_page_at_lsn(tag(7), 50));
    assert_eq!(b, page(0xAA));
}

#[test]
fn read_above_watermark_waits_until_advanced() {
    let mut pcache = init_page_cache();
    pcache.init_valid_lsn(100);
    assert!(matches!(
        pcache.get_page_at_lsn(tag(7), 200),
        Ok(GetPageOutcome::WaitForWal)
    ));
    pcache.advance_last_valid_lsn(200);
    let b = expect_page(pcache.get_page_at_lsn(tag(7), 200));
    assert!(b.iter().all(|x| *x == 0));
}

#[test]
fn newest_version_at_or_below_request_wins() {
    let mut pcache = init_page_cache();
    pcache.put_page_image(tag(7), 50, page(0xAA));
    pcache.put_page_image(tag(7), 70, page(0xBB));
    pcache.put_page_image(tag(8), 60, page(0xCC));
    pcache.init_valid_lsn(40);
    pcache.advance_last_valid_lsn(100);
    assert_eq!(expect_page(pcache.get_page_at_lsn(tag(7), 60)), page(0xAA));
    assert_eq!(expect_page(pcache.get_page_at_lsn(tag(7), 70)), page(0xBB));
    assert_eq!(expect_page(pcache.get_page_at_lsn(tag(7), 100)), page(0xBB));
    assert_eq!(expect_page(pcache.get_page_at_lsn(tag(8), 100)), page(0xCC));
    // below the oldest version of the tag, the page reads as zeroes
    let b = expect_page(pcache.get_page_at_lsn(tag(7), 45));
    assert!(b.iter().all(|x| *x == 0));
}

#[test]
fn read_below_first_valid_lsn_is_evicted() {
    let mut pcache = init_page_cache();
    pcache.init_valid_lsn(100);
    assert!(matches!(
        pcache.get_page_at_lsn(tag(7), 99),
        Err(PageError::LsnEvicted)
    ));
}

#[test]
fn first_valid_lsn_advances_forward_only() {
    let mut pcache = init_page_cache();
    pcache.init_valid_lsn(100);
    pcache.advance_last_valid_lsn(200);
    pcache._advance_first_valid_lsn(150);
    assert!(matches!(
        pcache.get_page_at_lsn(tag(7), 149),
        Err(PageError::LsnEvicted)
    ));
    let b = expect_page(pcache.get_page_at_lsn(tag(7), 150));
    assert!(b.iter().all(|x| *x == 0));
}

#[test]
fn redo_path_reconstructs_from_base_and_records() {
    let mut pcache = init_page_cache();
    let base = page(0xBB);
    let rec_bytes = Bytes::from(vec![0x01, 0x02, 0x03]);
    pcache.put_page_image(tag(7), 50, base.clone());
    pcache.put_wal_record(
        tag(7),
        WALRecord { lsn: 60, will_init: false, rec: rec_bytes.clone() },
    );
    pcache.init_valid_lsn(60);

    // the lookup lands on the record and dispatches it for reconstruction
    let pos = match pcache.get_page_at_lsn(tag(7), 60) {
        Ok(GetPageOutcome::AwaitRedo(pos)) => pos,
        _ => panic!("expected AwaitRedo"),
    };
    assert_eq!(pcache.take_redo_request(), Some(pos));
    // while the request is pending, another reader waits on the same entry
    // without dispatching it again
    assert!(matches!(
        pcache.get_page_at_lsn(tag(7), 60),
        Ok(GetPageOutcome::AwaitRedo(p)) if p == pos
    ));
    assert_eq!(pcache.take_redo_request(), None);

    // a stub worker that concatenates the base image and the records
    let (collected_base, records) = pcache.collect_records_for_apply(pos);
    assert_eq!(collected_base.as_ref(), Some(&base));
    assert_eq!(records.len(), 1);
    assert_eq!(records[0].lsn, 60);
    assert!(!records[0].will_init);
    let mut reconstructed = collected_base.unwrap().to_vec();
    for r in &records {
        reconstructed.extend_from_slice(&r.rec);
    }
    pcache.complete_redo(pos, Bytes::from(reconstructed.clone()));

    let b = expect_page(pcache.get_page_at_lsn(tag(7), 60));
    assert_eq!(b.to_vec(), reconstructed);
}

#[test]
fn will_init_record_skips_base_image() {
    let mut pcache = init_page_cache();
    let rec_bytes = Bytes::from(vec![0x09; 16]);
    pcache.put_page_image(tag(7), 50, page(0xBB));
    pcache.put_wal_record(
        tag(7),
        WALRecord { lsn: 60, will_init: true, rec: rec_bytes.clone() },
    );
    pcache.init_valid_lsn(60);
    let pos = match pcache.get_page_at_lsn(tag(7), 60) {
        Ok(GetPageOutcome::AwaitRedo(pos)) => pos,
        _ => panic!("expected AwaitRedo"),
    };
    let (base, records) = pcache.collect_records_for_apply(pos);
    assert!(base.is_none());
    assert_eq!(records.len(), 1);
    assert_eq!(records[0].rec, rec_bytes);
    assert!(records[0].will_init);
}

#[test]
fn relsize_tracks_highest_block() {
    let mut pcache = init_page_cache();
    assert!(!pcache.relsize_exist(&rel()));
    pcache.put_page_image(tag(7), 50, page(0x01));
    assert!(pcache.relsize_exist(&rel()));
    assert_eq!(pcache.relsize_get(&rel()), 8);
    pcache.put_wal_record(
        tag(9),
        WALRecord { lsn: 60, will_init: false, rec: Bytes::from(vec![0x01]) },
    );
    assert_eq!(pcache.relsize_get(&rel()), 10);
    // a lower block does not shrink the cached size
    pcache.put_page_image(tag(2), 70, page(0x02));
    assert_eq!(pcache.relsize_get(&rel()), 10);
    pcache.relsize_inc(&rel(), Some(20));
    assert_eq!(pcache.relsize_get(&rel()), 21);
    pcache.relsize_inc(&rel(), None);
    assert_eq!(pcache.relsize_get(&rel()), 21);
}

#[test]
fn relsize_get_records_unknown_relation_at_zero() {
    let mut pcache = init_page_cache();
    let other = RelTag { spcnode: 1664, dbnode: 0, relnode: 42, forknum: 0 };
    assert!(!pcache.relsize_exist(&other));
    assert_eq!(pcache.relsize_get(&other), 0);
    assert!(pcache.relsize_exist(&other));
}

#[test]
fn random_probe_reports_empty_cache() {
    let mut pcache = init_page_cache();
    assert!(pcache._test_get_page_at_lsn().is_none());
    pcache.put_page_image(tag(0), 50, page(0x11));
    pcache.init_valid_lsn(50);
    // the probe asks for a far-future position, so it is told to wait for
    // the WAL to catch up
    assert!(matches!(
        pcache._test_get_page_at_lsn(),
        Some(Ok(GetPageOutcome::WaitForWal))
    ));
}
