use bytes::Bytes;

use pageserver::filepath::{parse_dec_u32, parse_hex_u64, parse_relfilename};
use pageserver::page_cache::{init_page_cache, BufferTag, GetPageOutcome, RelTag};
use pageserver::restore::{
    find_latest_snapshot, ingest_wal_record, is_system_filename, restore_relfile, DecodedBlock,
    RestoreError,
};
use pageserver::PAGE_SZ;

fn block(blkno: u32, will_init: bool, apply_image: bool) -> DecodedBlock {
    DecodedBlock {
        rnode_spcnode: 1663,
        rnode_dbnode: 5,
        rnode_relnode: 100,
        forknum: 0,
        blkno,
        will_init,
        apply_image,
    }
}

fn tag(blknum: u32) -> BufferTag {
    BufferTag { spcnode: 1663, dbnode: 5, relnode: 100, forknum: 0, blknum }
}

#[test]
fn parse_plain_relfilename() {
    assert_eq!(parse_relfilename("1259").unwrap(), (1259, 0, 0));
    assert_eq!(parse_relfilename("1259_fsm").unwrap(), (1259, 1, 0));
    assert_eq!(parse_relfilename("1259_vm").unwrap(), (1259, 2, 0));
    assert_eq!(parse_relfilename("1259_init").unwrap(), (1259, 3, 0));
    assert_eq!(parse_relfilename("1259.42").unwrap(), (1259, 0, 42));
    assert_eq!(parse_relfilename("1259_vm.3").unwrap(), (1259, 2, 3));
    assert_eq!(parse_relfilename("007").unwrap(), (7, 0, 0));
}

#[test]
fn parse_relfilename_rejects_bad_names() {
    assert!(parse_relfilename("").is_err());
    assert!(parse_relfilename("abc").is_err());
    assert!(parse_relfilename("1259_x").is_err());
    assert!(parse_relfilename("1259_").is_err());
    assert!(parse_relfilename("1259.").is_err());
    assert!(parse_relfilename("1259_fsm7").is_err());
    assert!(parse_relfilename("12590000000000").is_err());
    assert!(parse_relfilename("1259 ").is_err());
}

#[test]
fn parse_numbers() {
    assert_eq!(parse_dec_u32(b"0"), Some(0));
    assert_eq!(parse_dec_u32(b"4294967295"), Some(u32::MAX));
    assert_eq!(parse_dec_u32(b"4294967296"), None);
    assert_eq!(parse_dec_u32(b""), None);
    assert_eq!(parse_dec_u32(b"12a"), None);
    assert_eq!(parse_hex_u64(b"ff"), Some(255));
    assert_eq!(parse_hex_u64(b"FF"), Some(255));
    assert_eq!(parse_hex_u64(b"0000000000000000ffff"), Some(0xffff));
    assert_eq!(parse_hex_u64(b"ffffffffffffffff"), Some(u64::MAX));
    assert_eq!(parse_hex_u64(b"10000000000000000"), None);
    assert_eq!(parse_hex_u64(b""), None);
    assert_eq!(parse_hex_u64(b"xyz"), None);
}

#[test]
fn system_filenames_are_recognized() {
    assert!(is_system_filename("pg_control"));
    assert!(is_system_filename("pg_filenode.map"));
    assert!(is_system_filename("PG_VERSION"));
    assert!(!is_system_filename("1259"));
    assert!(!is_system_filename("pg_контроль"));
}

#[test]
fn latest_snapshot_is_the_greatest_position() {
    let names: Vec<Vec<u8>> = vec![
        b"0000000001000000".to_vec(),
        b"00000000002fe1c8".to_vec(),
        b"0000000002000000".to_vec(),
    ];
    assert_eq!(find_latest_snapshot(&names).unwrap(), 0x2000000);
    let empty: Vec<Vec<u8>> = Vec::new();
    assert_eq!(find_latest_snapshot(&empty).unwrap(), 0);
    let bad: Vec<Vec<u8>> = vec![b"0000000001000000".to_vec(), b"snapshots".to_vec()];
    assert!(find_latest_snapshot(&bad).is_err());
}

#[test]
fn restore_relfile_loads_full_pages() {
    let mut pcache = init_page_cache();
    let mut data = vec![0x01u8; PAGE_SZ];
    data.extend_from_slice(&vec![0x02u8; PAGE_SZ]);
    // a trailing partial page is the normal end of the file
    data.extend_from_slice(&[0x03u8; 100]);
    restore_relfile(&mut pcache, 1663, 5, 50, "100", &data).unwrap();
    pcache.init_valid_lsn(50);
    match pcache.get_page_at_lsn(tag(0), 50) {
        Ok(GetPageOutcome::Page(b)) => assert_eq!(b, Bytes::from(vec![0x01u8; PAGE_SZ])),
        _ => panic!("expected a page"),
    }
    match pcache.get_page_at_lsn(tag(1), 50) {
        Ok(GetPageOutcome::Page(b)) => assert_eq!(b, Bytes::from(vec![0x02u8; PAGE_SZ])),
        _ => panic!("expected a page"),
    }
    // the partial third page was not loaded: it reads as zeroes
    match pcache.get_page_at_lsn(tag(2), 50) {
        Ok(GetPageOutcome::Page(b)) => assert!(b.iter().all(|x| *x == 0)),
        _ => panic!("expected a page"),
    }
    let rel = RelTag { spcnode: 1663, dbnode: 5, relnode: 100, forknum: 0 };
    assert_eq!(pcache.relsize_get(&rel), 3);
}

#[test]
fn restore_relfile_honours_segment_numbers() {
    let mut pcache = init_page_cache();
    let data = vec![0x04u8; PAGE_SZ];
    restore_relfile(&mut pcache, 1663, 5, 50, "100.1", &data).unwrap();
    pcache.init_valid_lsn(50);
    match pcache.get_page_at_lsn(tag(131072), 50) {
        Ok(GetPageOutcome::Page(b)) => assert_eq!(b, Bytes::from(vec![0x04u8; PAGE_SZ])),
        _ => panic!("expected a page"),
    }
}

#[test]
fn restore_relfile_rejects_bad_input() {
    let mut pcache = init_page_cache();
    let data = vec![0x01u8; PAGE_SZ];
    assert_eq!(
        restore_relfile(&mut pcache, 1663, 5, 50, "nonsense", &data),
        Err(RestoreError::BadFileName)
    );
    restore_relfile(&mut pcache, 1663, 5, 50, "100", &data).unwrap();
    assert_eq!(
        restore_relfile(&mut pcache, 1663, 5, 50, "100", &data),
        Err(RestoreError::DuplicateEntry)
    );
    // segment 32768 would start past the addressable block range
    assert_eq!(
        restore_relfile(&mut pcache, 1663, 5, 50, "100.32768", &data),
        Err(RestoreError::BlockOutOfRange)
    );
}

#[test]
fn multi_block_record_shares_its_buffer() {
    let mut pcache = init_page_cache();
    pcache.init_valid_lsn(50);
    let rec = Bytes::from(vec![0xEE; 64]);
    ingest_wal_record(&mut pcache, 60, &rec, &vec![
        block(0, false, false),
        block(1, true, false),
    ])
    .unwrap();
    assert_eq!(pcache.get_last_valid_lsn(), 60);
    assert_eq!(pcache.len(), 2);
    // both entries carry the same record bytes
    for pos in 0..2 {
        let (base, records) = pcache.collect_records_for_apply(pos);
        assert!(base.is_none());
        assert_eq!(records.last().unwrap().rec, rec);
    }
    let rel = RelTag { spcnode: 1663, dbnode: 5, relnode: 100, forknum: 0 };
    assert_eq!(pcache.relsize_get(&rel), 2);
}

#[test]
fn ingest_embedded_image_counts_as_initializing() {
    let mut pcache = init_page_cache();
    pcache.init_valid_lsn(50);
    let rec = Bytes::from(vec![0xEE; 64]);
    ingest_wal_record(&mut pcache, 60, &rec, &vec![block(0, false, true)]).unwrap();
    let (base, records) = pcache.collect_records_for_apply(0);
    assert!(base.is_none());
    assert!(records[0].will_init);
}

#[test]
fn ingest_rejects_bad_records() {
    let mut pcache = init_page_cache();
    pcache.init_valid_lsn(100);
    let rec = Bytes::from(vec![0xEE; 8]);
    assert_eq!(
        ingest_wal_record(&mut pcache, 50, &rec, &vec![block(0, false, false)]),
        Err(RestoreError::BackwardsLsn)
    );
    assert_eq!(
        ingest_wal_record(&mut pcache, 110, &rec, &vec![
            block(3, false, false),
            block(3, false, false),
        ]),
        Err(RestoreError::DuplicateEntry)
    );
    assert_eq!(
        ingest_wal_record(&mut pcache, 110, &rec, &vec![block(u32::MAX, false, false)]),
        Err(RestoreError::BlockOutOfRange)
    );
    // a refused record leaves the cache untouched
    assert_eq!(pcache.len(), 0);
    assert_eq!(pcache.get_last_valid_lsn(), 100);
}
