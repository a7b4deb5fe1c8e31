use pageserver::xlog::{
    IsPartialXLogFileName, IsXLogFileName, XLByteToSeg, XLogFileName, XLogFromFileName,
    XLogSegmentOffset, XLogSegmentsPerXLogId,
};
use pageserver::WAL_SEG_SIZE;

#[test]
fn segment_arithmetic() {
    assert_eq!(XLByteToSeg(0, WAL_SEG_SIZE), 0);
    assert_eq!(XLByteToSeg(0x0100_0000, WAL_SEG_SIZE), 1);
    assert_eq!(XLByteToSeg(0x0100_0005, WAL_SEG_SIZE), 1);
    assert_eq!(XLogSegmentOffset(0x0100_0005, WAL_SEG_SIZE), 5);
    assert_eq!(XLogSegmentOffset(0x0100_0000, WAL_SEG_SIZE), 0);
    assert_eq!(XLogSegmentsPerXLogId(WAL_SEG_SIZE), 256);
}

#[test]
fn file_names_are_three_hex_fields() {
    assert_eq!(XLogFileName(1, 5, WAL_SEG_SIZE), "000000010000000000000005");
    assert_eq!(XLogFileName(1, 300, WAL_SEG_SIZE), "00000001000000010000002C");
    assert_eq!(
        XLogFileName(0xDEADBEEF, 0xABCD * 256 + 0xEF, WAL_SEG_SIZE),
        "DEADBEEF0000ABCD000000EF"
    );
}

#[test]
fn file_names_read_back() {
    assert_eq!(XLogFromFileName("000000010000000000000005", WAL_SEG_SIZE), (5, 1));
    assert_eq!(XLogFromFileName("00000001000000010000002C", WAL_SEG_SIZE), (300, 1));
    let name = XLogFileName(3, 777, WAL_SEG_SIZE);
    assert_eq!(XLogFromFileName(&name, WAL_SEG_SIZE), (777, 3));
}

#[test]
fn xlog_file_name_shapes() {
    assert!(IsXLogFileName("000000010000000000000005"));
    assert!(IsXLogFileName("deadbeefDEADBEEF00000000"));
    assert!(!IsXLogFileName("00000001000000000000000"));
    assert!(!IsXLogFileName("0000000100000000000000050"));
    assert!(!IsXLogFileName("00000001000000000000000g"));
    assert!(IsPartialXLogFileName("000000010000000000000005.partial"));
    assert!(!IsPartialXLogFileName("000000010000000000000005"));
    assert!(!IsPartialXLogFileName("00000001000000000000000g.partial"));
    assert!(!IsPartialXLogFileName("000000010000000000000005.partial2"));
}
