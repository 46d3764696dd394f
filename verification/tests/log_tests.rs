use storage_core::{create_log_record, BlockId, FileMgr, LogMgr, Page};

fn create_records(log_mgr: &mut LogMgr, fm: &mut FileMgr, start: u64, end: u64) {
    for val in start..end {
        let s = format!("record:{}", val);
        let rec = create_log_record(s, (val + 100) as i32);
        let _ = log_mgr.append(fm, &rec);
    }
}

#[test]
fn test_log_mgr_add_records() {
    let mut file_mgr = FileMgr::new("./logtest".to_string(), 400);
    let mut log_mgr = LogMgr::new(&mut file_mgr, "log_file.txt".to_string());
    let start = 1;
    let mut end = 36;
    create_records(&mut log_mgr, &mut file_mgr, start, end);

    let mut it = log_mgr.iter(&mut file_mgr);
    while let Some(rec) = it.next(&mut file_mgr) {
        end -= 1;
        let p = Page::from_buffer(rec);
        let s = p.get_string(0).unwrap();
        let s_should = format!("record:{}", end);
        let n_pos = Page::max_length(s.len() as u64);
        let val = p.get_int(n_pos).unwrap();
        assert_eq!(s, s_should);
        assert_eq!(val, (end + 100) as i32);
    }
    assert_eq!(end, start);
}

#[test]
fn test_log_first_lsn_is_one_and_no_gaps() {
    let mut fm = FileMgr::new("lsntest".to_string(), 400);
    let mut lm = LogMgr::new(&mut fm, "log_file".to_string());
    let mut expected: u64 = 1;
    for i in 0..20 {
        let rec = create_log_record(format!("r{}", i), i);
        let lsn = lm.append(&mut fm, &rec);
        assert_eq!(lsn, expected);
        expected += 1;
    }
}

#[test]
fn test_log_two_records_scan() {
    let mut fm = FileMgr::new("scantest".to_string(), 400);
    let mut lm = LogMgr::new(&mut fm, "log_file".to_string());
    let rec1 = create_log_record("record:1".to_string(), 101);
    let rec2 = create_log_record("record:2".to_string(), 102);
    assert_eq!(lm.append(&mut fm, &rec1), 1);
    assert_eq!(lm.append(&mut fm, &rec2), 2);

    let mut it = lm.iter(&mut fm);

    let first = it.next(&mut fm).unwrap();
    let p = Page::from_buffer(first);
    assert_eq!(p.get_string(0).unwrap(), "record:2");
    let n_pos = Page::max_length("record:2".len() as u64);
    assert_eq!(p.get_int(n_pos).unwrap(), 102);

    let second = it.next(&mut fm).unwrap();
    let p2 = Page::from_buffer(second);
    assert_eq!(p2.get_string(0).unwrap(), "record:1");
    assert_eq!(p2.get_int(n_pos).unwrap(), 101);

    assert!(it.next(&mut fm).is_none());
}

#[test]
fn test_log_append_overflow_starts_new_block() {
    let mut fm = FileMgr::new("overflowtest".to_string(), 400);
    let mut lm = LogMgr::new(&mut fm, "log_file".to_string());
    assert_eq!(fm.length("log_file".to_string()).unwrap(), 1);
    // each record takes 100 bytes of payload plus a 4-byte length prefix;
    // the fourth no longer fits above the boundary header and starts block 1
    for i in 0..5 {
        let rec: Vec<u8> = vec![i as u8; 100];
        lm.append(&mut fm, &rec);
    }
    assert_eq!(fm.length("log_file".to_string()).unwrap(), 2);
}

#[test]
fn test_log_scan_empty() {
    let mut fm = FileMgr::new("emptytest".to_string(), 400);
    let mut lm = LogMgr::new(&mut fm, "log_file".to_string());
    let mut it = lm.iter(&mut fm);
    assert!(it.next(&mut fm).is_none());
}

#[test]
fn test_log_scan_byte_identical() {
    let mut fm = FileMgr::new("bytetest".to_string(), 64);
    let mut lm = LogMgr::new(&mut fm, "log".to_string());
    let recs: Vec<Vec<u8>> = vec![
        vec![1, 2, 3],
        vec![],
        vec![255, 0, 127, 128],
        vec![42; 30],
        vec![7; 10],
    ];
    for r in &recs {
        lm.append(&mut fm, r);
    }
    let mut it = lm.iter(&mut fm);
    let mut seen: Vec<Vec<u8>> = Vec::new();
    while let Some(r) = it.next(&mut fm) {
        seen.push(r);
    }
    let mut expected = recs.clone();
    expected.reverse();
    assert_eq!(seen, expected);
}

#[test]
fn test_create_log_record_layout() {
    let rec = create_log_record("ab".to_string(), 7);
    // 4-byte length prefix, two bytes of string, 4-byte integer
    assert_eq!(rec, vec![0, 0, 0, 2, b'a', b'b', 0, 0, 0, 7]);
    let p = Page::from_buffer(rec);
    assert_eq!(p.get_string(0).unwrap(), "ab");
    assert_eq!(p.get_int(6).unwrap(), 7);
}

#[test]
fn test_block_id_to_string_large_number() {
    let b = BlockId::new("f", 90210);
    assert_eq!(b.to_string(), "file: f, block: 90210");
    let z = BlockId::new("f", 0);
    assert_eq!(z.to_string(), "file: f, block: 0");
}
