use storage_core::{BlockId, FileMgr, Page};

#[test]
fn test_file_manage() {
    let mut file_mgr = FileMgr::new("filetest".to_string(), 512);
    // read from offset of 512 * 2
    let blk = BlockId::new("testfile", 2);
    let buf = vec![0u8; file_mgr.block_size() as usize];
    let mut p1 = Page::from_buffer(buf);
    let pos1 = 88;
    // the block begins at offset 512 * 2 of the file; writing at offset 88
    // relative to the block means writing at file offset 512 * 2 + 88
    let hello = String::from("hello, world!");
    p1.set_string(pos1, &hello).unwrap();

    // length of the string plus 4 bytes indicating the string's length
    let pos2 = Page::max_length(hello.len() as u64) + pos1 as u64;
    p1.set_int(pos2 as usize, 345).unwrap();
    // blk says which file and which block to write
    file_mgr.read_write(&blk, &mut p1, true).unwrap();

    let buf1 = vec![0u8; file_mgr.block_size() as usize];
    let mut p2 = Page::from_buffer(buf1);
    file_mgr.read_write(&blk, &mut p2, false).unwrap();
    p2.get_int(pos2).unwrap();
    let int_val = p2.get_int(pos2).unwrap();
    assert_eq!(int_val, 345);

    let str_val = p2.get_string(pos1).unwrap();
    assert_eq!("hello, world!", str_val);
}

#[test]
fn test_file_mgr_is_new() {
    let fm = FileMgr::new("newtest".to_string(), 128);
    assert!(fm.is_new());
    assert_eq!(fm.block_size(), 128);
}
