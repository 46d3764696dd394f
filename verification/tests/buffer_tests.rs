use storage_core::{BlockId, BufferMgr, FileMgr, LogMgr, Page, StorageError};

/// Creates `blocks` zero blocks of `name` in `fm` so they can be pinned.
fn create_blocks(fm: &mut FileMgr, name: &str, blocks: u64) {
    let mut p = Page::from_buffer(vec![0u8; fm.block_size() as usize]);
    let blk = BlockId::new(name, blocks - 1);
    fm.read_write(&blk, &mut p, true).unwrap();
}

#[test]
fn test_buffer_manager() {
    let mut file_mgr = FileMgr::new("buffermgrtest".to_string(), 400);
    let mut log_mgr = LogMgr::new(&mut file_mgr, "buffermgrtest".to_string());
    create_blocks(&mut file_mgr, "testfile.txt", 4);
    // create buffer manager with only 3 buffers
    let mut buf_mgr = BufferMgr::new(&file_mgr, 3);

    let buf_block0 = buf_mgr
        .pin(&mut file_mgr, &mut log_mgr, BlockId::new("testfile.txt", 0))
        .unwrap();
    assert_eq!(buf_mgr.buffer(buf_block0).pin_count(), 1);

    let buf_block1 = buf_mgr
        .pin(&mut file_mgr, &mut log_mgr, BlockId::new("testfile.txt", 1))
        .unwrap();
    assert_eq!(buf_mgr.buffer(buf_block1).pin_count(), 1);

    // here run out all available buffers
    let buf_block2 = buf_mgr
        .pin(&mut file_mgr, &mut log_mgr, BlockId::new("testfile.txt", 2))
        .unwrap();
    assert_eq!(buf_mgr.buffer(buf_block2).pin_count(), 1);

    // have one available buffer now
    buf_mgr.unpin(buf_block1);
    assert_eq!(buf_mgr.buffer(buf_block1).pin_count(), 0);

    // should increase the pin of buffer0
    let _ = buf_mgr
        .pin(&mut file_mgr, &mut log_mgr, BlockId::new("testfile.txt", 0))
        .unwrap();
    assert_eq!(buf_mgr.buffer(buf_block0).pin_count(), 2);

    let buf_block1 = buf_mgr
        .pin(&mut file_mgr, &mut log_mgr, BlockId::new("testfile.txt", 1))
        .unwrap();
    // we pinned block 1 before and then unpinned it, therefore this time
    // the pin number for block 1 is still 1
    assert_eq!(buf_mgr.buffer(buf_block1).pin_count(), 1);

    // we ran out of buffers: a further pin reports exhaustion
    let pin_result = buf_mgr.pin(&mut file_mgr, &mut log_mgr, BlockId::new("testfile.txt", 3));
    assert_eq!(pin_result.is_none(), true);

    // unpin one buffer, then block 3 can be pinned
    buf_mgr.unpin(buf_block2);
    assert_eq!(buf_mgr.buffer(buf_block2).pin_count(), 0);

    let _ = buf_mgr
        .pin(&mut file_mgr, &mut log_mgr, BlockId::new("testfile.txt", 3))
        .unwrap();
    assert_eq!(buf_mgr.buffer(buf_block2).pin_count(), 1);
}

#[test]
fn test_pin_cache_hit_no_data_movement() {
    let mut fm = FileMgr::new("hittest".to_string(), 400);
    let mut lm = LogMgr::new(&mut fm, "log".to_string());
    create_blocks(&mut fm, "data", 2);
    let mut bm = BufferMgr::new(&fm, 2);

    let h = bm.pin(&mut fm, &mut lm, BlockId::new("data", 1)).unwrap();
    assert_eq!(bm.buffer(h).pin_count(), 1);
    assert_eq!(bm.available(), 1);

    // the same block again: the same frame, one more pin, nothing loaded
    let h2 = bm.pin(&mut fm, &mut lm, BlockId::new("data", 1)).unwrap();
    assert_eq!(h2, h);
    assert_eq!(bm.buffer(h).pin_count(), 2);
    assert_eq!(bm.available(), 1);
}

#[test]
fn test_pool_exhaustion_and_reuse() {
    let mut fm = FileMgr::new("reusetest".to_string(), 400);
    let mut lm = LogMgr::new(&mut fm, "log".to_string());
    create_blocks(&mut fm, "data", 4);
    let mut bm = BufferMgr::new(&fm, 3);
    assert_eq!(bm.available(), 3);

    let a = bm.pin(&mut fm, &mut lm, BlockId::new("data", 0)).unwrap();
    let b = bm.pin(&mut fm, &mut lm, BlockId::new("data", 1)).unwrap();
    let c = bm.pin(&mut fm, &mut lm, BlockId::new("data", 2)).unwrap();
    assert_eq!(bm.available(), 0);

    // the pool is full: pinning a fourth block fails
    assert!(bm.pin(&mut fm, &mut lm, BlockId::new("data", 3)).is_none());

    // after unpinning b, the pending pin succeeds, reusing b's former frame
    bm.unpin(b);
    assert_eq!(bm.available(), 1);
    let d = bm.pin(&mut fm, &mut lm, BlockId::new("data", 3)).unwrap();
    assert_eq!(d, b);
    assert_ne!(d, a);
    assert_ne!(d, c);
    assert_eq!(bm.available(), 0);

    // d's bytes were freshly loaded from the store: its frame now holds
    // block 3, zero-filled on creation
    let blk = bm.buffer(d).block().unwrap();
    assert_eq!(blk.number(), 3);
    assert_eq!(blk.file_name(), "data");
}

#[test]
fn test_write_ahead_on_reassign() {
    let mut fm = FileMgr::new("waltest".to_string(), 400);
    let mut lm = LogMgr::new(&mut fm, "log".to_string());
    create_blocks(&mut fm, "data", 2);
    // a pool of one frame, so pinning another block forces replacement
    let mut bm = BufferMgr::new(&fm, 1);

    let h = bm.pin(&mut fm, &mut lm, BlockId::new("data", 0)).unwrap();
    // modify the frame's page and log the change for transaction 3
    let rec = storage_core::create_log_record("change".to_string(), 1);
    let lsn = lm.append(&mut fm, &rec);
    bm.buffer_mut(h).contents().set_int(80, 4321).unwrap();
    bm.buffer_mut(h).set_modified(3, lsn as i32);
    assert_eq!(bm.buffer(h).modifing_tx(), 3);
    bm.unpin(h);

    // reassigning the frame flushes the log and writes the page back
    let h2 = bm.pin(&mut fm, &mut lm, BlockId::new("data", 1)).unwrap();
    assert_eq!(h2, h);
    assert_eq!(bm.buffer(h2).modifing_tx(), -1);

    // the old block's bytes on disk now carry the modification
    let mut check = Page::from_buffer(vec![0u8; 400]);
    fm.read_write(&BlockId::new("data", 0), &mut check, false)
        .unwrap();
    assert_eq!(check.get_int(80).unwrap(), 4321);

    // and the log record describing it is durable: a scan finds it
    let mut it = lm.iter(&mut fm);
    let first = it.next(&mut fm).unwrap();
    let p = Page::from_buffer(first);
    assert_eq!(p.get_string(0).unwrap(), "change");
}

#[test]
fn test_flash_all_cleans_transaction() {
    let mut fm = FileMgr::new("flashtest".to_string(), 400);
    let mut lm = LogMgr::new(&mut fm, "log".to_string());
    create_blocks(&mut fm, "data", 3);
    let mut bm = BufferMgr::new(&fm, 3);

    let h0 = bm.pin(&mut fm, &mut lm, BlockId::new("data", 0)).unwrap();
    let h1 = bm.pin(&mut fm, &mut lm, BlockId::new("data", 1)).unwrap();
    bm.buffer_mut(h0).contents().set_int(0, 7).unwrap();
    bm.buffer_mut(h0).set_modified(5, -1);
    bm.buffer_mut(h1).contents().set_int(0, 8).unwrap();
    bm.buffer_mut(h1).set_modified(6, -1);

    bm.flash_all(&mut fm, &mut lm, 5);
    assert_eq!(bm.buffer(h0).modifing_tx(), -1);
    assert_eq!(bm.buffer(h1).modifing_tx(), 6);

    let mut check = Page::from_buffer(vec![0u8; 400]);
    fm.read_write(&BlockId::new("data", 0), &mut check, false)
        .unwrap();
    assert_eq!(check.get_int(0).unwrap(), 7);
}

#[test]
fn test_file_mgr_errors() {
    let mut fm = FileMgr::new("errtest".to_string(), 64);
    assert_eq!(
        fm.length("absent".to_string()),
        Err(StorageError::FileNotFound)
    );
    assert!(matches!(
        fm.append("absent".to_string()),
        Err(StorageError::FileNotFound)
    ));
    // a read of a never-registered file fails and registers nothing
    let mut p = Page::from_buffer(vec![0u8; 64]);
    assert_eq!(
        fm.read_write(&BlockId::new("short", 2), &mut p, false),
        Err(StorageError::FileNotFound)
    );
    assert_eq!(
        fm.length("short".to_string()),
        Err(StorageError::FileNotFound)
    );
    // a write registers and extends the file as needed; then the read
    // succeeds, but a read past the new end is out of bounds
    assert_eq!(fm.read_write(&BlockId::new("short", 2), &mut p, true), Ok(64));
    assert_eq!(fm.length("short".to_string()), Ok(3));
    assert_eq!(fm.read_write(&BlockId::new("short", 2), &mut p, false), Ok(64));
    assert_eq!(
        fm.read_write(&BlockId::new("short", 5), &mut p, false),
        Err(StorageError::OffsetOutOfBound)
    );
}
