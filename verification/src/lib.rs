use vstd::prelude::*;

mod errors;
mod file_mgr;
mod log_mgr;
mod buf_mgr;
mod block_id;
mod page;

pub use errors::StorageError;
pub use file_mgr::{zero_vec, DiskOp, FileEntry, FileMgr};
pub use block_id::BlockId;
pub use page::Page;
pub use log_mgr::{create_log_record, LogIter, LogMgr};
pub use buf_mgr::{Buffer, BufferMgr};

verus! {

} // verus!
