use vstd::prelude::*;

use crate::block_id::BlockId;
use crate::file_mgr::{block_of, DiskOp, FileMgr};
use vstd::arithmetic::mul::lemma_mul_inequality;
use crate::log_mgr::LogMgr;
use crate::page::Page;

verus! {

// ---------------------------------------------------------------------------
// Buffer: one pool slot.
// ---------------------------------------------------------------------------

/// One pool frame: a page-sized buffer bound to at most one block at a time,
/// a pin count, and the transaction id and LSN of the last modification not
/// yet made durable. `blk` is `None` only before the frame's first use;
/// `tx_num == -1` means clean, `lsn == -1` means no log record recorded.
pub struct Buffer {
    pub page_buf: Page,
    pub blk: Option<BlockId>,
    pub pins: u32,
    pub tx_num: i32,
    pub lsn: i32,
}

impl Buffer {
    /// The frame fits the store: its page is block-sized and its block, if
    /// any, addresses an existing block of an existing file.
    pub open spec fn wf(self, fm: FileMgr) -> bool {
        &&& self.page_buf@.len() == fm.block_size
        &&& match self.blk {
            Some(b) => {
                &&& fm.has_file(b.file_name@)
                &&& (b.blk_num as int + 1) * (fm.block_size as int) <= fm.file_data(
                    b.file_name@,
                ).len()
                &&& fm.file_data(b.file_name@).len() <= usize::MAX
            },
            None => true,
        }
        &&& self.blk is None ==> self.tx_num == -1
    }

    /// The frame does not hold a block of the log file itself: data pages
    /// and the log live in different files, so a write-back can never
    /// clobber the log.
    pub open spec fn off_log(self, lm: LogMgr) -> bool {
        self.blk is Some ==> self.blk->0.file_name@ != lm.log_file@
    }

    /// A fresh, unassigned, clean frame with a zeroed block-sized page.
    pub fn new(fm: &FileMgr) -> (r: Buffer)
        requires
            fm.block_size <= usize::MAX,
        ensures
            r.wf(*fm),
            r.blk is None,
            r.pins == 0,
            r.tx_num == -1,
            r.lsn == -1,
            r.page_buf@ == crate::file_mgr::zero_bytes(fm.block_size as int),
    {
        let block_size = fm.block_size();
        Buffer {
            page_buf: Page::from_buffer(crate::file_mgr::zero_vec(block_size as usize)),
            blk: None,
            pins: 0,
            tx_num: -1,
            lsn: -1,
        }
    }

    /// The frame's page, for the caller to read and modify in place.
    pub fn contents(&mut self) -> (ret: &mut Page)
        ensures
            *ret == old(self).page_buf,
            *final(self) == (Buffer { page_buf: *final(ret), ..*old(self) }),
    {
        &mut self.page_buf
    }

    /// The block currently held, if the frame has been assigned one.
    pub fn block(&self) -> (r: Option<BlockId>)
        ensures
            (match self.blk {
                Some(b) => r is Some && r->0.file_name@ == b.file_name@ && r->0.blk_num
                    == b.blk_num,
                None => r is None,
            }),
    {
        match &self.blk {
            Some(b) => Some(b.duplicate()),
            None => None,
        }
    }

    /// Records that `tx_num` last modified this frame. The stored LSN is
    /// updated only when the given one is non-negative: a caller may pass a
    /// negative sentinel to mark the frame dirty without erasing a
    /// previously recorded LSN.
    pub fn set_modified(&mut self, tx_num: i32, lsn: i32)
        ensures
            final(self).tx_num == tx_num,
            lsn >= 0 ==> final(self).lsn == lsn,
            lsn < 0 ==> final(self).lsn == old(self).lsn,
            final(self).page_buf == old(self).page_buf,
            final(self).blk == old(self).blk,
            final(self).pins == old(self).pins,
    {
        self.tx_num = tx_num;
        if lsn >= 0 {
            self.lsn = lsn;
        }
    }

    /// The transaction that last modified this frame, `-1` when clean.
    pub fn modifing_tx(&self) -> (r: i32)
        ensures
            r == self.tx_num,
    {
        self.tx_num
    }

    pub fn is_pinned(&self) -> (r: bool)
        ensures
            r == (self.pins > 0),
    {
        self.pins > 0
    }

    pub fn pin_count(&self) -> (r: u32)
        ensures
            r == self.pins,
    {
        self.pins
    }

    pub fn pin(&mut self)
        requires
            old(self).pins < u32::MAX,
        ensures
            *final(self) == (Buffer { pins: (old(self).pins + 1) as u32, ..*old(self) }),
    {
        self.pins = self.pins + 1;
    }

    pub fn unpin(&mut self)
        requires
            old(self).pins > 0,
        ensures
            *final(self) == (Buffer { pins: (old(self).pins - 1) as u32, ..*old(self) }),
    {
        self.pins = self.pins - 1;
    }

    /// If the frame is dirty, first makes the log durable up to the frame's
    /// recorded LSN, then writes the frame's bytes back to its block, then
    /// marks the frame clean. The write-ahead order shows in the disk trace:
    /// the log write, when one is needed, strictly precedes the page write.
    pub fn flush(&mut self, fm: &mut FileMgr, lm: &mut LogMgr)
        requires
            old(self).wf(*old(fm)),
            old(self).off_log(*old(lm)),
            old(lm).wf(*old(fm)),
        ensures
            final(self).wf(*final(fm)),
            final(self).off_log(*final(lm)),
            final(lm).wf(*final(fm)),
            old(self).tx_num == -1 ==> *final(self) == *old(self) && *final(fm) == *old(fm)
                && *final(lm) == *old(lm),
            final(self).blk == old(self).blk,
            final(self).pins == old(self).pins,
            final(self).lsn == old(self).lsn,
            final(self).page_buf@ == old(self).page_buf@,
            final(self).tx_num == (if old(self).tx_num == -1 {
                old(self).tx_num
            } else {
                -1i32
            }),
            final(lm).log_file@ == old(lm).log_file@,
            final(lm).records@ == old(lm).records@,
            final(lm).latest_lsn == old(lm).latest_lsn,
            final(lm).durable@ >= old(lm).durable@,
            final(lm).last_saved_lsn >= old(lm).last_saved_lsn,
            FileMgr::grown_from(*final(fm), *old(fm)),
            forall|n: Seq<char>| #[trigger] final(fm).has_file(n) == old(fm).has_file(n),
            forall|n: Seq<char>|
                #[trigger] old(fm).has_file(n) ==> final(fm).file_data(n).len() == old(fm).file_data(n).len(),
            old(self).tx_num != -1 ==> ({
                let b = old(self).blk->0;
                let bs = old(fm).block_size as int;
                &&& old(self).blk is Some
                &&& block_of(final(fm).file_data(b.file_name@), bs, b.blk_num as int) == old(self).page_buf@
                &&& (old(self).lsn >= 0 && old(self).lsn as int <= old(lm).latest_lsn as int
                    ==> final(lm).durable@ >= old(self).lsn as int && final(lm).last_saved_lsn as int >= old(self).lsn as int)
                &&& (old(self).lsn as u64 <= old(lm).last_saved_lsn ==> final(fm).ops@ == old(fm).ops@ + seq![DiskOp::Write { file: b.file_name@, blk: b.blk_num as int }])
                &&& (old(self).lsn as u64 > old(lm).last_saved_lsn ==> final(fm).ops@ == old(fm).ops@ + seq![
                    DiskOp::Write { file: old(lm).log_file@, blk: old(lm).current_blk as int },
                    DiskOp::Write { file: b.file_name@, blk: b.blk_num as int },
                ])
                &&& forall|n: Seq<char>|
                    n != b.file_name@ && n != old(lm).log_file@ && #[trigger] old(fm).has_file(n)
                        ==> final(fm).file_data(n) == old(fm).file_data(n)
                &&& forall|j: int|
                    0 <= j && j != b.blk_num as int && (j + 1) * bs <= old(fm).file_data(
                        b.file_name@,
                    ).len() ==> #[trigger] block_of(final(fm).file_data(b.file_name@), bs, j)
                        == block_of(old(fm).file_data(b.file_name@), bs, j)
            }),
    {
        if self.tx_num != -1 {
            lm.flush(fm, self.lsn as u64);
            let b: BlockId = match &self.blk {
                Some(b) => b.duplicate(),
                None => {
                    proof {
                        assert(false);
                    }
                    BlockId::new("", 0)
                },
            };
            let ghost fm_mid = *fm;
            match fm.read_write(&b, &mut self.page_buf, true) {
                Ok(_) => {},
                Err(_) => {
                    proof {
                        assert(false);
                    }
                },
            }
            self.tx_num = -1;
            proof {
                let name = old(self).blk->0.file_name@;
                let bs = fm.block_size as int;
                let bn = old(self).blk->0.blk_num as int;
                vstd::arithmetic::div_mod::lemma_fundamental_div_mod(
                    fm_mid.file_data(name).len() as int,
                    bs,
                );
                assert(fm_mid.file_data(name).len() as int / bs >= bn + 1) by (nonlinear_arith)
                    requires
                        bs >= 1,
                        fm_mid.file_data(name).len() as int == bs * (fm_mid.file_data(
                            name,
                        ).len() as int / bs),
                        (bn + 1) * bs <= fm_mid.file_data(name).len(),
                ;
                assert(fm_mid.file_data(name) + crate::file_mgr::zero_bytes(0 * bs)
                    =~= fm_mid.file_data(name));
                if old(self).lsn as u64 <= old(lm).last_saved_lsn {
                    assert(fm.ops@ =~= old(fm).ops@ + seq![
                        DiskOp::Write { file: name, blk: bn },
                    ]);
                } else {
                    assert(fm.ops@ =~= old(fm).ops@ + seq![
                        DiskOp::Write { file: old(lm).log_file@, blk: old(lm).current_blk as int },
                        DiskOp::Write { file: name, blk: bn },
                    ]);
                }
                let data0 = fm_mid.file_data(name);
                let nb0 = data0.len() as int / bs;
                assert(data0 == old(fm).file_data(name));
                assert forall|j: int|
                    0 <= j && j != bn && (j + 1) * bs <= old(fm).file_data(name).len() implies
                    #[trigger] block_of(fm.file_data(name), bs, j) == block_of(
                    old(fm).file_data(name),
                    bs,
                    j,
                ) by {
                    if j >= nb0 {
                        lemma_mul_inequality(nb0 + 1, j + 1, bs);
                        assert((nb0 + 1) * bs == nb0 * bs + bs && data0.len() == nb0 * bs)
                            by (nonlinear_arith)
                            requires
                                bs >= 1,
                                data0.len() as int == bs * nb0,
                        ;
                        assert(false);
                    }
                    assert(block_of(fm.file_data(name), bs, j) == block_of(data0, bs, j));
                }
            }
        }
    }

    /// Binds the frame to `b`: first flushes any dirty content (write-ahead
    /// order enforced by `flush`), then loads `b`'s bytes from the store and
    /// resets the pin count.
    pub fn assign_to_block(&mut self, fm: &mut FileMgr, lm: &mut LogMgr, b: BlockId)
        requires
            old(self).wf(*old(fm)),
            old(self).off_log(*old(lm)),
            old(lm).wf(*old(fm)),
            old(fm).has_file(b.file_name@),
            (b.blk_num as int + 1) * (old(fm).block_size as int) <= old(fm).file_data(
                b.file_name@,
            ).len(),
            old(fm).file_data(b.file_name@).len() <= usize::MAX,
            b.file_name@ != old(lm).log_file@,
        ensures
            final(self).wf(*final(fm)),
            final(self).off_log(*final(lm)),
            final(lm).wf(*final(fm)),
            final(self).blk is Some,
            final(self).blk->0.file_name@ == b.file_name@,
            final(self).blk->0.blk_num == b.blk_num,
            final(self).pins == 0,
            final(self).tx_num == -1,
            final(self).page_buf@ == block_of(
                final(fm).file_data(b.file_name@),
                final(fm).block_size as int,
                b.blk_num as int,
            ),
            final(lm).log_file@ == old(lm).log_file@,
            final(lm).records@ == old(lm).records@,
            final(lm).latest_lsn == old(lm).latest_lsn,
            final(lm).durable@ >= old(lm).durable@,
            final(lm).last_saved_lsn >= old(lm).last_saved_lsn,
            FileMgr::grown_from(*final(fm), *old(fm)),
            forall|n: Seq<char>| #[trigger] final(fm).has_file(n) == old(fm).has_file(n),
            forall|n: Seq<char>|
                #[trigger] old(fm).has_file(n) ==> final(fm).file_data(n).len() == old(fm).file_data(n).len(),
            old(self).tx_num == -1 ==> final(fm).ops@ == old(fm).ops@,
            old(self).tx_num != -1 ==> ({
                let ob = old(self).blk->0;
                let bs = old(fm).block_size as int;
                &&& block_of(final(fm).file_data(ob.file_name@), bs, ob.blk_num as int) == old(self).page_buf@
                &&& (old(self).lsn >= 0 && old(self).lsn as int <= old(lm).latest_lsn as int
                    ==> final(lm).durable@ >= old(self).lsn as int)
                &&& (old(self).lsn as u64 <= old(lm).last_saved_lsn ==> final(fm).ops@ == old(fm).ops@ + seq![DiskOp::Write { file: ob.file_name@, blk: ob.blk_num as int }])
                &&& (old(self).lsn as u64 > old(lm).last_saved_lsn ==> final(fm).ops@ == old(fm).ops@ + seq![
                    DiskOp::Write { file: old(lm).log_file@, blk: old(lm).current_blk as int },
                    DiskOp::Write { file: ob.file_name@, blk: ob.blk_num as int },
                ])
            }),
    {
        self.flush(fm, lm);
        let ghost fm_mid = *fm;
        self.blk = Some(b.duplicate());
        let b2: BlockId = match &self.blk {
            Some(bb) => bb.duplicate(),
            None => {
                proof {
                    assert(false);
                }
                BlockId::new("", 0)
            },
        };
        proof {
            let name = b.file_name@;
            let bs = fm.block_size as int;
            vstd::arithmetic::div_mod::lemma_fundamental_div_mod(
                fm_mid.file_data(name).len() as int,
                bs,
            );
            assert(fm_mid.file_data(name).len() as int / bs >= b.blk_num as int + 1)
                by (nonlinear_arith)
                requires
                    bs >= 1,
                    fm_mid.file_data(name).len() as int == bs * (fm_mid.file_data(
                        name,
                    ).len() as int / bs),
                    (b.blk_num as int + 1) * bs <= fm_mid.file_data(name).len(),
            ;
        }
        match fm.read_write(&b2, &mut self.page_buf, false) {
            Ok(_) => {},
            Err(_) => {
                proof {
                    assert(false);
                }
            },
        }
        self.pins = 0;
    }
}

// ---------------------------------------------------------------------------
// BufferMgr: admission control and replacement over the fixed frame pool.
// ---------------------------------------------------------------------------

/// Does frame `b` currently hold block `n` of file `f`?
pub open spec fn frame_holds(b: Buffer, f: Seq<char>, n: u64) -> bool {
    b.blk is Some && b.blk->0.file_name@ == f && b.blk->0.blk_num == n
}

/// How many frames of `pool` are unpinned.
pub open spec fn count_unpinned(pool: Seq<Buffer>) -> int
    decreases pool.len(),
{
    if pool.len() == 0 {
        0
    } else {
        count_unpinned(pool.drop_last()) + (if pool.last().pins == 0 {
            1int
        } else {
            0int
        })
    }
}

proof fn lemma_count_bounds(pool: Seq<Buffer>)
    ensures
        0 <= count_unpinned(pool) <= pool.len(),
    decreases pool.len(),
{
    if pool.len() > 0 {
        lemma_count_bounds(pool.drop_last());
    }
}

proof fn lemma_count_update(pool: Seq<Buffer>, i: int, b: Buffer)
    requires
        0 <= i < pool.len(),
    ensures
        count_unpinned(pool.update(i, b)) == count_unpinned(pool) - (if pool[i].pins == 0 {
            1int
        } else {
            0int
        }) + (if b.pins == 0 {
            1int
        } else {
            0int
        }),
    decreases pool.len(),
{
    let n = pool.len() - 1;
    if i == n {
        assert(pool.update(i, b).drop_last() =~= pool.drop_last());
        assert(pool.update(i, b).last() == b);
    } else {
        assert(pool.update(i, b).drop_last() =~= pool.drop_last().update(i, b));
        assert(pool.update(i, b).last() == pool.last());
        lemma_count_update(pool.drop_last(), i, b);
    }
}

proof fn lemma_count_positive(pool: Seq<Buffer>, i: int)
    requires
        0 <= i < pool.len(),
        pool[i].pins == 0,
    ensures
        count_unpinned(pool) >= 1,
    decreases pool.len(),
{
    let n = pool.len() - 1;
    lemma_count_bounds(pool.drop_last());
    if i < n {
        lemma_count_positive(pool.drop_last(), i);
    }
}

/// The fixed pool of frames. `num_available` is the admission-control
/// counter: how many frames currently have pin count zero.
pub struct BufferMgr {
    pub buffer_pool: Vec<Buffer>,
    pub num_available: u32,
}

impl BufferMgr {
    /// Every frame fits the store, no two frames hold the same block, and
    /// the counter matches the pool.
    pub open spec fn wf(self, fm: FileMgr) -> bool {
        &&& forall|i: int|
            0 <= i < self.buffer_pool@.len() ==> (#[trigger] self.buffer_pool@[i]).wf(fm)
        &&& forall|i: int, j: int|
            #![trigger self.buffer_pool@[i], self.buffer_pool@[j]]
            0 <= i < self.buffer_pool@.len() && 0 <= j < self.buffer_pool@.len() && i != j
                && self.buffer_pool@[i].blk is Some ==> !frame_holds(
                self.buffer_pool@[j],
                self.buffer_pool@[i].blk->0.file_name@,
                self.buffer_pool@[i].blk->0.blk_num,
            )
        &&& self.num_available as int == count_unpinned(self.buffer_pool@)
        &&& self.buffer_pool@.len() <= u32::MAX
    }

    /// No frame holds a block of the log file.
    pub open spec fn off_log(self, lm: LogMgr) -> bool {
        forall|i: int|
            0 <= i < self.buffer_pool@.len() ==> (#[trigger] self.buffer_pool@[i]).off_log(lm)
    }

    /// A pool of `num_buffers` fresh frames, all available.
    #[verifier::loop_isolation(false)]
    pub fn new(fm: &FileMgr, num_buffers: u32) -> (r: BufferMgr)
        requires
            fm.block_size <= usize::MAX,
        ensures
            r.wf(*fm),
            r.buffer_pool@.len() == num_buffers,
            r.num_available == num_buffers,
            forall|i: int|
                0 <= i < num_buffers ==> (#[trigger] r.buffer_pool@[i]).blk is None
                    && r.buffer_pool@[i].pins == 0 && r.buffer_pool@[i].tx_num == -1
                    && r.buffer_pool@[i].lsn == -1 && r.buffer_pool@[i].page_buf@
                    == crate::file_mgr::zero_bytes(fm.block_size as int),
    {
        let mut buf_vec: Vec<Buffer> = Vec::new();
        let mut k: u32 = 0;
        while k < num_buffers
            invariant
                k <= num_buffers,
                buf_vec@.len() == k,
                count_unpinned(buf_vec@) == k as int,
                forall|i: int|
                    0 <= i < k ==> (#[trigger] buf_vec@[i]).wf(*fm) && buf_vec@[i].blk is None
                        && buf_vec@[i].pins == 0 && buf_vec@[i].tx_num == -1 && buf_vec@[i].lsn
                        == -1 && buf_vec@[i].page_buf@ == crate::file_mgr::zero_bytes(
                        fm.block_size as int,
                    ),
            decreases num_buffers - k,
        {
            let buf = Buffer::new(fm);
            proof {
                assert(buf_vec@.push(buf).drop_last() =~= buf_vec@);
            }
            buf_vec.push(buf);
            k = k + 1;
        }
        BufferMgr { buffer_pool: buf_vec, num_available: num_buffers }
    }

    /// A view of the frame behind handle `idx`.
    pub fn buffer(&self, idx: usize) -> (r: &Buffer)
        requires
            idx < self.buffer_pool@.len(),
        ensures
            *r == self.buffer_pool@[idx as int],
    {
        &self.buffer_pool[idx]
    }

    /// The frame behind handle `idx`, open for reading and modifying its
    /// page and modification marker in place.
    pub fn buffer_mut(&mut self, idx: usize) -> (ret: &mut Buffer)
        requires
            idx < old(self).buffer_pool@.len(),
        ensures
            *ret == old(self).buffer_pool@[idx as int],
            final(self).buffer_pool@ == old(self).buffer_pool@.update(idx as int, *final(ret)),
            final(self).num_available == old(self).num_available,
    {
        &mut self.buffer_pool[idx]
    }

    /// How many frames currently have pin count zero.
    pub fn available(&self) -> (r: u32)
        ensures
            r == self.num_available,
    {
        self.num_available
    }

    /// Flushes every frame whose modifying transaction is `tx_num`, forcing
    /// everything that transaction touched to disk, in write-ahead order.
    #[verifier::loop_isolation(false)]
    pub fn flash_all(&mut self, fm: &mut FileMgr, lm: &mut LogMgr, tx_num: i32)
        requires
            old(self).wf(*old(fm)),
            old(self).off_log(*old(lm)),
            old(lm).wf(*old(fm)),
        ensures
            final(self).wf(*final(fm)),
            final(self).off_log(*final(lm)),
            final(lm).wf(*final(fm)),
            final(self).buffer_pool@.len() == old(self).buffer_pool@.len(),
            final(self).num_available == old(self).num_available,
            forall|i: int|
                0 <= i < old(self).buffer_pool@.len() ==> {
                    let pre = old(self).buffer_pool@[i];
                    let post = #[trigger] final(self).buffer_pool@[i];
                    &&& post.blk == pre.blk
                    &&& post.pins == pre.pins
                    &&& post.lsn == pre.lsn
                    &&& post.page_buf@ == pre.page_buf@
                    &&& post.tx_num == (if pre.tx_num == tx_num {
                        -1i32
                    } else {
                        pre.tx_num
                    })
                },
            final(lm).log_file@ == old(lm).log_file@,
            final(lm).records@ == old(lm).records@,
            final(lm).latest_lsn == old(lm).latest_lsn,
            final(lm).durable@ >= old(lm).durable@,
            final(lm).last_saved_lsn >= old(lm).last_saved_lsn,
            FileMgr::grown_from(*final(fm), *old(fm)),
            forall|n: Seq<char>| #[trigger] final(fm).has_file(n) == old(fm).has_file(n),
            forall|n: Seq<char>|
                #[trigger] old(fm).has_file(n) ==> final(fm).file_data(n).len() == old(fm).file_data(n).len(),
            tx_num != -1 ==> forall|i: int|
                0 <= i < old(self).buffer_pool@.len() && (#[trigger] old(self).buffer_pool@[i]).tx_num
                    == tx_num && old(self).buffer_pool@[i].blk is Some ==> ({
                    let b = old(self).buffer_pool@[i].blk->0;
                    let bs = old(fm).block_size as int;
                    &&& block_of(final(fm).file_data(b.file_name@), bs, b.blk_num as int) == old(self).buffer_pool@[i].page_buf@
                    &&& (old(self).buffer_pool@[i].lsn >= 0 && old(self).buffer_pool@[i].lsn as int <= old(lm).latest_lsn as int ==> final(lm).durable@ >= old(self).buffer_pool@[i].lsn as int && final(lm).last_saved_lsn as int >= old(self).buffer_pool@[i].lsn as int)
                }),
    {
        let n: usize = self.buffer_pool.len();
        let mut i: usize = 0;
        while i < n
            invariant
                i <= n,
                n == self.buffer_pool@.len(),
                self.buffer_pool@.len() == old(self).buffer_pool@.len(),
                self.num_available == old(self).num_available,
                self.wf(*fm),
                self.off_log(*lm),
                lm.wf(*fm),
                lm.log_file@ == old(lm).log_file@,
                lm.records@ == old(lm).records@,
                lm.latest_lsn == old(lm).latest_lsn,
                lm.durable@ >= old(lm).durable@,
                lm.last_saved_lsn >= old(lm).last_saved_lsn,
                FileMgr::grown_from(*fm, *old(fm)),
                forall|nm: Seq<char>| #[trigger] fm.has_file(nm) == old(fm).has_file(nm),
                forall|nm: Seq<char>|
                    #[trigger] old(fm).has_file(nm) ==> fm.file_data(nm).len() == old(fm).file_data(nm).len(),
                forall|k: int|
                    i <= k < n ==> #[trigger] self.buffer_pool@[k] == old(self).buffer_pool@[k],
                forall|k: int|
                    0 <= k < i ==> {
                        let pre = old(self).buffer_pool@[k];
                        let post = #[trigger] self.buffer_pool@[k];
                        &&& post.blk == pre.blk
                        &&& post.pins == pre.pins
                        &&& post.lsn == pre.lsn
                        &&& post.page_buf@ == pre.page_buf@
                        &&& post.tx_num == (if pre.tx_num == tx_num {
                            -1i32
                        } else {
                            pre.tx_num
                        })
                    },
                tx_num != -1 ==> forall|k: int|
                    0 <= k < i && (#[trigger] old(self).buffer_pool@[k]).tx_num == tx_num && old(self).buffer_pool@[k].blk is Some ==> ({
                        let b = old(self).buffer_pool@[k].blk->0;
                        let bs = old(fm).block_size as int;
                        &&& block_of(fm.file_data(b.file_name@), bs, b.blk_num as int) == old(self).buffer_pool@[k].page_buf@
                        &&& (old(self).buffer_pool@[k].lsn >= 0 && old(self).buffer_pool@[k].lsn as int <= old(lm).latest_lsn as int ==> lm.durable@
                            >= old(self).buffer_pool@[k].lsn as int && lm.last_saved_lsn as int
                            >= old(self).buffer_pool@[k].lsn as int)
                    }),
            decreases n - i,
        {
            let ghost pool_pre = self.buffer_pool@;
            let ghost fm_pre = *fm;
            let fr = &mut self.buffer_pool[i];
            let ghost fr_pre = *fr;
            if fr.modifing_tx() == tx_num {
                fr.flush(fm, lm);
            }
            proof {
                lemma_count_update(pool_pre, i as int, *fr);
                if tx_num != -1 {
                    assert forall|k: int|
                        0 <= k < i + 1 && (#[trigger] old(self).buffer_pool@[k]).tx_num == tx_num
                            && old(self).buffer_pool@[k].blk is Some implies ({
                        let b = old(self).buffer_pool@[k].blk->0;
                        let bs = old(fm).block_size as int;
                        block_of(fm.file_data(b.file_name@), bs, b.blk_num as int) == old(self).buffer_pool@[k].page_buf@
                    }) by {
                        let b = old(self).buffer_pool@[k].blk->0;
                        let bs = old(fm).block_size as int;
                        if k < i && fr_pre.tx_num == tx_num {
                            // frame i's write-back touched only its own block
                            let ob = fr_pre.blk->0;
                            assert(fr_pre.blk is Some);
                            assert(pool_pre[k].blk == old(self).buffer_pool@[k].blk);
                            assert(!frame_holds(pool_pre[k], ob.file_name@, ob.blk_num));
                            assert(b.file_name@ != lm.log_file@);
                            if b.file_name@ == ob.file_name@ {
                                assert(b.blk_num != ob.blk_num);
                                assert((b.blk_num as int + 1) * bs <= fm_pre.file_data(
                                    b.file_name@,
                                ).len());
                                assert(block_of(fm.file_data(b.file_name@), bs, b.blk_num as int)
                                    == block_of(fm_pre.file_data(b.file_name@), bs, b.blk_num as int));
                            } else {
                                assert(fm.file_data(b.file_name@) == fm_pre.file_data(
                                    b.file_name@,
                                ));
                            }
                        }
                    }
                }
            }
            i = i + 1;
        }
    }

    /// Releases one pin on the frame `idx`; when its pin count reaches zero
    /// the frame rejoins the available set.
    pub fn unpin(&mut self, idx: usize)
        requires
            idx < old(self).buffer_pool@.len(),
            old(self).buffer_pool@[idx as int].pins > 0,
            old(self).num_available as int == count_unpinned(old(self).buffer_pool@),
            old(self).buffer_pool@.len() <= u32::MAX,
        ensures
            final(self).buffer_pool@.len() == old(self).buffer_pool@.len(),
            final(self).buffer_pool@ == old(self).buffer_pool@.update(
                idx as int,
                (Buffer {
                    pins: (old(self).buffer_pool@[idx as int].pins - 1) as u32,
                    ..old(self).buffer_pool@[idx as int]
                }),
            ),
            final(self).num_available as int == count_unpinned(final(self).buffer_pool@),
            final(self).num_available == (if old(self).buffer_pool@[idx as int].pins == 1 {
                old(self).num_available + 1
            } else {
                old(self).num_available as int
            }),
    {
        let ghost pool_pre = self.buffer_pool@;
        let fr = &mut self.buffer_pool[idx];
        fr.unpin();
        let became_free: bool = !fr.is_pinned();
        proof {
            lemma_count_update(pool_pre, idx as int, *fr);
            lemma_count_bounds(self.buffer_pool@);
        }
        if became_free {
            self.num_available = self.num_available + 1;
        }
    }

    fn find_existing_buffer(&self, blk: &BlockId) -> (r: Option<usize>)
        ensures
            (match r {
                Some(i) => i < self.buffer_pool@.len() && frame_holds(
                    self.buffer_pool@[i as int],
                    blk.file_name@,
                    blk.blk_num,
                ) && forall|k: int|
                    0 <= k < i ==> !frame_holds(
                        #[trigger] self.buffer_pool@[k],
                        blk.file_name@,
                        blk.blk_num,
                    ),
                None => forall|k: int|
                    0 <= k < self.buffer_pool@.len() ==> !frame_holds(
                        #[trigger] self.buffer_pool@[k],
                        blk.file_name@,
                        blk.blk_num,
                    ),
            }),
    {
        let n: usize = self.buffer_pool.len();
        let mut i: usize = 0;
        while i < n
            invariant
                i <= n,
                n == self.buffer_pool@.len(),
                forall|k: int|
                    0 <= k < i ==> !frame_holds(
                        #[trigger] self.buffer_pool@[k],
                        blk.file_name@,
                        blk.blk_num,
                    ),
            decreases n - i,
        {
            let hit: bool = match self.buffer_pool[i].block() {
                Some(b) => b == *blk,
                None => false,
            };
            if hit {
                return Some(i);
            }
            i = i + 1;
        }
        None
    }

    fn choose_unpin_buffer(&self) -> (r: Option<usize>)
        ensures
            (match r {
                Some(i) => i < self.buffer_pool@.len() && self.buffer_pool@[i as int].pins == 0
                    && forall|k: int| 0 <= k < i ==> (#[trigger] self.buffer_pool@[k]).pins > 0,
                None => forall|k: int|
                    0 <= k < self.buffer_pool@.len() ==> (#[trigger] self.buffer_pool@[k]).pins
                        > 0,
            }),
    {
        let n: usize = self.buffer_pool.len();
        let mut i: usize = 0;
        while i < n
            invariant
                i <= n,
                n == self.buffer_pool@.len(),
                forall|k: int| 0 <= k < i ==> (#[trigger] self.buffer_pool@[k]).pins > 0,
            decreases n - i,
        {
            if !self.buffer_pool[i].is_pinned() {
                return Some(i);
            }
            i = i + 1;
        }
        None
    }

    /// One attempt to pin `blk`: a cache hit pins the frame already holding
    /// the block and moves no data; otherwise the first unpinned frame is
    /// reassigned to the block; with every frame pinned the attempt fails.
    fn try_to_pin(&mut self, fm: &mut FileMgr, lm: &mut LogMgr, blk: BlockId) -> (r: Option<
        usize,
    >)
        requires
            old(self).wf(*old(fm)),
            old(self).off_log(*old(lm)),
            old(lm).wf(*old(fm)),
            old(fm).has_file(blk.file_name@),
            (blk.blk_num as int + 1) * (old(fm).block_size as int) <= old(fm).file_data(
                blk.file_name@,
            ).len(),
            old(fm).file_data(blk.file_name@).len() <= usize::MAX,
            blk.file_name@ != old(lm).log_file@,
            forall|i: int|
                0 <= i < old(self).buffer_pool@.len() ==> (#[trigger] old(self).buffer_pool@[i]).pins < u32::MAX,
        ensures
            final(self).wf(*final(fm)),
            final(self).off_log(*final(lm)),
            final(lm).wf(*final(fm)),
            final(self).buffer_pool@.len() == old(self).buffer_pool@.len(),
            final(lm).log_file@ == old(lm).log_file@,
            final(lm).records@ == old(lm).records@,
            final(lm).latest_lsn == old(lm).latest_lsn,
            FileMgr::grown_from(*final(fm), *old(fm)),
            forall|n: Seq<char>| #[trigger] final(fm).has_file(n) == old(fm).has_file(n),
            r is None ==> *final(self) == *old(self) && *final(fm) == *old(fm) && *final(lm)
                == *old(lm) && (forall|k: int|
                0 <= k < old(self).buffer_pool@.len() ==> (#[trigger] old(self).buffer_pool@[k]).pins > 0
                    && !frame_holds(old(self).buffer_pool@[k], blk.file_name@, blk.blk_num)),
            r is Some ==> ({
                let j = r->0 as int;
                let pre = old(self).buffer_pool@[j];
                let post = final(self).buffer_pool@[j];
                &&& 0 <= j < old(self).buffer_pool@.len()
                &&& final(self).buffer_pool@ == old(self).buffer_pool@.update(j, post)
                &&& frame_holds(post, blk.file_name@, blk.blk_num)
                &&& post.pins >= 1
                &&& final(self).num_available == (if pre.pins == 0 {
                    old(self).num_available - 1
                } else {
                    old(self).num_available as int
                })
                &&& (frame_holds(pre, blk.file_name@, blk.blk_num) ==> {
                    &&& *final(fm) == *old(fm)
                    &&& *final(lm) == *old(lm)
                    &&& post == (Buffer { pins: (pre.pins + 1) as u32, ..pre })
                    &&& forall|k: int|
                        0 <= k < j ==> !frame_holds(
                            #[trigger] old(self).buffer_pool@[k],
                            blk.file_name@,
                            blk.blk_num,
                        )
                })
                &&& (!frame_holds(pre, blk.file_name@, blk.blk_num) ==> {
                    &&& (forall|k: int|
                        0 <= k < old(self).buffer_pool@.len() ==> !frame_holds(
                            #[trigger] old(self).buffer_pool@[k],
                            blk.file_name@,
                            blk.blk_num,
                        ))
                    &&& pre.pins == 0
                    &&& forall|k: int|
                        0 <= k < j ==> (#[trigger] old(self).buffer_pool@[k]).pins > 0
                    &&& post.pins == 1
                    &&& post.tx_num == -1
                    &&& post.page_buf@ == block_of(
                        final(fm).file_data(blk.file_name@),
                        final(fm).block_size as int,
                        blk.blk_num as int,
                    )
                    &&& (pre.tx_num == -1 ==> final(fm).ops@ == old(fm).ops@)
                    &&& (pre.tx_num != -1 ==> ({
                        let ob = pre.blk->0;
                        let bs = old(fm).block_size as int;
                        &&& block_of(final(fm).file_data(ob.file_name@), bs, ob.blk_num as int)
                            == pre.page_buf@
                        &&& (pre.lsn >= 0 && pre.lsn as int <= old(lm).latest_lsn as int ==> final(lm).durable@ >= pre.lsn as int)
                    }))
                })
            }),
    {
        let mut idx: usize = 0;
        let mut found: bool = false;
        match self.find_existing_buffer(&blk) {
            Some(i) => {
                idx = i;
                found = true;
            },
            None => {
                match self.choose_unpin_buffer() {
                    Some(i) => {
                        idx = i;
                    },
                    None => {
                        return None;
                    },
                }
            },
        }
        let ghost pool_pre = self.buffer_pool@;
        let ghost was_hit = found;
        if !found {
            let fr = &mut self.buffer_pool[idx];
            fr.assign_to_block(fm, lm, blk);
        }
        let ghost pool_mid = self.buffer_pool@;
        let fr = &mut self.buffer_pool[idx];
        let was_unpinned: bool = !fr.is_pinned();
        if was_unpinned {
            proof {
                lemma_count_positive(pool_mid, idx as int);
                if !was_hit {
                    lemma_count_update(pool_pre, idx as int, pool_mid[idx as int]);
                }
            }
            self.num_available = self.num_available - 1;
        }
        fr.pin();
        proof {
            lemma_count_update(pool_mid, idx as int, *fr);
            if !was_hit {
                lemma_count_update(pool_pre, idx as int, pool_mid[idx as int]);
                assert(self.buffer_pool@ =~= pool_pre.update(idx as int, self.buffer_pool@[idx as int]));
            }
        }
        Some(idx)
    }

    /// Resolves a pin request in one attempt: by cache hit, else by
    /// replacing the first unpinned frame; `None` reports exhaustion, the
    /// pool being fully pinned. The bounded blocking wait of a concurrent
    /// embedding belongs to the caller, which can retry after its own sleep:
    /// nothing can unpin a frame between two attempts of a single owner.
    pub fn pin(&mut self, fm: &mut FileMgr, lm: &mut LogMgr, blk: BlockId) -> (r: Option<usize>)
        requires
            old(self).wf(*old(fm)),
            old(self).off_log(*old(lm)),
            old(lm).wf(*old(fm)),
            old(fm).has_file(blk.file_name@),
            (blk.blk_num as int + 1) * (old(fm).block_size as int) <= old(fm).file_data(
                blk.file_name@,
            ).len(),
            old(fm).file_data(blk.file_name@).len() <= usize::MAX,
            blk.file_name@ != old(lm).log_file@,
            forall|i: int|
                0 <= i < old(self).buffer_pool@.len() ==> (#[trigger] old(self).buffer_pool@[i]).pins < u32::MAX,
        ensures
            final(self).wf(*final(fm)),
            final(self).off_log(*final(lm)),
            final(lm).wf(*final(fm)),
            final(self).buffer_pool@.len() == old(self).buffer_pool@.len(),
            final(lm).log_file@ == old(lm).log_file@,
            final(lm).records@ == old(lm).records@,
            final(lm).latest_lsn == old(lm).latest_lsn,
            FileMgr::grown_from(*final(fm), *old(fm)),
            forall|n: Seq<char>| #[trigger] final(fm).has_file(n) == old(fm).has_file(n),
            r is None ==> *final(self) == *old(self) && *final(fm) == *old(fm) && *final(lm)
                == *old(lm) && (forall|k: int|
                0 <= k < old(self).buffer_pool@.len() ==> (#[trigger] old(self).buffer_pool@[k]).pins > 0
                    && !frame_holds(old(self).buffer_pool@[k], blk.file_name@, blk.blk_num)),
            r is Some ==> ({
                let j = r->0 as int;
                let pre = old(self).buffer_pool@[j];
                let post = final(self).buffer_pool@[j];
                &&& 0 <= j < old(self).buffer_pool@.len()
                &&& final(self).buffer_pool@ == old(self).buffer_pool@.update(j, post)
                &&& frame_holds(post, blk.file_name@, blk.blk_num)
                &&& post.pins >= 1
                &&& final(self).num_available == (if pre.pins == 0 {
                    old(self).num_available - 1
                } else {
                    old(self).num_available as int
                })
                &&& (frame_holds(pre, blk.file_name@, blk.blk_num) ==> {
                    &&& *final(fm) == *old(fm)
                    &&& *final(lm) == *old(lm)
                    &&& post == (Buffer { pins: (pre.pins + 1) as u32, ..pre })
                    &&& forall|k: int|
                        0 <= k < j ==> !frame_holds(
                            #[trigger] old(self).buffer_pool@[k],
                            blk.file_name@,
                            blk.blk_num,
                        )
                })
                &&& (!frame_holds(pre, blk.file_name@, blk.blk_num) ==> {
                    &&& (forall|k: int|
                        0 <= k < old(self).buffer_pool@.len() ==> !frame_holds(
                            #[trigger] old(self).buffer_pool@[k],
                            blk.file_name@,
                            blk.blk_num,
                        ))
                    &&& pre.pins == 0
                    &&& forall|k: int|
                        0 <= k < j ==> (#[trigger] old(self).buffer_pool@[k]).pins > 0
                    &&& post.pins == 1
                    &&& post.tx_num == -1
                    &&& post.page_buf@ == block_of(
                        final(fm).file_data(blk.file_name@),
                        final(fm).block_size as int,
                        blk.blk_num as int,
                    )
                    &&& (pre.tx_num == -1 ==> final(fm).ops@ == old(fm).ops@)
                    &&& (pre.tx_num != -1 ==> ({
                        let ob = pre.blk->0;
                        let bs = old(fm).block_size as int;
                        &&& block_of(final(fm).file_data(ob.file_name@), bs, ob.blk_num as int)
                            == pre.page_buf@
                        &&& (pre.lsn >= 0 && pre.lsn as int <= old(lm).latest_lsn as int ==> final(lm).durable@ >= pre.lsn as int)
                    }))
                })
            }),
    {
        self.try_to_pin(fm, lm, blk)
    }
}

} // verus!
