use vstd::prelude::*;

use crate::block_id::BlockId;
use crate::file_mgr::{block_of, zero_bytes, DiskOp, FileMgr};
use crate::page::{
    lemma_be32_round_trip, lemma_cast_u32_round_trip, spec_be32, spec_be32_bytes, Page,
};

verus! {

// ---------------------------------------------------------------------------
// The wire format of one log block.
//
// Byte offset 0 holds a 4-byte big-endian boundary: the start offset of the
// earliest valid record. From the boundary to the end of the block, records
// are packed back to back, each as a 4-byte big-endian length followed by its
// raw bytes; the record nearest the boundary is the most recently appended.
// ---------------------------------------------------------------------------

/// The boundary stored in the first four bytes of a log block.
pub open spec fn block_boundary(b: Seq<u8>) -> int {
    spec_be32(b.subrange(0, 4)) as int
}

/// The records packed in `b` from `pos` to the end of the block,
/// most recently appended first.
pub open spec fn parse_recs(b: Seq<u8>, pos: int) -> Seq<Seq<u8>>
    decreases b.len() - pos,
{
    if pos < 0 || pos > b.len() {
        seq![]
    } else if pos == b.len() {
        seq![]
    } else if pos + 4 > b.len() {
        seq![]
    } else {
        let l = spec_be32(b.subrange(pos, pos + 4)) as int;
        if pos + 4 + l <= b.len() {
            seq![b.subrange(pos + 4, pos + 4 + l)] + parse_recs(b, pos + 4 + l)
        } else {
            seq![]
        }
    }
}

/// The packing at `pos` is well formed: records follow each other exactly to
/// the end of the block.
pub open spec fn parses_to_end(b: Seq<u8>, pos: int) -> bool
    decreases b.len() - pos,
{
    if pos == b.len() {
        true
    } else if 0 <= pos && pos + 4 <= b.len() {
        let l = spec_be32(b.subrange(pos, pos + 4)) as int;
        pos + 4 + l <= b.len() && parses_to_end(b, pos + 4 + l)
    } else {
        false
    }
}

/// A well-formed log block: block-sized, boundary within range, records
/// packed exactly from the boundary to the end.
pub open spec fn block_wf(b: Seq<u8>, bs: int) -> bool {
    &&& b.len() == bs
    &&& 4 <= block_boundary(b) <= bs
    &&& parses_to_end(b, block_boundary(b))
}

/// The records of block `i` of a log file, most recent first.
pub open spec fn block_recs(file: Seq<u8>, bs: int, i: int) -> Seq<Seq<u8>> {
    let b = block_of(file, bs, i);
    parse_recs(b, block_boundary(b))
}

/// The records of blocks `i`, `i - 1`, ..., `0`, in that order: the whole
/// file's records, most recent first, when `i` is the last block.
pub open spec fn blocks_recs_down(file: Seq<u8>, bs: int, i: int) -> Seq<Seq<u8>>
    decreases i + 1,
{
    if i < 0 {
        seq![]
    } else {
        block_recs(file, bs, i) + blocks_recs_down(file, bs, i - 1)
    }
}

/// Parsing depends only on the bytes from `pos` onward.
proof fn lemma_parse_agree(b1: Seq<u8>, b2: Seq<u8>, pos: int)
    requires
        b1.len() == b2.len(),
        forall|i: int| pos <= i < b1.len() ==> b1[i] == b2[i],
    ensures
        parse_recs(b1, pos) == parse_recs(b2, pos),
        parses_to_end(b1, pos) == parses_to_end(b2, pos),
    decreases b1.len() - pos + 1,
{
    if 0 <= pos && pos + 4 <= b1.len() {
        assert(b1.subrange(pos, pos + 4) =~= b2.subrange(pos, pos + 4));
        let l = spec_be32(b1.subrange(pos, pos + 4)) as int;
        if pos + 4 + l <= b1.len() {
            assert(b1.subrange(pos + 4, pos + 4 + l) =~= b2.subrange(pos + 4, pos + 4 + l));
            lemma_parse_agree(b1, b2, pos + 4 + l);
        }
    }
}

/// Writing one record just below the old boundary puts it in front of the
/// old records.
proof fn lemma_parse_prepend(b_old: Seq<u8>, b_new: Seq<u8>, boundary: int, rec: Seq<u8>)
    requires
        b_old.len() == b_new.len(),
        8 + rec.len() <= boundary <= b_old.len(),
        rec.len() <= u32::MAX,
        b_new.subrange(boundary - 4 - rec.len(), boundary - rec.len()) == spec_be32_bytes(
            rec.len() as u32,
        ),
        b_new.subrange(boundary - rec.len(), boundary) == rec,
        forall|i: int| boundary <= i < b_old.len() ==> b_new[i] == b_old[i],
        parses_to_end(b_old, boundary),
    ensures
        parses_to_end(b_new, boundary - 4 - rec.len()),
        parse_recs(b_new, boundary - 4 - rec.len()) == seq![rec] + parse_recs(b_old, boundary),
{
    let rec_pos = boundary - 4 - rec.len();
    lemma_be32_round_trip(rec.len() as u32);
    lemma_parse_agree(b_old, b_new, boundary);
    assert(spec_be32(b_new.subrange(rec_pos, rec_pos + 4)) == rec.len());
    assert(b_new.subrange(rec_pos + 4, rec_pos + 4 + rec.len()) == rec);
    assert(parse_recs(b_new, rec_pos) == seq![rec] + parse_recs(b_new, boundary));
}

/// The per-block record view depends only on the blocks, not on how the file
/// bytes beyond them may differ.
proof fn lemma_blocks_down_blocks(f1: Seq<u8>, f2: Seq<u8>, bs: int, i: int)
    requires
        forall|k: int| 0 <= k <= i ==> block_of(f1, bs, k) == block_of(f2, bs, k),
    ensures
        blocks_recs_down(f1, bs, i) == blocks_recs_down(f2, bs, i),
    decreases i + 1,
{
    if i >= 0 {
        lemma_blocks_down_blocks(f1, f2, bs, i - 1);
    }
}

/// Extending a file by whole blocks leaves the bytes of its old blocks where
/// they were.
proof fn lemma_block_of_extend(f1: Seq<u8>, f2: Seq<u8>, bs: int, j: int)
    requires
        bs >= 1,
        0 <= j,
        (j + 1) * bs <= f1.len(),
        f1.len() <= f2.len(),
        forall|k: int| 0 <= k < f1.len() ==> f1[k] == f2[k],
    ensures
        block_of(f2, bs, j) == block_of(f1, bs, j),
{
    assert((j + 1) * bs == j * bs + bs && j * bs >= 0) by (nonlinear_arith)
        requires
            j >= 0,
            bs >= 1,
    ;
    assert(block_of(f2, bs, j) =~= block_of(f1, bs, j));
}

/// Reversing after a push puts the new element first.
proof fn lemma_reverse_push(s: Seq<Seq<u8>>, x: Seq<u8>)
    ensures
        s.push(x).reverse() == seq![x] + s.reverse(),
{
    assert(s.push(x).reverse() =~= seq![x] + s.reverse());
}

/// A reverse scan's order: the record yielded at step `i` is the one that
/// was appended `i` steps before the most recent one. With `records` the
/// appended records oldest first, the scan yields exactly `records`, newest
/// first, as `LogMgr::iter` and `LogIter::next` state.
pub proof fn lemma_scan_yields_appends_reversed(records: Seq<Seq<u8>>, i: int)
    requires
        0 <= i < records.len(),
    ensures
        records.reverse().len() == records.len(),
        records.reverse()[i] == records[records.len() - 1 - i],
{
}

/// A push does not change any prefix that was already there.
proof fn lemma_take_push(s: Seq<Seq<u8>>, x: Seq<u8>, d: int)
    requires
        0 <= d <= s.len(),
    ensures
        s.push(x).take(d) == s.take(d),
{
    assert(s.push(x).take(d) =~= s.take(d));
}

// ---------------------------------------------------------------------------
// LogMgr: durable, ordered, append-only record storage.
// ---------------------------------------------------------------------------

/// The append-only log: an in-memory mirror of the log file's tail block,
/// the number of that block, and the two LSN counters. LSNs are assigned
/// in strictly increasing order starting at 1; `records` is the ghost
/// sequence of every record appended so far, oldest first, so the record
/// with LSN `n` is `records[n - 1]`.
pub struct LogMgr {
    pub log_file: String,
    pub log_page: Page,
    pub current_blk: u64,
    pub latest_lsn: u64,
    pub last_saved_lsn: u64,
    pub records: Ghost<Seq<Seq<u8>>>,
    pub durable: Ghost<int>,
}

impl LogMgr {
    /// The log's invariant, tying it to the store `fm`: the file is a run of
    /// well-formed log blocks; the mirror together with the blocks below it
    /// carries exactly `records`, most recent first; and the file alone
    /// carries the durable prefix `records.take(durable)`, which covers at
    /// least everything up to `last_saved_lsn`.
    pub open spec fn wf(self, fm: FileMgr) -> bool {
        let bs = fm.block_size as int;
        let name = self.log_file@;
        let file = fm.file_data(name);
        &&& fm.wf()
        &&& 8 <= fm.block_size <= 0x7fff_ffff
        &&& fm.has_file(name)
        &&& file.len() == (self.current_blk as int + 1) * bs
        &&& file.len() <= usize::MAX
        &&& block_wf(self.log_page@, bs)
        &&& forall|i: int|
            0 <= i <= self.current_blk as int ==> block_wf(#[trigger] block_of(file, bs, i), bs)
        &&& forall|i: int|
            0 <= i < self.current_blk as int ==> block_boundary(#[trigger] block_of(file, bs, i))
                < bs
        &&& parse_recs(self.log_page@, block_boundary(self.log_page@)) + blocks_recs_down(
            file,
            bs,
            self.current_blk as int - 1,
        ) == self.records@.reverse()
        &&& blocks_recs_down(file, bs, self.current_blk as int) == self.records@.take(
            self.durable@,
        ).reverse()
        &&& self.latest_lsn as int == self.records@.len()
        &&& self.last_saved_lsn as int <= self.durable@ <= self.latest_lsn as int
    }

    /// Opens a fresh log in `fm` under `log_file_name`: creates the log
    /// file's first block, holding no records, with the boundary at the
    /// block's end, and the mirror equal to that block.
    ///
    /// Only a fresh log can be opened: an arbitrary pre-existing file gives
    /// no footing for the log's invariant (its blocks need not parse as
    /// records), and LSNs restarting at 1 over old records would make the
    /// sequence numbers ambiguous. A caller that wants to keep an old log
    /// reads it out with a scan before starting a new one.
    pub fn new(fm: &mut FileMgr, log_file_name: String) -> (r: LogMgr)
        requires
            old(fm).wf(),
            8 <= old(fm).block_size <= 0x7fff_ffff,
            old(fm).block_size <= usize::MAX,
            !old(fm).has_file(log_file_name@),
        ensures
            r.wf(*final(fm)),
            r.log_file@ == log_file_name@,
            r.latest_lsn == 0,
            r.last_saved_lsn == 0,
            r.current_blk == 0,
            r.records@ == Seq::<Seq<u8>>::empty(),
            r.log_page@ == block_of(
                final(fm).file_data(log_file_name@),
                final(fm).block_size as int,
                0,
            ),
            block_boundary(r.log_page@) == final(fm).block_size as int,
            FileMgr::grown_from(*final(fm), *old(fm)),
            forall|n: Seq<char>|
                n != log_file_name@ ==> #[trigger] final(fm).has_file(n) == old(fm).has_file(n),
            forall|n: Seq<char>|
                n != log_file_name@ && #[trigger] old(fm).has_file(n) ==> final(fm).file_data(n)
                    == old(fm).file_data(n),
            final(fm).ops@ == old(fm).ops@ + seq![
                DiskOp::Extend { file: log_file_name@ },
                DiskOp::Write { file: log_file_name@, blk: 0 },
            ],
    {
        let log_file_len = fm.length(log_file_name.clone());
        let bs: u64 = fm.block_size();
        let mut log_page = Page::from_buffer(crate::file_mgr::zero_vec(bs as usize));
        match log_file_len {
            Ok(_) => {
                proof {
                    assert(false);
                }
            },
            Err(_) => {
                let blk = BlockId::new(log_file_name.as_str(), 0);
                match log_page.set_int(0, bs as i32) {
                    Ok(()) => {},
                    Err(_) => {
                        proof {
                            assert(false);
                        }
                    },
                }
                match fm.read_write(&blk, &mut log_page, true) {
                    Ok(_) => {},
                    Err(_) => {
                        proof {
                            assert(false);
                        }
                    },
                }
            },
        }
        let lm = LogMgr {
            log_file: log_file_name,
            log_page,
            current_blk: 0,
            latest_lsn: 0,
            last_saved_lsn: 0,
            records: Ghost(Seq::empty()),
            durable: Ghost(0),
        };
        proof {
            let bsi = fm.block_size as int;
            let name = lm.log_file@;
            let m = lm.log_page@;
            let file = fm.file_data(name);
            assert(m.subrange(0, 4) =~= spec_be32_bytes((bs as i32) as u32));
            lemma_be32_round_trip((bs as i32) as u32);
            assert(block_boundary(m) == bsi);
            assert(m.len() == bsi);
            assert(parses_to_end(m, bsi));
            assert(file.len() == Seq::<u8>::empty().len() + 1 * bsi);
            assert(block_of(file, bsi, 0) == m);
            assert(parse_recs(m, bsi) =~= Seq::<Seq<u8>>::empty());
            assert(lm.records@.reverse() =~= Seq::<Seq<u8>>::empty());
            assert(lm.records@.take(0).reverse() =~= Seq::<Seq<u8>>::empty());
            assert(parse_recs(m, block_boundary(m)) + blocks_recs_down(file, bsi, -1)
                =~= lm.records@.reverse());
            assert(blocks_recs_down(file, bsi, 0) =~= lm.records@.take(0).reverse());
            assert(fm.ops@ =~= old(fm).ops@ + seq![
                DiskOp::Extend { file: name },
                DiskOp::Write { file: name, blk: 0 },
            ]);
        }
        lm
    }

    /// Writes the in-memory tail block to disk and marks everything assigned
    /// so far as durable.
    fn do_flush(&mut self, fm: &mut FileMgr)
        requires
            old(self).wf(*old(fm)),
        ensures
            final(self).wf(*final(fm)),
            final(self).log_file@ == old(self).log_file@,
            final(self).log_page@ == old(self).log_page@,
            final(self).current_blk == old(self).current_blk,
            final(self).latest_lsn == old(self).latest_lsn,
            final(self).records@ == old(self).records@,
            final(self).last_saved_lsn == old(self).latest_lsn,
            final(self).durable@ == old(self).records@.len(),
            final(fm).ops@ == old(fm).ops@.push(
                DiskOp::Write { file: old(self).log_file@, blk: old(self).current_blk as int },
            ),
            block_of(
                final(fm).file_data(old(self).log_file@),
                final(fm).block_size as int,
                old(self).current_blk as int,
            ) == old(self).log_page@,
            FileMgr::grown_from(*final(fm), *old(fm)),
            final(fm).file_data(old(self).log_file@).len() == old(fm).file_data(
                old(self).log_file@,
            ).len(),
            forall|n: Seq<char>|
                n != old(self).log_file@ ==> #[trigger] final(fm).has_file(n) == old(fm).has_file(
                    n,
                ),
            forall|n: Seq<char>|
                n != old(self).log_file@ && #[trigger] old(fm).has_file(n) ==> final(fm).file_data(n) == old(fm).file_data(n),
    {
        let blk = BlockId::new(self.log_file.as_str(), self.current_blk);
        match fm.read_write(&blk, &mut self.log_page, true) {
            Ok(_) => {},
            Err(_) => {
                proof {
                    assert(false);
                }
            },
        }
        self.last_saved_lsn = self.latest_lsn;
        self.durable = Ghost(self.records@.len() as int);
        proof {
            let bsi = fm.block_size as int;
            let name = self.log_file@;
            let cur = self.current_blk as int;
            let pre_file = old(fm).file_data(name);
            let file = fm.file_data(name);
            let m = self.log_page@;
            vstd::arithmetic::div_mod::lemma_div_by_multiple(cur + 1, bsi);
            assert(pre_file.len() as int / bsi == cur + 1);
            assert(pre_file + zero_bytes(0 * bsi) =~= pre_file);
            assert(file == crate::page::spec_write_bytes(pre_file, cur * bsi, m));
            assert(block_of(file, bsi, cur) == m);
            assert forall|j: int| 0 <= j < cur implies #[trigger] block_of(file, bsi, j)
                == block_of(pre_file, bsi, j) by {
                assert(0 <= j < pre_file.len() as int / bsi && j != cur);
                assert(block_of(fm.file_data(name), fm.block_size as int, j) == block_of(
                    pre_file,
                    fm.block_size as int,
                    j,
                ));
            }
            lemma_blocks_down_blocks(file, pre_file, bsi, cur - 1);
            assert(blocks_recs_down(file, bsi, cur) == parse_recs(m, block_boundary(m))
                + blocks_recs_down(pre_file, bsi, cur - 1));
            assert(self.records@.take(self.records@.len() as int) =~= self.records@);
            assert(blocks_recs_down(file, bsi, cur) == self.records@.take(
                self.durable@,
            ).reverse());
            assert(fm.ops@ =~= old(fm).ops@.push(DiskOp::Write { file: name, blk: cur }));
        }
    }

    /// Makes the log durable at least up to `lsn`: a no-op when `lsn` is
    /// already covered by the last flush, otherwise one write of the tail
    /// block which makes every assigned LSN durable.
    pub fn flush(&mut self, fm: &mut FileMgr, lsn: u64)
        requires
            old(self).wf(*old(fm)),
        ensures
            final(self).wf(*final(fm)),
            final(self).log_file@ == old(self).log_file@,
            final(self).current_blk == old(self).current_blk,
            final(self).latest_lsn == old(self).latest_lsn,
            final(self).records@ == old(self).records@,
            final(self).log_page@ == old(self).log_page@,
            lsn <= old(self).last_saved_lsn ==> *final(self) == *old(self) && *final(fm) == *old(fm),
            lsn > old(self).last_saved_lsn ==> final(self).last_saved_lsn == old(self).latest_lsn
                && final(self).durable@ == old(self).records@.len() && final(fm).ops@ == old(fm).ops@.push(
                DiskOp::Write { file: old(self).log_file@, blk: old(self).current_blk as int },
            ),
            lsn <= old(self).latest_lsn ==> final(self).last_saved_lsn >= lsn && final(self).durable@ >= lsn,
            final(self).durable@ >= old(self).durable@,
            final(self).last_saved_lsn >= old(self).last_saved_lsn,
            FileMgr::grown_from(*final(fm), *old(fm)),
            final(fm).file_data(old(self).log_file@).len() == old(fm).file_data(
                old(self).log_file@,
            ).len(),
            forall|n: Seq<char>|
                n != old(self).log_file@ ==> #[trigger] final(fm).has_file(n) == old(fm).has_file(
                    n,
                ),
            forall|n: Seq<char>|
                n != old(self).log_file@ && #[trigger] old(fm).has_file(n) ==> final(fm).file_data(n) == old(fm).file_data(n),
    {
        if lsn > self.last_saved_lsn {
            self.do_flush(fm);
        }
    }

    /// Reads the boundary stored at offset 0 of the mirror.
    fn get_boundary(&self) -> (r: i32)
        requires
            self.log_page@.len() >= 4,
            0 <= block_boundary(self.log_page@) <= 0x7fff_ffff,
        ensures
            r as int == block_boundary(self.log_page@),
            r >= 0,
    {
        match self.log_page.get_int(0) {
            Ok(v) => {
                proof {
                    lemma_cast_u32_round_trip(spec_be32(self.log_page@.subrange(0, 4)));
                }
                v
            },
            Err(_) => {
                proof {
                    assert(false);
                }
                0
            },
        }
    }

    /// Appends a fresh zero block to the log file, resets the mirror's
    /// boundary to the block's end, and moves the tail to the new block.
    /// Callable only when everything assigned is already durable.
    fn append_new_block(&mut self, fm: &mut FileMgr) -> (r: BlockId)
        requires
            old(self).wf(*old(fm)),
            old(self).durable@ == old(self).records@.len(),
            block_of(
                old(fm).file_data(old(self).log_file@),
                old(fm).block_size as int,
                old(self).current_blk as int,
            ) == old(self).log_page@,
            block_boundary(old(self).log_page@) < old(fm).block_size as int,
            (old(self).current_blk as int + 2) * (old(fm).block_size as int) <= usize::MAX,
            old(self).current_blk < u64::MAX,
        ensures
            final(self).wf(*final(fm)),
            final(self).log_file@ == old(self).log_file@,
            final(self).current_blk == old(self).current_blk + 1,
            final(self).latest_lsn == old(self).latest_lsn,
            final(self).last_saved_lsn == old(self).last_saved_lsn,
            final(self).records@ == old(self).records@,
            final(self).durable@ == old(self).durable@,
            block_boundary(final(self).log_page@) == final(fm).block_size as int,
            final(self).log_page@.len() == old(self).log_page@.len(),
            forall|i: int|
                4 <= i < old(self).log_page@.len() ==> final(self).log_page@[i] == old(
                    self,
                ).log_page@[i],
            final(fm).ops@ == old(fm).ops@ + seq![
                DiskOp::Extend { file: old(self).log_file@ },
                DiskOp::Write { file: old(self).log_file@, blk: old(self).current_blk as int + 1 },
            ],
            FileMgr::grown_from(*final(fm), *old(fm)),
            forall|n: Seq<char>|
                n != old(self).log_file@ ==> #[trigger] final(fm).has_file(n) == old(fm).has_file(
                    n,
                ),
            forall|n: Seq<char>|
                n != old(self).log_file@ && #[trigger] old(fm).has_file(n) ==> final(fm).file_data(n) == old(fm).file_data(n),
            r.file_name@ == old(self).log_file@,
            r.blk_num == old(self).current_blk + 1,
    {
        let ghost name = self.log_file@;
        let ghost cur = self.current_blk as int;
        let ghost bsi = old(fm).block_size as int;
        let ghost file0 = old(fm).file_data(name);
        proof {
            assert((cur + 1) * bsi + bsi == (cur + 2) * bsi) by (nonlinear_arith);
            vstd::arithmetic::div_mod::lemma_div_by_multiple(cur + 1, bsi);
        }
        let blk = match fm.append(self.log_file.clone()) {
            Ok(b) => b,
            Err(_) => {
                proof {
                    assert(false);
                }
                BlockId::new("", 0)
            },
        };
        let ghost file2 = fm.file_data(name);
        match self.log_page.set_int(0, fm.block_size() as i32) {
            Ok(()) => {},
            Err(_) => {
                proof {
                    assert(false);
                }
            },
        }
        proof {
            let m2 = self.log_page@;
            assert(m2.subrange(0, 4) =~= spec_be32_bytes((fm.block_size as i32) as u32));
            lemma_be32_round_trip((fm.block_size as i32) as u32);
            assert(block_boundary(m2) == bsi);
            vstd::arithmetic::div_mod::lemma_div_by_multiple(cur + 2, bsi);
            assert(file2.len() as int / bsi == cur + 2);
        }
        match fm.read_write(&blk, &mut self.log_page, true) {
            Ok(_) => {},
            Err(_) => {
                proof {
                    assert(false);
                }
            },
        }
        self.current_blk = self.current_blk + 1;
        proof {
            let m2 = self.log_page@;
            let file3 = fm.file_data(name);
            assert(file2 + zero_bytes(0 * bsi) =~= file2);
            assert(file3 == crate::page::spec_write_bytes(file2, (cur + 1) * bsi, m2));
            assert(block_of(file3, bsi, cur + 1) == m2);
            assert(parses_to_end(m2, bsi));
            assert(parse_recs(m2, bsi) =~= Seq::<Seq<u8>>::empty());
            assert forall|j: int| 0 <= j <= cur implies #[trigger] block_of(file3, bsi, j)
                == block_of(file0, bsi, j) by {
                assert(block_of(file3, bsi, j) == block_of(file2, bsi, j));
                assert((j + 1) * bsi <= (cur + 1) * bsi) by (nonlinear_arith)
                    requires
                        j + 1 <= cur + 1,
                        bsi >= 1,
                ;
                lemma_block_of_extend(file0, file2, bsi, j);
            }
            lemma_blocks_down_blocks(file3, file0, bsi, cur);
            assert(self.records@.take(self.durable@) =~= self.records@);
            assert(blocks_recs_down(file3, bsi, cur) == self.records@.reverse());
            assert(blocks_recs_down(file3, bsi, cur + 1) == parse_recs(m2, block_boundary(m2))
                + blocks_recs_down(file3, bsi, cur));
            assert(blocks_recs_down(file3, bsi, cur + 1) =~= self.records@.take(
                self.durable@,
            ).reverse());
            assert(parse_recs(m2, block_boundary(m2)) + blocks_recs_down(file3, bsi, cur)
                =~= self.records@.reverse());
            assert(fm.ops@ =~= old(fm).ops@ + seq![
                DiskOp::Extend { file: name },
                DiskOp::Write { file: name, blk: cur + 1 },
            ]);
        }
        blk
    }

    /// Appends `log_rec` and returns its LSN, one above the previous one.
    /// When the record does not fit above the tail block's boundary header,
    /// the tail is first flushed and a fresh block started, so the record is
    /// never split across blocks.
    #[verifier::rlimit(60)]
    pub fn append(&mut self, fm: &mut FileMgr, log_rec: &Vec<u8>) -> (r: u64)
        requires
            old(self).wf(*old(fm)),
            log_rec@.len() + 8 <= old(fm).block_size,
            old(self).latest_lsn < u64::MAX,
            (old(self).current_blk as int + 2) * (old(fm).block_size as int) <= usize::MAX,
            old(self).current_blk < u64::MAX,
        ensures
            final(self).wf(*final(fm)),
            final(self).log_file@ == old(self).log_file@,
            r == old(self).latest_lsn + 1,
            final(self).latest_lsn == r,
            final(self).records@ == old(self).records@.push(log_rec@),
            final(self).last_saved_lsn >= old(self).last_saved_lsn,
            final(self).durable@ >= old(self).durable@,
            FileMgr::grown_from(*final(fm), *old(fm)),
            forall|n: Seq<char>|
                n != old(self).log_file@ ==> #[trigger] final(fm).has_file(n) == old(fm).has_file(
                    n,
                ),
            forall|n: Seq<char>|
                n != old(self).log_file@ && #[trigger] old(fm).has_file(n) ==> final(fm).file_data(n) == old(fm).file_data(n),
            ({
                let needed = log_rec@.len() as int + 4;
                if block_boundary(old(self).log_page@) - needed >= 4 {
                    &&& *final(fm) == *old(fm)
                    &&& final(self).current_blk == old(self).current_blk
                    &&& final(self).last_saved_lsn == old(self).last_saved_lsn
                    &&& final(self).durable@ == old(self).durable@
                } else {
                    &&& final(self).current_blk == old(self).current_blk + 1
                    &&& final(self).last_saved_lsn == old(self).latest_lsn
                    &&& final(fm).ops@ == old(fm).ops@ + seq![
                        DiskOp::Write {
                            file: old(self).log_file@,
                            blk: old(self).current_blk as int,
                        },
                        DiskOp::Extend { file: old(self).log_file@ },
                        DiskOp::Write {
                            file: old(self).log_file@,
                            blk: old(self).current_blk as int + 1,
                        },
                    ]
                }
            }),
            ({
                let len = log_rec@.len() as int;
                let b = (if block_boundary(old(self).log_page@) - (len + 4) >= 4 {
                    block_boundary(old(self).log_page@)
                } else {
                    old(fm).block_size as int
                });
                let m = final(self).log_page@;
                &&& m.len() == old(fm).block_size as int
                &&& block_boundary(m) == b - len - 4
                &&& m.subrange(b - len - 4, b - len) == spec_be32_bytes(log_rec@.len() as u32)
                &&& m.subrange(b - len, b) == log_rec@
                &&& forall|i: int|
                    (4 <= i < b - len - 4) || (b <= i < old(fm).block_size as int) ==> #[trigger] m[i]
                        == old(self).log_page@[i]
            }),
    {
        let mut boundary: i32 = self.get_boundary();
        proof {
            assert(log_rec@.len() < 0x8000_0000);
        }
        let rec_size: i32 = log_rec.len() as i32;
        let bytes_needed: i32 = rec_size + 4;
        if boundary - bytes_needed < 4 {
            self.do_flush(fm);
            let _ = self.append_new_block(fm);
            boundary = fm.block_size() as i32;
            proof {
                assert(fm.ops@ =~= old(fm).ops@ + seq![
                    DiskOp::Write {
                        file: old(self).log_file@,
                        blk: old(self).current_blk as int,
                    },
                    DiskOp::Extend { file: old(self).log_file@ },
                    DiskOp::Write {
                        file: old(self).log_file@,
                        blk: old(self).current_blk as int + 1,
                    },
                ]);
            }
        }
        let rec_pos: i32 = boundary - bytes_needed;
        let ghost m_pre = self.log_page@;
        let ghost bnd = boundary as int;
        let ghost bsi = fm.block_size as int;
        let ghost recs_pre = self.records@;
        proof {
            assert(bnd == block_boundary(m_pre));
            assert(8 + log_rec@.len() <= bnd <= bsi);
        }
        match self.log_page.set_bytes(rec_pos as usize, log_rec.as_slice()) {
            Ok(()) => {},
            Err(_) => {
                proof {
                    assert(false);
                }
            },
        }
        let ghost m1 = self.log_page@;
        match self.log_page.set_int(0, rec_pos) {
            Ok(()) => {},
            Err(_) => {
                proof {
                    assert(false);
                }
            },
        }
        self.latest_lsn = self.latest_lsn + 1;
        self.records = Ghost(self.records@.push(log_rec@));
        proof {
            let m2 = self.log_page@;
            let rec = log_rec@;
            let rp = rec_pos as int;
            assert(m2.subrange(rp, rp + 4) =~= spec_be32_bytes(rec.len() as u32));
            assert(m2.subrange(rp + 4, bnd) =~= rec);
            assert(forall|i: int| bnd <= i < m_pre.len() ==> m2[i] == m_pre[i]);
            lemma_parse_prepend(m_pre, m2, bnd, rec);
            assert(m2.subrange(0, 4) =~= spec_be32_bytes((rec_pos as i32) as u32));
            lemma_be32_round_trip((rec_pos as i32) as u32);
            assert(block_boundary(m2) == rp);
            assert(parse_recs(m2, rp) == seq![rec] + parse_recs(m_pre, bnd));
            lemma_reverse_push(recs_pre, rec);
            let name = self.log_file@;
            let file = fm.file_data(name);
            let cur = self.current_blk as int;
            assert(parse_recs(m2, block_boundary(m2)) + blocks_recs_down(file, bsi, cur - 1)
                =~= self.records@.reverse());
            lemma_take_push(recs_pre, rec, self.durable@);
            assert(blocks_recs_down(file, bsi, cur) == self.records@.take(
                self.durable@,
            ).reverse());
            assert forall|i: int|
                (4 <= i < rp) || (bnd <= i < bsi) implies #[trigger] m2[i] == old(
                self,
            ).log_page@[i] by {
                assert(m2[i] == m_pre[i]);
            }
        }
        self.latest_lsn
    }

    /// Starts a reverse scan: flushes the tail block, then returns a cursor
    /// positioned at the most recently appended record. The cursor stays
    /// valid only while the log is not appended to.
    pub fn iter(&mut self, fm: &mut FileMgr) -> (it: LogIter)
        requires
            old(self).wf(*old(fm)),
        ensures
            final(self).wf(*final(fm)),
            it.wf(*final(fm)),
            it.remaining@ == old(self).records@.reverse(),
            it.log_file@ == old(self).log_file@,
            final(self).log_file@ == old(self).log_file@,
            final(self).current_blk == old(self).current_blk,
            final(self).latest_lsn == old(self).latest_lsn,
            final(self).records@ == old(self).records@,
            final(self).last_saved_lsn == old(self).latest_lsn,
            final(fm).ops@ == old(fm).ops@.push(
                DiskOp::Write { file: old(self).log_file@, blk: old(self).current_blk as int },
            ),
            FileMgr::grown_from(*final(fm), *old(fm)),
            forall|n: Seq<char>|
                n != old(self).log_file@ ==> #[trigger] final(fm).has_file(n) == old(fm).has_file(
                    n,
                ),
            forall|n: Seq<char>|
                n != old(self).log_file@ && #[trigger] old(fm).has_file(n) ==> final(fm).file_data(n) == old(fm).file_data(n),
    {
        self.do_flush(fm);
        let ghost name = self.log_file@;
        let ghost bsi = fm.block_size as int;
        let ghost cur = self.current_blk as int;
        let mut buf = Page::from_buffer(crate::file_mgr::zero_vec(fm.block_size() as usize));
        let blk_id = BlockId::new(self.log_file.as_str(), self.current_blk);
        proof {
            vstd::arithmetic::div_mod::lemma_div_by_multiple(cur + 1, bsi);
        }
        match fm.read_write(&blk_id, &mut buf, false) {
            Ok(_) => {},
            Err(_) => {
                proof {
                    assert(false);
                }
            },
        }
        proof {
            assert(buf@ == self.log_page@);
        }
        let pos: i32 = match buf.get_int(0) {
            Ok(v) => {
                proof {
                    lemma_cast_u32_round_trip(spec_be32(buf@.subrange(0, 4)));
                }
                v
            },
            Err(_) => {
                proof {
                    assert(false);
                }
                0
            },
        };
        let it = LogIter {
            log_file: self.log_file.clone(),
            buf,
            blk: self.current_blk,
            pos: pos as usize,
            remaining: Ghost(self.records@.reverse()),
            file_snap: Ghost(fm.file_data(self.log_file@)),
        };
        proof {
            assert(it.buf@ == block_of(it.file_snap@, bsi, it.blk as int));
            assert(it.pos as int == block_boundary(it.buf@));
            assert(it.remaining@ == parse_recs(it.buf@, it.pos as int) + blocks_recs_down(
                it.file_snap@,
                bsi,
                it.blk as int - 1,
            ));
        }
        it
    }
}

/// A cursor over the log, yielding raw records most recently appended first.
/// It owns its own scan position (current block, current offset) and a
/// buffer holding the block it is reading; it reads earlier blocks from the
/// store as it descends. It must not be interleaved with appends: every
/// step checks that the log file still holds the bytes seen at the start.
pub struct LogIter {
    pub log_file: String,
    pub buf: Page,
    pub blk: u64,
    pub pos: usize,
    pub remaining: Ghost<Seq<Seq<u8>>>,
    pub file_snap: Ghost<Seq<u8>>,
}

impl LogIter {
    /// The cursor's invariant over the store `fm`: the log file still holds
    /// the snapshot, the buffer holds block `blk`, and `remaining` is what a
    /// scan from (`blk`, `pos`) downward yields.
    pub open spec fn wf(self, fm: FileMgr) -> bool {
        let bs = fm.block_size as int;
        let file = self.file_snap@;
        &&& fm.wf()
        &&& 8 <= fm.block_size <= 0x7fff_ffff
        &&& fm.has_file(self.log_file@)
        &&& fm.file_data(self.log_file@) == file
        &&& file.len() <= usize::MAX
        &&& (self.blk as int + 1) * bs <= file.len()
        &&& file.len() as int % bs == 0
        &&& self.buf@ == block_of(file, bs, self.blk as int)
        &&& forall|i: int| 0 <= i <= self.blk as int ==> block_wf(#[trigger] block_of(file, bs, i), bs)
        &&& forall|i: int|
            0 <= i < self.blk as int ==> block_boundary(#[trigger] block_of(file, bs, i)) < bs
        &&& 4 <= self.pos as int <= bs
        &&& parses_to_end(self.buf@, self.pos as int)
        &&& self.remaining@ == parse_recs(self.buf@, self.pos as int) + blocks_recs_down(
            file,
            bs,
            self.blk as int - 1,
        )
    }

    /// Yields the next record, moving from the most recently appended toward
    /// the oldest; `None` once every record has been yielded.
    pub fn next(&mut self, fm: &mut FileMgr) -> (r: Option<Vec<u8>>)
        requires
            old(self).wf(*old(fm)),
        ensures
            final(self).wf(*final(fm)),
            final(self).log_file@ == old(self).log_file@,
            final(self).file_snap@ == old(self).file_snap@,
            final(fm).ops@ == old(fm).ops@,
            FileMgr::grown_from(*final(fm), *old(fm)),
            forall|n: Seq<char>| #[trigger] final(fm).has_file(n) == old(fm).has_file(n),
            forall|n: Seq<char>|
                #[trigger] old(fm).has_file(n) ==> final(fm).file_data(n) == old(fm).file_data(n),
            old(self).remaining@.len() == 0 ==> r is None && final(self).remaining@ == old(self).remaining@,
            old(self).remaining@.len() > 0 ==> r is Some && r->0@ == old(self).remaining@[0]
                && final(self).remaining@ == old(self).remaining@.drop_first(),
    {
        let ghost bsi = fm.block_size as int;
        let ghost file = self.file_snap@;
        proof {
            assert(bsi <= (self.blk as int + 1) * bsi) by (nonlinear_arith)
                requires
                    bsi >= 1,
                    self.blk as int >= 0,
            ;
        }
        let bsu: usize = fm.block_size() as usize;
        if self.pos == bsu && self.blk == 0 {
            proof {
                assert(old(self).remaining@ =~= Seq::<Seq<u8>>::empty());
            }
            return None;
        }
        if self.pos == bsu {
            self.blk = self.blk - 1;
            proof {
                assert((self.blk as int + 1) * bsi <= file.len()) by (nonlinear_arith)
                    requires
                        bsi >= 1,
                        (self.blk as int + 2) * bsi <= file.len(),
                        self.blk as int >= 0,
                ;
                vstd::arithmetic::div_mod::lemma_fundamental_div_mod(file.len() as int, bsi);
                assert(file.len() as int / bsi >= self.blk as int + 1) by (nonlinear_arith)
                    requires
                        bsi >= 1,
                        file.len() as int == bsi * (file.len() as int / bsi),
                        (self.blk as int + 2) * bsi <= file.len(),
                ;
            }
            let blk_id = BlockId::new(self.log_file.as_str(), self.blk);
            match fm.read_write(&blk_id, &mut self.buf, false) {
                Ok(_) => {},
                Err(_) => {
                    proof {
                        assert(false);
                    }
                },
            }
            let pos: i32 = match self.buf.get_int(0) {
                Ok(v) => {
                    proof {
                        lemma_cast_u32_round_trip(spec_be32(self.buf@.subrange(0, 4)));
                    }
                    v
                },
                Err(_) => {
                    proof {
                        assert(false);
                    }
                    0
                },
            };
            self.pos = pos as usize;
            proof {
                assert(self.buf@ == block_of(file, bsi, self.blk as int));
                assert(self.pos as int == block_boundary(self.buf@));
                assert(parse_recs(old(self).buf@, bsu as int) =~= Seq::<Seq<u8>>::empty());
                assert(self.remaining@ =~= parse_recs(self.buf@, self.pos as int)
                    + blocks_recs_down(file, bsi, self.blk as int - 1));
            }
        }
        let ghost pre = *self;
        proof {
            assert((pre.pos as int) < bsi);
            assert(parses_to_end(pre.buf@, pre.pos as int));
        }
        let rec: Vec<u8> = match self.buf.get_bytes(self.pos) {
            Ok(v) => v,
            Err(_) => {
                proof {
                    assert(false);
                }
                Vec::new()
            },
        };
        proof {
            let p = pre.pos as int;
            let l = spec_be32(pre.buf@.subrange(p, p + 4)) as int;
            assert(rec@ == pre.buf@.subrange(p + 4, p + 4 + l));
            assert(parse_recs(pre.buf@, p) == seq![rec@] + parse_recs(pre.buf@, p + 4 + l));
        }
        self.pos = self.pos + 4 + rec.len();
        self.remaining = Ghost(pre.remaining@.drop_first());
        proof {
            let p = pre.pos as int;
            let l = spec_be32(pre.buf@.subrange(p, p + 4)) as int;
            let rest = parse_recs(self.buf@, self.pos as int) + blocks_recs_down(
                file,
                bsi,
                self.blk as int - 1,
            );
            assert(pre.remaining@ =~= seq![rec@] + rest);
            assert(pre.remaining@[0] == rec@);
            assert(self.remaining@ =~= rest);
            assert(old(self).remaining@ == pre.remaining@);
            assert(p + 4 + l <= bsi && parses_to_end(pre.buf@, p + 4 + l));
            assert(parses_to_end(self.buf@, self.pos as int));
        }
        Some(rec)
    }
}

/// Builds one log record from a string and an integer: the string as a
/// length-prefixed byte array at offset 0, the integer right after it.
#[verifier::rlimit(50)]
pub fn create_log_record(s: String, n: i32) -> (r: Vec<u8>)
    requires
        vstd::utf8::encode_utf8(s@).len() + 8 <= usize::MAX,
        vstd::utf8::encode_utf8(s@).len() <= u32::MAX,
    ensures
        ({
            let sb = vstd::utf8::encode_utf8(s@);
            &&& r@.len() == sb.len() + 8
            &&& crate::page::spec_get_bytes(r@, 0) == Some(sb)
            &&& crate::page::spec_get_int(r@, sb.len() as int + 4) == Some(n)
        }),
{
    let n_pos: u64 = Page::max_length(s.as_str().len() as u64);
    let mut p = Page::from_buffer(crate::file_mgr::zero_vec((n_pos + 4) as usize));
    let ghost sb = vstd::utf8::encode_utf8(s@);
    match p.set_string(0, &s) {
        Ok(()) => {},
        Err(_) => {
            proof {
                assert(false);
            }
        },
    }
    match p.set_int(n_pos as usize, n) {
        Ok(()) => {},
        Err(_) => {
            proof {
                assert(false);
            }
        },
    }
    proof {
        crate::page::lemma_bytes_round_trip(zero_bytes((sb.len() + 8) as int), 0, sb);
        let after_str = crate::page::spec_set_bytes(zero_bytes((sb.len() + 8) as int), 0, sb)->0;
        assert(p@ == crate::page::spec_set_int(after_str, sb.len() as int + 4, n)->0);
        crate::page::lemma_int_round_trip(after_str, sb.len() as int + 4, n);
        assert(crate::page::spec_get_bytes(p@, 0) == Some(sb)) by {
            assert(p@.subrange(0, 4) =~= after_str.subrange(0, 4));
            assert(p@.subrange(4, 4 + sb.len() as int) =~= after_str.subrange(
                4,
                4 + sb.len() as int,
            ));
        }
    }
    let Page { bb } = p;
    bb
}

} // verus!
