use vstd::prelude::*;
use vstd::arithmetic::div_mod::lemma_fundamental_div_mod;
use vstd::arithmetic::mul::lemma_mul_inequality;

use crate::block_id::BlockId;
use crate::errors::StorageError;
use crate::page::{spec_write_bytes, Page};

verus! {

/// All-zero bytes, the content of a freshly appended block.
pub open spec fn zero_bytes(n: int) -> Seq<u8> {
    Seq::new(n as nat, |i: int| 0u8)
}

/// The bytes of block `i` of a file whose content is `data`.
pub open spec fn block_of(data: Seq<u8>, bs: int, i: int) -> Seq<u8> {
    data.subrange(i * bs, i * bs + bs)
}

/// A zero-filled buffer of `n` bytes, the usual backing for a fresh page.
pub fn zero_vec(n: usize) -> (v: Vec<u8>)
    ensures
        v@ == zero_bytes(n as int),
{
    let mut v: Vec<u8> = Vec::new();
    proof {
        assert(v@ =~= zero_bytes(0));
    }
    let mut i: usize = 0;
    while i < n
        invariant
            i <= n,
            v@ == zero_bytes(i as int),
        decreases n - i,
    {
        v.push(0u8);
        proof {
            assert(v@ =~= zero_bytes(i + 1));
        }
        i = i + 1;
    }
    v
}

/// One operation that reached the (modelled) disk. The order of these
/// operations is what the write-ahead discipline constrains.
pub enum DiskOp {
    Write { file: Seq<char>, blk: int },
    Extend { file: Seq<char> },
}

/// One named file of the store: its name and its byte content, always a
/// whole number of blocks.
pub struct FileEntry {
    pub name: String,
    pub data: Vec<u8>,
}

/// The block-addressed file storage layer: a set of named files, each a
/// sequence of fixed-size blocks, read and written one whole block at a
/// time. A ghost trace records every operation that changed a file, in
/// order, so that callers can state in what order data became durable.
pub struct FileMgr {
    pub files: Vec<FileEntry>,
    pub directory: String,
    pub is_new: bool,
    pub block_size: u64,
    pub ops: Ghost<Seq<DiskOp>>,
}

impl FileMgr {
    pub open spec fn wf(self) -> bool {
        &&& self.block_size >= 1
        &&& forall|i: int, j: int|
            0 <= i < j < self.files@.len() ==> (#[trigger] self.files@[i]).name@ != (
            #[trigger] self.files@[j]).name@
        &&& forall|i: int|
            0 <= i < self.files@.len() ==> (#[trigger] self.files@[i]).data@.len() as int % (
            self.block_size as int) == 0
    }

    pub open spec fn has_file(self, name: Seq<char>) -> bool {
        exists|i: int| 0 <= i < self.files@.len() && (#[trigger] self.files@[i]).name@ == name
    }

    pub open spec fn file_idx(self, name: Seq<char>) -> int {
        choose|i: int| 0 <= i < self.files@.len() && (#[trigger] self.files@[i]).name@ == name
    }

    /// The byte content of the named file.
    pub open spec fn file_data(self, name: Seq<char>) -> Seq<u8> {
        self.files@[self.file_idx(name)].data@
    }

    /// How many whole blocks the named file holds.
    pub open spec fn num_blocks(self, name: Seq<char>) -> int {
        self.file_data(name).len() as int / (self.block_size as int)
    }

    /// Nothing shrinks: every file of `pre` is still in `post`, at least as
    /// long, and the configuration is unchanged.
    pub open spec fn grown_from(post: FileMgr, pre: FileMgr) -> bool {
        &&& post.block_size == pre.block_size
        &&& post.directory@ == pre.directory@
        &&& post.is_new == pre.is_new
        &&& forall|n: Seq<char>|
            #[trigger] pre.has_file(n) ==> post.has_file(n) && post.file_data(n).len()
                >= pre.file_data(n).len()
    }

    pub proof fn lemma_file_at(self, name: Seq<char>, i: int)
        requires
            self.wf(),
            0 <= i < self.files@.len(),
            self.files@[i].name@ == name,
        ensures
            self.has_file(name),
            self.file_idx(name) == i,
            self.file_data(name) == self.files@[i].data@,
    {
        assert(self.has_file(name));
        let j = self.file_idx(name);
        if i < j {
            assert(self.files@[i].name@ != self.files@[j].name@);
        } else if j < i {
            assert(self.files@[j].name@ != self.files@[i].name@);
        }
    }

    /// A fresh, empty store over the named directory.
    pub fn new(db_directory: String, block_size: u64) -> (r: FileMgr)
        requires
            block_size >= 1,
        ensures
            r.wf(),
            r.files@.len() == 0,
            forall|n: Seq<char>| !r.has_file(n),
            r.directory@ == db_directory@,
            r.is_new == true,
            r.block_size == block_size,
            r.ops@ == Seq::<DiskOp>::empty(),
    {
        FileMgr {
            files: Vec::new(),
            directory: db_directory,
            is_new: true,
            block_size,
            ops: Ghost(Seq::empty()),
        }
    }

    pub fn block_size(&self) -> (r: u64)
        ensures
            r == self.block_size,
    {
        self.block_size
    }

    pub fn is_new(&self) -> (r: bool)
        ensures
            r == self.is_new,
    {
        self.is_new
    }

    fn find_file(&self, file_name: &String) -> (r: Option<usize>)
        requires
            self.wf(),
        ensures
            (match r {
                Some(i) => i < self.files@.len() && self.files@[i as int].name@ == file_name@
                    && self.has_file(file_name@) && self.file_idx(file_name@) == i,
                None => !self.has_file(file_name@),
            }),
    {
        let n: usize = self.files.len();
        let mut j: usize = 0;
        while j < n
            invariant
                j <= n,
                n == self.files@.len(),
                self.wf(),
                forall|k: int| 0 <= k < j ==> (#[trigger] self.files@[k]).name@ != file_name@,
            decreases n - j,
        {
            if self.files[j].name == *file_name {
                proof {
                    self.lemma_file_at(file_name@, j as int);
                }
                return Some(j);
            }
            j = j + 1;
        }
        None
    }

    fn add_file(&mut self, file_name: &String)
        requires
            old(self).wf(),
        ensures
            final(self).wf(),
            final(self).block_size == old(self).block_size,
            final(self).directory@ == old(self).directory@,
            final(self).is_new == old(self).is_new,
            final(self).ops@ == old(self).ops@,
            final(self).has_file(file_name@),
            old(self).has_file(file_name@) ==> *final(self) == *old(self),
            !old(self).has_file(file_name@) ==> final(self).file_data(file_name@) == Seq::<
                u8,
            >::empty(),
            forall|n: Seq<char>|
                #[trigger] old(self).has_file(n) ==> final(self).has_file(n) && final(self).file_data(n) == old(self).file_data(n),
            forall|n: Seq<char>|
                #[trigger] final(self).has_file(n) ==> n == file_name@ || old(self).has_file(n),
            FileMgr::grown_from(*final(self), *old(self)),
    {
        match self.find_file(file_name) {
            Some(_) => {},
            None => {
                let entry = FileEntry { name: file_name.clone(), data: Vec::new() };
                self.files.push(entry);
                proof {
                    let post = *self;
                    let pre = *old(self);
                    let len = pre.files@.len() as int;
                    assert(post.files@[len].name@ == file_name@);
                    assert(forall|k: int|
                        0 <= k < len ==> post.files@[k] == #[trigger] pre.files@[k]);
                    assert((0 as int) % (pre.block_size as int) == 0) by (nonlinear_arith)
                        requires
                            pre.block_size >= 1,
                    ;
                    assert forall|a: int, b: int|
                        0 <= a < b < post.files@.len() implies (#[trigger] post.files@[a]).name@
                        != (#[trigger] post.files@[b]).name@ by {
                        if b == len && pre.files@[a].name@ == file_name@ {
                            assert(pre.has_file(file_name@));
                        }
                    }
                    assert(post.wf());
                    post.lemma_file_at(file_name@, len);
                    assert forall|n: Seq<char>| #[trigger] pre.has_file(n) implies post.has_file(n)
                        && post.file_data(n) == pre.file_data(n) by {
                        let i = pre.file_idx(n);
                        pre.lemma_file_at(n, i);
                        post.lemma_file_at(n, i);
                    }
                    assert forall|n: Seq<char>| #[trigger] post.has_file(n) implies n == file_name@
                        || pre.has_file(n) by {
                        let i = post.file_idx(n);
                        if i < len {
                            pre.lemma_file_at(n, i);
                        }
                    }
                }
            },
        }
    }

    /// How many blocks the named file holds, or `FileNotFound`.
    pub fn length(&self, file_name: String) -> (r: Result<u64, StorageError>)
        requires
            self.wf(),
        ensures
            self.has_file(file_name@) ==> r == Ok::<u64, StorageError>(
                self.num_blocks(file_name@) as u64,
            ),
            !self.has_file(file_name@) ==> r == Err::<u64, StorageError>(StorageError::FileNotFound),
    {
        match self.find_file(&file_name) {
            Some(i) => {
                let len: usize = self.files[i].data.len();
                Ok((len as u64) / self.block_size)
            },
            None => Err(StorageError::FileNotFound),
        }
    }

    /// Extends the named file by one zero-filled block; `FileNotFound` if the
    /// file was never touched.
    pub fn append(&mut self, file_name: String) -> (r: Result<BlockId, StorageError>)
        requires
            old(self).wf(),
            old(self).has_file(file_name@) ==> old(self).file_data(file_name@).len() + old(self).block_size <= usize::MAX,
        ensures
            final(self).wf(),
            final(self).block_size == old(self).block_size,
            final(self).directory@ == old(self).directory@,
            final(self).is_new == old(self).is_new,
            !old(self).has_file(file_name@) ==> r == Err::<BlockId, StorageError>(
                StorageError::FileNotFound,
            ) && *final(self) == *old(self),
            old(self).has_file(file_name@) ==> {
                &&& r is Ok
                &&& r->Ok_0.file_name@ == file_name@
                &&& r->Ok_0.blk_num == old(self).num_blocks(file_name@)
                &&& final(self).file_data(file_name@) == old(self).file_data(file_name@)
                    + zero_bytes(old(self).block_size as int)
                &&& final(self).has_file(file_name@)
                &&& final(self).files@.len() == old(self).files@.len()
                &&& forall|k: int|
                    0 <= k < final(self).files@.len() ==> (#[trigger] final(self).files@[k]).name@
                        == old(self).files@[k].name@
                &&& final(self).ops@ == old(self).ops@.push(DiskOp::Extend { file: file_name@ })
                &&& forall|n: Seq<char>|
                    n != file_name@ ==> (#[trigger] final(self).has_file(n) == old(self).has_file(n)
                        && (old(self).has_file(n) ==> final(self).file_data(n) == old(self).file_data(n)))
                &&& FileMgr::grown_from(*final(self), *old(self))
            },
    {
        let idx: usize = match self.find_file(&file_name) {
            Some(i) => i,
            None => { return Err(StorageError::FileNotFound) },
        };
        let old_len: usize = self.files[idx].data.len();
        let new_blk_num: u64 = (old_len as u64) / self.block_size;
        let bs: u64 = self.block_size;
        let data = &mut self.files[idx].data;
        let mut k: u64 = 0;
        while k < bs
            invariant
                k <= bs,
                data@.len() == old_len + k,
                data@ == old(self).file_data(file_name@) + zero_bytes(k as int),
                old_len + bs <= usize::MAX,
            decreases bs - k,
        {
            data.push(0u8);
            proof {
                assert(data@ =~= old(self).file_data(file_name@) + zero_bytes(k + 1));
            }
            k = k + 1;
        }
        self.ops = Ghost(self.ops@.push(DiskOp::Extend { file: file_name@ }));
        proof {
            let pre = *old(self);
            let post = *self;
            let i = idx as int;
            assert(forall|k: int|
                0 <= k < post.files@.len() && k != i ==> post.files@[k] == #[trigger] pre.files@[k]);
            assert(post.files@[i].name@ == file_name@);
            lemma_fundamental_div_mod(pre.file_data(file_name@).len() as int, bs as int);
            assert((pre.file_data(file_name@).len() as int + bs as int) % (bs as int) == 0) by (nonlinear_arith)
                requires
                    bs >= 1,
                    pre.file_data(file_name@).len() as int % (bs as int) == 0,
            ;
            post.lemma_file_at(file_name@, i);
            assert forall|n: Seq<char>| n != file_name@ implies (#[trigger] post.has_file(n)
                == pre.has_file(n) && (pre.has_file(n) ==> post.file_data(n) == pre.file_data(
                n,
            ))) by {
                if pre.has_file(n) {
                    let j = pre.file_idx(n);
                    pre.lemma_file_at(n, j);
                    post.lemma_file_at(n, j);
                }
                if post.has_file(n) {
                    let j = post.file_idx(n);
                    post.lemma_file_at(n, j);
                    if j != i {
                        pre.lemma_file_at(n, j);
                    }
                }
            }
            assert forall|n: Seq<char>| #[trigger] pre.has_file(n) implies post.has_file(n)
                && post.file_data(n).len() >= pre.file_data(n).len() by {
                if n == file_name@ {
                } else {
                    let j = pre.file_idx(n);
                    pre.lemma_file_at(n, j);
                    post.lemma_file_at(n, j);
                }
            }
        }
        Ok(BlockId::new(file_name.as_str(), new_blk_num))
    }

    /// Reads (`is_write == false`) or writes (`is_write == true`) exactly one
    /// block. A write registers the file on first use and extends it with
    /// zero blocks as far as needed, and is durable once the call returns.
    /// A read of a never-registered file fails with `FileNotFound` and a
    /// read of a block at or past the end of the file fails with
    /// `OffsetOutOfBound`; a failed read changes nothing.
    #[verifier::loop_isolation(false)]
    pub fn read_write(&mut self, blk: &BlockId, p: &mut Page, is_write: bool) -> (r: Result<
        usize,
        StorageError,
    >)
        requires
            old(self).wf(),
            old(p)@.len() == old(self).block_size,
            is_write ==> (blk.blk_num as int + 1) * (old(self).block_size as int) <= usize::MAX,
        ensures
            final(self).wf(),
            final(self).block_size == old(self).block_size,
            final(self).directory@ == old(self).directory@,
            final(self).is_new == old(self).is_new,
            is_write ==> final(self).has_file(blk.file_name@),
            FileMgr::grown_from(*final(self), *old(self)),
            final(p)@.len() == old(p)@.len(),
            forall|n: Seq<char>|
                n != blk.file_name@ && #[trigger] old(self).has_file(n) ==> final(self).file_data(n)
                    == old(self).file_data(n),
            forall|n: Seq<char>|
                n != blk.file_name@ ==> #[trigger] final(self).has_file(n) == old(self).has_file(n),
            !is_write ==> *final(self) == *old(self) && ({
                let name = blk.file_name@;
                let bn = blk.blk_num as int;
                let bs = old(self).block_size as int;
                if !old(self).has_file(name) {
                    &&& r == Err::<usize, StorageError>(StorageError::FileNotFound)
                    &&& final(p)@ == old(p)@
                } else if bn < old(self).num_blocks(name) {
                    &&& r == Ok::<usize, StorageError>(old(self).block_size as usize)
                    &&& final(p)@ == block_of(old(self).file_data(name), bs, bn)
                } else {
                    &&& r == Err::<usize, StorageError>(StorageError::OffsetOutOfBound)
                    &&& final(p)@ == old(p)@
                }
            }),
            is_write ==> ({
                let name = blk.file_name@;
                let bn = blk.blk_num as int;
                let bs = old(self).block_size as int;
                let data0 = (if old(self).has_file(name) {
                    old(self).file_data(name)
                } else {
                    Seq::<u8>::empty()
                });
                let nb0 = data0.len() as int / bs;
                let k = (if nb0 <= bn {
                    bn + 1 - nb0
                } else {
                    0
                });
                let extended = data0 + zero_bytes(k * bs);
                &&& r == Ok::<usize, StorageError>(old(self).block_size as usize)
                &&& final(p)@ == old(p)@
                &&& final(self).file_data(name) == spec_write_bytes(extended, bn * bs, old(p)@)
                &&& final(self).file_data(name).len() == extended.len()
                &&& block_of(final(self).file_data(name), bs, bn) == old(p)@
                &&& forall|j: int|
                    0 <= j < nb0 && j != bn ==> #[trigger] block_of(
                        final(self).file_data(name),
                        bs,
                        j,
                    ) == block_of(data0, bs, j)
                &&& final(self).ops@ == old(self).ops@ + Seq::new(
                    k as nat,
                    |x: int| DiskOp::Extend { file: name },
                ) + seq![DiskOp::Write { file: name, blk: bn }]
            }),
    {
        let file_name: String = blk.file_name();
        let bs: u64 = self.block_size;
        let bn: u64 = blk.number();
        let ghost name = blk.file_name@;
        let ghost bsi = bs as int;
        let ghost bni = bn as int;
        let plen: usize = p.bb.len();
        proof {
            assert(plen == old(p)@.len());
            assert(bs <= usize::MAX);
        }
        if !is_write {
            let idx: usize = match self.find_file(&file_name) {
                Some(i) => i,
                None => { return Err(StorageError::FileNotFound) },
            };
            let ghost mid = *self;
            let ghost data0 = mid.file_data(name);
            let nb: u64 = (self.files[idx].data.len() as u64) / bs;
            if bn >= nb {
                return Err(StorageError::OffsetOutOfBound);
            }
            proof {
                assert(mid.files@[idx as int].data@.len() as int % bsi == 0);
                lemma_block_range(data0.len() as int, bsi, bni);
            }
            let off: usize = (bn as usize) * (bs as usize);
            let bsu: usize = bs as usize;
            let mut out: Vec<u8> = Vec::new();
            let mut t: usize = 0;
            while t < bsu
                invariant
                    t <= bsu,
                    out@.len() == t,
                    forall|u: int| 0 <= u < t ==> out@[u] == self.files@[idx as int].data@[off + u],
                    *self == mid,
                decreases bsu - t,
            {
                out.push(self.files[idx].data[off + t]);
                t = t + 1;
            }
            proof {
                assert(out@ =~= block_of(data0, bsi, bni));
            }
            p.bb = out;
            return Ok(bs as usize);
        }
        self.add_file(&file_name);
        let ghost mid = *self;
        let ghost data0 = mid.file_data(name);
        let idx: usize = match self.find_file(&file_name) {
            Some(i) => i,
            None => {
                proof {
                    assert(false);
                }
                return Err(StorageError::FileNotFound)
            },
        };
        // write: extend the file so the target block exists, then splice the
        // page's bytes into it
        let ghost nb0 = data0.len() as int / bsi;
        let ghost kk: int = if nb0 <= bni {
            bni + 1 - nb0
        } else {
            0
        };
        while (self.files[idx].data.len() as u64) / bs <= bn
            invariant
                self.wf(),
                self.block_size == bs,
                idx < self.files@.len(),
                self.files@[idx as int].name@ == name,
                self.file_idx(name) == idx,
                self.has_file(name),
                self.directory@ == mid.directory@,
                self.is_new == mid.is_new,
                self.num_blocks(name) >= nb0,
                self.num_blocks(name) <= bni + 1 || self.num_blocks(name) == nb0,
                self.file_data(name) == data0 + zero_bytes((self.num_blocks(name) - nb0) * bsi),
                self.ops@ == mid.ops@ + Seq::new(
                    (self.num_blocks(name) - nb0) as nat,
                    |x: int| DiskOp::Extend { file: name },
                ),
                forall|n: Seq<char>| n != name ==> #[trigger] self.has_file(n) == mid.has_file(n),
                forall|n: Seq<char>|
                    n != name && #[trigger] mid.has_file(n) ==> self.file_data(n) == mid.file_data(
                        n,
                    ),
            decreases bni + 1 - self.num_blocks(name),
        {
            let ghost pre_it = *self;
            proof {
                assert(pre_it.files@[idx as int].data@.len() as int % bsi == 0);
                lemma_fundamental_div_mod(pre_it.file_data(name).len() as int, bsi);
                assert(pre_it.file_data(name).len() + bs <= (bni + 1) * bsi) by (nonlinear_arith)
                    requires
                        pre_it.file_data(name).len() as int == bsi * (pre_it.file_data(
                            name,
                        ).len() as int / bsi),
                        pre_it.file_data(name).len() as int / bsi <= bni,
                        bsi == bs,
                        bsi >= 1,
                        bni >= 0,
                ;
            }
            let res = self.append(file_name.clone());
            proof {
                assert(res is Ok);
                let c = pre_it.num_blocks(name) - nb0;
                lemma_fundamental_div_mod(self.file_data(name).len() as int, bsi);
                lemma_fundamental_div_mod(pre_it.file_data(name).len() as int, bsi);
                assert(self.file_data(name).len() == pre_it.file_data(name).len() + bsi);
                assert(self.files@[self.file_idx(name)].data@.len() as int % bsi == 0);
                assert(self.num_blocks(name) == pre_it.num_blocks(name) + 1) by (nonlinear_arith)
                    requires
                        bsi >= 1,
                        self.file_data(name).len() == pre_it.file_data(name).len() + bsi,
                        self.file_data(name).len() as int % bsi == 0,
                        pre_it.file_data(name).len() as int % bsi == 0,
                        self.num_blocks(name) == self.file_data(name).len() as int / bsi,
                        pre_it.num_blocks(name) == pre_it.file_data(name).len() as int / bsi,
                ;
                assert((c + 1) * bsi == c * bsi + bsi) by (nonlinear_arith);
                assert(self.file_data(name) =~= data0 + zero_bytes((c + 1) * bsi));
                assert(self.ops@ =~= mid.ops@ + Seq::new(
                    (c + 1) as nat,
                    |x: int| DiskOp::Extend { file: name },
                ));
                assert(self.file_idx(name) == idx) by {
                    self.lemma_file_at(name, idx as int);
                }
                assert forall|n: Seq<char>| n != name && #[trigger] mid.has_file(n) implies
                    self.file_data(n) == mid.file_data(n) by {
                    assert(pre_it.has_file(n));
                    assert(self.file_data(n) == pre_it.file_data(n));
                }
            }
        }
        let ghost pre_splice = *self;
        proof {
            assert(pre_splice.num_blocks(name) - nb0 == kk);
            assert(pre_splice.files@[idx as int].data@.len() as int % bsi == 0);
            lemma_fundamental_div_mod(pre_splice.file_data(name).len() as int, bsi);
            assert(bni * bsi + bsi <= pre_splice.file_data(name).len() && bni * bsi >= 0)
                by (nonlinear_arith)
                requires
                    bsi >= 1,
                    bni >= 0,
                    pre_splice.file_data(name).len() as int == bsi * (pre_splice.file_data(
                        name,
                    ).len() as int / bsi),
                    pre_splice.file_data(name).len() as int / bsi >= bni + 1,
            ;
        }
        let off: usize = (bn as usize) * (bs as usize);
        let ghost extended = self.file_data(name);
        let data = &mut self.files[idx].data;
        crate::page::write_bytes_at(data, off, p.bb.as_slice());
        self.ops = Ghost(self.ops@.push(DiskOp::Write { file: name, blk: bni }));
        proof {
            let post = *self;
            assert(post.files@ == pre_splice.files@.update(idx as int, post.files@[idx as int]));
            assert(post.files@[idx as int].name@ == name);
            assert(post.files@[idx as int].data@.len() == extended.len());
            assert(post.wf());
            post.lemma_file_at(name, idx as int);
            assert(post.file_data(name) == spec_write_bytes(extended, bni * bsi, old(p)@));
            lemma_write_block(extended, bsi, bni, old(p)@);
            assert(post.ops@ =~= mid.ops@ + Seq::new(
                kk as nat,
                |x: int| DiskOp::Extend { file: name },
            ) + seq![DiskOp::Write { file: name, blk: bni }]);
            assert forall|n: Seq<char>| post.has_file(n) == pre_splice.has_file(n) by {
                if pre_splice.has_file(n) {
                    let j = pre_splice.file_idx(n);
                    pre_splice.lemma_file_at(n, j);
                    assert(post.files@[j].name@ == n);
                    assert(post.has_file(n));
                }
                if post.has_file(n) {
                    let j = post.file_idx(n);
                    post.lemma_file_at(n, j);
                    assert(pre_splice.files@[j].name@ == n);
                    assert(pre_splice.has_file(n));
                }
            }
            assert forall|n: Seq<char>|
                n != name && #[trigger] pre_splice.has_file(n) implies post.file_data(n)
                == pre_splice.file_data(n) by {
                let j = pre_splice.file_idx(n);
                pre_splice.lemma_file_at(n, j);
                post.lemma_file_at(n, j);
            }
            assert forall|n: Seq<char>| #[trigger] old(self).has_file(n) implies post.has_file(n)
                && post.file_data(n).len() >= old(self).file_data(n).len() by {
                assert(mid.has_file(n));
                assert(mid.file_data(n) == old(self).file_data(n));
                if n == name {
                    assert(post.file_data(name).len() == extended.len());
                    assert(extended.len() >= data0.len());
                } else {
                    assert(pre_splice.has_file(n));
                    assert(post.file_data(n) == pre_splice.file_data(n));
                    assert(pre_splice.file_data(n) == mid.file_data(n));
                }
            }
            assert forall|j: int| 0 <= j < nb0 && j != bni implies block_of(
                post.file_data(name),
                bsi,
                j,
            ) == block_of(data0, bsi, j) by {
                lemma_mul_inequality(j + 1, nb0, bsi);
                lemma_fundamental_div_mod(data0.len() as int, bsi);
                assert(nb0 * bsi <= data0.len()) by (nonlinear_arith)
                    requires
                        data0.len() as int == bsi * nb0,
                ;
                assert((j + 1) * bsi <= extended.len());
                assert((j + 1) * bsi == j * bsi + bsi && j * bsi >= 0) by (nonlinear_arith)
                    requires
                        j >= 0,
                        bsi >= 1,
                ;
                assert(block_of(extended, bsi, j) =~= block_of(data0, bsi, j));
            }
        }
        Ok(bs as usize)
    }
}

/// A block index below the file's block count addresses bytes within the file.
proof fn lemma_block_range(len: int, bs: int, bn: int)
    requires
        bs >= 1,
        len % bs == 0,
        0 <= bn < len / bs,
    ensures
        0 <= bn * bs,
        bn * bs + bs <= len,
{
    lemma_fundamental_div_mod(len, bs);
    assert(bn * bs + bs <= len && bn * bs >= 0) by (nonlinear_arith)
        requires
            len == bs * (len / bs),
            bn + 1 <= len / bs,
            bs >= 1,
            bn >= 0,
    ;
}

/// Splicing one block's bytes into a block-aligned byte sequence changes that
/// block to the new bytes and leaves every other block unchanged.
proof fn lemma_write_block(extended: Seq<u8>, bs: int, bn: int, p: Seq<u8>)
    requires
        bs >= 1,
        bn >= 0,
        p.len() == bs,
        bn * bs + bs <= extended.len(),
        bn * bs >= 0,
    ensures
        spec_write_bytes(extended, bn * bs, p).len() == extended.len(),
        block_of(spec_write_bytes(extended, bn * bs, p), bs, bn) == p,
        forall|j: int|
            0 <= j && j != bn && (j + 1) * bs <= extended.len() ==> block_of(
                spec_write_bytes(extended, bn * bs, p),
                bs,
                j,
            ) == block_of(extended, bs, j),
{
    let w = spec_write_bytes(extended, bn * bs, p);
    assert(block_of(w, bs, bn) =~= p);
    assert forall|j: int| 0 <= j && j != bn && (j + 1) * bs <= extended.len() implies block_of(
        w,
        bs,
        j,
    ) == block_of(extended, bs, j) by {
        if j < bn {
            lemma_mul_inequality(j + 1, bn, bs);
            assert((j + 1) * bs == j * bs + bs) by (nonlinear_arith);
            assert((bn) * bs >= (j + 1) * bs);
        } else {
            lemma_mul_inequality(bn + 1, j, bs);
            assert((bn + 1) * bs == bn * bs + bs) by (nonlinear_arith);
            assert((j + 1) * bs == j * bs + bs) by (nonlinear_arith);
            assert(j * bs >= bn * bs + bs);
        }
        assert(j * bs >= 0) by (nonlinear_arith)
            requires
                j >= 0,
                bs >= 1,
        ;
        assert(block_of(w, bs, j) =~= block_of(extended, bs, j));
    }
}

} // verus!
