use vstd::prelude::*;
use vstd::utf8::*;

use crate::errors::StorageError;

verus! {

// ---------------------------------------------------------------------------
// Big-endian 32-bit encoding.
//
// Every multi-byte field of a page is a 32-bit value stored as four bytes,
// most significant first.
// ---------------------------------------------------------------------------

pub open spec fn be32_of(b0: u8, b1: u8, b2: u8, b3: u8) -> u32 {
    ((b0 as u32) << 24) | ((b1 as u32) << 16) | ((b2 as u32) << 8) | (b3 as u32)
}

/// The 32-bit value stored big-endian in the first four bytes of `s`.
pub open spec fn spec_be32(s: Seq<u8>) -> u32 {
    be32_of(s[0], s[1], s[2], s[3])
}

/// The four big-endian bytes of `x`, most significant first.
pub open spec fn spec_be32_bytes(x: u32) -> Seq<u8> {
    seq![(x >> 24) as u8, ((x >> 16) & 0xff) as u8, ((x >> 8) & 0xff) as u8, (x & 0xff) as u8]
}

pub proof fn lemma_be32_round_trip(x: u32)
    ensures
        spec_be32(spec_be32_bytes(x)) == x,
{
    assert(((((x >> 24) as u8) as u32) << 24) | (((((x >> 16) & 0xff) as u8) as u32) << 16) | ((((
    (x >> 8) & 0xff) as u8) as u32) << 8) | (((x & 0xff) as u8) as u32) == x) by (bit_vector);
}

pub proof fn lemma_cast_i32_round_trip(n: i32)
    ensures
        ((n as u32) as i32) == n,
{
    assert(((n as u32) as i32) == n) by (bit_vector);
}

pub proof fn lemma_cast_u32_round_trip(x: u32)
    ensures
        ((x as i32) as u32) == x,
{
    assert(((x as i32) as u32) == x) by (bit_vector);
}

// ---------------------------------------------------------------------------
// The abstract effect of each accessor, over the page's byte sequence.
// `None` stands for the `OffsetOverflow` outcome: the field's span
// `offset .. offset + size` does not fit in the buffer.
// ---------------------------------------------------------------------------

/// `s` with the bytes starting at `off` replaced by `bs`.
pub open spec fn spec_write_bytes(s: Seq<u8>, off: int, bs: Seq<u8>) -> Seq<u8> {
    Seq::new(s.len(), |i: int| if off <= i < off + bs.len() { bs[i - off] } else { s[i] })
}

pub open spec fn spec_get_int(s: Seq<u8>, off: int) -> Option<i32> {
    if 0 <= off && off + 4 <= s.len() {
        Some(spec_be32(s.subrange(off, off + 4)) as i32)
    } else {
        None
    }
}

pub open spec fn spec_set_int(s: Seq<u8>, off: int, n: i32) -> Option<Seq<u8>> {
    if 0 <= off && off + 4 <= s.len() {
        Some(spec_write_bytes(s, off, spec_be32_bytes(n as u32)))
    } else {
        None
    }
}

pub open spec fn spec_get_bytes(s: Seq<u8>, off: int) -> Option<Seq<u8>> {
    if 0 <= off && off + 4 <= s.len() {
        let l = spec_be32(s.subrange(off, off + 4)) as int;
        if off + 4 + l <= s.len() {
            Some(s.subrange(off + 4, off + 4 + l))
        } else {
            None
        }
    } else {
        None
    }
}

pub open spec fn spec_set_bytes(s: Seq<u8>, off: int, bs: Seq<u8>) -> Option<Seq<u8>> {
    if 0 <= off && off + 4 + bs.len() <= s.len() && bs.len() <= u32::MAX {
        Some(spec_write_bytes(s, off, spec_be32_bytes(bs.len() as u32) + bs))
    } else {
        None
    }
}

// ---------------------------------------------------------------------------
// Page: a fixed-capacity byte buffer with offset-checked typed accessors.
// ---------------------------------------------------------------------------

/// A fixed-capacity byte buffer holding one block's worth of data, with
/// bounds-checked accessors for big-endian 32-bit integers, length-prefixed
/// byte arrays and UTF-8 strings.
pub struct Page {
    pub bb: Vec<u8>,
}

impl View for Page {
    type V = Seq<u8>;

    open spec fn view(&self) -> Seq<u8> {
        self.bb@
    }
}

/// Relies on `String::from_utf8`: it returns `Ok` exactly when the bytes are
/// valid UTF-8, and then the string consists of the characters they encode.
#[verifier::external_body]
pub(crate) fn bytes_to_string(bytes: Vec<u8>) -> (r: Option<String>)
    ensures
        r is Some <==> valid_utf8(bytes@),
        r is Some ==> r->0@ == decode_utf8(bytes@),
{
    String::from_utf8(bytes).ok()
}

pub(crate) fn write_bytes_at(dst: &mut Vec<u8>, off: usize, src: &[u8])
    requires
        off + src@.len() <= old(dst)@.len(),
    ensures
        final(dst)@ == spec_write_bytes(old(dst)@, off as int, src@),
{
    let n: usize = src.len();
    let cap: usize = dst.len();
    let mut i: usize = 0;
    while i < n
        invariant
            i <= n,
            n == src@.len(),
            off + n <= cap,
            off + n <= dst@.len(),
            dst@.len() == old(dst)@.len(),
            forall|k: int| 0 <= k < i ==> dst@[off + k] == src@[k],
            forall|k: int| 0 <= k < dst@.len() && !(off <= k < off + i) ==> dst@[k] == old(
                dst,
            )@[k],
        decreases n - i,
    {
        dst[off + i] = src[i];
        i = i + 1;
    }
    assert(dst@ =~= spec_write_bytes(old(dst)@, off as int, src@));
}

impl Page {
    /// Takes ownership of `buf`; the page's capacity is `buf`'s length.
    pub fn from_buffer(buf: Vec<u8>) -> (p: Page)
        ensures
            p@ == buf@,
    {
        Page { bb: buf }
    }

    /// Reads the big-endian 32-bit integer stored at `offset`.
    pub fn get_int(&self, offset: u64) -> (r: Result<i32, StorageError>)
        ensures
            (match spec_get_int(self@, offset as int) {
                Some(n) => r == Ok::<i32, StorageError>(n),
                None => r == Err::<i32, StorageError>(StorageError::OffsetOverflow),
            }),
    {
        if self.bb.len() < 4 || offset > (self.bb.len() - 4) as u64 {
            return Err(StorageError::OffsetOverflow);
        }
        let o: usize = offset as usize;
        let b0: u8 = self.bb[o];
        let b1: u8 = self.bb[o + 1];
        let b2: u8 = self.bb[o + 2];
        let b3: u8 = self.bb[o + 3];
        let v: u32 = ((b0 as u32) << 24) | ((b1 as u32) << 16) | ((b2 as u32) << 8) | (b3 as u32);
        proof {
            assert(self@.subrange(o as int, o + 4) =~= seq![b0, b1, b2, b3]);
        }
        Ok(v as i32)
    }

    /// Stores `n` as a big-endian 32-bit integer at `offset`.
    pub fn set_int(&mut self, offset: usize, n: i32) -> (r: Result<(), StorageError>)
        ensures
            (match spec_set_int(old(self)@, offset as int, n) {
                Some(s2) => r == Ok::<(), StorageError>(()) && final(self)@ == s2,
                None => r == Err::<(), StorageError>(StorageError::OffsetOverflow) && final(self)@
                    == old(self)@,
            }),
    {
        if self.bb.len() < 4 || offset > self.bb.len() - 4 {
            return Err(StorageError::OffsetOverflow);
        }
        let x: u32 = n as u32;
        let b0: u8 = (x >> 24) as u8;
        let b1: u8 = ((x >> 16) & 0xff) as u8;
        let b2: u8 = ((x >> 8) & 0xff) as u8;
        let b3: u8 = (x & 0xff) as u8;
        self.bb[offset] = b0;
        self.bb[offset + 1] = b1;
        self.bb[offset + 2] = b2;
        self.bb[offset + 3] = b3;
        proof {
            assert(self@ =~= spec_write_bytes(old(self)@, offset as int, spec_be32_bytes(n as u32)));
        }
        Ok(())
    }

    /// Reads the length-prefixed byte array stored at `offset`.
    pub fn get_bytes(&self, offset: usize) -> (r: Result<Vec<u8>, StorageError>)
        ensures
            (match spec_get_bytes(self@, offset as int) {
                Some(bs) => r is Ok && r->Ok_0@ == bs,
                None => r == Err::<Vec<u8>, StorageError>(StorageError::OffsetOverflow),
            }),
    {
        if self.bb.len() < 4 || offset > self.bb.len() - 4 {
            return Err(StorageError::OffsetOverflow);
        }
        let l32: i32 = match self.get_int(offset as u64) {
            Ok(v) => v,
            Err(e) => { return Err(e) },
        };
        let l: usize = (l32 as u32) as usize;
        proof {
            lemma_cast_u32_round_trip(spec_be32(self@.subrange(offset as int, offset + 4)));
            assert(l == spec_be32(self@.subrange(offset as int, offset + 4)) as int);
        }
        if l > self.bb.len() - 4 - offset {
            return Err(StorageError::OffsetOverflow);
        }
        let mut out: Vec<u8> = Vec::new();
        let start: usize = offset + 4;
        let mut i: usize = 0;
        while i < l
            invariant
                i <= l,
                start == offset + 4,
                start + l <= self@.len(),
                start + l <= usize::MAX,
                out@.len() == i,
                forall|k: int| 0 <= k < i ==> out@[k] == self@[start + k],
            decreases l - i,
        {
            out.push(self.bb[start + i]);
            i = i + 1;
        }
        proof {
            assert(out@ =~= self@.subrange(offset + 4, offset + 4 + l));
        }
        Ok(out)
    }

    /// Stores `bytes` at `offset`, preceded by its big-endian 32-bit length.
    pub fn set_bytes(&mut self, offset: usize, bytes: &[u8]) -> (r: Result<(), StorageError>)
        requires
            bytes@.len() <= u32::MAX,
        ensures
            (match spec_set_bytes(old(self)@, offset as int, bytes@) {
                Some(s2) => r == Ok::<(), StorageError>(()) && final(self)@ == s2,
                None => r == Err::<(), StorageError>(StorageError::OffsetOverflow) && final(self)@
                    == old(self)@,
            }),
    {
        let blen: usize = bytes.len();
        if self.bb.len() < 4 || offset > self.bb.len() - 4 || blen > self.bb.len() - 4 - offset {
            return Err(StorageError::OffsetOverflow);
        }
        match self.set_int(offset, (blen as u32) as i32) {
            Ok(()) => {},
            Err(_) => {
                proof {
                    assert(false);
                }
            },
        }
        proof {
            lemma_cast_u32_round_trip(blen as u32);
            assert((((blen as u32) as i32) as u32) == blen as u32);
        }
        write_bytes_at(&mut self.bb, offset + 4, bytes);
        proof {
            assert(self@ =~= spec_write_bytes(
                old(self)@,
                offset as int,
                spec_be32_bytes(bytes@.len() as u32) + bytes@,
            ));
        }
        Ok(())
    }

    /// Stores `s` at `offset` as a length-prefixed UTF-8 byte array.
    pub fn set_string(&mut self, offset: usize, s: &String) -> (r: Result<(), StorageError>)
        requires
            encode_utf8(s@).len() <= u32::MAX,
        ensures
            (match spec_set_bytes(old(self)@, offset as int, encode_utf8(s@)) {
                Some(s2) => r == Ok::<(), StorageError>(()) && final(self)@ == s2,
                None => r == Err::<(), StorageError>(StorageError::OffsetOverflow) && final(self)@
                    == old(self)@,
            }),
    {
        self.set_bytes(offset, s.as_str().as_bytes())
    }

    /// Reads the length-prefixed byte array at `offset` and decodes it as UTF-8.
    pub fn get_string(&self, offset: usize) -> (r: Result<String, StorageError>)
        ensures
            (match spec_get_bytes(self@, offset as int) {
                Some(bs) => if valid_utf8(bs) {
                    r is Ok && r->Ok_0@ == decode_utf8(bs)
                } else {
                    r == Err::<String, StorageError>(StorageError::Utf8DecodeError)
                },
                None => r == Err::<String, StorageError>(StorageError::OffsetOverflow),
            }),
    {
        let bs: Vec<u8> = match self.get_bytes(offset) {
            Ok(b) => b,
            Err(e) => { return Err(e) },
        };
        match bytes_to_string(bs) {
            Some(s) => Ok(s),
            None => Err(StorageError::Utf8DecodeError),
        }
    }

    /// The buffer space taken by a string of `str_len` UTF-8 bytes:
    /// the four-byte length prefix plus the bytes themselves.
    pub fn max_length(str_len: u64) -> (r: u64)
        requires
            str_len <= u64::MAX - 4,
        ensures
            r == 4 + str_len,
    {
        4 + str_len
    }

    /// The raw bytes of the page, open for in-place modification.
    pub fn contents(&mut self) -> (ret: &mut Vec<u8>)
        ensures
            *ret == old(self).bb,
            *final(self) == (Page { bb: *final(ret) }),
    {
        &mut self.bb
    }
}

// ---------------------------------------------------------------------------
// Round-trip laws: within capacity, `set` then `get` recovers the value
// exactly, for integers, byte arrays and strings.
// ---------------------------------------------------------------------------

/// Setting an integer at an in-bounds offset and reading it back yields the
/// integer, for every page content, offset and value.
pub proof fn lemma_int_round_trip(s: Seq<u8>, off: int, n: i32)
    requires
        spec_set_int(s, off, n) is Some,
    ensures
        spec_get_int(spec_set_int(s, off, n)->0, off) == Some(n),
{
    let s2 = spec_set_int(s, off, n)->0;
    assert(s2.subrange(off, off + 4) =~= spec_be32_bytes(n as u32));
    lemma_be32_round_trip(n as u32);
    lemma_cast_i32_round_trip(n);
}

/// Setting a byte array at an in-bounds offset and reading it back yields the
/// same bytes, for every page content, offset and array.
pub proof fn lemma_bytes_round_trip(s: Seq<u8>, off: int, bs: Seq<u8>)
    requires
        spec_set_bytes(s, off, bs) is Some,
    ensures
        spec_get_bytes(spec_set_bytes(s, off, bs)->0, off) == Some(bs),
{
    let s2 = spec_set_bytes(s, off, bs)->0;
    assert(s2.subrange(off, off + 4) =~= spec_be32_bytes(bs.len() as u32));
    lemma_be32_round_trip(bs.len() as u32);
    assert(s2.subrange(off + 4, off + 4 + bs.len()) =~= bs);
}

/// Setting a string at an in-bounds offset and reading it back yields the
/// same characters, for every page content, offset and string.
pub proof fn lemma_string_round_trip(s: Seq<u8>, off: int, w: Seq<char>)
    requires
        spec_set_bytes(s, off, encode_utf8(w)) is Some,
    ensures
        spec_get_bytes(spec_set_bytes(s, off, encode_utf8(w))->0, off) == Some(encode_utf8(w)),
        valid_utf8(encode_utf8(w)),
        decode_utf8(encode_utf8(w)) == w,
{
    lemma_bytes_round_trip(s, off, encode_utf8(w));
    broadcast use encode_utf8_valid_utf8, encode_utf8_decode_utf8, char_is_scalar;

}

} // verus!
