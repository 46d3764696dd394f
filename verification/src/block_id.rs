use vstd::prelude::*;
use vstd::string::StringExecFns;
use vstd::utf8::*;

use crate::page::bytes_to_string;

verus! {

// ---------------------------------------------------------------------------
// Decimal rendering of block numbers.
// ---------------------------------------------------------------------------

pub open spec fn spec_digit(d: int) -> char {
    if d == 0 {
        '0'
    } else if d == 1 {
        '1'
    } else if d == 2 {
        '2'
    } else if d == 3 {
        '3'
    } else if d == 4 {
        '4'
    } else if d == 5 {
        '5'
    } else if d == 6 {
        '6'
    } else if d == 7 {
        '7'
    } else if d == 8 {
        '8'
    } else {
        '9'
    }
}

/// The decimal digits of `n`, most significant first.
pub open spec fn spec_u64_digits(n: int) -> Seq<char>
    decreases n,
{
    if n < 10 {
        seq![spec_digit(n)]
    } else {
        spec_u64_digits(n / 10).push(spec_digit(n % 10))
    }
}

proof fn lemma_digit_ascii(d: int)
    requires
        0 <= d < 10,
    ensures
        spec_digit(d) as u8 == 48 + d,
        (spec_digit(d) as u32) < 128,
{
}

proof fn lemma_digits_ascii(n: int)
    requires
        n >= 0,
    ensures
        is_ascii_chars(spec_u64_digits(n)),
        spec_u64_digits(n).len() >= 1,
    decreases n,
{
    if n < 10 {
        lemma_digit_ascii(n);
    } else {
        lemma_digits_ascii(n / 10);
        lemma_digit_ascii(n % 10);
    }
}

pub open spec fn rendered_digits(r: Seq<u8>) -> Seq<char> {
    r.reverse().map_values(|b: u8| spec_digit(b - 48))
}

fn u64_to_string(n: u64) -> (s: String)
    ensures
        s@ == spec_u64_digits(n as int),
{
    let mut rev: Vec<u8> = Vec::new();
    let mut m: u64 = n;
    let mut done: bool = false;
    while !done
        invariant
            (!done && rev@.len() == 0 ==> m == n),
            (!done && rev@.len() > 0 ==> spec_u64_digits(n as int) == spec_u64_digits(m as int)
                + rendered_digits(rev@)),
            (done ==> spec_u64_digits(n as int) == rendered_digits(rev@)),
            (forall|k: int| 0 <= k < rev@.len() ==> 48 <= #[trigger] rev@[k] < 58),
        decreases m, (if done { 0int } else { 1int }),
    {
        let d: u8 = (m % 10) as u8;
        let next: u64 = m / 10;
        proof {
            let prev = rev@;
            let digs = |b: u8| spec_digit(b - 48);
            assert(prev.push((48 + d) as u8).reverse() =~= seq![(48 + d) as u8] + prev.reverse());
            assert(prev.push((48 + d) as u8).reverse().map_values(digs) =~= seq![
                spec_digit(d as int),
            ] + prev.reverse().map_values(digs));
            if next == 0 {
                assert(spec_u64_digits(m as int) == seq![spec_digit(d as int)]);
            } else {
                assert(spec_u64_digits(m as int) == spec_u64_digits(next as int).push(
                    spec_digit(d as int),
                ));
                assert(spec_u64_digits(next as int).push(spec_digit(d as int)) =~= spec_u64_digits(
                    next as int,
                ) + seq![spec_digit(d as int)]);
            }
            if prev.len() > 0 {
                assert(spec_u64_digits(m as int) + rendered_digits(prev) =~= (
                if next == 0 {
                    rendered_digits(prev.push((48 + d) as u8))
                } else {
                    spec_u64_digits(next as int) + rendered_digits(prev.push((48 + d) as u8))
                }));
            } else {
                assert(spec_u64_digits(m as int) =~= (
                if next == 0 {
                    rendered_digits(prev.push((48 + d) as u8))
                } else {
                    spec_u64_digits(next as int) + rendered_digits(prev.push((48 + d) as u8))
                }));
            }
        }
        rev.push(48 + d);
        if next == 0 {
            done = true;
        } else {
            m = next;
        }
    }
    let mut bytes: Vec<u8> = Vec::new();
    let total: usize = rev.len();
    let mut i: usize = 0;
    while i < total
        invariant
            i <= total,
            total == rev@.len(),
            bytes@.len() == i,
            forall|k: int| 0 <= k < i ==> bytes@[k] == rev@[total - 1 - k],
        decreases total - i,
    {
        bytes.push(rev[total - 1 - i]);
        i = i + 1;
    }
    proof {
        assert(bytes@ =~= rev@.reverse());
        lemma_digits_ascii(n as int);
        let chars = spec_u64_digits(n as int);
        is_ascii_chars_encode_utf8(chars);
        assert forall|k: int| 0 <= k < chars.len() implies bytes@[k] == chars[k] as u8 by {
            let b = rev@[rev@.len() - 1 - k];
            lemma_digit_ascii((b - 48) as int);
        }
        assert(bytes@ =~= encode_utf8(chars));
    }
    match bytes_to_string(bytes) {
        Some(s) => {
            proof {
                broadcast use encode_utf8_decode_utf8, char_is_scalar;

                assert(decode_utf8(encode_utf8(spec_u64_digits(n as int))) == spec_u64_digits(
                    n as int,
                ));
            }
            s
        },
        None => {
            proof {
                broadcast use encode_utf8_valid_utf8, char_is_scalar;

                assert(false);
            }
            String::new()
        },
    }
}

// ---------------------------------------------------------------------------
// BlockId: the immutable name of one fixed-size region of a file.
// ---------------------------------------------------------------------------

/// Identifies one block of a named file: the pair of the file's name and the
/// zero-based block number. Never mutated after creation; equality is
/// structural.
#[derive(Debug)]
pub struct BlockId {
    pub file_name: String,
    pub blk_num: u64,
}

impl PartialEq for BlockId {
    fn eq(&self, other: &Self) -> bool {
        self.file_name == other.file_name && self.blk_num == other.blk_num
    }
}

impl vstd::std_specs::cmp::PartialEqSpecImpl for BlockId {
    open spec fn obeys_eq_spec() -> bool {
        true
    }

    open spec fn eq_spec(&self, other: &BlockId) -> bool {
        self.file_name@ == other.file_name@ && self.blk_num == other.blk_num
    }
}

impl BlockId {
    pub fn new(file_name: &str, blk_num: u64) -> (b: BlockId)
        ensures
            b.file_name@ == file_name@,
            b.blk_num == blk_num,
    {
        BlockId { file_name: String::from_str(file_name), blk_num }
    }

    pub fn file_name(&self) -> (r: String)
        ensures
            r@ == self.file_name@,
    {
        self.file_name.clone()
    }

    pub fn number(&self) -> (r: u64)
        ensures
            r == self.blk_num,
    {
        self.blk_num
    }

    /// A readable rendering: `file: <name>, block: <number>`.
    pub fn to_string(&self) -> (r: String)
        ensures
            r@ == "file: "@ + self.file_name@ + ", block: "@ + spec_u64_digits(
                self.blk_num as int,
            ),
    {
        let mut out: String = String::new();
        out.append("file: ");
        out.append(self.file_name.as_str());
        out.append(", block: ");
        let num: String = u64_to_string(self.blk_num);
        out.append(num.as_str());
        proof {
            assert(out@ =~= "file: "@ + self.file_name@ + ", block: "@ + spec_u64_digits(
                self.blk_num as int,
            ));
        }
        out
    }

    /// A copy with the same file name and block number.
    pub fn duplicate(&self) -> (r: BlockId)
        ensures
            r.file_name@ == self.file_name@,
            r.blk_num == self.blk_num,
    {
        BlockId { file_name: self.file_name.clone(), blk_num: self.blk_num }
    }
}

} // verus!
