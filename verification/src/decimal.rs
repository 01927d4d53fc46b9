//! Decoder for runs of fixed-width decimal records into packed comparison
//! values.

use vstd::prelude::*;

verus! {

use crate::LINE_WIDTH_INCL_NEWLINE;
use crate::lines::{
    digits_up_to, is_digit, lemma_val_prefix_bounds, pack_val_prefix, packed_of, pow16, to_lines,
};

/// A run of complete records whose digit positions all hold digits; the
/// newline position of each record is not inspected by the decoder.
pub open spec fn decodable(s: Seq<u8>) -> bool {
    &&& s.len() % LINE_WIDTH_INCL_NEWLINE as nat == 0
    &&& forall|k: int|
        0 <= k < s.len() / LINE_WIDTH_INCL_NEWLINE as nat ==> digits_up_to(
            #[trigger] to_lines(s)[k],
            13,
        )
}

/// A record's value packed for comparison, together with the index of the
/// file it came from. The least significant byte holds the file index; the
/// remaining seven bytes hold the 13 digits, one hexadecimal nibble each,
/// most significant digit first. Unsigned order on the inner word therefore
/// matches the numeric order of the records, with the file index breaking
/// ties.
#[derive(Debug, PartialEq, Eq, PartialOrd, Ord, Clone, Copy)]
pub struct PackedVal(u64);

impl PackedVal {
    /// The underlying comparison word.
    pub closed spec fn spec_inner(self) -> u64 {
        self.0
    }

    /// Combines a packed digit word, whose least significant byte must be
    /// free, with a file index.
    pub fn new(v: u64, idx: u8) -> (r: Self)
        requires
            v % 256 == 0,
        ensures
            r.spec_inner() == v + idx,
    {
        proof {
            assert(v % 256 == 0 ==> (v | idx as u64) == v + idx) by (bit_vector);
        }
        Self(v | idx as u64)
    }

    /// The file index packed into the least significant byte.
    pub fn file_idx(&self) -> (r: u8)
        ensures
            r == self.spec_inner() % 256,
    {
        proof {
            let x: u64 = self.0;
            assert(x as u8 == x % 256) by (bit_vector);
        }
        self.0 as u8
    }

    /// The whole comparison word.
    pub fn inner(&self) -> (r: u64)
        ensures
            r == self.spec_inner(),
    {
        self.0
    }
}

/// `pow16` grows with its exponent.
proof fn lemma_pow16_increases(a: nat, b: nat)
    requires
        a <= b,
    ensures
        pow16(a) <= pow16(b),
    decreases b,
{
    if a < b {
        lemma_pow16_increases(a, (b - 1) as nat);
    }
}

/// Decodes the record starting at `off` into its packed value.
fn parse_line(inputs: &[u8], off: usize, file_idx: u8) -> (r: PackedVal)
    requires
        off + LINE_WIDTH_INCL_NEWLINE <= inputs@.len(),
        digits_up_to(inputs@.subrange(off as int, off + LINE_WIDTH_INCL_NEWLINE), 13),
    ensures
        r.spec_inner() == packed_of(
            inputs@.subrange(off as int, off + LINE_WIDTH_INCL_NEWLINE),
            file_idx,
        ),
{
    let ghost w = inputs@.subrange(off as int, off + LINE_WIDTH_INCL_NEWLINE);
    let ilen = inputs.len();
    let mut acc: u64 = 0;
    let mut j: usize = 0;
    while j < 13
        invariant
            j <= 13,
            ilen == inputs@.len(),
            off + LINE_WIDTH_INCL_NEWLINE <= ilen,
            w == inputs@.subrange(off as int, off + LINE_WIDTH_INCL_NEWLINE),
            digits_up_to(w, 13),
            acc == pack_val_prefix(w, j as int),
        decreases 13 - j,
    {
        proof {
            lemma_val_prefix_bounds(w, j as int);
            lemma_pow16_increases(j as nat, 12);
            assert(pow16(12) == 0x1000000000000) by {
                reveal_with_fuel(pow16, 13);
            }
            assert(is_digit(w[j as int]));
        }
        let b = inputs[off + j];
        acc = acc * 16 + (b - 48) as u64;
        j = j + 1;
    }
    proof {
        lemma_val_prefix_bounds(w, 13);
        assert(pow16(13) == 0x10000000000000) by {
            reveal_with_fuel(pow16, 14);
        }
    }
    PackedVal::new(acc * 256, file_idx)
}

/// Decodes every record of `inputs` and appends the results to `outputs`:
/// one packed value per record, in input order, each tagged with `file_idx`.
/// What `outputs` already held stays in place.
pub fn parse_packed_4bit(inputs: &[u8], outputs: &mut Vec<PackedVal>, file_idx: u8)
    requires
        decodable(inputs@),
    ensures
        final(outputs)@.len() == old(outputs)@.len() + inputs@.len()
            / LINE_WIDTH_INCL_NEWLINE as nat,
        forall|i: int|
            0 <= i < old(outputs)@.len() ==> #[trigger] final(outputs)@[i] == old(outputs)@[i],
        forall|k: int|
            0 <= k < inputs@.len() / LINE_WIDTH_INCL_NEWLINE as nat
                ==> (#[trigger] final(outputs)@[old(outputs)@.len() + k]).spec_inner()
                == packed_of(to_lines(inputs@)[k], file_idx),
{
    let ilen = inputs.len();
    let n = ilen / LINE_WIDTH_INCL_NEWLINE;
    let base = outputs.len();
    let mut k: usize = 0;
    while k < n
        invariant
            ilen == inputs@.len(),
            n == inputs@.len() / LINE_WIDTH_INCL_NEWLINE as nat,
            base == old(outputs)@.len(),
            decodable(inputs@),
            k <= n,
            outputs@.len() == base + k,
            forall|i: int| 0 <= i < base ==> #[trigger] outputs@[i] == old(outputs)@[i],
            forall|i: int|
                0 <= i < k ==> (#[trigger] outputs@[base + i]).spec_inner() == packed_of(
                    to_lines(inputs@)[i],
                    file_idx,
                ),
        decreases n - k,
    {
        assert(to_lines(inputs@)[k as int] == inputs@.subrange(
            k as int * 14,
            k as int * 14 + 14,
        ));
        let v = parse_line(inputs, k * LINE_WIDTH_INCL_NEWLINE, file_idx);
        outputs.push(v);
        k = k + 1;
    }
}

} // verus!
