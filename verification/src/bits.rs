//! Bit-order policy: how a finite sequence of booleans becomes a packed
//! bit-set, least-significant-bit-first or most-significant-bit-first.

use vstd::prelude::*;

verus! {

/// The bit order used when forming the packed bit string of a hash.
#[derive(Clone, Copy, Debug, PartialEq, Eq, Structural)]
pub enum BitOrder {
    /// Least significant bit first: the i-th boolean is written to bit
    /// `i % 8` of byte `i / 8`, filling each byte from its low end.
    LsbFirst,
    /// Most significant bit first: the i-th boolean is written to bit
    /// `7 - i % 8` of byte `i / 8`, filling each byte from its high end.
    MsbFirst,
}

/// Position, within its byte, of the bit that holds the i-th boolean.
pub open spec fn bit_pos(order: BitOrder, i: int) -> u8 {
    match order {
        BitOrder::LsbFirst => (i % 8) as u8,
        BitOrder::MsbFirst => (7 - i % 8) as u8,
    }
}

/// Whether bit `k` (counted from the least significant end) of `b` is set.
pub open spec fn byte_bit(b: u8, k: u8) -> bool {
    (b >> k) & 1 == 1
}

/// The i-th boolean stored in a packed byte sequence under the given order.
pub open spec fn bit_at(bytes: Seq<u8>, order: BitOrder, i: int) -> bool {
    byte_bit(bytes[i / 8], bit_pos(order, i))
}

/// The first `n` booleans read back from a packed byte sequence.
pub open spec fn unpacked(bytes: Seq<u8>, order: BitOrder, n: int) -> Seq<bool> {
    Seq::new(n as nat, |i: int| bit_at(bytes, order, i))
}

/// A packed bit-set: `bit_len` booleans stored in `(bit_len + 7) / 8` bytes.
pub struct BitSet {
    pub bytes: Vec<u8>,
    pub bit_len: usize,
}

/// Ceiling division by 8 agrees with "quotient plus one unless exact".
proof fn lemma_ceil_div8(n: int)
    requires
        n >= 0,
    ensures
        (n + 7) / 8 == n / 8 + if n % 8 == 0 { 0int } else { 1int },
{
    vstd::arithmetic::div_mod::lemma_fundamental_div_mod(n, 8);
    let q = n / 8;
    let r = n % 8;
    if r == 0 {
        vstd::arithmetic::div_mod::lemma_fundamental_div_mod_converse_div(n + 7, 8, q, 7);
    } else {
        assert(n + 7 == (q + 1) * 8 + (r - 1));
        vstd::arithmetic::div_mod::lemma_fundamental_div_mod_converse_div(n + 7, 8, q + 1, r - 1);
    }
}

/// Setting bit `k` of a byte makes that bit true and leaves every other
/// bit of the byte unchanged.
proof fn lemma_set_bit(b: u8, k: u8)
    by (bit_vector)
    requires
        k < 8,
    ensures
        byte_bit(b | (1u8 << k), k),
        forall|k2: u8| k2 < 8 && k2 != k ==> byte_bit(b | (1u8 << k), k2) == byte_bit(b, k2),
{
}

/// A zero byte has no bit set.
proof fn lemma_zero_byte(k: u8)
    by (bit_vector)
    ensures
        !byte_bit(0u8, k),
{
}

impl BitSet {
    /// The byte vector has exactly as many bytes as `bit_len` bits need.
    pub open spec fn wf(&self) -> bool {
        self.bytes@.len() == (self.bit_len + 7) / 8
    }

    /// Number of meaningful bits in this bit-set.
    pub fn bit_len(&self) -> (r: usize)
        ensures
            r == self.bit_len,
    {
        self.bit_len
    }

    /// The packed bytes.
    pub fn as_bytes(&self) -> (r: &Vec<u8>)
        ensures
            r@ == self.bytes@,
    {
        &self.bytes
    }

    /// Pack a boolean sequence into a bit-set under the given order.
    ///
    /// Reading the bits back under the same order reproduces the input
    /// exactly; the trailing bits of the final byte beyond the input
    /// length are zero-filled.
    pub fn from_bools(bools: &Vec<bool>, order: BitOrder) -> (r: BitSet)
        ensures
            r.wf(),
            r.bit_len == bools@.len(),
            unpacked(r.bytes@, order, bools@.len() as int) == bools@,
            forall|j: int|
                bools@.len() <= j < 8 * r.bytes@.len() ==> !bit_at(r.bytes@, order, j),
    {
        let n = bools.len();
        let nbytes = if n % 8 == 0 {
            n / 8
        } else {
            n / 8 + 1
        };
        proof {
            lemma_ceil_div8(n as int);
        }
        let mut bytes: Vec<u8> = Vec::new();
        let mut i: usize = 0;
        while i < nbytes
            invariant
                i <= nbytes,
                bytes@.len() == i,
                forall|j: int| 0 <= j < i ==> bytes@[j] == 0u8,
            decreases nbytes - i,
        {
            bytes.push(0u8);
            i = i + 1;
        }
        proof {
            assert forall|j: int| 0 <= j < 8 * bytes@.len() implies !bit_at(bytes@, order, j) by {
                vstd::arithmetic::div_mod::lemma_fundamental_div_mod(j, 8);
                lemma_zero_byte(bit_pos(order, j));
            }
        }
        let mut i: usize = 0;
        while i < n
            invariant
                i <= n,
                n == bools@.len(),
                bytes@.len() == nbytes,
                8 * nbytes >= n,
                forall|j: int| 0 <= j < i ==> bit_at(bytes@, order, j) == bools@[j],
                forall|j: int| i <= j < 8 * nbytes ==> !bit_at(bytes@, order, j),
            decreases n - i,
        {
            if bools[i] {
                let k: u8 = match order {
                    BitOrder::LsbFirst => (i % 8) as u8,
                    BitOrder::MsbFirst => (7 - i % 8) as u8,
                };
                let bi = i / 8;
                proof {
                    vstd::arithmetic::div_mod::lemma_fundamental_div_mod(i as int, 8);
                    assert(bi < nbytes);
                    assert(k == bit_pos(order, i as int));
                }
                let old_b = bytes[bi];
                let new_b = old_b | (1u8 << k);
                let ghost prev = bytes@;
                bytes.set(bi, new_b);
                proof {
                    lemma_set_bit(old_b, k);
                    assert forall|j: int|
                        0 <= j < 8 * nbytes && j != i implies bit_at(bytes@, order, j) == bit_at(
                        prev,
                        order,
                        j,
                    ) by {
                        // bits are addressed injectively: a different bit index
                        // lands in a different byte or a different position
                        vstd::arithmetic::div_mod::lemma_fundamental_div_mod(j, 8);
                        vstd::arithmetic::div_mod::lemma_fundamental_div_mod(i as int, 8);
                        if j / 8 == i as int / 8 {
                            assert(j % 8 != i as int % 8);
                            assert(bit_pos(order, j) != bit_pos(order, i as int));
                        }
                    }
                    assert(bit_at(bytes@, order, i as int));
                    assert forall|j: int| i + 1 <= j < 8 * nbytes implies !bit_at(
                        bytes@,
                        order,
                        j,
                    ) by {
                        assert(bit_at(bytes@, order, j) == bit_at(prev, order, j));
                        assert(!bit_at(prev, order, j));
                    }
                }
            }
            i = i + 1;
        }
        let r = BitSet { bytes, bit_len: n };
        proof {
            assert(unpacked(r.bytes@, order, n as int) =~= bools@);
        }
        r
    }

    /// Read the booleans back out of the bit-set under the given order.
    pub fn to_bools(&self, order: BitOrder) -> (r: Vec<bool>)
        requires
            self.wf(),
        ensures
            r@ == unpacked(self.bytes@, order, self.bit_len as int),
    {
        let n = self.bit_len;
        proof {
            lemma_ceil_div8(n as int);
        }
        let mut r: Vec<bool> = Vec::new();
        let mut i: usize = 0;
        while i < n
            invariant
                i <= n,
                n == self.bit_len,
                self.wf(),
                self.bytes@.len() == (n + 7) / 8,
                (n + 7) / 8 == n / 8 + if n % 8 == 0 { 0int } else { 1int },
                r@.len() == i,
                forall|j: int| 0 <= j < i ==> r@[j] == bit_at(self.bytes@, order, j),
            decreases n - i,
        {
            let k: u8 = match order {
                BitOrder::LsbFirst => (i % 8) as u8,
                BitOrder::MsbFirst => (7 - i % 8) as u8,
            };
            let bi = i / 8;
            proof {
                vstd::arithmetic::div_mod::lemma_fundamental_div_mod(i as int, 8);
                assert(bi < self.bytes@.len());
                assert(k == bit_pos(order, i as int));
            }
            let b = self.bytes[bi];
            r.push(((b >> k) & 1) == 1);
            i = i + 1;
        }
        proof {
            assert(r@ =~= unpacked(self.bytes@, order, n as int));
        }
        r
    }
}

} // verus!
