//! XOR of blocks of a byte array, byte by byte.
//!
//! A byte array of `n` blocks of `block_size` bytes holds block `b` at the
//! positions from `b * block_size` on.
use vstd::prelude::*;

verus! {

/// The XOR of byte `k` of each of `blocks`, taken from `data`.
pub open spec fn xor_at(data: Seq<u8>, blocks: Seq<usize>, block_size: usize, k: int) -> u8
    decreases blocks.len(),
{
    if blocks.len() == 0 {
        0u8
    } else {
        xor_at(data, blocks.drop_last(), block_size, k) ^ data[blocks.last() * block_size + k]
    }
}

/// The XOR of byte `k` of each of `blocks` other than `skip`.
pub open spec fn xor_at_except(
    data: Seq<u8>,
    blocks: Seq<usize>,
    block_size: usize,
    k: int,
    skip: usize,
) -> u8
    decreases blocks.len(),
{
    if blocks.len() == 0 {
        0u8
    } else {
        let rest = xor_at_except(data, blocks.drop_last(), block_size, k, skip);
        if blocks.last() == skip {
            rest
        } else {
            rest ^ data[blocks.last() * block_size + k]
        }
    }
}

/// Every one of `blocks` lies within `data`.
pub open spec fn blocks_within(blocks: Seq<usize>, block_size: usize, len: int) -> bool {
    forall|j: int| 0 <= j < blocks.len() ==> (#[trigger] blocks[j] + 1) * block_size <= len
}

/// Byte `k` of block `block` of `data`.
pub open spec fn block_byte(data: Seq<u8>, block: int, block_size: usize, k: int) -> u8 {
    data[block * block_size + k]
}

/// `block` is the XOR of the blocks `adjacent` of `data`.
pub open spec fn is_xor_of(
    block: Seq<u8>,
    data: Seq<u8>,
    adjacent: Seq<usize>,
    block_size: usize,
) -> bool {
    &&& block.len() == block_size
    &&& forall|k: int|
        0 <= k < block_size ==> #[trigger] block[k] == xor_at(data, adjacent, block_size, k)
}

/// Where block `b` begins and ends, and that distinct blocks do not overlap.
pub proof fn lemma_block_range(b: int, block_size: int)
    requires
        0 <= b,
        0 <= block_size,
    ensures
        (b + 1) * block_size == b * block_size + block_size,
        0 <= b * block_size,
{
    assert((b + 1) * block_size == b * block_size + block_size) by (nonlinear_arith);
    assert(0 <= b * block_size) by (nonlinear_arith)
        requires
            0 <= b,
            0 <= block_size,
    ;
}

/// A block that comes before another ends before the other begins.
pub proof fn lemma_block_order(a: int, b: int, block_size: int)
    requires
        0 <= a < b,
        0 <= block_size,
    ensures
        (a + 1) * block_size <= b * block_size,
{
    assert((a + 1) * block_size <= b * block_size) by (nonlinear_arith)
        requires
            a + 1 <= b,
            0 <= block_size,
    ;
}

/// Blocks begin in the order of their indices.
pub proof fn lemma_block_le(a: int, b: int, block_size: int)
    requires
        0 <= a <= b,
        0 <= block_size,
    ensures
        0 <= a * block_size <= b * block_size,
{
    assert(0 <= a * block_size <= b * block_size) by (nonlinear_arith)
        requires
            0 <= a <= b,
            0 <= block_size,
    ;
}

/// Byte `k` of block `b` lies within the block, and the block within an
/// array of `n` blocks.
pub proof fn lemma_block_place(b: int, n: int, block_size: int, k: int)
    requires
        0 <= b < n,
        0 <= k < block_size,
    ensures
        0 <= b * block_size <= b * block_size + k < (b + 1) * block_size <= n * block_size,
{
    lemma_block_range(b, block_size);
    lemma_block_le(b + 1, n, block_size);
}

/// No byte of one block lies within another.
pub proof fn lemma_block_apart(b: int, t: int, block_size: int, k: int)
    requires
        0 <= b,
        0 <= t,
        b != t,
        0 <= k < block_size,
    ensures
        !(t * block_size <= b * block_size + k < (t + 1) * block_size),
{
    lemma_block_range(b, block_size);
    lemma_block_range(t, block_size);
    if b < t {
        lemma_block_order(b, t, block_size);
    } else {
        lemma_block_order(t, b, block_size);
    }
}

/// XOR with the same byte twice changes nothing, and the order of the
/// operands does not matter.
pub proof fn lemma_xor_bytes(a: u8, b: u8, c: u8)
    ensures
        a ^ 0u8 == a,
        0u8 ^ a == a,
        a ^ a == 0u8,
        (a ^ b) ^ b == a,
        a ^ b == b ^ a,
        (a ^ b) ^ c == a ^ (b ^ c),
{
    assert(a ^ 0u8 == a) by (bit_vector);
    assert(0u8 ^ a == a) by (bit_vector);
    assert(a ^ a == 0u8) by (bit_vector);
    assert((a ^ b) ^ b == a) by (bit_vector);
    assert(a ^ b == b ^ a) by (bit_vector);
    assert((a ^ b) ^ c == a ^ (b ^ c)) by (bit_vector);
}

/// Leaving out a block that is not among `blocks` leaves out nothing.
pub proof fn lemma_xor_except_absent(
    data: Seq<u8>,
    blocks: Seq<usize>,
    block_size: usize,
    k: int,
    skip: usize,
)
    requires
        !blocks.contains(skip),
    ensures
        xor_at_except(data, blocks, block_size, k, skip) == xor_at(data, blocks, block_size, k),
    decreases blocks.len(),
{
    if blocks.len() > 0 {
        let rest = blocks.drop_last();
        assert forall|x: usize| rest.contains(x) implies blocks.contains(x) by {
            let i = choose|i: int| 0 <= i < rest.len() && rest[i] == x;
            assert(blocks[i] == x);
        }
        assert(blocks[blocks.len() - 1] == blocks.last());
        lemma_xor_except_absent(data, rest, block_size, k, skip);
    }
}

/// The XOR over distinct blocks is the XOR over all of them but one, XORed
/// with that one.
pub proof fn lemma_xor_split(
    data: Seq<u8>,
    blocks: Seq<usize>,
    block_size: usize,
    k: int,
    skip: usize,
)
    requires
        blocks.no_duplicates(),
        blocks.contains(skip),
    ensures
        xor_at(data, blocks, block_size, k) == xor_at_except(data, blocks, block_size, k, skip)
            ^ data[skip * block_size + k],
    decreases blocks.len(),
{
    let rest = blocks.drop_last();
    let last = blocks.last();
    let i = choose|i: int| 0 <= i < blocks.len() && blocks[i] == skip;
    if last == skip {
        assert(!rest.contains(skip)) by {
            if rest.contains(skip) {
                let j = choose|j: int| 0 <= j < rest.len() && rest[j] == skip;
                assert(blocks[j] == skip && blocks[blocks.len() - 1] == skip);
            }
        }
        lemma_xor_except_absent(data, rest, block_size, k, skip);
    } else {
        assert(rest[i] == skip);
        lemma_xor_split(data, rest, block_size, k, skip);
        let x = xor_at_except(data, rest, block_size, k, skip);
        let s = data[skip * block_size + k];
        let l = data[last * block_size + k];
        assert((x ^ s) ^ l == (x ^ l) ^ s) by (bit_vector);
    }
}

/// The XOR over all blocks but one depends on the bytes of those blocks
/// alone.
pub proof fn lemma_xor_except_agree(
    a: Seq<u8>,
    b: Seq<u8>,
    blocks: Seq<usize>,
    block_size: usize,
    k: int,
    skip: usize,
)
    requires
        forall|j: int|
            0 <= j < blocks.len() && blocks[j] != skip ==> a[#[trigger] blocks[j] * block_size + k]
                == b[blocks[j] * block_size + k],
    ensures
        xor_at_except(a, blocks, block_size, k, skip) == xor_at_except(
            b,
            blocks,
            block_size,
            k,
            skip,
        ),
    decreases blocks.len(),
{
    if blocks.len() > 0 {
        let rest = blocks.drop_last();
        assert forall|j: int| 0 <= j < rest.len() && rest[j] != skip implies a[#[trigger] rest[j]
            * block_size + k] == b[rest[j] * block_size + k] by {
            assert(blocks[j] == rest[j]);
        }
        lemma_xor_except_agree(a, b, rest, block_size, k, skip);
        assert(blocks[blocks.len() - 1] == blocks.last());
    }
}

/// The XOR over blocks depends on the bytes of those blocks alone.
pub proof fn lemma_xor_agree(a: Seq<u8>, b: Seq<u8>, blocks: Seq<usize>, block_size: usize, k: int)
    requires
        forall|j: int|
            0 <= j < blocks.len() ==> a[#[trigger] blocks[j] * block_size + k] == b[blocks[j]
                * block_size + k],
    ensures
        xor_at(a, blocks, block_size, k) == xor_at(b, blocks, block_size, k),
    decreases blocks.len(),
{
    if blocks.len() > 0 {
        let rest = blocks.drop_last();
        assert forall|j: int| 0 <= j < rest.len() implies a[#[trigger] rest[j] * block_size + k]
            == b[rest[j] * block_size + k] by {
            assert(blocks[j] == rest[j]);
        }
        lemma_xor_agree(a, b, rest, block_size, k);
        assert(blocks[blocks.len() - 1] == blocks.last());
    }
}

} // verus!
