//! The recovery of one block from the blocks it was XORed with.
use crate::types::BlockIndex;
use crate::undecoded::{
    block_to_decode, degree_of, lemma_undecoded_neighbours, undecoded_neighbours, UndecodedDegree,
};
use crate::util::{xor_adjacent_blocks, xor_block};
use crate::xor::{
    block_byte, blocks_within, lemma_block_order, lemma_block_range, lemma_xor_except_agree,
    lemma_xor_split, xor_at, xor_at_except,
};
use vstd::prelude::*;

verus! {

/// Recovers block `target_block_index` from a check block of which it is
/// the only neighbour not decoded yet: XORs the check block and then every
/// other neighbour into the block's place.
pub fn decode_from_check_block(
    target_block_index: BlockIndex,
    check_block: &[u8],
    adjacent_blocks: &[BlockIndex],
    augmented_data: &mut [u8],
    block_size: usize,
)
    requires
        block_size <= check_block@.len(),
        (target_block_index + 1) * block_size <= old(augmented_data)@.len(),
        blocks_within(adjacent_blocks@, block_size, old(augmented_data)@.len() as int),
    ensures
        final(augmented_data)@.len() == old(augmented_data)@.len(),
        forall|i: int|
            0 <= i < old(augmented_data)@.len() && !(target_block_index * block_size <= i < (
            target_block_index + 1) * block_size) ==> #[trigger] final(augmented_data)@[i] == old(
                augmented_data,
            )@[i],
        forall|i: int|
            target_block_index * block_size <= i < (target_block_index + 1) * block_size
                ==> #[trigger] final(augmented_data)@[i] == (old(augmented_data)@[i]
                ^ check_block@[i - target_block_index * block_size]) ^ xor_at_except(
                old(augmented_data)@,
                adjacent_blocks@,
                block_size,
                i - target_block_index * block_size,
                target_block_index,
            ),
{
    let len = augmented_data.len();
    proof {
        lemma_block_range(target_block_index as int, block_size as int);
    }
    let start = target_block_index * block_size;
    let (_, tail) = augmented_data.split_at_mut(start);
    xor_block(tail, check_block, block_size);
    assert forall|i: int| 0 <= i < augmented_data@.len() implies #[trigger] augmented_data@[i]
        == if start <= i < start + block_size {
        old(augmented_data)@[i] ^ check_block@[i - start]
    } else {
        old(augmented_data)@[i]
    } by {
        if i >= start {
            assert(augmented_data@[i] == tail@[i - start]);
        }
    }
    let ghost middle = augmented_data@;
    xor_adjacent_blocks(target_block_index, adjacent_blocks, augmented_data, block_size);
    proof {
        assert forall|k: int| 0 <= k < block_size implies #[trigger] xor_at_except(
            middle,
            adjacent_blocks@,
            block_size,
            k,
            target_block_index,
        ) == xor_at_except(
            old(augmented_data)@,
            adjacent_blocks@,
            block_size,
            k,
            target_block_index,
        ) by {
            lemma_other_blocks_agree(
                middle,
                old(augmented_data)@,
                adjacent_blocks@,
                block_size,
                k,
                target_block_index,
            );
        }
    }
}

/// Two byte arrays that differ in one block alone give the same XOR over
/// all blocks but that one.
pub proof fn lemma_other_blocks_agree(
    a: Seq<u8>,
    b: Seq<u8>,
    blocks: Seq<BlockIndex>,
    block_size: usize,
    k: int,
    skip: BlockIndex,
)
    requires
        0 <= k < block_size,
        a.len() == b.len(),
        blocks_within(blocks, block_size, a.len() as int),
        forall|i: int|
            0 <= i < a.len() && !(skip * block_size <= i < (skip + 1) * block_size) ==> a[i]
                == b[i],
    ensures
        xor_at_except(a, blocks, block_size, k, skip) == xor_at_except(
            b,
            blocks,
            block_size,
            k,
            skip,
        ),
{
    assert forall|j: int| 0 <= j < blocks.len() && blocks[j] != skip implies a[#[trigger] blocks[j]
        * block_size + k] == b[blocks[j] * block_size + k] by {
        let x = blocks[j] as int;
        lemma_block_range(x, block_size as int);
        lemma_block_range(skip as int, block_size as int);
        if x < skip {
            lemma_block_order(x, skip as int, block_size as int);
        } else {
            lemma_block_order(skip as int, x, block_size as int);
        }
        assert((blocks[j] + 1) * block_size <= a.len());
    }
    lemma_xor_except_agree(a, b, blocks, block_size, k, skip);
}

/// Recovers a source block from auxiliary block `index`, whose sources are
/// `adjacent_blocks`, if exactly one of them is not decoded yet: XORs the
/// auxiliary block and then every other source into that block's place, and
/// gives the block's index.
pub fn decode_aux_block(
    index: BlockIndex,
    adjacent_blocks: &[BlockIndex],
    augmented_data: &mut [u8],
    block_size: usize,
    blocks_decoded: &[bool],
) -> (decoded: Option<BlockIndex>)
    requires
        (index + 1) * block_size <= old(augmented_data)@.len(),
        blocks_within(adjacent_blocks@, block_size, old(augmented_data)@.len() as int),
        forall|j: int|
            0 <= j < adjacent_blocks@.len() ==> #[trigger] adjacent_blocks@[j]
                < blocks_decoded@.len(),
        forall|j: int| 0 <= j < adjacent_blocks@.len() ==> #[trigger] adjacent_blocks@[j] != index,
    ensures
        decoded == match degree_of(adjacent_blocks@, blocks_decoded@) {
            UndecodedDegree::One(target) => Some(target),
            _ => None,
        },
        final(augmented_data)@.len() == old(augmented_data)@.len(),
        decoded.is_none() ==> final(augmented_data)@ == old(augmented_data)@,
        decoded.is_some() ==> ({
            let target = decoded.unwrap();
            &&& forall|i: int|
                0 <= i < old(augmented_data)@.len() && !(target * block_size <= i < (target + 1)
                    * block_size) ==> #[trigger] final(augmented_data)@[i] == old(
                    augmented_data,
                )@[i]
            &&& forall|i: int|
                target * block_size <= i < (target + 1) * block_size
                    ==> #[trigger] final(augmented_data)@[i] == (old(augmented_data)@[i] ^ old(
                    augmented_data,
                )@[index * block_size + (i - target * block_size)]) ^ xor_at_except(
                    old(augmented_data)@,
                    adjacent_blocks@,
                    block_size,
                    i - target * block_size,
                    target,
                )
        }),
{
    match block_to_decode(adjacent_blocks, blocks_decoded) {
        Some(target_block_index) => {
            let len = augmented_data.len();
            proof {
                lemma_undecoded_neighbours(adjacent_blocks@, blocks_decoded@);
                let undecoded = undecoded_neighbours(adjacent_blocks@, blocks_decoded@);
                assert(undecoded[0] == target_block_index);
                assert(undecoded.contains(target_block_index));
                let j = choose|j: int|
                    0 <= j < adjacent_blocks@.len() && adjacent_blocks@[j] == target_block_index;
                assert((adjacent_blocks@[j] + 1) * block_size <= len);
                lemma_block_range(target_block_index as int, block_size as int);
                lemma_block_range(index as int, block_size as int);
                if index < target_block_index {
                    lemma_block_order(index as int, target_block_index as int, block_size as int);
                } else {
                    lemma_block_order(target_block_index as int, index as int, block_size as int);
                }
            }
            let start = target_block_index * block_size;
            let from = index * block_size;
            let mut k: usize = 0;
            while k < block_size
                invariant
                    k <= block_size,
                    start == target_block_index * block_size,
                    from == index * block_size,
                    start + block_size <= augmented_data@.len(),
                    from + block_size <= augmented_data@.len(),
                    from + block_size <= start || start + block_size <= from,
                    augmented_data@.len() == len,
                    augmented_data@.len() == old(augmented_data)@.len(),
                    forall|i: int|
                        0 <= i < augmented_data@.len() && !(start <= i < start + k)
                            ==> #[trigger] augmented_data@[i] == old(augmented_data)@[i],
                    forall|i: int|
                        start <= i < start + k ==> #[trigger] augmented_data@[i] == old(
                            augmented_data,
                        )@[i] ^ old(augmented_data)@[from + (i - start)],
                decreases block_size - k,
            {
                let byte = augmented_data[from + k];
                augmented_data[start + k] ^= byte;
                k += 1;
            }
            let ghost middle = augmented_data@;
            xor_adjacent_blocks(target_block_index, adjacent_blocks, augmented_data, block_size);
            proof {
                assert forall|k: int| 0 <= k < block_size implies #[trigger] xor_at_except(
                    middle,
                    adjacent_blocks@,
                    block_size,
                    k,
                    target_block_index,
                ) == xor_at_except(
                    old(augmented_data)@,
                    adjacent_blocks@,
                    block_size,
                    k,
                    target_block_index,
                ) by {
                    lemma_other_blocks_agree(
                        middle,
                        old(augmented_data)@,
                        adjacent_blocks@,
                        block_size,
                        k,
                        target_block_index,
                    );
                }
            }
            Some(target_block_index)
        },
        None => None,
    }
}

/// One byte of a block recovered by peeling is the true byte: `data` holds
/// zero in the place of `target` and the true bytes of every other block of
/// `adjacent`, and `carrier` is the XOR of the true bytes of all of them.
pub proof fn lemma_peel(
    truth: Seq<u8>,
    data: Seq<u8>,
    adjacent: Seq<BlockIndex>,
    carrier: u8,
    block_size: usize,
    target: BlockIndex,
    k: int,
)
    requires
        adjacent.no_duplicates(),
        adjacent.contains(target),
        forall|j: int|
            0 <= j < adjacent.len() && adjacent[j] != target ==> block_byte(
                data,
                #[trigger] adjacent[j] as int,
                block_size,
                k,
            ) == block_byte(truth, adjacent[j] as int, block_size, k),
        carrier == xor_at(truth, adjacent, block_size, k),
        block_byte(data, target as int, block_size, k) == 0,
    ensures
        (block_byte(data, target as int, block_size, k) ^ carrier) ^ xor_at_except(
            data,
            adjacent,
            block_size,
            k,
            target,
        ) == block_byte(truth, target as int, block_size, k),
{
    assert forall|j: int| 0 <= j < adjacent.len() && adjacent[j] != target implies data[
        #[trigger] adjacent[j] * block_size + k] == truth[adjacent[j] * block_size + k] by {
        assert(block_byte(data, adjacent[j] as int, block_size, k) == block_byte(
            truth,
            adjacent[j] as int,
            block_size,
            k,
        ));
    }
    lemma_xor_except_agree(data, truth, adjacent, block_size, k, target);
    lemma_xor_split(truth, adjacent, block_size, k, target);
    let x = xor_at_except(truth, adjacent, block_size, k, target);
    let t = truth[target * block_size + k];
    assert((0u8 ^ (x ^ t)) ^ x == t) by (bit_vector);
}

} // verus!
