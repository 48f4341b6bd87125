//! Counting the blocks that are not decoded yet.
use crate::types::BlockIndex;
use vstd::prelude::*;

verus! {

/// How many of a check block's neighbours are not decoded yet.
#[derive(Clone, Copy, Debug, PartialEq, Eq, Structural)]
pub enum UndecodedDegree {
    /// None.
    Zero,
    /// One: the block given.
    One(BlockIndex),
    /// Two or more: the number given.
    Many(usize),
}

/// The blocks among `adjacent` that are not decoded, in order.
pub open spec fn undecoded_neighbours(adjacent: Seq<BlockIndex>, decoded: Seq<bool>) -> Seq<
    BlockIndex,
>
    decreases adjacent.len(),
{
    if adjacent.len() == 0 {
        Seq::empty()
    } else {
        let rest = undecoded_neighbours(adjacent.drop_last(), decoded);
        if decoded[adjacent.last() as int] {
            rest
        } else {
            rest.push(adjacent.last())
        }
    }
}

/// The undecoded degree of a check block with neighbours `adjacent`.
pub open spec fn degree_of(adjacent: Seq<BlockIndex>, decoded: Seq<bool>) -> UndecodedDegree {
    let undecoded = undecoded_neighbours(adjacent, decoded);
    if undecoded.len() == 0 {
        UndecodedDegree::Zero
    } else if undecoded.len() == 1 {
        UndecodedDegree::One(undecoded[0])
    } else {
        UndecodedDegree::Many(undecoded.len() as usize)
    }
}

/// The number of blocks before block `n` that are not decoded.
pub open spec fn undecoded_below(decoded: Seq<bool>, n: int) -> int
    decreases n,
{
    if n <= 0 {
        0
    } else {
        undecoded_below(decoded, n - 1) + if decoded[n - 1] {
            0int
        } else {
            1int
        }
    }
}

/// As many blocks are undecoded as there are, at most.
pub proof fn lemma_undecoded_below_bounds(decoded: Seq<bool>, n: int)
    requires
        0 <= n,
    ensures
        0 <= undecoded_below(decoded, n) <= n,
    decreases n,
{
    if n > 0 {
        lemma_undecoded_below_bounds(decoded, n - 1);
    }
}

/// Decoding one more block takes one off the count, if the block is among
/// those counted.
pub proof fn lemma_undecoded_below_update(decoded: Seq<bool>, n: int, target: int)
    requires
        0 <= n <= decoded.len(),
        0 <= target < decoded.len(),
        !decoded[target],
    ensures
        undecoded_below(decoded.update(target, true), n) == undecoded_below(decoded, n) - if target
            < n {
            1int
        } else {
            0int
        },
        target < n ==> undecoded_below(decoded, n) >= 1,
    decreases n,
{
    if n > 0 {
        lemma_undecoded_below_update(decoded, n - 1, target);
        lemma_undecoded_below_bounds(decoded, n - 1);
    }
}

/// The undecoded neighbours are the neighbours that are not decoded, each as
/// often as it is a neighbour.
pub proof fn lemma_undecoded_neighbours(adjacent: Seq<BlockIndex>, decoded: Seq<bool>)
    ensures
        undecoded_neighbours(adjacent, decoded).len() <= adjacent.len(),
        forall|x: BlockIndex| #[trigger]
            undecoded_neighbours(adjacent, decoded).contains(x) <==> adjacent.contains(x)
                && !decoded[x as int],
        adjacent.no_duplicates() ==> undecoded_neighbours(adjacent, decoded).no_duplicates(),
    decreases adjacent.len(),
{
    let undecoded = undecoded_neighbours(adjacent, decoded);
    if adjacent.len() > 0 {
        let front = adjacent.drop_last();
        let last = adjacent.last();
        let rest = undecoded_neighbours(front, decoded);
        lemma_undecoded_neighbours(front, decoded);
        assert forall|x: BlockIndex| #[trigger]
            undecoded.contains(x) <==> adjacent.contains(x) && !decoded[x as int] by {
            if undecoded.contains(x) {
                let i = choose|i: int| 0 <= i < undecoded.len() && undecoded[i] == x;
                if i < rest.len() {
                    assert(rest[i] == x);
                    assert(rest.contains(x));
                    let j = choose|j: int| 0 <= j < front.len() && front[j] == x;
                    assert(adjacent[j] == x);
                } else {
                    assert(adjacent[adjacent.len() - 1] == x);
                }
            }
            if adjacent.contains(x) && !decoded[x as int] {
                let j = choose|j: int| 0 <= j < adjacent.len() && adjacent[j] == x;
                if j < front.len() {
                    assert(front[j] == x);
                    assert(rest.contains(x));
                    let i = choose|i: int| 0 <= i < rest.len() && rest[i] == x;
                    assert(undecoded[i] == x);
                } else {
                    assert(undecoded[undecoded.len() - 1] == x);
                }
            }
        }
        if adjacent.no_duplicates() {
            assert(front.no_duplicates());
            if !decoded[last as int] {
                assert(!rest.contains(last)) by {
                    if front.contains(last) {
                        let j = choose|j: int| 0 <= j < front.len() && front[j] == last;
                        assert(adjacent[j] == last && adjacent[adjacent.len() - 1] == last);
                    }
                }
                assert forall|i: int, j: int|
                    0 <= i < undecoded.len() && 0 <= j < undecoded.len() && i
                        != j implies undecoded[i] != undecoded[j] by {
                    if i < rest.len() {
                        assert(rest[i] == undecoded[i]);
                        assert(rest.contains(undecoded[i]));
                    }
                    if j < rest.len() {
                        assert(rest[j] == undecoded[j]);
                        assert(rest.contains(undecoded[j]));
                    }
                }
            }
        }
    }
}

/// The undecoded degree is zero where every neighbour is decoded, and there
/// alone.
pub proof fn lemma_degree_zero(adjacent: Seq<BlockIndex>, decoded: Seq<bool>)
    ensures
        degree_of(adjacent, decoded) == UndecodedDegree::Zero <==> forall|j: int|
            0 <= j < adjacent.len() ==> decoded[#[trigger] adjacent[j] as int],
{
    let undecoded = undecoded_neighbours(adjacent, decoded);
    lemma_undecoded_neighbours(adjacent, decoded);
    if undecoded.len() > 0 {
        assert(undecoded.contains(undecoded[0]));
        let j = choose|j: int| 0 <= j < adjacent.len() && adjacent[j] == undecoded[0];
        assert(!decoded[adjacent[j] as int]);
    } else {
        assert forall|j: int| 0 <= j < adjacent.len() implies decoded[
        #[trigger] adjacent[j] as int] by {
            if !decoded[adjacent[j] as int] {
                assert(adjacent.contains(adjacent[j]));
                assert(undecoded.contains(adjacent[j]));
            }
        }
    }
}

/// Tells whether none, one or several of `adjacent_block_ids` are not
/// decoded yet, and which or how many.
pub fn undecoded_degree(adjacent_block_ids: &[BlockIndex], blocks_decoded: &[bool]) -> (degree:
    UndecodedDegree)
    requires
        forall|j: int|
            0 <= j < adjacent_block_ids@.len() ==> #[trigger] adjacent_block_ids@[j]
                < blocks_decoded@.len(),
    ensures
        degree == degree_of(adjacent_block_ids@, blocks_decoded@),
        degree matches UndecodedDegree::Many(n) ==> 2 <= n <= adjacent_block_ids@.len(),
{
    let mut degree = UndecodedDegree::Zero;
    let mut j: usize = 0;
    while j < adjacent_block_ids.len()
        invariant
            j <= adjacent_block_ids@.len(),
            forall|j: int|
                0 <= j < adjacent_block_ids@.len() ==> #[trigger] adjacent_block_ids@[j]
                    < blocks_decoded@.len(),
            degree == degree_of(adjacent_block_ids@.take(j as int), blocks_decoded@),
        decreases adjacent_block_ids@.len() - j,
    {
        let block_index = adjacent_block_ids[j];
        proof {
            assert(adjacent_block_ids@.take(j + 1).drop_last() == adjacent_block_ids@.take(
                j as int,
            ));
            assert(adjacent_block_ids@.take(j + 1).last() == block_index);
            lemma_undecoded_neighbours(adjacent_block_ids@.take(j as int), blocks_decoded@);
        }
        if !blocks_decoded[block_index] {
            degree =
            match degree {
                UndecodedDegree::Zero => UndecodedDegree::One(block_index),
                UndecodedDegree::One(_) => UndecodedDegree::Many(2),
                UndecodedDegree::Many(n) => UndecodedDegree::Many(n + 1),
            };
        }
        j += 1;
    }
    proof {
        assert(adjacent_block_ids@.take(j as int) == adjacent_block_ids@);
        lemma_undecoded_neighbours(adjacent_block_ids@, blocks_decoded@);
    }
    degree
}

/// The one block of `adjacent_blocks` that is not decoded yet, if there is
/// exactly one.
pub fn block_to_decode(adjacent_blocks: &[BlockIndex], block_decoded: &[bool]) -> (to_decode:
    Option<BlockIndex>)
    requires
        forall|j: int|
            0 <= j < adjacent_blocks@.len() ==> #[trigger] adjacent_blocks@[j]
                < block_decoded@.len(),
    ensures
        to_decode == match degree_of(adjacent_blocks@, block_decoded@) {
            UndecodedDegree::One(target) => Some(target),
            _ => None,
        },
{
    match undecoded_degree(adjacent_blocks, block_decoded) {
        UndecodedDegree::One(target) => Some(target),
        _ => None,
    }
}

/// While no block is decoded, all of them are undecoded.
pub proof fn lemma_undecoded_below_fresh(decoded: Seq<bool>, n: int)
    requires
        0 <= n <= decoded.len(),
        forall|b: int| 0 <= b < decoded.len() ==> !#[trigger] decoded[b],
    ensures
        undecoded_below(decoded, n) == n,
    decreases n,
{
    if n > 0 {
        lemma_undecoded_below_fresh(decoded, n - 1);
    }
}

/// Where no source block is counted as missing, every source block is
/// decoded.
pub proof fn lemma_all_decoded(decoded: Seq<bool>, n: int, b: int)
    requires
        0 <= b < n,
        undecoded_below(decoded, n) == 0,
    ensures
        decoded[b],
    decreases n,
{
    lemma_undecoded_below_bounds(decoded, n - 1);
    if b < n - 1 {
        lemma_all_decoded(decoded, n - 1, b);
    }
}

} // verus!
