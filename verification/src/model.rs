//! Peeling as a function: what a decoder holds after a step, given what it
//! held before.
//!
//! The executable decoder is proved to compute these functions, so a call
//! has one outcome, fixed by the state before it and the check block fed.
use crate::undecoded::{degree_of, undecoded_below, UndecodedDegree};
use crate::types::{BlockIndex, CheckBlockId, StreamId};
use crate::util::adjacent_blocks;
use crate::xor::xor_at_except;
use vstd::prelude::*;

verus! {

/// The parameters that sender and receiver share.
pub struct Code {
    pub stream_id: StreamId,
    pub weights: Seq<u64>,
    pub num_blocks: usize,
    pub num_augmented_blocks: usize,
    pub block_size: usize,
    pub q: usize,
    pub pad: usize,
}

/// What a decoder holds.
pub struct Peeling {
    /// For each augmented block, whether it is decoded.
    pub decoded: Seq<bool>,
    /// The augmented blocks: zero in the place of those not decoded.
    pub data: Seq<u8>,
    /// The number of source blocks not decoded.
    pub missing: int,
    /// The check blocks kept for later, by identifier: the count of their
    /// undecoded neighbours, and their bytes.
    pub waiting: Map<CheckBlockId, (usize, Seq<u8>)>,
    /// Under each block, the check blocks kept that wait for it.
    pub listed: Map<BlockIndex, Seq<CheckBlockId>>,
    /// The auxiliary blocks not used up: their count, and their sources.
    pub aux: Map<BlockIndex, (usize, Seq<BlockIndex>)>,
    /// Check blocks to take in, the next one last.
    pub stack: Seq<(CheckBlockId, Seq<u8>)>,
    /// Auxiliary blocks to take in, the next one last.
    pub aux_stack: Seq<(BlockIndex, Seq<BlockIndex>)>,
}

impl Code {
    /// The neighbours of check block `check_block_id`.
    pub open spec fn neighbours(self, check_block_id: CheckBlockId) -> Seq<BlockIndex> {
        adjacent_blocks(check_block_id, self.stream_id, self.weights, self.num_augmented_blocks)
    }
}

/// `data` after `carrier` and every block of `adjacent` but `target` were
/// XORed into block `target`.
pub open spec fn xor_into(
    data: Seq<u8>,
    target: BlockIndex,
    carrier: Seq<u8>,
    adjacent: Seq<BlockIndex>,
    block_size: usize,
) -> Seq<u8> {
    Seq::new(
        data.len(),
        |i: int|
            if target * block_size <= i < (target + 1) * block_size {
                (data[i] ^ carrier[i - target * block_size]) ^ xor_at_except(
                    data,
                    adjacent,
                    block_size,
                    i - target * block_size,
                    target,
                )
            } else {
                data[i]
            },
    )
}

/// The bytes of block `block` of `data`.
pub open spec fn block_of(data: Seq<u8>, block: BlockIndex, block_size: usize) -> Seq<u8> {
    data.subrange(block * block_size, (block + 1) * block_size)
}

/// The lists after check block `check_block_id` was entered under each of
/// `adjacent`.
pub open spec fn listing(
    listed: Map<BlockIndex, Seq<CheckBlockId>>,
    adjacent: Seq<BlockIndex>,
    check_block_id: CheckBlockId,
) -> Map<BlockIndex, Seq<CheckBlockId>> {
    Map::new(
        |b: BlockIndex| listed.contains_key(b) || adjacent.contains(b),
        |b: BlockIndex|
            if adjacent.contains(b) {
                (if listed.contains_key(b) {
                    listed[b]
                } else {
                    Seq::empty()
                }).push(check_block_id)
            } else {
                listed[b]
            },
    )
}

impl Peeling {
    /// A check block with `degree` undecoded neighbours is kept for later.
    pub open spec fn keep(
        self,
        check_block_id: CheckBlockId,
        degree: usize,
        check_block: Seq<u8>,
        adjacent: Seq<BlockIndex>,
    ) -> Peeling {
        Peeling {
            waiting: self.waiting.insert(check_block_id, (degree, check_block)),
            listed: listing(self.listed, adjacent, check_block_id),
            ..self
        }
    }

    /// Block `target` is recovered from a check block with neighbours
    /// `adjacent`, and marked decoded. A source block comes off the count
    /// of those missing. An auxiliary block has one taken off its count,
    /// and goes on the auxiliary stack if that leaves one.
    pub open spec fn recover(
        self,
        code: Code,
        target: BlockIndex,
        check_block: Seq<u8>,
        adjacent: Seq<BlockIndex>,
    ) -> Peeling {
        let marked = Peeling {
            data: xor_into(self.data, target, check_block, adjacent, code.block_size),
            decoded: self.decoded.update(target as int, true),
            ..self
        };
        if target < code.num_blocks {
            Peeling { missing: self.missing - 1, ..marked }
        } else if !self.aux.contains_key(target) {
            marked
        } else if self.aux[target].0 - 1 == 1 {
            Peeling {
                aux: self.aux.remove(target),
                aux_stack: self.aux_stack.push((target, self.aux[target].1)),
                ..marked
            }
        } else {
            Peeling {
                aux: self.aux.insert(
                    target,
                    ((self.aux[target].0 - 1) as usize, self.aux[target].1),
                ),
                ..marked
            }
        }
    }

    /// Check block `check_block_id` is told that one of its neighbours is
    /// decoded: if it still waits, one is taken off its count, and it goes
    /// on the stack if that leaves one.
    pub open spec fn release_one(self, check_block_id: CheckBlockId) -> Peeling {
        if !self.waiting.contains_key(check_block_id) {
            self
        } else if self.waiting[check_block_id].0 - 1 == 1 {
            Peeling {
                waiting: self.waiting.remove(check_block_id),
                stack: self.stack.push((check_block_id, self.waiting[check_block_id].1)),
                ..self
            }
        } else {
            Peeling {
                waiting: self.waiting.insert(
                    check_block_id,
                    (
                        (self.waiting[check_block_id].0 - 1) as usize,
                        self.waiting[check_block_id].1,
                    ),
                ),
                ..self
            }
        }
    }

    /// The check blocks `ids`, from the one at `from` on, are told in turn.
    pub open spec fn release_all(self, ids: Seq<CheckBlockId>, from: int) -> Peeling
        decreases ids.len() - from,
    {
        if from < 0 || from >= ids.len() {
            self
        } else {
            self.release_one(ids[from]).release_all(ids, from + 1)
        }
    }

    /// The check blocks listed under `target` are told that it is decoded,
    /// and the list is dropped.
    pub open spec fn release(self, target: BlockIndex) -> Peeling {
        if self.listed.contains_key(target) {
            (Peeling { listed: self.listed.remove(target), ..self }).release_all(
                self.listed[target],
                0,
            )
        } else {
            self
        }
    }

    /// One check block is taken in: dropped where all its neighbours are
    /// decoded, used to recover the one that is not, or kept where several
    /// are not.
    pub open spec fn absorb(
        self,
        code: Code,
        check_block_id: CheckBlockId,
        check_block: Seq<u8>,
    ) -> Peeling {
        let adjacent = code.neighbours(check_block_id);
        match degree_of(adjacent, self.decoded) {
            UndecodedDegree::Zero => self,
            UndecodedDegree::One(target) => self.recover(
                code,
                target,
                check_block,
                adjacent,
            ).release(target),
            UndecodedDegree::Many(degree) => self.keep(
                check_block_id,
                degree,
                check_block,
                adjacent,
            ),
        }
    }

    /// The number of augmented blocks not decoded.
    pub open spec fn undecoded(self) -> int {
        undecoded_below(self.decoded, self.decoded.len() as int)
    }

    /// `self` is nearer to the end of peeling than `earlier`: fewer blocks
    /// are undecoded, or as many with a shorter stack.
    pub open spec fn nearer_than(self, earlier: Peeling) -> bool {
        0 <= self.undecoded() < earlier.undecoded() || (0 <= self.undecoded()
            == earlier.undecoded() && self.stack.len() < earlier.stack.len())
    }

    /// `self` without the top of its stack.
    pub open spec fn popped(self) -> Peeling {
        Peeling { stack: self.stack.drop_last(), ..self }
    }

    /// The check blocks on the stack are taken in, the last first, and those
    /// that they release in turn, until the stack is empty. Each step brings
    /// the end nearer.
    pub open spec fn peel(self, code: Code) -> Peeling
        decreases self.undecoded(), self.stack.len(),
    {
        if self.stack.len() == 0 {
            self
        } else {
            let next = self.popped().absorb(code, self.stack.last().0, self.stack.last().1);
            if next.nearer_than(self) {
                next.peel(code)
            } else {
                next
            }
        }
    }

    /// Auxiliary block `aux_block` with sources `sources` recovers the one
    /// source that is not decoded, if there is exactly one.
    pub open spec fn recover_source(
        self,
        code: Code,
        aux_block: BlockIndex,
        sources: Seq<BlockIndex>,
    ) -> Peeling {
        match degree_of(sources, self.decoded) {
            UndecodedDegree::One(target) => Peeling {
                data: xor_into(
                    self.data,
                    target,
                    block_of(self.data, aux_block, code.block_size),
                    sources,
                    code.block_size,
                ),
                decoded: self.decoded.update(target as int, true),
                missing: self.missing - 1,
                ..self
            },
            _ => self,
        }
    }

    /// The auxiliary blocks on the auxiliary stack are taken in, the last
    /// first.
    pub open spec fn peel_aux(self, code: Code) -> Peeling
        decreases self.aux_stack.len(),
    {
        if self.aux_stack.len() == 0 {
            self
        } else {
            (Peeling { aux_stack: self.aux_stack.drop_last(), ..self }).recover_source(
                code,
                self.aux_stack.last().0,
                self.aux_stack.last().1,
            ).peel_aux(code)
        }
    }

    /// The message as far as it is decoded: the source blocks without the
    /// padding.
    pub open spec fn message(self, code: Code) -> Seq<u8> {
        self.data.take(code.num_blocks * code.block_size - code.pad)
    }

    /// One check block is taken in, with all that follows from it. Nothing
    /// happens where no source block was missing.
    pub open spec fn decode(
        self,
        code: Code,
        check_block_id: CheckBlockId,
        check_block: Seq<u8>,
    ) -> Peeling {
        if self.missing == 0 {
            self
        } else {
            self.absorb(code, check_block_id, check_block).peel(code).peel_aux(code)
        }
    }

    /// The check blocks `blocks` are taken in, from the one at `from` on,
    /// up to the one that leaves no source block missing, or to one that has
    /// not the size of a block.
    pub open spec fn feed(
        self,
        code: Code,
        blocks: Seq<(CheckBlockId, Seq<u8>)>,
        from: int,
    ) -> Peeling
        decreases blocks.len() - from,
    {
        if from < 0 || from >= blocks.len() || blocks[from].1.len() != code.block_size {
            self
        } else {
            let next = self.decode(code, blocks[from].0, blocks[from].1);
            if next.missing == 0 {
                next
            } else {
                next.feed(code, blocks, from + 1)
            }
        }
    }

    /// Feeding `blocks` from the one at `from` on comes to a check block
    /// that has not the size of a block.
    pub open spec fn rejects(
        self,
        code: Code,
        blocks: Seq<(CheckBlockId, Seq<u8>)>,
        from: int,
    ) -> bool
        decreases blocks.len() - from,
    {
        if from < 0 || from >= blocks.len() {
            false
        } else if blocks[from].1.len() != code.block_size {
            true
        } else {
            let next = self.decode(code, blocks[from].0, blocks[from].1);
            next.missing != 0 && next.rejects(code, blocks, from + 1)
        }
    }
}

} // verus!
