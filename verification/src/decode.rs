//! The receiver: peeling of the check blocks as they arrive.
use crate::coder::{aux_blocks, aux_blocks_fit, num_aux_blocks, usual_epsilon, Epsilon};
use crate::encode::{
    check_config, config_error, is_augmented, lemma_config_sizes, lemma_sources_within,
};
use crate::model::{block_of, listing, xor_into, Code, Peeling};
use crate::recover::{decode_aux_block, decode_from_check_block, lemma_peel};
use crate::rng::DegreeDistribution;
use crate::types::{BlockIndex, CheckBlockId, CodeError, StreamId};
use crate::undecoded::{
    degree_of, lemma_all_decoded, lemma_degree_zero, lemma_undecoded_below_bounds,
    lemma_undecoded_below_fresh, lemma_undecoded_below_update, lemma_undecoded_neighbours,
    undecoded_below, undecoded_degree, undecoded_neighbours, UndecodedDegree,
};
use crate::util::{
    adjacent_blocks, aux_sources, get_adjacent_blocks, get_aux_block_adjacencies,
    is_aux_adjacency, lemma_aux_sources_ascend,
};
use crate::xor::{
    block_byte, is_xor_of, lemma_block_apart, lemma_block_le, lemma_block_place,
    lemma_block_range, xor_at, xor_at_except,
};
use std::collections::HashMap;
use vstd::prelude::*;
use vstd::slice::{slice_subrange, slice_to_vec};

verus! {

/// The check blocks kept, by their bytes.
pub open spec fn waiting_of(kept: Map<CheckBlockId, (usize, Vec<u8>)>) -> Map<
    CheckBlockId,
    (usize, Seq<u8>),
> {
    Map::new(|c: CheckBlockId| kept.contains_key(c), |c: CheckBlockId| (kept[c].0, kept[c].1@))
}

/// The lists of check blocks, by their entries.
pub open spec fn listed_of(lists: Map<BlockIndex, Vec<CheckBlockId>>) -> Map<
    BlockIndex,
    Seq<CheckBlockId>,
> {
    Map::new(|b: BlockIndex| lists.contains_key(b), |b: BlockIndex| lists[b]@)
}

/// The auxiliary blocks, by their sources.
pub open spec fn aux_of(entries: Map<BlockIndex, (usize, Vec<BlockIndex>)>) -> Map<
    BlockIndex,
    (usize, Seq<BlockIndex>),
> {
    Map::new(
        |a: BlockIndex| entries.contains_key(a),
        |a: BlockIndex| (entries[a].0, entries[a].1@),
    )
}

/// The stack of check blocks, by their bytes.
pub open spec fn stack_of(stack: Seq<(CheckBlockId, Vec<u8>)>) -> Seq<(CheckBlockId, Seq<u8>)> {
    Seq::new(stack.len(), |i: int| (stack[i].0, stack[i].1@))
}

/// The stack of auxiliary blocks, by their sources.
pub open spec fn aux_stack_of(stack: Seq<(BlockIndex, Vec<BlockIndex>)>) -> Seq<
    (BlockIndex, Seq<BlockIndex>),
> {
    Seq::new(stack.len(), |i: int| (stack[i].0, stack[i].1@))
}

/// What a decoder holds before it has taken in anything: no block decoded,
/// nothing kept, and every auxiliary block that has sources waiting with
/// their number and their list.
pub open spec fn fresh_peeling(
    stream_id: StreamId,
    num_blocks: usize,
    num_aux_blocks: usize,
    q: usize,
    block_size: usize,
) -> Peeling {
    Peeling {
        decoded: Seq::new((num_blocks + num_aux_blocks) as nat, |b: int| false),
        data: Seq::new(((num_blocks + num_aux_blocks) * block_size) as nat, |i: int| 0u8),
        missing: num_blocks as int,
        waiting: Map::empty(),
        listed: Map::empty(),
        aux: Map::new(
            |a: BlockIndex|
                num_blocks <= a < num_blocks + num_aux_blocks && aux_sources(
                    stream_id,
                    num_blocks as nat,
                    num_aux_blocks,
                    q,
                    a - num_blocks,
                ).len() > 0,
            |a: BlockIndex|
                (
                    aux_sources(
                        stream_id,
                        num_blocks as nat,
                        num_aux_blocks,
                        q,
                        a - num_blocks,
                    ).len() as usize,
                    aux_sources(stream_id, num_blocks as nat, num_aux_blocks, q, a - num_blocks),
                ),
        ),
        stack: Seq::empty(),
        aux_stack: Seq::empty(),
    }
}

/// The outcome of feeding a decoder a run of check blocks.
#[derive(Debug)]
pub enum DecodeResult {
    /// The message, once every source block is decoded.
    Complete(Vec<u8>),
    /// The decoder, ready for more check blocks.
    InProgress(Box<Decoder>),
}

impl DecodeResult {
    /// The message, if decoding was completed.
    pub fn complete(self) -> (message: Option<Vec<u8>>)
        ensures
            message == match self {
                DecodeResult::Complete(v) => Some(v),
                DecodeResult::InProgress(_) => None,
            },
    {
        match self {
            DecodeResult::Complete(v) => Some(v),
            DecodeResult::InProgress(_) => None,
        }
    }
}

/// The state of a receiver.
///
/// `augmented_data` holds the blocks decoded so far, and zeros in the place
/// of the others. A check block with two or more undecoded neighbours waits
/// in `unused_check_blocks` under its identifier, with the number of those
/// neighbours when it was last looked at, and is listed in
/// `adjacent_check_blocks` under each of its neighbours. The auxiliary
/// blocks wait in `unused_aux_block_adjacencies` with their sources. The two
/// stacks hold work in the middle of a call and are empty between calls.
#[derive(Clone, Debug)]
pub struct Decoder {
    pub num_blocks: usize,
    pub num_augmented_blocks: usize,
    pub block_size: usize,
    pub q: usize,
    pub degree_distribution: DegreeDistribution,
    pub stream_id: StreamId,
    pub unused_aux_block_adjacencies: HashMap<BlockIndex, (usize, Vec<BlockIndex>)>,
    pub augmented_data: Vec<u8>,
    pub blocks_decoded: Vec<bool>,
    pub num_undecoded_data_blocks: usize,
    pub unused_check_blocks: HashMap<CheckBlockId, (usize, Vec<u8>)>,
    pub adjacent_check_blocks: HashMap<BlockIndex, Vec<CheckBlockId>>,
    pub decode_stack: Vec<(CheckBlockId, Vec<u8>)>,
    pub aux_decode_stack: Vec<(BlockIndex, Vec<BlockIndex>)>,
    pub pad: usize,
}

impl Decoder {
    /// The number of auxiliary blocks.
    pub open spec fn num_aux_blocks(&self) -> int {
        self.num_augmented_blocks - self.num_blocks
    }

    /// The neighbours of check block `check_block_id` in this stream.
    pub open spec fn neighbours(&self, check_block_id: CheckBlockId) -> Seq<BlockIndex> {
        adjacent_blocks(
            check_block_id,
            self.stream_id,
            self.degree_distribution@,
            self.num_augmented_blocks,
        )
    }

    /// The sources of auxiliary block `a` in this stream.
    pub open spec fn sources(&self, a: BlockIndex) -> Seq<BlockIndex> {
        aux_sources(
            self.stream_id,
            self.num_blocks as nat,
            (self.num_augmented_blocks - self.num_blocks) as usize,
            self.q,
            a - self.num_blocks,
        )
    }

    /// The parameters of the stream.
    pub open spec fn code(&self) -> Code {
        Code {
            stream_id: self.stream_id,
            weights: self.degree_distribution@,
            num_blocks: self.num_blocks,
            num_augmented_blocks: self.num_augmented_blocks,
            block_size: self.block_size,
            q: self.q,
            pad: self.pad,
        }
    }

    /// What the decoder holds.
    pub open spec fn peeling(&self) -> Peeling {
        Peeling {
            decoded: self.blocks_decoded@,
            data: self.augmented_data@,
            missing: self.num_undecoded_data_blocks as int,
            waiting: waiting_of(self.unused_check_blocks@),
            listed: listed_of(self.adjacent_check_blocks@),
            aux: aux_of(self.unused_aux_block_adjacencies@),
            stack: stack_of(self.decode_stack@),
            aux_stack: aux_stack_of(self.aux_decode_stack@),
        }
    }

    /// The number of augmented blocks that are not decoded.
    pub open spec fn undecoded_blocks(&self) -> int {
        undecoded_below(self.blocks_decoded@, self.num_augmented_blocks as int)
    }

    /// The message as far as it is decoded: the source blocks without the
    /// padding.
    pub open spec fn message(&self) -> Seq<u8> {
        self.augmented_data@.take(self.num_blocks * self.block_size - self.pad)
    }

    /// What holds of a decoder at any time, also while its stacks hold work.
    pub open spec fn consistent(&self) -> bool {
        &&& self.num_blocks <= self.num_augmented_blocks
        &&& !config_error(self.num_blocks as int, self.num_aux_blocks(), self.block_size as int)
        &&& self.pad <= self.num_blocks * self.block_size
        &&& self.augmented_data@.len() == self.num_augmented_blocks * self.block_size
        &&& self.blocks_decoded@.len() == self.num_augmented_blocks
        &&& self.num_undecoded_data_blocks == undecoded_below(
            self.blocks_decoded@,
            self.num_blocks as int,
        )
        &&& forall|b: int, k: int|
            0 <= b < self.num_augmented_blocks && 0 <= k < self.block_size
                && !self.blocks_decoded@[b] ==> #[trigger] block_byte(
                self.augmented_data@,
                b,
                self.block_size,
                k,
            ) == 0
        &&& forall|c: CheckBlockId| #[trigger]
            self.unused_check_blocks@.contains_key(c) ==> self.unused_check_blocks@[c].0 >= 2
                && self.unused_check_blocks@[c].1@.len() == self.block_size
        &&& forall|a: BlockIndex| #[trigger]
            self.unused_aux_block_adjacencies@.contains_key(a) ==> {
                &&& self.num_blocks <= a < self.num_augmented_blocks
                &&& self.unused_aux_block_adjacencies@[a].1@ == self.sources(a)
                &&& !self.blocks_decoded@[a as int] ==> self.unused_aux_block_adjacencies@[a].0
                    >= 1
            }
        &&& forall|i: int|
            0 <= i < self.decode_stack@.len() ==> (#[trigger] self.decode_stack@[i]).1@.len()
                == self.block_size
        &&& forall|i: int|
            0 <= i < self.aux_decode_stack@.len() ==> {
                let entry = #[trigger] self.aux_decode_stack@[i];
                &&& self.num_blocks <= entry.0 < self.num_augmented_blocks
                &&& self.blocks_decoded@[entry.0 as int]
                &&& entry.1@ == self.sources(entry.0)
            }
    }

    /// What holds of a decoder between calls.
    pub open spec fn wf(&self) -> bool {
        &&& self.consistent()
        &&& self.decode_stack@.len() == 0
        &&& self.aux_decode_stack@.len() == 0
    }

    /// `self` is a decoder of the same stream and message as `other`.
    pub open spec fn same_code(&self, other: Decoder) -> bool {
        &&& self.num_blocks == other.num_blocks
        &&& self.num_augmented_blocks == other.num_augmented_blocks
        &&& self.block_size == other.block_size
        &&& self.q == other.q
        &&& self.degree_distribution@ == other.degree_distribution@
        &&& self.stream_id == other.stream_id
        &&& self.pad == other.pad
    }

    /// `self` knows all that `earlier` knew: every block decoded then is
    /// decoded now, with the same bytes.
    pub open spec fn extends(&self, earlier: Decoder) -> bool {
        &&& self.same_code(earlier)
        &&& self.blocks_decoded@.len() == earlier.blocks_decoded@.len()
        &&& self.augmented_data@.len() == earlier.augmented_data@.len()
        &&& forall|b: int|
            0 <= b < earlier.blocks_decoded@.len() && earlier.blocks_decoded@[b]
                ==> #[trigger] self.blocks_decoded@[b]
        &&& forall|b: int, k: int|
            0 <= b < earlier.blocks_decoded@.len() && 0 <= k < self.block_size
                && earlier.blocks_decoded@[b] ==> #[trigger] block_byte(
                self.augmented_data@,
                b,
                self.block_size,
                k,
            ) == block_byte(earlier.augmented_data@, b, self.block_size, k)
    }

    /// `block` is what a sender of the augmented message `truth` sends as
    /// check block `check_block_id`.
    pub open spec fn genuine(
        &self,
        truth: Seq<u8>,
        check_block_id: CheckBlockId,
        block: Seq<u8>,
    ) -> bool {
        is_xor_of(block, truth, self.neighbours(check_block_id), self.block_size)
    }

    /// All that the decoder holds agrees with the augmented message `truth`:
    /// the decoded blocks are those of `truth`, and the check blocks kept
    /// are check blocks of `truth`.
    pub open spec fn sound_for(&self, truth: Seq<u8>) -> bool {
        &&& is_augmented(
            truth,
            self.stream_id,
            self.num_blocks,
            (self.num_augmented_blocks - self.num_blocks) as usize,
            self.q,
            self.block_size,
        )
        &&& forall|b: int, k: int|
            0 <= b < self.num_augmented_blocks && 0 <= k < self.block_size
                && self.blocks_decoded@[b] ==> #[trigger] block_byte(
                self.augmented_data@,
                b,
                self.block_size,
                k,
            ) == block_byte(truth, b, self.block_size, k)
        &&& forall|c: CheckBlockId| #[trigger]
            self.unused_check_blocks@.contains_key(c) ==> self.genuine(
                truth,
                c,
                self.unused_check_blocks@[c].1@,
            )
        &&& forall|i: int|
            0 <= i < self.decode_stack@.len() ==> self.genuine(
                truth,
                (#[trigger] self.decode_stack@[i]).0,
                self.decode_stack@[i].1@,
            )
    }

    /// `self` is a decoder that has taken in nothing yet.
    pub open spec fn is_fresh(
        &self,
        num_blocks: usize,
        block_size: usize,
        stream_id: StreamId,
        num_aux_blocks: usize,
        weights: Seq<u64>,
        q: usize,
        pad: usize,
    ) -> bool {
        &&& self.wf()
        &&& self.num_blocks == num_blocks
        &&& self.num_augmented_blocks == num_blocks + num_aux_blocks
        &&& self.block_size == block_size
        &&& self.q == q
        &&& self.degree_distribution@ == weights
        &&& self.stream_id == stream_id
        &&& self.pad == pad
        &&& self.num_undecoded_data_blocks == num_blocks
        &&& forall|b: int|
            0 <= b < self.blocks_decoded@.len() ==> !#[trigger] self.blocks_decoded@[b]
        &&& self.unused_check_blocks@ == Map::<CheckBlockId, (usize, Vec<u8>)>::empty()
        &&& self.adjacent_check_blocks@ == Map::<BlockIndex, Vec<CheckBlockId>>::empty()
        &&& is_aux_adjacency(
            self.unused_aux_block_adjacencies@,
            stream_id,
            num_blocks,
            num_aux_blocks,
            q,
        )
        &&& forall|truth: Seq<u8>|
            is_augmented(truth, stream_id, num_blocks, num_aux_blocks, q, block_size)
                ==> #[trigger] self.sound_for(truth)
        &&& self.peeling() == fresh_peeling(stream_id, num_blocks, num_aux_blocks, q, block_size)
    }

    /// A decoder for a message of `num_blocks` blocks of `block_size` bytes,
    /// the last `pad` bytes of which are padding, with `num_aux_blocks`
    /// auxiliary blocks, to which every source block contributes with `q`
    /// picks.
    pub fn with_aux_blocks(
        num_blocks: usize,
        block_size: usize,
        stream_id: StreamId,
        num_aux_blocks: usize,
        degree_distribution: DegreeDistribution,
        q: usize,
        pad: usize,
    ) -> (made: Result<Decoder, CodeError>)
        ensures
            made.is_err() == (config_error(
                num_blocks as int,
                num_aux_blocks as int,
                block_size as int,
            ) || pad > num_blocks * block_size),
            made.is_err() ==> made.unwrap_err() == (if config_error(
                num_blocks as int,
                num_aux_blocks as int,
                block_size as int,
            ) {
                CodeError::ConfigError
            } else {
                CodeError::LengthError
            }),
            made.is_ok() ==> made.unwrap().is_fresh(
                num_blocks,
                block_size,
                stream_id,
                num_aux_blocks,
                degree_distribution@,
                q,
                pad,
            ),
    {
        let num_augmented_blocks = match check_config(num_blocks, num_aux_blocks, block_size) {
            Ok(total) => total,
            Err(e) => {
                return Err(e);
            },
        };
        proof {
            lemma_config_sizes(num_blocks as int, num_aux_blocks as int, block_size as int);
        }
        if pad > num_blocks * block_size {
            return Err(CodeError::LengthError);
        }
        let unused_aux_block_adjacencies = get_aux_block_adjacencies(
            stream_id,
            num_blocks,
            num_aux_blocks,
            q,
        );
        let decoder = Decoder {
            num_blocks,
            num_augmented_blocks,
            block_size,
            q,
            degree_distribution,
            stream_id,
            unused_aux_block_adjacencies,
            augmented_data: vec![0u8; num_augmented_blocks * block_size],
            blocks_decoded: vec![false; num_augmented_blocks],
            num_undecoded_data_blocks: num_blocks,
            unused_check_blocks: HashMap::new(),
            adjacent_check_blocks: HashMap::new(),
            decode_stack: Vec::new(),
            aux_decode_stack: Vec::new(),
            pad,
        };
        proof {
            lemma_undecoded_below_fresh(decoder.blocks_decoded@, num_blocks as int);
            assert forall|b: int, k: int|
                0 <= b < num_augmented_blocks && 0 <= k < block_size implies #[trigger] block_byte(
                decoder.augmented_data@,
                b,
                block_size,
                k,
            ) == 0 by {
                lemma_block_range(b, block_size as int);
                lemma_block_le(b + 1, num_augmented_blocks as int, block_size as int);
            }
            assert forall|a: BlockIndex| #[trigger]
                decoder.unused_aux_block_adjacencies@.contains_key(a) implies {
                &&& num_blocks <= a < num_augmented_blocks
                &&& decoder.unused_aux_block_adjacencies@[a].1@ == decoder.sources(a)
                &&& decoder.unused_aux_block_adjacencies@[a].0 >= 1
            } by {
                assert(num_blocks <= a < num_blocks + num_aux_blocks);
            }
        }
        proof {
            let fresh = fresh_peeling(stream_id, num_blocks, num_aux_blocks, q, block_size);
            assert(decoder.peeling().decoded =~= fresh.decoded);
            assert(decoder.peeling().data =~= fresh.data);
            assert(decoder.peeling().waiting =~= fresh.waiting);
            assert(decoder.peeling().listed =~= fresh.listed);
            assert(decoder.peeling().stack =~= fresh.stack);
            assert(decoder.peeling().aux_stack =~= fresh.aux_stack);
            assert forall|a: BlockIndex|
                decoder.peeling().aux.contains_key(a) <==> #[trigger] fresh.aux.contains_key(
                    a,
                ) by {
                assert(decoder.unused_aux_block_adjacencies@.contains_key(a)
                    || !decoder.unused_aux_block_adjacencies@.contains_key(a));
            }
            assert(decoder.peeling().aux =~= fresh.aux);
        }
        Ok(decoder)
    }

    /// A decoder for a message of `num_blocks` blocks of `block_size` bytes,
    /// the last `pad` bytes of which are padding, in a code with the
    /// parameters `epsilon` and `q`. `degree_distribution` is the one that
    /// belongs to `epsilon`.
    pub fn with_parameters(
        num_blocks: usize,
        block_size: usize,
        stream_id: StreamId,
        epsilon: Epsilon,
        q: usize,
        pad: usize,
        degree_distribution: DegreeDistribution,
    ) -> (made: Result<Decoder, CodeError>)
        ensures
            made.is_err() == (!aux_blocks_fit(num_blocks as int, epsilon, q as int) || config_error(
                num_blocks as int,
                aux_blocks(num_blocks as int, epsilon, q as int),
                block_size as int,
            ) || pad > num_blocks * block_size),
            made.is_err() ==> made.unwrap_err() == (if !aux_blocks_fit(
                num_blocks as int,
                epsilon,
                q as int,
            ) || config_error(
                num_blocks as int,
                aux_blocks(num_blocks as int, epsilon, q as int),
                block_size as int,
            ) {
                CodeError::ConfigError
            } else {
                CodeError::LengthError
            }),
            made.is_ok() ==> made.unwrap().is_fresh(
                num_blocks,
                block_size,
                stream_id,
                aux_blocks(num_blocks as int, epsilon, q as int) as usize,
                degree_distribution@,
                q,
                pad,
            ),
    {
        let num_aux_blocks = match num_aux_blocks(num_blocks, epsilon, q) {
            Ok(count) => count,
            Err(e) => {
                return Err(e);
            },
        };
        Decoder::with_aux_blocks(
            num_blocks,
            block_size,
            stream_id,
            num_aux_blocks,
            degree_distribution,
            q,
            pad,
        )
    }

    /// A decoder in the code with the usual parameters: epsilon a hundredth,
    /// and three picks for every source block.
    pub fn new(
        num_blocks: usize,
        block_size: usize,
        stream_id: StreamId,
        pad: usize,
        degree_distribution: DegreeDistribution,
    ) -> (made: Result<Decoder, CodeError>)
        ensures
            made.is_err() == (!aux_blocks_fit(num_blocks as int, usual_epsilon(), 3)
                || config_error(
                num_blocks as int,
                aux_blocks(num_blocks as int, usual_epsilon(), 3),
                block_size as int,
            ) || pad > num_blocks * block_size),
            made.is_err() ==> made.unwrap_err() == (if !aux_blocks_fit(
                num_blocks as int,
                usual_epsilon(),
                3,
            ) || config_error(
                num_blocks as int,
                aux_blocks(num_blocks as int, usual_epsilon(), 3),
                block_size as int,
            ) {
                CodeError::ConfigError
            } else {
                CodeError::LengthError
            }),
            made.is_ok() ==> made.unwrap().is_fresh(
                num_blocks,
                block_size,
                stream_id,
                aux_blocks(num_blocks as int, usual_epsilon(), 3) as usize,
                degree_distribution@,
                3,
                pad,
            ),
    {
        Self::with_parameters(
            num_blocks,
            block_size,
            stream_id,
            Epsilon { numerator: 1, denominator: 100 },
            3,
            pad,
            degree_distribution,
        )
    }
}

impl Decoder {
    /// Keeps a check block with `degree` undecoded neighbours for later: it
    /// is stored under its identifier and listed under each neighbour.
    fn keep_check_block(
        &mut self,
        check_block_id: CheckBlockId,
        degree: usize,
        check_block: Vec<u8>,
        adjacent_blocks: &Vec<BlockIndex>,
    )
        requires
            old(self).consistent(),
            degree >= 2,
            check_block@.len() == old(self).block_size,
            adjacent_blocks@.no_duplicates(),
        ensures
            final(self).consistent(),
            *final(self) == (Decoder {
                unused_check_blocks: final(self).unused_check_blocks,
                adjacent_check_blocks: final(self).adjacent_check_blocks,
                ..*old(self)
            }),
            final(self).peeling() == old(self).peeling().keep(
                check_block_id,
                degree,
                check_block@,
                adjacent_blocks@,
            ),
            forall|truth: Seq<u8>| #[trigger]
                old(self).sound_for(truth) && old(self).genuine(
                    truth,
                    check_block_id,
                    check_block@,
                ) ==> final(self).sound_for(truth),
    {
        broadcast use vstd::std_specs::hash::group_hash_axioms;

        self.unused_check_blocks.insert(check_block_id, (degree, check_block));
        let ghost stored = *self;
        let mut j: usize = 0;
        while j < adjacent_blocks.len()
            invariant
                j <= adjacent_blocks@.len(),
                adjacent_blocks@.no_duplicates(),
                *self == (Decoder { adjacent_check_blocks: self.adjacent_check_blocks, ..stored }),
                listed_of(self.adjacent_check_blocks@) == listing(
                    listed_of(old(self).adjacent_check_blocks@),
                    adjacent_blocks@.take(j as int),
                    check_block_id,
                ),
            decreases adjacent_blocks@.len() - j,
        {
            let block_index = adjacent_blocks[j];
            let ghost earlier = adjacent_blocks@.take(j as int);
            let ghost later = adjacent_blocks@.take(j + 1);
            let ghost before = self.adjacent_check_blocks@;
            let mut ids = match self.adjacent_check_blocks.remove(&block_index) {
                Some(ids) => ids,
                None => Vec::new(),
            };
            ids.push(check_block_id);
            self.adjacent_check_blocks.insert(block_index, ids);
            proof {
                assert(!earlier.contains(block_index)) by {
                    if earlier.contains(block_index) {
                        let x = choose|x: int| 0 <= x < earlier.len() && earlier[x] == block_index;
                        assert(adjacent_blocks@[x] == block_index && adjacent_blocks@[j as int]
                            == block_index);
                    }
                }
                assert forall|b: BlockIndex| #[trigger]
                    later.contains(b) <==> earlier.contains(b) || b == block_index by {
                    if later.contains(b) {
                        let x = choose|x: int| 0 <= x < later.len() && later[x] == b;
                        if x < earlier.len() {
                            assert(earlier[x] == b);
                        }
                    }
                    if earlier.contains(b) {
                        let x = choose|x: int| 0 <= x < earlier.len() && earlier[x] == b;
                        assert(later[x] == b);
                    }
                    if b == block_index {
                        assert(later[j as int] == b);
                    }
                }
                let first = listed_of(old(self).adjacent_check_blocks@);
                assert(listed_of(before) == listing(first, earlier, check_block_id));
                assert(listed_of(before).contains_key(block_index) == before.contains_key(
                    block_index,
                ));
                assert(listed_of(self.adjacent_check_blocks@) =~= listing(
                    first,
                    later,
                    check_block_id,
                )) by {
                    assert forall|b: BlockIndex|
                        listed_of(self.adjacent_check_blocks@).contains_key(b) implies (
                    #[trigger] listed_of(self.adjacent_check_blocks@)[b]) == listing(
                        first,
                        later,
                        check_block_id,
                    )[b] by {
                        assert(later.contains(b) <==> earlier.contains(b) || b == block_index);
                        let was = listing(first, earlier, check_block_id);
                        if b != block_index {
                            assert(listed_of(before).contains_key(b));
                            assert(listed_of(before)[b] == was[b]);
                            assert(self.adjacent_check_blocks@[b] == before[b]);
                        } else {
                            assert(later.contains(b) && !earlier.contains(b));
                            assert(was.contains_key(b) == first.contains_key(b));
                            assert(listed_of(before).contains_key(b) == was.contains_key(b));
                            if before.contains_key(b) {
                                assert(listed_of(before)[b] == was[b]);
                                assert(was[b] == first[b]);
                                assert(self.adjacent_check_blocks@[b]@ == before[b]@.push(
                                    check_block_id,
                                ));
                            } else {
                                assert(self.adjacent_check_blocks@[b]@ == Seq::<
                                    CheckBlockId,
                                >::empty().push(check_block_id));
                            }
                        }
                    }
                    assert forall|b: BlockIndex|
                        listed_of(self.adjacent_check_blocks@).contains_key(b) <==> (
                        #[trigger] listing(first, later, check_block_id).contains_key(b)) by {
                        assert(later.contains(b) <==> earlier.contains(b) || b == block_index);
                        assert(listed_of(before).contains_key(b) == listing(
                            first,
                            earlier,
                            check_block_id,
                        ).contains_key(b));
                    }
                }
            }
            j += 1;
        }
        proof {
            assert(adjacent_blocks@.take(j as int) == adjacent_blocks@);
            assert(waiting_of(self.unused_check_blocks@) =~= waiting_of(
                old(self).unused_check_blocks@,
            ).insert(check_block_id, (degree, check_block@)));
        }
    }

    /// Recovers block `target_block_index` from a check block of which it is
    /// the one neighbour not decoded, and marks it decoded. A source block
    /// comes off the count of those missing; an auxiliary block has one
    /// taken off its count, and goes on the auxiliary stack if that leaves
    /// one.
    fn decode_target(
        &mut self,
        target_block_index: BlockIndex,
        check_block: &Vec<u8>,
        adjacent_blocks: &Vec<BlockIndex>,
    )
        requires
            old(self).consistent(),
            check_block@.len() == old(self).block_size,
            target_block_index < old(self).num_augmented_blocks,
            !old(self).blocks_decoded@[target_block_index as int],
            adjacent_blocks@.no_duplicates(),
            adjacent_blocks@.contains(target_block_index),
            forall|j: int|
                0 <= j < adjacent_blocks@.len() ==> #[trigger] adjacent_blocks@[j] < old(
                    self,
                ).num_augmented_blocks,
            forall|j: int|
                0 <= j < adjacent_blocks@.len() && adjacent_blocks@[j] != target_block_index
                    ==> old(self).blocks_decoded@[#[trigger] adjacent_blocks@[j] as int],
        ensures
            final(self).consistent(),
            final(self).extends(*old(self)),
            final(self).blocks_decoded@ == old(self).blocks_decoded@.update(
                target_block_index as int,
                true,
            ),
            final(self).undecoded_blocks() == old(self).undecoded_blocks() - 1,
            final(self).decode_stack == old(self).decode_stack,
            final(self).aux_decode_stack@.len() >= old(self).aux_decode_stack@.len(),
            final(self).peeling() == old(self).peeling().recover(
                old(self).code(),
                target_block_index,
                check_block@,
                adjacent_blocks@,
            ),
            forall|truth: Seq<u8>| #[trigger]
                old(self).sound_for(truth) && is_xor_of(
                    check_block@,
                    truth,
                    adjacent_blocks@,
                    old(self).block_size,
                ) ==> final(self).sound_for(truth),
    {
        broadcast use vstd::std_specs::hash::group_hash_axioms;

        let ghost total = self.num_augmented_blocks;
        let ghost size = self.block_size;
        proof {
            lemma_config_sizes(self.num_blocks as int, self.num_aux_blocks(), size as int);
            lemma_sources_within(adjacent_blocks@, self.num_augmented_blocks, total, size);
            lemma_block_place(target_block_index as int, total as int, size as int, 0);
        }
        decode_from_check_block(
            target_block_index,
            check_block.as_slice(),
            adjacent_blocks.as_slice(),
            self.augmented_data.as_mut_slice(),
            self.block_size,
        );
        self.blocks_decoded[target_block_index] = true;
        proof {
            lemma_undecoded_below_update(
                old(self).blocks_decoded@,
                self.num_blocks as int,
                target_block_index as int,
            );
            lemma_undecoded_below_update(
                old(self).blocks_decoded@,
                total as int,
                target_block_index as int,
            );
        }
        if target_block_index < self.num_blocks {
            self.num_undecoded_data_blocks -= 1;
        } else {
            match self.unused_aux_block_adjacencies.remove(&target_block_index) {
                Some(entry) => {
                    let remaining = entry.0 - 1;
                    if remaining == 1 {
                        self.aux_decode_stack.push((target_block_index, entry.1));
                    } else {
                        self.unused_aux_block_adjacencies.insert(
                            target_block_index,
                            (remaining, entry.1),
                        );
                    }
                },
                None => {},
            }
        }
        proof {
            let data = self.augmented_data@;
            let before = old(self).augmented_data@;
            assert(data =~= xor_into(
                before,
                target_block_index,
                check_block@,
                adjacent_blocks@,
                self.block_size,
            ));
            assert(waiting_of(self.unused_check_blocks@) == waiting_of(
                old(self).unused_check_blocks@,
            ));
            let aux = aux_of(old(self).unused_aux_block_adjacencies@);
            if target_block_index >= self.num_blocks && aux.contains_key(target_block_index) {
                if aux[target_block_index].0 - 1 == 1 {
                    assert(aux_of(self.unused_aux_block_adjacencies@) =~= aux.remove(
                        target_block_index,
                    ));
                    assert(aux_stack_of(self.aux_decode_stack@) =~= aux_stack_of(
                        old(self).aux_decode_stack@,
                    ).push((target_block_index, aux[target_block_index].1)));
                } else {
                    assert(aux_of(self.unused_aux_block_adjacencies@) =~= aux.insert(
                        target_block_index,
                        ((aux[target_block_index].0 - 1) as usize, aux[target_block_index].1),
                    ));
                }
            } else {
                assert(aux_of(self.unused_aux_block_adjacencies@) =~= aux);
            }
            assert forall|b: int, k: int|
                0 <= b < total && 0 <= k < size && b != target_block_index implies block_byte(
                data,
                b,
                size,
                k,
            ) == block_byte(before, b, size, k) by {
                lemma_block_place(b, total as int, size as int, k);
                lemma_block_apart(b, target_block_index as int, size as int, k);
            }
            assert forall|k: int| 0 <= k < size implies #[trigger] block_byte(
                data,
                target_block_index as int,
                size,
                k,
            ) == (block_byte(before, target_block_index as int, size, k) ^ check_block@[k])
                ^ xor_at_except(before, adjacent_blocks@, size, k, target_block_index) by {
                lemma_block_place(target_block_index as int, total as int, size as int, k);
                let i = target_block_index * size + k;
                assert(data[i] == (before[i] ^ check_block@[i - target_block_index * size])
                    ^ xor_at_except(
                    before,
                    adjacent_blocks@,
                    size,
                    i - target_block_index * size,
                    target_block_index,
                ));
            }
            assert forall|b: int, k: int|
                0 <= b < total && 0 <= k < size && !self.blocks_decoded@[b] implies (
            #[trigger] block_byte(data, b, size, k)) == 0 by {
                assert(block_byte(before, b, size, k) == 0);
            }
            assert forall|a: BlockIndex| #[trigger]
                self.unused_aux_block_adjacencies@.contains_key(a) implies {
                &&& self.num_blocks <= a < self.num_augmented_blocks
                &&& self.unused_aux_block_adjacencies@[a].1@ == self.sources(a)
                &&& !self.blocks_decoded@[a as int] ==> self.unused_aux_block_adjacencies@[a].0
                    >= 1
            } by {
                assert(old(self).unused_aux_block_adjacencies@.contains_key(a));
            }
            assert forall|truth: Seq<u8>| #[trigger]
                old(self).sound_for(truth) && is_xor_of(
                    check_block@,
                    truth,
                    adjacent_blocks@,
                    size,
                ) implies self.sound_for(truth) by {
                assert forall|b: int, k: int|
                    0 <= b < total && 0 <= k < size && self.blocks_decoded@[b] implies (
                #[trigger] block_byte(data, b, size, k)) == block_byte(truth, b, size, k) by {
                    if b == target_block_index {
                        assert forall|j: int|
                            0 <= j < adjacent_blocks@.len() && adjacent_blocks@[j]
                                != target_block_index implies block_byte(
                            before,
                            #[trigger] adjacent_blocks@[j] as int,
                            size,
                            k,
                        ) == block_byte(truth, adjacent_blocks@[j] as int, size, k) by {
                            assert(old(self).blocks_decoded@[adjacent_blocks@[j] as int]);
                        }
                        assert(block_byte(before, b, size, k) == 0);
                        lemma_peel(
                            truth,
                            before,
                            adjacent_blocks@,
                            check_block@[k],
                            size,
                            target_block_index,
                            k,
                        );
                    } else {
                        assert(block_byte(before, b, size, k) == block_byte(truth, b, size, k));
                    }
                }
            }
        }
    }

    /// Tells the check blocks listed under `target_block_index` that the
    /// block is decoded: each that still waits has one taken off its count
    /// of undecoded neighbours, and goes back on the stack if that leaves
    /// one.
    fn release_check_blocks(&mut self, target_block_index: BlockIndex)
        requires
            old(self).consistent(),
        ensures
            final(self).consistent(),
            *final(self) == (Decoder {
                unused_check_blocks: final(self).unused_check_blocks,
                adjacent_check_blocks: final(self).adjacent_check_blocks,
                decode_stack: final(self).decode_stack,
                ..*old(self)
            }),
            final(self).peeling() == old(self).peeling().release(target_block_index),
            forall|truth: Seq<u8>| #[trigger]
                old(self).sound_for(truth) ==> final(self).sound_for(truth),
    {
        broadcast use vstd::std_specs::hash::group_hash_axioms;

        let ids = match self.adjacent_check_blocks.remove(&target_block_index) {
            Some(ids) => ids,
            None => {
                assert(self.adjacent_check_blocks@ == old(self).adjacent_check_blocks@);
                return ;
            },
        };
        let ghost removed = *self;
        proof {
            assert(listed_of(removed.adjacent_check_blocks@) =~= listed_of(
                old(self).adjacent_check_blocks@,
            ).remove(target_block_index));
            assert(removed.peeling() == (Peeling {
                listed: old(self).peeling().listed.remove(target_block_index),
                ..old(self).peeling()
            }));
            assert(ids@ == old(self).peeling().listed[target_block_index]);
        }
        let mut i: usize = 0;
        while i < ids.len()
            invariant
                i <= ids@.len(),
                self.consistent(),
                *self == (Decoder {
                    unused_check_blocks: self.unused_check_blocks,
                    decode_stack: self.decode_stack,
                    ..removed
                }),
                self.peeling().release_all(ids@, i as int) == removed.peeling().release_all(
                    ids@,
                    0,
                ),
                forall|truth: Seq<u8>| #[trigger]
                    old(self).sound_for(truth) ==> self.sound_for(truth),
            decreases ids@.len() - i,
        {
            let check_block_id = ids[i];
            let ghost earlier = *self;
            match self.unused_check_blocks.remove(&check_block_id) {
                Some(entry) => {
                    let remaining = entry.0 - 1;
                    if remaining == 1 {
                        self.decode_stack.push((check_block_id, entry.1));
                    } else {
                        self.unused_check_blocks.insert(check_block_id, (remaining, entry.1));
                    }
                    proof {
                        let waiting = waiting_of(earlier.unused_check_blocks@);
                        if remaining == 1 {
                            assert(waiting_of(self.unused_check_blocks@) =~= waiting.remove(
                                check_block_id,
                            ));
                            assert(stack_of(self.decode_stack@) =~= stack_of(
                                earlier.decode_stack@,
                            ).push((check_block_id, waiting[check_block_id].1)));
                        } else {
                            assert(waiting_of(self.unused_check_blocks@) =~= waiting.insert(
                                check_block_id,
                                (remaining, waiting[check_block_id].1),
                            ));
                        }
                        assert(self.peeling() == earlier.peeling().release_one(check_block_id));
                        assert forall|c: CheckBlockId| #[trigger]
                            self.unused_check_blocks@.contains_key(
                                c,
                            ) implies self.unused_check_blocks@[c].0 >= 2
                            && self.unused_check_blocks@[c].1@.len() == self.block_size by {
                            if c != check_block_id {
                                assert(earlier.unused_check_blocks@.contains_key(c));
                            }
                        }
                        assert forall|x: int|
                            0 <= x < self.decode_stack@.len() implies (
                        #[trigger] self.decode_stack@[x]).1@.len() == self.block_size by {
                            if x < earlier.decode_stack@.len() {
                                assert(self.decode_stack@[x] == earlier.decode_stack@[x]);
                            }
                        }
                        assert forall|truth: Seq<u8>| #[trigger]
                            old(self).sound_for(truth) implies self.sound_for(truth) by {
                            assert(earlier.sound_for(truth));
                            assert(earlier.unused_check_blocks@.contains_key(check_block_id));
                            assert forall|c: CheckBlockId| #[trigger]
                                self.unused_check_blocks@.contains_key(c) implies self.genuine(
                                truth,
                                c,
                                self.unused_check_blocks@[c].1@,
                            ) by {
                                if c != check_block_id {
                                    assert(earlier.unused_check_blocks@.contains_key(c));
                                }
                            }
                            assert forall|x: int|
                                0 <= x < self.decode_stack@.len() implies self.genuine(
                                truth,
                                (#[trigger] self.decode_stack@[x]).0,
                                self.decode_stack@[x].1@,
                            ) by {
                                if x < earlier.decode_stack@.len() {
                                    assert(self.decode_stack@[x] == earlier.decode_stack@[x]);
                                }
                            }
                        }
                    }
                },
                None => {
                    assert(self.unused_check_blocks@ == earlier.unused_check_blocks@);
                    assert(self.peeling() == earlier.peeling().release_one(check_block_id));
                },
            }
            i += 1;
        }
    }
}

impl Decoder {
    /// Knowing more is transitive.
    pub proof fn lemma_extends_transitive(&self, middle: Decoder, earlier: Decoder)
        requires
            self.extends(middle),
            middle.extends(earlier),
        ensures
            self.extends(earlier),
    {
        assert forall|b: int, k: int|
            0 <= b < earlier.blocks_decoded@.len() && 0 <= k < self.block_size
                && earlier.blocks_decoded@[b] implies #[trigger] block_byte(
            self.augmented_data@,
            b,
            self.block_size,
            k,
        ) == block_byte(earlier.augmented_data@, b, self.block_size, k) by {
            assert(middle.blocks_decoded@[b]);
            assert(block_byte(middle.augmented_data@, b, self.block_size, k) == block_byte(
                earlier.augmented_data@,
                b,
                self.block_size,
                k,
            ));
        }
    }

    /// A decoder that misses no source block and agrees with an augmented
    /// message holds that message.
    pub proof fn lemma_complete_message(&self, truth: Seq<u8>)
        requires
            self.consistent(),
            self.sound_for(truth),
            self.num_undecoded_data_blocks == 0,
        ensures
            self.message() == truth.take(self.num_blocks * self.block_size - self.pad),
    {
        let size = self.block_size as int;
        let len = self.num_blocks * self.block_size - self.pad;
        lemma_config_sizes(self.num_blocks as int, self.num_aux_blocks(), size);
        assert forall|i: int| 0 <= i < len implies self.augmented_data@[i] == truth[i] by {
            let b = i / size;
            let k = i % size;
            vstd::arithmetic::div_mod::lemma_fundamental_div_mod(i, size);
            vstd::arithmetic::div_mod::lemma_mod_bound(i, size);
            assert(size * b == b * size) by (nonlinear_arith);
            assert(0 <= b < self.num_blocks) by (nonlinear_arith)
                requires
                    0 <= i < self.num_blocks * size,
                    i == b * size + k,
                    0 <= k < size,
            ;
            lemma_all_decoded(self.blocks_decoded@, self.num_blocks as int, b);
            assert(block_byte(self.augmented_data@, b, self.block_size, k) == block_byte(
                truth,
                b,
                self.block_size,
                k,
            ));
        }
        assert(self.message() =~= truth.take(len));
    }

    /// Takes in one check block: finds its neighbours, and according to how
    /// many of them are not decoded drops it, recovers the missing one and
    /// releases the check blocks that waited for it, or keeps it.
    fn absorb_check_block(&mut self, check_block_id: CheckBlockId, check_block: Vec<u8>)
        requires
            old(self).consistent(),
            check_block@.len() == old(self).block_size,
        ensures
            final(self).consistent(),
            final(self).extends(*old(self)),
            final(self).peeling() == old(self).peeling().absorb(
                old(self).code(),
                check_block_id,
                check_block@,
            ),
            !(degree_of(old(self).neighbours(check_block_id), old(self).blocks_decoded@)
                is Many) ==> degree_of(
                old(self).neighbours(check_block_id),
                final(self).blocks_decoded@,
            ) == UndecodedDegree::Zero,
            forall|j: int|
                0 <= j < old(self).neighbours(check_block_id).len() ==> #[trigger] old(
                    self,
                ).neighbours(check_block_id)[j] < old(self).num_augmented_blocks,
            final(self).undecoded_blocks() < old(self).undecoded_blocks() || (final(
                self
            ).undecoded_blocks() == old(self).undecoded_blocks() && final(self).decode_stack
                == old(self).decode_stack && final(self).aux_decode_stack == old(
                self,
            ).aux_decode_stack),
            forall|truth: Seq<u8>| #[trigger]
                old(self).sound_for(truth) && old(self).genuine(
                    truth,
                    check_block_id,
                    check_block@,
                ) ==> final(self).sound_for(truth),
    {
        proof {
            lemma_config_sizes(
                self.num_blocks as int,
                self.num_aux_blocks(),
                self.block_size as int,
            );
        }
        let adjacent_blocks = get_adjacent_blocks(
            check_block_id,
            self.stream_id,
            &self.degree_distribution,
            self.num_augmented_blocks,
        );
        proof {
            lemma_undecoded_neighbours(adjacent_blocks@, self.blocks_decoded@);
        }
        match undecoded_degree(adjacent_blocks.as_slice(), self.blocks_decoded.as_slice()) {
            UndecodedDegree::Zero => {},
            UndecodedDegree::One(target_block_index) => {
                proof {
                    let undecoded = undecoded_neighbours(adjacent_blocks@, self.blocks_decoded@);
                    assert(undecoded[0] == target_block_index);
                    assert(undecoded.contains(target_block_index));
                    let j = choose|j: int|
                        0 <= j < adjacent_blocks@.len() && adjacent_blocks@[j]
                            == target_block_index;
                    assert(adjacent_blocks@[j] < self.num_augmented_blocks);
                    assert forall|j: int|
                        0 <= j < adjacent_blocks@.len() && adjacent_blocks@[j]
                            != target_block_index implies self.blocks_decoded@[
                    #[trigger] adjacent_blocks@[j] as int] by {
                        let x = adjacent_blocks@[j];
                        if !self.blocks_decoded@[x as int] {
                            assert(adjacent_blocks@.contains(x));
                            assert(undecoded.contains(x));
                            let i = choose|i: int| 0 <= i < undecoded.len() && undecoded[i] == x;
                            assert(i == 0);
                        }
                    }
                }
                self.decode_target(target_block_index, &check_block, &adjacent_blocks);
                let ghost middle = *self;
                self.release_check_blocks(target_block_index);
                proof {
                    assert(self.extends(middle));
                    self.lemma_extends_transitive(middle, *old(self));
                    lemma_degree_zero(adjacent_blocks@, self.blocks_decoded@);
                }
            },
            UndecodedDegree::Many(degree) => {
                self.keep_check_block(check_block_id, degree, check_block, &adjacent_blocks);
            },
        }
    }

    /// Takes in the check blocks on the stack, and those that they release
    /// in turn, until the stack is empty.
    fn peel(&mut self)
        requires
            old(self).consistent(),
        ensures
            final(self).consistent(),
            final(self).extends(*old(self)),
            final(self).decode_stack@.len() == 0,
            old(self).decode_stack@.len() == 0 ==> *final(self) == *old(self),
            final(self).peeling() == old(self).peeling().peel(old(self).code()),
            forall|truth: Seq<u8>| #[trigger]
                old(self).sound_for(truth) ==> final(self).sound_for(truth),
    {
        while self.decode_stack.len() > 0
            invariant
                self.consistent(),
                self.extends(*old(self)),
                old(self).decode_stack@.len() == 0 ==> *self == *old(self),
                self.peeling().peel(self.code()) == old(self).peeling().peel(old(self).code()),
                forall|truth: Seq<u8>| #[trigger]
                    old(self).sound_for(truth) ==> self.sound_for(truth),
            decreases self.undecoded_blocks(), self.decode_stack@.len(),
        {
            let ghost before = *self;
            proof {
                lemma_undecoded_below_bounds(
                    self.blocks_decoded@,
                    self.num_augmented_blocks as int,
                );
            }
            match self.decode_stack.pop() {
                Some(entry) => {
                    let ghost popped = *self;
                    proof {
                        assert(entry == before.decode_stack@[before.decode_stack@.len() - 1]);
                        assert forall|i: int|
                            0 <= i < popped.decode_stack@.len() implies popped.decode_stack@[i]
                            == before.decode_stack@[i] by {}
                        assert(popped.consistent());
                        assert(stack_of(popped.decode_stack@) =~= stack_of(
                            before.decode_stack@,
                        ).drop_last());
                        assert(popped.peeling() == before.peeling().popped());
                        assert(stack_of(before.decode_stack@).last() == (entry.0, entry.1@));
                    }
                    self.absorb_check_block(entry.0, entry.1);
                    proof {
                        lemma_undecoded_below_bounds(
                            before.blocks_decoded@,
                            before.num_augmented_blocks as int,
                        );
                        lemma_undecoded_below_bounds(
                            self.blocks_decoded@,
                            self.num_augmented_blocks as int,
                        );
                        assert(self.peeling().undecoded() == self.undecoded_blocks());
                        assert(before.peeling().undecoded() == popped.undecoded_blocks());
                        assert(stack_of(self.decode_stack@).len() == self.decode_stack@.len());
                        assert(self.peeling().nearer_than(before.peeling()));
                        assert(popped.extends(before));
                        self.lemma_extends_transitive(popped, before);
                        self.lemma_extends_transitive(before, *old(self));
                        lemma_undecoded_below_bounds(
                            self.blocks_decoded@,
                            self.num_augmented_blocks as int,
                        );
                        assert forall|truth: Seq<u8>| #[trigger]
                            old(self).sound_for(truth) implies self.sound_for(truth) by {
                            assert(before.sound_for(truth));
                            assert(popped.sound_for(truth));
                            assert(popped.genuine(truth, entry.0, entry.1@));
                        }
                    }
                },
                None => {},
            }
        }
    }

    /// Takes in the auxiliary blocks on the auxiliary stack: each recovers
    /// the one source that it misses, if it misses exactly one.
    fn peel_aux(&mut self)
        requires
            old(self).consistent(),
        ensures
            final(self).consistent(),
            final(self).extends(*old(self)),
            final(self).aux_decode_stack@.len() == 0,
            final(self).decode_stack == old(self).decode_stack,
            old(self).aux_decode_stack@.len() == 0 ==> *final(self) == *old(self),
            final(self).peeling() == old(self).peeling().peel_aux(old(self).code()),
            forall|truth: Seq<u8>| #[trigger]
                old(self).sound_for(truth) ==> final(self).sound_for(truth),
    {
        while self.aux_decode_stack.len() > 0
            invariant
                self.consistent(),
                self.extends(*old(self)),
                self.decode_stack == old(self).decode_stack,
                self.peeling().peel_aux(self.code()) == old(self).peeling().peel_aux(
                    old(self).code(),
                ),
                old(self).aux_decode_stack@.len() == 0 ==> *self == *old(self),
                forall|truth: Seq<u8>| #[trigger]
                    old(self).sound_for(truth) ==> self.sound_for(truth),
            decreases self.aux_decode_stack@.len(),
        {
            let ghost before = *self;
            let ghost total = self.num_augmented_blocks;
            let ghost size = self.block_size;
            match self.aux_decode_stack.pop() {
                Some(entry) => {
                    let aux_block_index = entry.0;
                    let ghost popped = *self;
                    proof {
                        assert(entry == before.aux_decode_stack@[before.aux_decode_stack@.len()
                            - 1]);
                        assert forall|i: int|
                            0 <= i < popped.aux_decode_stack@.len() implies (
                        popped.aux_decode_stack@[i]) == before.aux_decode_stack@[i] by {}
                        assert(popped.consistent());
                        lemma_config_sizes(
                            self.num_blocks as int,
                            self.num_aux_blocks(),
                            size as int,
                        );
                        lemma_aux_sources_ascend(
                            self.stream_id,
                            self.num_blocks as nat,
                            (self.num_augmented_blocks - self.num_blocks) as usize,
                            self.q,
                            aux_block_index - self.num_blocks,
                        );
                        lemma_sources_within(entry.1@, self.num_blocks, total, size);
                        lemma_block_place(aux_block_index as int, total as int, size as int, 0);
                        lemma_undecoded_neighbours(entry.1@, self.blocks_decoded@);
                        assert(aux_stack_of(popped.aux_decode_stack@) =~= aux_stack_of(
                            before.aux_decode_stack@,
                        ).drop_last());
                        assert(aux_stack_of(before.aux_decode_stack@).last() == (
                            entry.0,
                            entry.1@,
                        ));
                    }
                    match decode_aux_block(
                        aux_block_index,
                        entry.1.as_slice(),
                        self.augmented_data.as_mut_slice(),
                        self.block_size,
                        self.blocks_decoded.as_slice(),
                    ) {
                        Some(decoded_block_id) => {
                            proof {
                                let undecoded = undecoded_neighbours(
                                    entry.1@,
                                    self.blocks_decoded@,
                                );
                                assert(undecoded[0] == decoded_block_id);
                                assert(undecoded.contains(decoded_block_id));
                                let j = choose|j: int|
                                    0 <= j < entry.1@.len() && entry.1@[j] == decoded_block_id;
                                assert(entry.1@[j] < self.num_blocks);
                                lemma_undecoded_below_update(
                                    popped.blocks_decoded@,
                                    self.num_blocks as int,
                                    decoded_block_id as int,
                                );
                            }
                            self.blocks_decoded[decoded_block_id] = true;
                            self.num_undecoded_data_blocks -= 1;
                            proof {
                                let data = self.augmented_data@;
                                let earlier = popped.augmented_data@;
                                let sources = entry.1@;
                                assert(data =~= xor_into(
                                    earlier,
                                    decoded_block_id,
                                    block_of(earlier, aux_block_index, self.block_size),
                                    sources,
                                    self.block_size,
                                )) by {
                                    lemma_block_range(decoded_block_id as int, size as int);
                                    lemma_block_range(aux_block_index as int, size as int);
                                    let carrier = block_of(
                                        earlier,
                                        aux_block_index,
                                        self.block_size,
                                    );
                                    assert forall|k: int|
                                        0 <= k < size implies #[trigger] carrier[k]
                                        == earlier[aux_block_index * size + k] by {}
                                }
                                assert(self.peeling() == popped.peeling().recover_source(
                                    self.code(),
                                    aux_block_index,
                                    sources,
                                ));
                                let undecoded = undecoded_neighbours(
                                    sources,
                                    popped.blocks_decoded@,
                                );
                                assert forall|b: int, k: int|
                                    0 <= b < total && 0 <= k < size && b
                                        != decoded_block_id implies block_byte(data, b, size, k)
                                    == block_byte(earlier, b, size, k) by {
                                    lemma_block_place(b, total as int, size as int, k);
                                    lemma_block_apart(b, decoded_block_id as int, size as int, k);
                                }
                                assert forall|b: int, k: int|
                                    0 <= b < total && 0 <= k < size
                                        && !self.blocks_decoded@[b] implies #[trigger] block_byte(
                                    data,
                                    b,
                                    size,
                                    k,
                                ) == 0 by {
                                    assert(block_byte(earlier, b, size, k) == 0);
                                }
                                assert(self.consistent());
                                assert(self.extends(popped));
                                self.lemma_extends_transitive(popped, before);
                                self.lemma_extends_transitive(before, *old(self));
                                assert forall|truth: Seq<u8>| #[trigger]
                                    old(self).sound_for(truth) implies self.sound_for(truth) by {
                                    assert(before.sound_for(truth));
                                    assert(popped.sound_for(truth));
                                    assert forall|b: int, k: int|
                                        0 <= b < total && 0 <= k < size
                                            && self.blocks_decoded@[b] implies (
                                    #[trigger] block_byte(data, b, size, k)) == block_byte(
                                        truth,
                                        b,
                                        size,
                                        k,
                                    ) by {
                                        if b == decoded_block_id {
                                            lemma_block_place(b, total as int, size as int, k);
                                            let i = decoded_block_id * size + k;
                                            let carrier = earlier[aux_block_index * size + (i
                                                - decoded_block_id * size)];
                                            assert(data[i] == (earlier[i] ^ carrier)
                                                ^ xor_at_except(
                                                earlier,
                                                sources,
                                                size,
                                                i - decoded_block_id * size,
                                                decoded_block_id,
                                            ));
                                            assert(carrier == block_byte(
                                                earlier,
                                                aux_block_index as int,
                                                size,
                                                k,
                                            ));
                                            assert(block_byte(
                                                earlier,
                                                aux_block_index as int,
                                                size,
                                                k,
                                            ) == block_byte(
                                                truth,
                                                aux_block_index as int,
                                                size,
                                                k,
                                            ));
                                            assert(block_byte(
                                                truth,
                                                aux_block_index as int,
                                                size,
                                                k,
                                            ) == xor_at(truth, sources, size, k));
                                            assert forall|j: int|
                                                0 <= j < sources.len() && sources[j]
                                                    != decoded_block_id implies block_byte(
                                                earlier,
                                                #[trigger] sources[j] as int,
                                                size,
                                                k,
                                            ) == block_byte(truth, sources[j] as int, size, k) by {
                                                let x = sources[j];
                                                if !popped.blocks_decoded@[x as int] {
                                                    assert(sources.contains(x));
                                                    assert(undecoded.contains(x));
                                                    let u = choose|u: int|
                                                        0 <= u < undecoded.len() && undecoded[u]
                                                            == x;
                                                    assert(u == 0);
                                                }
                                            }
                                            assert(block_byte(earlier, b, size, k) == 0);
                                            lemma_peel(
                                                truth,
                                                earlier,
                                                sources,
                                                carrier,
                                                size,
                                                decoded_block_id,
                                                k,
                                            );
                                        } else {
                                            assert(block_byte(earlier, b, size, k) == block_byte(
                                                truth,
                                                b,
                                                size,
                                                k,
                                            ));
                                        }
                                    }
                                }
                            }
                        },
                        None => {
                            proof {
                                assert(self.augmented_data@ == popped.augmented_data@);
                                assert(self.peeling() == popped.peeling().recover_source(
                                    self.code(),
                                    aux_block_index,
                                    entry.1@,
                                ));
                                assert(self.extends(popped));
                                self.lemma_extends_transitive(popped, before);
                                self.lemma_extends_transitive(before, *old(self));
                                assert forall|truth: Seq<u8>| #[trigger]
                                    old(self).sound_for(truth) implies self.sound_for(truth) by {
                                    assert(before.sound_for(truth));
                                }
                            }
                        },
                    }
                },
                None => {},
            }
        }
    }

    /// A copy of the message as far as it is decoded: the source blocks
    /// without the padding.
    pub fn decoded_message(&self) -> (message: Vec<u8>)
        requires
            self.consistent(),
        ensures
            message@ == self.message(),
    {
        proof {
            lemma_config_sizes(
                self.num_blocks as int,
                self.num_aux_blocks(),
                self.block_size as int,
            );
        }
        let len = self.num_blocks * self.block_size - self.pad;
        slice_to_vec(slice_subrange(self.augmented_data.as_slice(), 0, len))
    }

    /// Takes in check block `check_block_id` of the stream, and everything
    /// that follows from it. Gives the message once no source block is
    /// missing, and nothing before that. A check block of another size than
    /// the stream's is rejected, and changes nothing.
    pub fn decode_block(&mut self, check_block_id: CheckBlockId, check_block: &[u8]) -> (decoded:
        Result<Option<Vec<u8>>, CodeError>)
        requires
            old(self).wf(),
        ensures
            final(self).wf(),
            final(self).extends(*old(self)),
            decoded.is_err() == (check_block@.len() != old(self).block_size),
            decoded.is_err() ==> decoded.unwrap_err() == CodeError::UsageError && *final(self)
                == *old(self),
            decoded.is_ok() ==> decoded.unwrap().is_some() == (final(
                self
            ).num_undecoded_data_blocks == 0),
            decoded.is_ok() && decoded.unwrap().is_some() ==> decoded.unwrap().unwrap()@
                == final(self).message(),
            decoded.is_ok() ==> final(self).peeling() == old(self).peeling().decode(
                old(self).code(),
                check_block_id,
                check_block@,
            ),
            decoded.is_ok() && old(self).num_undecoded_data_blocks > 0 && !(degree_of(
                old(self).neighbours(check_block_id),
                old(self).blocks_decoded@,
            ) is Many) ==> degree_of(
                old(self).neighbours(check_block_id),
                final(self).blocks_decoded@,
            ) == UndecodedDegree::Zero,
            forall|truth: Seq<u8>| #[trigger]
                old(self).sound_for(truth) && old(self).genuine(
                    truth,
                    check_block_id,
                    check_block@,
                ) ==> final(self).sound_for(truth) && (decoded.is_ok() && decoded.unwrap().is_some()
                    ==> decoded.unwrap().unwrap()@ == truth.take(
                    old(self).num_blocks * old(self).block_size - old(self).pad,
                )),
    {
        if check_block.len() != self.block_size {
            return Err(CodeError::UsageError);
        }
        if self.num_undecoded_data_blocks == 0 {
            let message = self.decoded_message();
            proof {
                assert forall|truth: Seq<u8>| #[trigger]
                    self.sound_for(truth) implies message@ == truth.take(
                    self.num_blocks * self.block_size - self.pad,
                ) by {
                    self.lemma_complete_message(truth);
                }
            }
            return Ok(Some(message));
        }
        let payload = slice_to_vec(check_block);
        self.absorb_check_block(check_block_id, payload);
        let ghost absorbed = *self;
        self.peel();
        let ghost peeled = *self;
        self.peel_aux();
        proof {
            peeled.lemma_extends_transitive(absorbed, *old(self));
            self.lemma_extends_transitive(peeled, *old(self));
            self.lemma_extends_transitive(peeled, absorbed);
            let adjacent = old(self).neighbours(check_block_id);
            lemma_degree_zero(adjacent, absorbed.blocks_decoded@);
            lemma_degree_zero(adjacent, self.blocks_decoded@);
            if degree_of(adjacent, absorbed.blocks_decoded@) == UndecodedDegree::Zero {
                assert forall|j: int| 0 <= j < adjacent.len() implies self.blocks_decoded@[
                #[trigger] adjacent[j] as int] by {
                    assert(absorbed.blocks_decoded@[adjacent[j] as int]);
                }
            }
        }
        if self.num_undecoded_data_blocks == 0 {
            let message = self.decoded_message();
            proof {
                assert forall|truth: Seq<u8>| #[trigger]
                    old(self).sound_for(truth) && old(self).genuine(
                        truth,
                        check_block_id,
                        check_block@,
                    ) implies message@ == truth.take(
                    self.num_blocks * self.block_size - self.pad,
                ) by {
                    assert(absorbed.sound_for(truth));
                    assert(peeled.sound_for(truth));
                    self.lemma_complete_message(truth);
                }
            }
            Ok(Some(message))
        } else {
            Ok(None)
        }
    }

    /// The source blocks as far as they are decoded: for each of them
    /// whether it is decoded, and their bytes, zero where a block is not.
    pub fn get_incomplete_result(&self) -> (result: (&[bool], &[u8]))
        requires
            self.consistent(),
        ensures
            result.0@ == self.blocks_decoded@.take(self.num_blocks as int),
            result.1@ == self.augmented_data@.take(self.num_blocks * self.block_size),
    {
        proof {
            lemma_config_sizes(
                self.num_blocks as int,
                self.num_aux_blocks(),
                self.block_size as int,
            );
        }
        (
            slice_subrange(self.blocks_decoded.as_slice(), 0, self.num_blocks),
            slice_subrange(self.augmented_data.as_slice(), 0, self.block_size * self.num_blocks),
        )
    }

    /// As `get_incomplete_result`, giving the decoder up for its buffers.
    pub fn into_incomplete_result(self) -> (result: (Vec<bool>, Vec<u8>))
        requires
            self.consistent(),
        ensures
            result.0@ == self.blocks_decoded@.take(self.num_blocks as int),
            result.1@ == self.augmented_data@.take(self.num_blocks * self.block_size),
    {
        proof {
            lemma_config_sizes(
                self.num_blocks as int,
                self.num_aux_blocks(),
                self.block_size as int,
            );
        }
        let mut decoder = self;
        decoder.blocks_decoded.truncate(decoder.num_blocks);
        decoder.augmented_data.truncate(decoder.num_blocks * decoder.block_size);
        (decoder.blocks_decoded, decoder.augmented_data)
    }
}

impl Decoder {
    /// Every one of `blocks` is what a sender of `truth` sends under its
    /// identifier.
    pub open spec fn all_genuine(
        &self,
        truth: Seq<u8>,
        blocks: Seq<(CheckBlockId, Vec<u8>)>,
    ) -> bool {
        forall|i: int|
            0 <= i < blocks.len() ==> self.genuine(truth, (#[trigger] blocks[i]).0, blocks[i].1@)
    }

    /// Takes in `blocks` in order, up to the one that completes the message.
    /// Gives the message if one does, and the decoder if none does. A check
    /// block of another size than the stream's, met before the message is
    /// complete, ends the run with an error.
    pub fn into_iter(self, blocks: &[(CheckBlockId, Vec<u8>)]) -> (fed: Result<
        DecodeResult,
        CodeError,
    >)
        requires
            self.wf(),
        ensures
            fed.is_err() == self.peeling().rejects(self.code(), stack_of(blocks@), 0),
            fed.is_err() ==> fed.unwrap_err() == CodeError::UsageError,
            fed.is_ok() ==> ({
                let end = self.peeling().feed(self.code(), stack_of(blocks@), 0);
                match fed.unwrap() {
                    DecodeResult::Complete(message) => {
                        &&& blocks@.len() > 0
                        &&& end.missing == 0
                        &&& message@ == end.message(self.code())
                        &&& forall|truth: Seq<u8>| #[trigger]
                            self.sound_for(truth) && self.all_genuine(truth, blocks@) ==> message@
                                == truth.take(self.num_blocks * self.block_size - self.pad)
                    },
                    DecodeResult::InProgress(decoder) => {
                        &&& decoder.wf()
                        &&& decoder.extends(self)
                        &&& decoder.peeling() == end
                        &&& blocks@.len() > 0 ==> end.missing > 0
                        &&& forall|truth: Seq<u8>| #[trigger]
                            self.sound_for(truth) && self.all_genuine(truth, blocks@)
                                ==> decoder.sound_for(truth)
                    },
                }
            }),
    {
        let mut decoder = self;
        let ghost views = stack_of(blocks@);
        let mut i: usize = 0;
        while i < blocks.len()
            invariant
                i <= blocks@.len(),
                views == stack_of(blocks@),
                decoder.wf(),
                decoder.extends(self),
                i > 0 ==> decoder.num_undecoded_data_blocks > 0,
                decoder.peeling().feed(self.code(), views, i as int) == self.peeling().feed(
                    self.code(),
                    views,
                    0,
                ),
                decoder.peeling().rejects(self.code(), views, i as int) == self.peeling().rejects(
                    self.code(),
                    views,
                    0,
                ),
                forall|truth: Seq<u8>| #[trigger]
                    self.sound_for(truth) && self.all_genuine(truth, blocks@)
                        ==> decoder.sound_for(truth),
            decreases blocks@.len() - i,
        {
            let ghost before = decoder;
            assert(views[i as int] == (blocks@[i as int].0, blocks@[i as int].1@));
            let fed = decoder.decode_block(blocks[i].0, blocks[i].1.as_slice());
            proof {
                decoder.lemma_extends_transitive(before, self);
                assert forall|truth: Seq<u8>| #[trigger]
                    self.sound_for(truth) && self.all_genuine(
                        truth,
                        blocks@,
                    ) implies before.sound_for(truth) && before.genuine(
                    truth,
                    blocks@[i as int].0,
                    blocks@[i as int].1@,
                ) by {
                    assert(self.genuine(truth, blocks@[i as int].0, blocks@[i as int].1@));
                }
            }
            match fed {
                Err(e) => {
                    return Err(e);
                },
                Ok(Some(message)) => {
                    return Ok(DecodeResult::Complete(message));
                },
                Ok(None) => {},
            }
            i += 1;
        }
        Ok(DecodeResult::InProgress(Box::new(decoder)))
    }
}

} // verus!
