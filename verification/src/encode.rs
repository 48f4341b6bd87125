//! The sender: the augmented message and the check blocks drawn from it.
use crate::rng::DegreeDistribution;
use crate::types::{BlockIndex, CheckBlockId, CodeError, StreamId};
use crate::util::{
    adjacent_blocks, aux_sources, get_adjacent_blocks, get_aux_block_adjacencies,
    is_aux_adjacency, lemma_aux_sources_ascend, xor_adjacent_blocks,
};
use crate::xor::{
    block_byte, blocks_within, is_xor_of, lemma_block_le, lemma_block_order, lemma_block_range,
    lemma_xor_agree,
    lemma_xor_bytes, lemma_xor_except_absent, xor_at,
};
use vstd::prelude::*;

verus! {

/// The number of blocks of `block_size` bytes that `len` bytes fill, the
/// last of them in part.
pub open spec fn blocks_needed(len: int, block_size: int) -> int {
    if block_size <= 0 {
        0
    } else if len % block_size == 0 {
        len / block_size
    } else {
        len / block_size + 1
    }
}

/// Why a code of `num_blocks` source blocks and `num_aux_blocks` auxiliary
/// blocks of `block_size` bytes cannot be set up, if it cannot: the block
/// size is zero, a size does not fit the machine, or there are fewer than
/// two blocks in all.
pub open spec fn config_error(num_blocks: int, num_aux_blocks: int, block_size: int) -> bool {
    ||| block_size == 0
    ||| num_blocks * num_aux_blocks > usize::MAX
    ||| (num_blocks + num_aux_blocks) * block_size > usize::MAX
    ||| num_blocks + num_aux_blocks <= 1
}

/// `data` is an augmented message of the stream: source blocks followed by
/// auxiliary blocks, each auxiliary block the XOR of the source blocks that
/// picked it.
pub open spec fn is_augmented(
    data: Seq<u8>,
    stream_id: StreamId,
    num_blocks: usize,
    num_aux_blocks: usize,
    q: usize,
    block_size: usize,
) -> bool {
    &&& data.len() == (num_blocks + num_aux_blocks) * block_size
    &&& forall|a: int, k: int|
        num_blocks <= a < num_blocks + num_aux_blocks && 0 <= k < block_size
            ==> #[trigger] block_byte(data, a, block_size, k) == xor_at(
            data,
            aux_sources(stream_id, num_blocks as nat, num_aux_blocks, q, a - num_blocks),
            block_size,
            k,
        )
}

/// `data`, followed by zeros up to `num_blocks` whole blocks.
pub open spec fn padded_message(data: Seq<u8>, num_blocks: usize, block_size: usize) -> Seq<u8> {
    Seq::new(
        (num_blocks * block_size) as nat,
        |i: int|
            if i < data.len() {
                data[i]
            } else {
                0u8
            },
    )
}

/// The augmented message of `data`: the padded message, followed by the
/// auxiliary blocks, each the XOR of the source blocks that picked it.
pub open spec fn augmented_message(
    data: Seq<u8>,
    stream_id: StreamId,
    num_blocks: usize,
    num_aux_blocks: usize,
    q: usize,
    block_size: usize,
) -> Seq<u8> {
    let padded = padded_message(data, num_blocks, block_size);
    Seq::new(
        ((num_blocks + num_aux_blocks) * block_size) as nat,
        |i: int|
            if i < padded.len() {
                padded[i]
            } else {
                xor_at(
                    padded,
                    aux_sources(
                        stream_id,
                        num_blocks as nat,
                        num_aux_blocks,
                        q,
                        i / (block_size as int) - num_blocks,
                    ),
                    block_size,
                    i % (block_size as int),
                )
            },
    )
}

/// What a check block with neighbours `adjacent` holds: the XOR of those
/// blocks of `data`.
pub open spec fn check_block_of(data: Seq<u8>, adjacent: Seq<BlockIndex>, block_size: usize) -> Seq<
    u8,
> {
    Seq::new(block_size as nat, |k: int| xor_at(data, adjacent, block_size, k))
}

/// An augmented message whose source blocks are `data` and zeros is the
/// augmented message of `data`.
pub proof fn lemma_augmented_message(
    augmented: Seq<u8>,
    data: Seq<u8>,
    stream_id: StreamId,
    num_blocks: usize,
    num_aux_blocks: usize,
    q: usize,
    block_size: usize,
)
    requires
        block_size > 0,
        num_blocks + num_aux_blocks <= usize::MAX,
        data.len() <= num_blocks * block_size,
        is_augmented(augmented, stream_id, num_blocks, num_aux_blocks, q, block_size),
        augmented.take(data.len() as int) == data,
        forall|i: int| data.len() <= i < num_blocks * block_size ==> #[trigger] augmented[i] == 0,
    ensures
        augmented == augmented_message(data, stream_id, num_blocks, num_aux_blocks, q, block_size),
{
    let size = block_size as int;
    let total = num_blocks + num_aux_blocks;
    let padded = padded_message(data, num_blocks, block_size);
    let made = augmented_message(data, stream_id, num_blocks, num_aux_blocks, q, block_size);
    lemma_block_le(num_blocks as int, total as int, size);
    lemma_block_le(0, num_blocks as int, size);
    assert forall|i: int| 0 <= i < num_blocks * block_size implies augmented[i] == padded[i] by {
        if i < data.len() {
            assert(augmented[i] == augmented.take(data.len() as int)[i]);
        }
    }
    assert forall|i: int| 0 <= i < augmented.len() implies augmented[i] == made[i] by {
        if i >= num_blocks * block_size {
            let a = i / size;
            let k = i % size;
            vstd::arithmetic::div_mod::lemma_fundamental_div_mod(i, size);
            vstd::arithmetic::div_mod::lemma_mod_bound(i, size);
            assert(size * a == a * size) by (nonlinear_arith);
            assert(num_blocks <= a < total) by (nonlinear_arith)
                requires
                    num_blocks * size <= i < total * size,
                    i == a * size + k,
                    0 <= k < size,
            ;
            let sources = aux_sources(
                stream_id,
                num_blocks as nat,
                num_aux_blocks,
                q,
                a - num_blocks,
            );
            lemma_aux_sources_ascend(
                stream_id,
                num_blocks as nat,
                num_aux_blocks,
                q,
                a - num_blocks,
            );
            lemma_source_bytes(sources, num_blocks, block_size, k);
            assert forall|j: int| 0 <= j < sources.len() implies augmented[#[trigger] sources[j]
                * block_size + k] == padded[sources[j] * block_size + k] by {
                let y = sources[j] * block_size + k;
                assert(augmented[y] == padded[y]);
            }
            lemma_xor_agree(augmented, padded, sources, block_size, k);
            assert(block_byte(augmented, a, block_size, k) == augmented[i]);
        }
    }
    assert(augmented =~= made);
}

/// Checks the sizes of a code, and gives the number of augmented blocks.
pub fn check_config(num_blocks: usize, num_aux_blocks: usize, block_size: usize) -> (checked:
    Result<usize, CodeError>)
    ensures
        checked.is_err() == config_error(
            num_blocks as int,
            num_aux_blocks as int,
            block_size as int,
        ),
        checked.is_err() ==> checked.unwrap_err() == CodeError::ConfigError,
        checked.is_ok() ==> checked.unwrap() == num_blocks + num_aux_blocks,
{
    if block_size == 0 {
        return Err(CodeError::ConfigError);
    }
    if num_blocks.checked_mul(num_aux_blocks).is_none() {
        return Err(CodeError::ConfigError);
    }
    let total = match num_blocks.checked_add(num_aux_blocks) {
        Some(total) => total,
        None => {
            proof {
                assert((num_blocks + num_aux_blocks) * block_size > usize::MAX) by (nonlinear_arith)
                    requires
                        num_blocks + num_aux_blocks > usize::MAX,
                        block_size >= 1,
                ;
            }
            return Err(CodeError::ConfigError);
        },
    };
    if total.checked_mul(block_size).is_none() {
        return Err(CodeError::ConfigError);
    }
    if total <= 1 {
        return Err(CodeError::ConfigError);
    }
    Ok(total)
}

/// A message made ready for sending: its source blocks, padded with zeros
/// to whole blocks, and its auxiliary blocks.
#[derive(Debug)]
pub struct Encoder {
    pub num_blocks: usize,
    pub num_aux_blocks: usize,
    pub block_size: usize,
    pub q: usize,
    pub stream_id: StreamId,
    pub degree_distribution: DegreeDistribution,
    pub augmented_data: Vec<u8>,
    pub next_check_block_id: CheckBlockId,
}

impl Encoder {
    /// The sizes are those of a code, and the auxiliary blocks are the XOR
    /// of their sources.
    pub open spec fn wf(&self) -> bool {
        &&& !config_error(
            self.num_blocks as int,
            self.num_aux_blocks as int,
            self.block_size as int,
        )
        &&& is_augmented(
            self.augmented_data@,
            self.stream_id,
            self.num_blocks,
            self.num_aux_blocks,
            self.q,
            self.block_size,
        )
    }

    /// The neighbours of check block `check_block_id` in this stream.
    pub open spec fn neighbours(&self, check_block_id: CheckBlockId) -> Seq<BlockIndex> {
        adjacent_blocks(
            check_block_id,
            self.stream_id,
            self.degree_distribution@,
            (self.num_blocks + self.num_aux_blocks) as usize,
        )
    }

    /// `self` is the encoder of the message `data`, padded with `pad` zero
    /// bytes, at the start of its sequence of check blocks.
    pub open spec fn holds(
        &self,
        data: Seq<u8>,
        block_size: usize,
        stream_id: StreamId,
        num_aux_blocks: usize,
        weights: Seq<u64>,
        q: usize,
        pad: usize,
    ) -> bool {
        &&& self.wf()
        &&& self.num_blocks == blocks_needed(data.len() as int, block_size as int)
        &&& self.num_aux_blocks == num_aux_blocks
        &&& self.block_size == block_size
        &&& self.q == q
        &&& self.stream_id == stream_id
        &&& self.degree_distribution@ == weights
        &&& self.next_check_block_id == 0
        &&& pad == self.num_blocks * block_size - data.len()
        &&& pad < block_size
        &&& self.augmented_data@.take(data.len() as int) == data
        &&& forall|i: int|
            data.len() <= i < self.num_blocks * block_size ==> #[trigger] self.augmented_data@[i]
                == 0
        &&& self.augmented_data@ == augmented_message(
            data,
            stream_id,
            self.num_blocks,
            num_aux_blocks,
            q,
            block_size,
        )
    }

    /// Cuts `data` into blocks of `block_size` bytes, pads the last with
    /// zeros, and appends `num_aux_blocks` auxiliary blocks, to each of
    /// which every source block contributes with `q` picks. Gives the
    /// encoder and the number of padding bytes.
    pub fn new(
        data: &[u8],
        block_size: usize,
        stream_id: StreamId,
        num_aux_blocks: usize,
        degree_distribution: DegreeDistribution,
        q: usize,
    ) -> (made: Result<(Encoder, usize), CodeError>)
        ensures
            made.is_err() == (data@.len() == 0 || config_error(
                blocks_needed(data@.len() as int, block_size as int),
                num_aux_blocks as int,
                block_size as int,
            )),
            made.is_err() ==> made.unwrap_err() == (if block_size != 0 && data@.len() == 0 {
                CodeError::LengthError
            } else {
                CodeError::ConfigError
            }),
            made.is_ok() ==> made.unwrap().0.holds(
                data@,
                block_size,
                stream_id,
                num_aux_blocks,
                degree_distribution@,
                q,
                made.unwrap().1,
            ),
    {
        if block_size == 0 {
            return Err(CodeError::ConfigError);
        }
        let len = data.len();
        if len == 0 {
            return Err(CodeError::LengthError);
        }
        proof {
            lemma_blocks_needed(len as int, block_size as int);
        }
        let num_blocks = if len % block_size == 0 {
            len / block_size
        } else {
            len / block_size + 1
        };
        let total = match check_config(num_blocks, num_aux_blocks, block_size) {
            Ok(total) => total,
            Err(e) => {
                return Err(e);
            },
        };
        proof {
            assert(num_blocks == blocks_needed(len as int, block_size as int));
            lemma_blocks_needed(len as int, block_size as int);
            lemma_block_le(num_blocks as int, total as int, block_size as int);
        }
        let mut augmented_data: Vec<u8> = vec![0u8; total * block_size];
        let mut i: usize = 0;
        while i < len
            invariant
                i <= len,
                len == data@.len(),
                len <= augmented_data@.len(),
                augmented_data@.len() == total * block_size,
                forall|x: int| 0 <= x < i ==> #[trigger] augmented_data@[x] == data@[x],
                forall|x: int|
                    i <= x < augmented_data@.len() ==> #[trigger] augmented_data@[x] == 0,
            decreases len - i,
        {
            augmented_data[i] = data[i];
            i += 1;
        }
        let adjacencies = get_aux_block_adjacencies(stream_id, num_blocks, num_aux_blocks, q);
        let ghost filled = augmented_data@;
        let mut aux: usize = num_blocks;
        while aux < total
            invariant
                num_blocks <= aux <= total,
                total == num_blocks + num_aux_blocks,
                block_size > 0,
                augmented_data@.len() == total * block_size,
                filled.len() == total * block_size,
                is_aux_adjacency(adjacencies@, stream_id, num_blocks, num_aux_blocks, q),
                forall|x: int|
                    0 <= x < num_blocks * block_size ==> #[trigger] augmented_data@[x] == filled[x],
                forall|x: int|
                    aux * block_size <= x < total * block_size ==> #[trigger] augmented_data@[x]
                        == 0,
                forall|a: int, k: int|
                    num_blocks <= a < aux && 0 <= k < block_size ==> #[trigger] block_byte(
                        augmented_data@,
                        a,
                        block_size,
                        k,
                    ) == xor_at(
                        augmented_data@,
                        aux_sources(
                            stream_id,
                            num_blocks as nat,
                            num_aux_blocks,
                            q,
                            a - num_blocks,
                        ),
                        block_size,
                        k,
                    ),
            decreases total - aux,
        {
            let ghost before = augmented_data@;
            let ghost sources = aux_sources(
                stream_id,
                num_blocks as nat,
                num_aux_blocks,
                q,
                aux - num_blocks,
            );
            proof {
                lemma_aux_sources_ascend(
                    stream_id,
                    num_blocks as nat,
                    num_aux_blocks,
                    q,
                    aux - num_blocks,
                );
                lemma_block_range(aux as int, block_size as int);
                lemma_block_le(aux as int + 1, total as int, block_size as int);
                lemma_block_le(num_blocks as int, aux as int, block_size as int);
                lemma_sources_within(sources, num_blocks, total, block_size);
                assert(adjacencies@.contains_key(aux) || !adjacencies@.contains_key(aux));
            }
            match adjacencies.get(&aux) {
                Some(entry) => {
                    broadcast use vstd::std_specs::hash::group_hash_axioms;

                    assert(entry.1@ == sources);
                    xor_adjacent_blocks(
                        aux,
                        entry.1.as_slice(),
                        augmented_data.as_mut_slice(),
                        block_size,
                    );
                },
                None => {
                    broadcast use vstd::std_specs::hash::group_hash_axioms;

                    assert(sources.len() == 0);
                },
            }
            proof {
                assert forall|a: int, k: int|
                    num_blocks <= a < aux + 1 && 0 <= k < block_size implies #[trigger] block_byte(
                    augmented_data@,
                    a,
                    block_size,
                    k,
                ) == xor_at(
                    augmented_data@,
                    aux_sources(stream_id, num_blocks as nat, num_aux_blocks, q, a - num_blocks),
                    block_size,
                    k,
                ) by {
                    let list = aux_sources(
                        stream_id,
                        num_blocks as nat,
                        num_aux_blocks,
                        q,
                        a - num_blocks,
                    );
                    lemma_aux_sources_ascend(
                        stream_id,
                        num_blocks as nat,
                        num_aux_blocks,
                        q,
                        a - num_blocks,
                    );
                    lemma_sources_within(list, num_blocks, total, block_size);
                    lemma_source_bytes(list, num_blocks, block_size, k);
                    assert forall|j: int| 0 <= j < list.len() implies augmented_data@[
                    #[trigger] list[j] * block_size + k] == before[list[j] * block_size + k] by {
                        assert(0 <= list[j] * block_size + k < num_blocks * block_size);
                    }
                    lemma_xor_agree(augmented_data@, before, list, block_size, k);
                    lemma_block_range(a, block_size as int);
                    if a < aux {
                        lemma_block_order(a, aux as int, block_size as int);
                        assert(block_byte(before, a, block_size, k) == block_byte(
                            augmented_data@,
                            a,
                            block_size,
                            k,
                        ));
                    } else {
                        let x = aux * block_size + k;
                        assert(before[x] == 0);
                        if sources.len() == 0 {
                            assert(augmented_data@[x] == before[x]);
                        } else {
                            assert(!sources.contains(aux)) by {
                                if sources.contains(aux) {
                                    let j = choose|j: int|
                                        0 <= j < sources.len() && sources[j] == aux;
                                }
                            }
                            lemma_xor_except_absent(before, sources, block_size, k, aux);
                            lemma_xor_bytes(xor_at(before, sources, block_size, k), 0, 0);
                        }
                    }
                }
            }
            aux += 1;
        }
        let pad = num_blocks * block_size - len;
        let encoder = Encoder {
            num_blocks,
            num_aux_blocks,
            block_size,
            q,
            stream_id,
            degree_distribution,
            augmented_data,
            next_check_block_id: 0,
        };
        proof {
            assert(encoder.augmented_data@.take(len as int) == data@);
            lemma_augmented_message(
                encoder.augmented_data@,
                data@,
                stream_id,
                num_blocks,
                num_aux_blocks,
                q,
                block_size,
            );
        }
        Ok((encoder, pad))
    }

    /// Check block `check_block_id`: the XOR of its neighbours.
    pub fn check_block(&self, check_block_id: CheckBlockId) -> (block: Vec<u8>)
        requires
            self.wf(),
        ensures
            is_xor_of(
                block@,
                self.augmented_data@,
                self.neighbours(check_block_id),
                self.block_size,
            ),
            block@ == check_block_of(
                self.augmented_data@,
                self.neighbours(check_block_id),
                self.block_size,
            ),
    {
        proof {
            lemma_config_sizes(
                self.num_blocks as int,
                self.num_aux_blocks as int,
                self.block_size as int,
            );
        }
        let total = self.num_blocks + self.num_aux_blocks;
        let data_len = self.augmented_data.len();
        let adjacent = get_adjacent_blocks(
            check_block_id,
            self.stream_id,
            &self.degree_distribution,
            total,
        );
        let mut block: Vec<u8> = vec![0u8; self.block_size];
        let mut j: usize = 0;
        while j < adjacent.len()
            invariant
                j <= adjacent@.len(),
                self.wf(),
                total == self.num_blocks + self.num_aux_blocks,
                self.augmented_data@.len() == data_len,
                forall|i: int| 0 <= i < adjacent@.len() ==> #[trigger] adjacent@[i] < total,
                block@.len() == self.block_size,
                forall|k: int|
                    0 <= k < self.block_size ==> #[trigger] block@[k] == xor_at(
                        self.augmented_data@,
                        adjacent@.take(j as int),
                        self.block_size,
                        k,
                    ),
            decreases adjacent@.len() - j,
        {
            let block_index = adjacent[j];
            proof {
                lemma_block_range(block_index as int, self.block_size as int);
                lemma_block_le(block_index as int + 1, total as int, self.block_size as int);
                assert(adjacent@.take(j + 1).drop_last() == adjacent@.take(j as int));
                assert(adjacent@.take(j + 1).last() == block_index);
            }
            let start = block_index * self.block_size;
            let mut k: usize = 0;
            while k < self.block_size
                invariant
                    k <= self.block_size,
                    start == block_index * self.block_size,
                    start + self.block_size <= self.augmented_data@.len(),
                    self.augmented_data@.len() == data_len,
                    j < adjacent@.len(),
                    adjacent@.take(j + 1).drop_last() == adjacent@.take(j as int),
                    adjacent@.take(j + 1).last() == block_index,
                    block@.len() == self.block_size,
                    forall|x: int|
                        0 <= x < k ==> #[trigger] block@[x] == xor_at(
                            self.augmented_data@,
                            adjacent@.take(j + 1),
                            self.block_size,
                            x,
                        ),
                    forall|x: int|
                        k <= x < self.block_size ==> #[trigger] block@[x] == xor_at(
                            self.augmented_data@,
                            adjacent@.take(j as int),
                            self.block_size,
                            x,
                        ),
                decreases self.block_size - k,
            {
                let byte = self.augmented_data[start + k];
                block[k] ^= byte;
                k += 1;
            }
            j += 1;
        }
        proof {
            assert(adjacent@.take(j as int) == adjacent@);
            assert(block@ =~= check_block_of(self.augmented_data@, adjacent@, self.block_size));
        }
        block
    }

    /// The next check block of the sequence that starts at identifier zero,
    /// with its identifier. After the last identifier the sequence starts
    /// over.
    pub fn next_block(&mut self) -> (next: (CheckBlockId, Vec<u8>))
        requires
            old(self).wf(),
        ensures
            final(self).wf(),
            next.0 == old(self).next_check_block_id,
            is_xor_of(
                next.1@,
                old(self).augmented_data@,
                old(self).neighbours(next.0),
                old(self).block_size,
            ),
            *final(self) == (Encoder {
                next_check_block_id: old(self).next_check_block_id.wrapping_add(1),
                ..*old(self)
            }),
    {
        let id = self.next_check_block_id;
        let block = self.check_block(id);
        self.next_check_block_id = id.wrapping_add(1);
        (id, block)
    }
}

/// The sizes of a code fit the machine.
pub proof fn lemma_config_sizes(num_blocks: int, num_aux_blocks: int, block_size: int)
    requires
        0 <= num_blocks,
        0 <= num_aux_blocks,
        0 <= block_size,
        !config_error(num_blocks, num_aux_blocks, block_size),
    ensures
        num_blocks + num_aux_blocks <= (num_blocks + num_aux_blocks) * block_size <= usize::MAX,
        0 <= num_blocks * block_size <= (num_blocks + num_aux_blocks) * block_size,
{
    assert(num_blocks + num_aux_blocks <= (num_blocks + num_aux_blocks) * block_size)
        by (nonlinear_arith)
        requires
            0 <= num_blocks + num_aux_blocks,
            1 <= block_size,
    ;
    lemma_block_le(num_blocks, num_blocks + num_aux_blocks, block_size);
}

/// The blocks needed hold the bytes with less than one block to spare.
pub proof fn lemma_blocks_needed(len: int, block_size: int)
    requires
        0 <= len,
        0 < block_size,
    ensures
        len <= blocks_needed(len, block_size) * block_size < len + block_size,
        0 <= blocks_needed(len, block_size) <= len,
{
    vstd::arithmetic::div_mod::lemma_fundamental_div_mod(len, block_size);
    vstd::arithmetic::div_mod::lemma_mod_bound(len, block_size);
    let d = len / block_size;
    assert(block_size * d == d * block_size) by (nonlinear_arith);
    assert((d + 1) * block_size == d * block_size + block_size) by (nonlinear_arith);
    assert(0 <= d <= len) by (nonlinear_arith)
        requires
            len == d * block_size + len % block_size,
            0 <= len % block_size < block_size,
            0 <= len,
            0 < block_size,
    ;
    if len % block_size != 0 {
        assert(d + 1 <= len) by (nonlinear_arith)
            requires
                len == d * block_size + len % block_size,
                0 < len % block_size < block_size,
                0 <= d,
        ;
    }
}

/// Source blocks lie within the source part of an augmented message.
pub proof fn lemma_sources_within(
    sources: Seq<BlockIndex>,
    num_blocks: usize,
    total: usize,
    block_size: usize,
)
    requires
        num_blocks <= total,
        forall|x: int| 0 <= x < sources.len() ==> #[trigger] sources[x] < num_blocks,
    ensures
        blocks_within(sources, block_size, total * block_size),
{
    assert forall|j: int| 0 <= j < sources.len() implies (#[trigger] sources[j] + 1) * block_size
        <= total * block_size by {
        if sources[j] + 1 < total {
            lemma_block_order(sources[j] as int, total as int, block_size as int);
        }
    }
}

/// Byte `k` of a source block lies within the source part.
pub proof fn lemma_source_bytes(
    sources: Seq<BlockIndex>,
    num_blocks: usize,
    block_size: usize,
    k: int,
)
    requires
        0 <= k < block_size,
        forall|x: int| 0 <= x < sources.len() ==> #[trigger] sources[x] < num_blocks,
    ensures
        forall|j: int|
            0 <= j < sources.len() ==> 0 <= #[trigger] sources[j] * block_size + k < num_blocks
                * block_size,
{
    assert forall|j: int| 0 <= j < sources.len() implies 0 <= #[trigger] sources[j] * block_size
        + k < num_blocks * block_size by {
        lemma_block_range(sources[j] as int, block_size as int);
        if sources[j] + 1 < num_blocks {
            lemma_block_order(sources[j] as int, num_blocks as int, block_size as int);
        }
    }
}

} // verus!
