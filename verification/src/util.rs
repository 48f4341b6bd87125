//! Seeding, sampling without repetition, and the two adjacency relations.
use crate::degree::degree_drawn;
use crate::rng::{
    draw_below, rng_from_seed, rng_words, seeded_words, uniform_draw, DegreeDistribution,
};
use crate::types::{BlockIndex, CheckBlockId, StreamId};
use crate::xor::{
    blocks_within, lemma_block_order, lemma_block_range, lemma_xor_bytes, xor_at_except,
};
use rand_xoshiro::Xoshiro256StarStar;
use std::collections::{HashMap, HashSet};
use vstd::prelude::*;

verus! {

/// The most draws that one sampling makes. A generator may repeat itself
/// for as long as it likes, so the search for fresh values is cut off here.
pub const DRAW_LIMIT: u64 = 0xffff_ffff_ffff_ffff;

/// The seed of the generator of one check block.
pub open spec fn block_seed(stream_id: StreamId, check_block_id: CheckBlockId) -> u64 {
    check_block_id.wrapping_add(stream_id)
}

/// How many values a sampling looks for: `num`, or all that the range
/// offers once the excluded value is left out.
pub open spec fn sample_limit(high_exclusive: usize, num: usize, exclude: Option<usize>) -> usize {
    let room = if exclude.is_some() && exclude.unwrap() < high_exclusive {
        (high_exclusive - 1) as usize
    } else {
        high_exclusive
    };
    if num < room {
        num
    } else {
        room
    }
}

/// Draws from a generator in state `words` until `selected` holds `limit`
/// values or `fuel` draws are spent. A draw that hits `exclude` or a value
/// already selected is dropped. Gives the selection, in the order drawn,
/// and the generator's final state.
pub open spec fn draw_distinct(
    words: Seq<u64>,
    high_exclusive: usize,
    limit: usize,
    exclude: Option<usize>,
    selected: Seq<usize>,
    fuel: nat,
) -> (Seq<usize>, Seq<u64>)
    decreases fuel,
{
    if selected.len() >= limit || fuel == 0 {
        (selected, words)
    } else {
        let draw = uniform_draw(words, high_exclusive as u64);
        let sample = draw.0 as usize;
        let kept = if exclude == Some(sample) || selected.contains(sample) {
            selected
        } else {
            selected.push(sample)
        };
        draw_distinct(draw.1, high_exclusive, limit, exclude, kept, (fuel - 1) as nat)
    }
}

/// The number of draws that `draw_distinct` makes.
pub open spec fn draw_count(
    words: Seq<u64>,
    high_exclusive: usize,
    limit: usize,
    exclude: Option<usize>,
    selected: Seq<usize>,
    fuel: nat,
) -> nat
    decreases fuel,
{
    if selected.len() >= limit || fuel == 0 {
        0
    } else {
        let draw = uniform_draw(words, high_exclusive as u64);
        let sample = draw.0 as usize;
        let kept = if exclude == Some(sample) || selected.contains(sample) {
            selected
        } else {
            selected.push(sample)
        };
        1 + draw_count(draw.1, high_exclusive, limit, exclude, kept, (fuel - 1) as nat)
    }
}

/// The number of draws that a sampling makes.
pub open spec fn sample_draws(
    words: Seq<u64>,
    high_exclusive: usize,
    num: usize,
    exclude: Option<usize>,
) -> nat {
    draw_count(
        words,
        high_exclusive,
        sample_limit(high_exclusive, num, exclude),
        exclude,
        Seq::empty(),
        DRAW_LIMIT as nat,
    )
}

/// The distinct values below `high_exclusive`, none equal to `exclude`,
/// that a generator in state `words` selects, and its state afterwards.
pub open spec fn sample_distinct(
    words: Seq<u64>,
    high_exclusive: usize,
    num: usize,
    exclude: Option<usize>,
) -> (Seq<usize>, Seq<u64>) {
    draw_distinct(
        words,
        high_exclusive,
        sample_limit(high_exclusive, num, exclude),
        exclude,
        Seq::empty(),
        DRAW_LIMIT as nat,
    )
}

/// The value that a check block leaves out of its own neighbours: its
/// identifier, where that is a block index at all.
pub open spec fn self_exclusion(check_block_id: CheckBlockId, num_blocks: usize) -> Option<usize> {
    if check_block_id < num_blocks {
        Some(check_block_id as usize)
    } else {
        None
    }
}

/// The blocks that check block `check_block_id` of stream `stream_id` is the
/// XOR of, among `num_blocks` augmented blocks, with degrees drawn by
/// `weights`.
pub open spec fn adjacent_blocks(
    check_block_id: CheckBlockId,
    stream_id: StreamId,
    weights: Seq<u64>,
    num_blocks: usize,
) -> Seq<BlockIndex> {
    let drawn = degree_drawn(weights, seeded_words(block_seed(stream_id, check_block_id)));
    sample_distinct(drawn.1, num_blocks, drawn.0, self_exclusion(check_block_id, num_blocks)).0
}

/// XORs the first `block_size` bytes of `src` into those of `dest`.
pub fn xor_block(dest: &mut [u8], src: &[u8], block_size: usize)
    requires
        block_size <= old(dest)@.len(),
        block_size <= src@.len(),
    ensures
        final(dest)@.len() == old(dest)@.len(),
        forall|i: int|
            0 <= i < block_size ==> #[trigger] final(dest)@[i] == old(dest)@[i] ^ src@[i],
        forall|i: int|
            block_size <= i < old(dest)@.len() ==> #[trigger] final(dest)@[i] == old(dest)@[i],
{
    let mut i: usize = 0;
    while i < block_size
        invariant
            i <= block_size,
            block_size <= dest@.len(),
            block_size <= src@.len(),
            dest@.len() == old(dest)@.len(),
            forall|j: int| 0 <= j < i ==> #[trigger] dest@[j] == old(dest)@[j] ^ src@[j],
            forall|j: int| i <= j < old(dest)@.len() ==> #[trigger] dest@[j] == old(dest)@[j],
        decreases block_size - i,
    {
        dest[i] ^= src[i];
        i += 1;
    }
}

/// XORs into block `target_block_index` of `augmented_data` every other
/// block named in `adjacent_blocks`.
pub fn xor_adjacent_blocks(
    target_block_index: BlockIndex,
    adjacent_blocks: &[BlockIndex],
    augmented_data: &mut [u8],
    block_size: usize,
)
    requires
        (target_block_index + 1) * block_size <= old(augmented_data)@.len(),
        blocks_within(adjacent_blocks@, block_size, old(augmented_data)@.len() as int),
    ensures
        final(augmented_data)@.len() == old(augmented_data)@.len(),
        forall|i: int|
            0 <= i < old(augmented_data)@.len() && !(target_block_index * block_size <= i < (
            target_block_index + 1) * block_size) ==> #[trigger] final(augmented_data)@[i] == old(
                augmented_data,
            )@[i],
        forall|i: int|
            target_block_index * block_size <= i < (target_block_index + 1) * block_size
                ==> #[trigger] final(augmented_data)@[i] == old(augmented_data)@[i] ^ xor_at_except(
                old(augmented_data)@,
                adjacent_blocks@,
                block_size,
                i - target_block_index * block_size,
                target_block_index,
            ),
{
    let ghost start = target_block_index * block_size;
    let len = augmented_data.len();
    proof {
        lemma_block_range(target_block_index as int, block_size as int);
        assert forall|i: int| start <= i < start + block_size implies augmented_data@[i]
            == augmented_data@[i] ^ 0u8 by {
            lemma_xor_bytes(augmented_data@[i], 0, 0);
        }
    }
    let mut j: usize = 0;
    while j < adjacent_blocks.len()
        invariant
            j <= adjacent_blocks@.len(),
            start == target_block_index * block_size,
            start + block_size == (target_block_index + 1) * block_size,
            start + block_size <= augmented_data@.len(),
            blocks_within(adjacent_blocks@, block_size, augmented_data@.len() as int),
            augmented_data@.len() == old(augmented_data)@.len(),
            augmented_data@.len() == len,
            forall|i: int|
                0 <= i < augmented_data@.len() && !(start <= i < start + block_size)
                    ==> #[trigger] augmented_data@[i] == old(augmented_data)@[i],
            forall|i: int|
                start <= i < start + block_size ==> #[trigger] augmented_data@[i] == old(
                    augmented_data,
                )@[i] ^ xor_at_except(
                    old(augmented_data)@,
                    adjacent_blocks@.take(j as int),
                    block_size,
                    i - start,
                    target_block_index,
                ),
        decreases adjacent_blocks@.len() - j,
    {
        let block_index = adjacent_blocks[j];
        let ghost before = augmented_data@;
        proof {
            assert(adjacent_blocks@.take(j + 1).drop_last() == adjacent_blocks@.take(j as int));
            assert(adjacent_blocks@.take(j + 1).last() == block_index);
            assert((adjacent_blocks@[j as int] + 1) * block_size <= augmented_data@.len());
            lemma_block_range(block_index as int, block_size as int);
        }
        if block_index != target_block_index {
            proof {
                if block_index < target_block_index {
                    lemma_block_order(
                        block_index as int,
                        target_block_index as int,
                        block_size as int,
                    );
                } else {
                    lemma_block_order(
                        target_block_index as int,
                        block_index as int,
                        block_size as int,
                    );
                }
            }
            let mut i: usize = 0;
            while i < block_size
                invariant
                    i <= block_size,
                    block_index != target_block_index,
                    start == target_block_index * block_size,
                    start + block_size <= augmented_data@.len(),
                    block_index * block_size + block_size <= augmented_data@.len(),
                    0 <= block_index * block_size,
                    block_index * block_size + block_size <= start || start + block_size
                        <= block_index * block_size,
                    augmented_data@.len() == before.len(),
                    augmented_data@.len() == len,
                    forall|x: int|
                        0 <= x < before.len() && !(start <= x < start + i)
                            ==> #[trigger] augmented_data@[x] == before[x],
                    forall|x: int|
                        start <= x < start + i ==> #[trigger] augmented_data@[x] == before[x]
                            ^ before[block_index * block_size + (x - start)],
                decreases block_size - i,
            {
                let from = block_index * block_size + i;
                let to = target_block_index * block_size + i;
                let byte = augmented_data[from];
                augmented_data[to] ^= byte;
                i += 1;
            }
            proof {
                assert forall|x: int| start <= x < start + block_size implies augmented_data@[x]
                    == old(augmented_data)@[x] ^ xor_at_except(
                    old(augmented_data)@,
                    adjacent_blocks@.take(j + 1),
                    block_size,
                    x - start,
                    target_block_index,
                ) by {
                    let rest = xor_at_except(
                        old(augmented_data)@,
                        adjacent_blocks@.take(j as int),
                        block_size,
                        x - start,
                        target_block_index,
                    );
                    let byte = before[block_index * block_size + (x - start)];
                    assert(byte == old(augmented_data)@[block_index * block_size + (x - start)]);
                    assert(before[x] == old(augmented_data)@[x] ^ rest);
                    lemma_xor_bytes(old(augmented_data)@[x], rest, byte);
                }
            }
        }
        j += 1;
    }
    proof {
        assert(adjacent_blocks@.take(j as int) == adjacent_blocks@);
    }
}

/// The state of a stream's generator when source block `i` is about to pick
/// its auxiliary blocks: the blocks before it have each drawn `q` of
/// `num_auxiliary_blocks`, in order.
pub open spec fn stream_words(
    stream_id: StreamId,
    num_auxiliary_blocks: usize,
    q: usize,
    i: nat,
) -> Seq<u64>
    decreases i,
{
    if i == 0 {
        seeded_words(block_seed(stream_id, 0))
    } else {
        sample_distinct(
            stream_words(stream_id, num_auxiliary_blocks, q, (i - 1) as nat),
            num_auxiliary_blocks,
            q,
            None,
        ).1
    }
}

/// The auxiliary blocks, counted from zero, that source block `i` picks.
pub open spec fn source_picks(
    stream_id: StreamId,
    num_auxiliary_blocks: usize,
    q: usize,
    i: nat,
) -> Seq<usize> {
    sample_distinct(
        stream_words(stream_id, num_auxiliary_blocks, q, i),
        num_auxiliary_blocks,
        q,
        None,
    ).0
}

/// The source blocks among the first `num_blocks` that pick auxiliary block
/// `j`, in ascending order.
pub open spec fn aux_sources(
    stream_id: StreamId,
    num_blocks: nat,
    num_auxiliary_blocks: usize,
    q: usize,
    j: int,
) -> Seq<BlockIndex>
    decreases num_blocks,
{
    if num_blocks == 0 {
        Seq::empty()
    } else {
        let i = (num_blocks - 1) as nat;
        let rest = aux_sources(stream_id, i, num_auxiliary_blocks, q, j);
        if source_picks(stream_id, num_auxiliary_blocks, q, i).contains(j as usize) {
            rest.push(i as usize)
        } else {
            rest
        }
    }
}

/// `entries` holds under `key` the list `sources` and its length, or holds
/// nothing under `key` where `sources` is empty.
pub open spec fn aux_entry_is(
    entries: Map<BlockIndex, (usize, Vec<BlockIndex>)>,
    key: BlockIndex,
    sources: Seq<BlockIndex>,
) -> bool {
    &&& entries.contains_key(key) <==> sources.len() > 0
    &&& entries.contains_key(key) ==> entries[key].1@ == sources && entries[key].0 == sources.len()
}

/// `entries` maps each auxiliary block of the stream that some source block
/// picks to the number and the list of those source blocks, and holds
/// nothing else.
pub open spec fn is_aux_adjacency(
    entries: Map<BlockIndex, (usize, Vec<BlockIndex>)>,
    stream_id: StreamId,
    num_blocks: usize,
    num_auxiliary_blocks: usize,
    q: usize,
) -> bool {
    forall|a: BlockIndex|
        if num_blocks <= a < num_blocks + num_auxiliary_blocks {
            aux_entry_is(
                entries,
                a,
                aux_sources(stream_id, num_blocks as nat, num_auxiliary_blocks, q, a - num_blocks),
            )
        } else {
            !(#[trigger] entries.contains_key(a))
        }
}

/// The sources of an auxiliary block are source blocks, in strictly
/// ascending order.
pub proof fn lemma_aux_sources_ascend(
    stream_id: StreamId,
    num_blocks: nat,
    num_auxiliary_blocks: usize,
    q: usize,
    j: int,
)
    requires
        num_blocks <= usize::MAX,
    ensures
        aux_sources(stream_id, num_blocks, num_auxiliary_blocks, q, j).len() <= num_blocks,
        forall|x: int|
            0 <= x < aux_sources(stream_id, num_blocks, num_auxiliary_blocks, q, j).len()
                ==> #[trigger] aux_sources(stream_id, num_blocks, num_auxiliary_blocks, q, j)[x]
                < num_blocks,
        forall|x: int, y: int|
            0 <= x < y < aux_sources(stream_id, num_blocks, num_auxiliary_blocks, q, j).len()
                ==> #[trigger] aux_sources(stream_id, num_blocks, num_auxiliary_blocks, q, j)[x]
                < #[trigger] aux_sources(stream_id, num_blocks, num_auxiliary_blocks, q, j)[y],
        aux_sources(stream_id, num_blocks, num_auxiliary_blocks, q, j).no_duplicates(),
    decreases num_blocks,
{
    if num_blocks > 0 {
        lemma_aux_sources_ascend(stream_id, (num_blocks - 1) as nat, num_auxiliary_blocks, q, j);
    }
}

/// Lays out the auxiliary blocks of a stream: each source block in turn
/// picks up to `q` distinct auxiliary blocks. The result maps the index of
/// each auxiliary block that was picked to the number and the list of the
/// source blocks that picked it.
pub fn get_aux_block_adjacencies(
    stream_id: StreamId,
    num_blocks: usize,
    num_auxiliary_blocks: usize,
    q: usize,
) -> (mapping: HashMap<BlockIndex, (usize, Vec<BlockIndex>)>)
    requires
        num_blocks + num_auxiliary_blocks <= usize::MAX,
    ensures
        is_aux_adjacency(mapping@, stream_id, num_blocks, num_auxiliary_blocks, q),
{
    broadcast use vstd::std_specs::hash::group_hash_axioms;

    let mut mapping: HashMap<BlockIndex, (usize, Vec<BlockIndex>)> = HashMap::new();
    let mut rng = seed_stream_rng(stream_id);
    let mut i: usize = 0;
    while i < num_blocks
        invariant
            i <= num_blocks,
            num_blocks + num_auxiliary_blocks <= usize::MAX,
            rng_words(rng) == stream_words(stream_id, num_auxiliary_blocks, q, i as nat),
            forall|a: BlockIndex|
                if num_blocks <= a < num_blocks + num_auxiliary_blocks {
                    aux_entry_is(
                        mapping@,
                        a,
                        aux_sources(stream_id, i as nat, num_auxiliary_blocks, q, a - num_blocks),
                    )
                } else {
                    !(#[trigger] mapping@.contains_key(a))
                },
        decreases num_blocks - i,
    {
        let samples = sample_with_exclusive_repeats(&mut rng, num_auxiliary_blocks, q, None);
        assert(samples@ == source_picks(stream_id, num_auxiliary_blocks, q, i as nat));
        let mut s: usize = 0;
        while s < samples.len()
            invariant
                s <= samples@.len(),
                i < num_blocks,
                num_blocks + num_auxiliary_blocks <= usize::MAX,
                samples@ == source_picks(stream_id, num_auxiliary_blocks, q, i as nat),
                samples@.no_duplicates(),
                forall|x: int|
                    0 <= x < samples@.len() ==> #[trigger] samples@[x] < num_auxiliary_blocks,
                forall|a: BlockIndex|
                    if num_blocks <= a < num_blocks + num_auxiliary_blocks {
                        aux_entry_is(
                            mapping@,
                            a,
                            if samples@.take(s as int).contains((a - num_blocks) as usize) {
                                aux_sources(
                                    stream_id,
                                    i as nat,
                                    num_auxiliary_blocks,
                                    q,
                                    a - num_blocks,
                                ).push(i)
                            } else {
                                aux_sources(
                                    stream_id,
                                    i as nat,
                                    num_auxiliary_blocks,
                                    q,
                                    a - num_blocks,
                                )
                            },
                        )
                    } else {
                        !(#[trigger] mapping@.contains_key(a))
                    },
            decreases samples@.len() - s,
        {
            let aux_index = samples[s];
            let key = aux_index + num_blocks;
            let ghost before = mapping@;
            let ghost earlier = samples@.take(s as int);
            proof {
                lemma_aux_sources_ascend(
                    stream_id,
                    i as nat,
                    num_auxiliary_blocks,
                    q,
                    aux_index as int,
                );
                assert(!earlier.contains(aux_index)) by {
                    if earlier.contains(aux_index) {
                        let x = choose|x: int| 0 <= x < earlier.len() && earlier[x] == aux_index;
                        assert(samples@[x] == aux_index && samples@[s as int] == aux_index);
                    }
                }
                assert(aux_entry_is(
                    before,
                    key,
                    aux_sources(stream_id, i as nat, num_auxiliary_blocks, q, key - num_blocks),
                ));
            }
            let (count, mut ids) = match mapping.remove(&key) {
                Some(entry) => entry,
                None => (0, Vec::new()),
            };
            ids.push(i);
            mapping.insert(key, (count + 1, ids));
            proof {
                let later = samples@.take(s + 1);
                assert(later.drop_last() == earlier);
                assert(later.last() == aux_index);
                assert forall|j: usize| #[trigger]
                    later.contains(j) <==> earlier.contains(j) || j == aux_index by {
                    if later.contains(j) {
                        let x = choose|x: int| 0 <= x < later.len() && later[x] == j;
                        if x < earlier.len() {
                            assert(earlier[x] == j);
                        }
                    }
                    if earlier.contains(j) {
                        let x = choose|x: int| 0 <= x < earlier.len() && earlier[x] == j;
                        assert(later[x] == j);
                    }
                    if j == aux_index {
                        assert(later[s as int] == j);
                    }
                }
                let sources = aux_sources(
                    stream_id,
                    i as nat,
                    num_auxiliary_blocks,
                    q,
                    key - num_blocks,
                );
                if !before.contains_key(key) {
                    assert(sources == Seq::<BlockIndex>::empty());
                }
                assert(mapping@[key].1@ == sources.push(i));
                assert forall|a: BlockIndex|
                    if num_blocks <= a < num_blocks + num_auxiliary_blocks {
                        aux_entry_is(
                            mapping@,
                            a,
                            if later.contains((a - num_blocks) as usize) {
                                aux_sources(
                                    stream_id,
                                    i as nat,
                                    num_auxiliary_blocks,
                                    q,
                                    a - num_blocks,
                                ).push(i)
                            } else {
                                aux_sources(
                                    stream_id,
                                    i as nat,
                                    num_auxiliary_blocks,
                                    q,
                                    a - num_blocks,
                                )
                            },
                        )
                    } else {
                        !(#[trigger] mapping@.contains_key(a))
                    }
                by {
                    assert(before.contains_key(a) || !before.contains_key(a));
                    if a == key {
                        assert(later.contains(aux_index));
                    } else {
                        assert(mapping@.contains_key(a) == before.contains_key(a));
                        if num_blocks <= a < num_blocks + num_auxiliary_blocks {
                            assert(later.contains((a - num_blocks) as usize) == earlier.contains(
                                (a - num_blocks) as usize,
                            ));
                        }
                    }
                }
            }
            s += 1;
        }
        proof {
            assert(samples@.take(s as int) == samples@);
        }
        i += 1;
    }
    mapping
}

/// The generator of one check block.
pub fn seed_block_rng(stream_id: StreamId, check_block_id: CheckBlockId) -> (rng:
    Xoshiro256StarStar)
    ensures
        rng_words(rng) == seeded_words(block_seed(stream_id, check_block_id)),
{
    rng_from_seed(check_block_id.wrapping_add(stream_id))
}

/// The generator from which a stream's auxiliary blocks are laid out.
pub fn seed_stream_rng(stream_id: StreamId) -> (rng: Xoshiro256StarStar)
    ensures
        rng_words(rng) == seeded_words(block_seed(stream_id, 0)),
{
    seed_block_rng(stream_id, 0)
}

/// Samples `num` distinct values below `high_exclusive`, none of them
/// `exclude`, or as many as there are, in the order in which the generator
/// first draws them. Fewer come back only where the generator has not shown
/// enough distinct values in `DRAW_LIMIT` draws.
pub fn sample_with_exclusive_repeats(
    rng: &mut Xoshiro256StarStar,
    high_exclusive: usize,
    num: usize,
    exclude: Option<usize>,
) -> (samples: Vec<usize>)
    ensures
        samples@ == sample_distinct(rng_words(*old(rng)), high_exclusive, num, exclude).0,
        rng_words(*final(rng)) == sample_distinct(
            rng_words(*old(rng)),
            high_exclusive,
            num,
            exclude,
        ).1,
        samples@.len() <= sample_limit(high_exclusive, num, exclude),
        samples@.len() == sample_limit(high_exclusive, num, exclude) || sample_draws(
            rng_words(*old(rng)),
            high_exclusive,
            num,
            exclude,
        ) == DRAW_LIMIT,
        samples@.no_duplicates(),
        forall|i: int|
            0 <= i < samples@.len() ==> samples@[i] < high_exclusive && exclude != Some(
                #[trigger] samples@[i],
            ),
{
    let room = match exclude {
        Some(s) => if s < high_exclusive {
            high_exclusive - 1
        } else {
            high_exclusive
        },
        None => high_exclusive,
    };
    let limit = if num < room {
        num
    } else {
        room
    };
    let mut selected: Vec<usize> = Vec::new();
    let mut seen: HashSet<usize> = HashSet::new();
    let mut draws: u64 = 0;
    while selected.len() < limit && draws < DRAW_LIMIT
        invariant
            limit == sample_limit(high_exclusive, num, exclude),
            limit <= high_exclusive,
            draws <= DRAW_LIMIT,
            selected@.len() <= limit,
            selected@.no_duplicates(),
            forall|x: usize| seen@.contains(x) <==> selected@.contains(x),
            forall|i: int|
                0 <= i < selected@.len() ==> selected@[i] < high_exclusive && exclude != Some(
                    #[trigger] selected@[i],
                ),
            draw_distinct(
                rng_words(*rng),
                high_exclusive,
                limit,
                exclude,
                selected@,
                (DRAW_LIMIT - draws) as nat,
            ) == sample_distinct(rng_words(*old(rng)), high_exclusive, num, exclude),
            draws + draw_count(
                rng_words(*rng),
                high_exclusive,
                limit,
                exclude,
                selected@,
                (DRAW_LIMIT - draws) as nat,
            ) == sample_draws(rng_words(*old(rng)), high_exclusive, num, exclude),
        decreases DRAW_LIMIT - draws,
    {
        let ghost before = selected@;
        let sample = draw_below(rng, high_exclusive as u64) as usize;
        draws += 1;
        let excluded = match exclude {
            Some(s) => s == sample,
            None => false,
        };
        if !excluded {
            if seen.insert(sample) {
                selected.push(sample);
                proof {
                    assert forall|x: usize| seen@.contains(x) <==> selected@.contains(x) by {
                        if selected@.contains(x) {
                            let i = choose|i: int| 0 <= i < selected@.len() && selected@[i] == x;
                            if i < before.len() {
                                assert(before[i] == x);
                            }
                        }
                        if before.contains(x) {
                            let i = choose|i: int| 0 <= i < before.len() && before[i] == x;
                            assert(selected@[i] == x);
                        }
                        assert(selected@[before.len() as int] == sample);
                    }
                }
            }
        }
    }
    selected
}

/// The neighbours of check block `check_block_id`: a degree drawn from
/// `degree_distribution`, then that many distinct blocks, the block with the
/// check block's own number left out.
pub fn get_adjacent_blocks(
    check_block_id: CheckBlockId,
    stream_id: StreamId,
    degree_distribution: &DegreeDistribution,
    num_blocks: usize,
) -> (adjacent: Vec<BlockIndex>)
    requires
        num_blocks > 1,
    ensures
        adjacent@ == adjacent_blocks(check_block_id, stream_id, degree_distribution@, num_blocks),
        adjacent@.no_duplicates(),
        forall|i: int| 0 <= i < adjacent@.len() ==> #[trigger] adjacent@[i] < num_blocks,
        check_block_id < num_blocks ==> !adjacent@.contains(check_block_id as usize),
        adjacent@.len() <= degree_distribution@.len(),
{
    let mut rng = seed_block_rng(stream_id, check_block_id);
    let degree = degree_distribution.sample_degree(&mut rng);
    let exclude = if check_block_id < num_blocks as u64 {
        Some(check_block_id as usize)
    } else {
        None
    };
    let adjacent = sample_with_exclusive_repeats(&mut rng, num_blocks, degree, exclude);
    proof {
        if check_block_id < num_blocks && adjacent@.contains(check_block_id as usize) {
            let i = choose|i: int|
                0 <= i < adjacent@.len() && adjacent@[i] == check_block_id as usize;
            assert(exclude != Some(adjacent@[i]));
        }
    }
    adjacent
}

} // verus!
