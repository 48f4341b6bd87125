//! What sender and receiver have of each other.
use crate::decode::Decoder;
use crate::model::{Code, Peeling};
use crate::encode::{is_augmented, lemma_config_sizes, lemma_source_bytes, Encoder};
use crate::types::StreamId;
use crate::undecoded::{degree_of, UndecodedDegree};
use crate::util::{aux_sources, lemma_aux_sources_ascend};
use crate::xor::{block_byte, is_xor_of, lemma_xor_agree};
use vstd::prelude::*;

verus! {

/// `decoder` expects the stream that `encoder` sends.
pub open spec fn paired(decoder: Decoder, encoder: Encoder) -> bool {
    &&& decoder.num_blocks == encoder.num_blocks
    &&& decoder.num_augmented_blocks == encoder.num_blocks + encoder.num_aux_blocks
    &&& decoder.block_size == encoder.block_size
    &&& decoder.q == encoder.q
    &&& decoder.stream_id == encoder.stream_id
    &&& decoder.degree_distribution@ == encoder.degree_distribution@
}

/// The source blocks determine the auxiliary blocks: two augmented messages
/// of one stream with the same source blocks are the same.
pub proof fn lemma_augmented_unique(
    a: Seq<u8>,
    b: Seq<u8>,
    stream_id: StreamId,
    num_blocks: usize,
    num_aux_blocks: usize,
    q: usize,
    block_size: usize,
)
    requires
        num_blocks + num_aux_blocks <= usize::MAX,
        block_size > 0,
        is_augmented(a, stream_id, num_blocks, num_aux_blocks, q, block_size),
        is_augmented(b, stream_id, num_blocks, num_aux_blocks, q, block_size),
        a.take(num_blocks * block_size) == b.take(num_blocks * block_size),
    ensures
        a == b,
{
    let size = block_size as int;
    let total = num_blocks + num_aux_blocks;
    vstd::arithmetic::mul::lemma_mul_inequality(num_blocks as int, total as int, size);
    assert forall|i: int| 0 <= i < a.len() implies a[i] == b[i] by {
        let x = i / size;
        let k = i % size;
        vstd::arithmetic::div_mod::lemma_fundamental_div_mod(i, size);
        vstd::arithmetic::div_mod::lemma_mod_bound(i, size);
        assert(size * x == x * size) by (nonlinear_arith);
        if i < num_blocks * block_size {
            assert(a[i] == a.take(num_blocks * block_size)[i]);
            assert(b[i] == b.take(num_blocks * block_size)[i]);
        } else {
            assert(num_blocks <= x < total) by (nonlinear_arith)
                requires
                    num_blocks * size <= i < total * size,
                    i == x * size + k,
                    0 <= k < size,
            ;
            let j = x - num_blocks;
            let sources = aux_sources(stream_id, num_blocks as nat, num_aux_blocks, q, j);
            lemma_aux_sources_ascend(stream_id, num_blocks as nat, num_aux_blocks, q, j);
            lemma_source_bytes(sources, num_blocks, block_size, k);
            assert forall|s: int| 0 <= s < sources.len() implies a[#[trigger] sources[s]
                * block_size + k] == b[sources[s] * block_size + k] by {
                let y = sources[s] * block_size + k;
                assert(a[y] == a.take(num_blocks * block_size)[y]);
                assert(b[y] == b.take(num_blocks * block_size)[y]);
            }
            lemma_xor_agree(a, b, sources, block_size, k);
            assert(block_byte(a, x, block_size, k) == block_byte(b, x, block_size, k));
        }
    }
    assert(a =~= b);
}

/// Determinism of the sender: two encoders of one stream that hold the same
/// source blocks send the same bytes under every identifier.
pub proof fn lemma_encoders_agree(
    first: Encoder,
    second: Encoder,
    check_block_id: u64,
    first_block: Seq<u8>,
    second_block: Seq<u8>,
)
    requires
        first.wf(),
        second.wf(),
        first.num_blocks == second.num_blocks,
        first.num_aux_blocks == second.num_aux_blocks,
        first.block_size == second.block_size,
        first.q == second.q,
        first.stream_id == second.stream_id,
        first.degree_distribution@ == second.degree_distribution@,
        first.augmented_data@.take(first.num_blocks * first.block_size)
            == second.augmented_data@.take(first.num_blocks * first.block_size),
        is_xor_of(
            first_block,
            first.augmented_data@,
            first.neighbours(check_block_id),
            first.block_size,
        ),
        is_xor_of(
            second_block,
            second.augmented_data@,
            second.neighbours(check_block_id),
            second.block_size,
        ),
    ensures
        first.augmented_data@ == second.augmented_data@,
        first_block == second_block,
{
    lemma_config_sizes(
        first.num_blocks as int,
        first.num_aux_blocks as int,
        first.block_size as int,
    );
    lemma_augmented_unique(
        first.augmented_data@,
        second.augmented_data@,
        first.stream_id,
        first.num_blocks,
        first.num_aux_blocks,
        first.q,
        first.block_size,
    );
    assert(first_block =~= second_block);
}

/// The encoder and the decoder that one coder makes for one message are
/// paired, and the decoder starts out in agreement with the encoder's
/// augmented message.
pub proof fn lemma_coder_pairs(
    decoder: Decoder,
    encoder: Encoder,
    data: Seq<u8>,
    num_aux_blocks: usize,
    pad: usize,
)
    requires
        encoder.holds(
            data,
            encoder.block_size,
            encoder.stream_id,
            num_aux_blocks,
            encoder.degree_distribution@,
            encoder.q,
            pad,
        ),
        decoder.is_fresh(
            encoder.num_blocks,
            encoder.block_size,
            encoder.stream_id,
            num_aux_blocks,
            encoder.degree_distribution@,
            encoder.q,
            pad,
        ),
    ensures
        paired(decoder, encoder),
        decoder.sound_for(encoder.augmented_data@),
        decoder.pad == encoder.num_blocks * encoder.block_size - data.len(),
        encoder.augmented_data@.take(data.len() as int) == data,
{
}

/// What an encoder sends is what a paired decoder takes for a check block
/// of the encoder's augmented message.
pub proof fn lemma_sent_is_genuine(
    decoder: Decoder,
    encoder: Encoder,
    check_block_id: u64,
    block: Seq<u8>,
)
    requires
        paired(decoder, encoder),
        is_xor_of(
            block,
            encoder.augmented_data@,
            encoder.neighbours(check_block_id),
            encoder.block_size,
        ),
    ensures
        decoder.genuine(encoder.augmented_data@, check_block_id, block),
{
}

/// Round trip: a decoder that has taken in nothing but what a paired encoder
/// sent, and misses no source block, holds the encoder's message, byte for
/// byte.
pub proof fn lemma_round_trip(decoder: Decoder, encoder: Encoder, data: Seq<u8>)
    requires
        paired(decoder, encoder),
        decoder.consistent(),
        decoder.sound_for(encoder.augmented_data@),
        decoder.num_undecoded_data_blocks == 0,
        data.len() <= encoder.augmented_data@.len(),
        encoder.augmented_data@.take(data.len() as int) == data,
        decoder.pad == encoder.num_blocks * encoder.block_size - data.len(),
    ensures
        decoder.message() == data,
{
    decoder.lemma_complete_message(encoder.augmented_data@);
}

/// Determinism of the receiver: two decoders of one stream that hold the
/// same hold the same after they took in the same check block, and have the
/// same message to give.
pub proof fn lemma_decoding_is_deterministic(
    first: Decoder,
    second: Decoder,
    check_block_id: u64,
    check_block: Seq<u8>,
)
    requires
        first.code() == second.code(),
        first.peeling() == second.peeling(),
    ensures
        first.peeling().decode(first.code(), check_block_id, check_block)
            == second.peeling().decode(second.code(), check_block_id, check_block),
        first.peeling().decode(first.code(), check_block_id, check_block).message(first.code())
            == second.peeling().decode(second.code(), check_block_id, check_block).message(
            second.code(),
        ),
{
}

/// Idempotence: a check block all of whose neighbours are decoded changes
/// nothing, whatever its bytes. Such is every check block that was taken in
/// before and found with at most one undecoded neighbour.
pub proof fn lemma_known_block_is_idle(
    held: Peeling,
    code: Code,
    check_block_id: u64,
    check_block: Seq<u8>,
)
    requires
        held.stack.len() == 0,
        held.aux_stack.len() == 0,
        degree_of(code.neighbours(check_block_id), held.decoded) == UndecodedDegree::Zero,
    ensures
        held.decode(code, check_block_id, check_block) == held,
{
}

/// Determinism of the receiver on what a sender sent: two decoders of one
/// message that agree with the same augmented message, and miss no source
/// block, hold the same message.
pub proof fn lemma_decoders_agree(first: Decoder, second: Decoder, truth: Seq<u8>)
    requires
        first.same_code(second),
        first.consistent(),
        second.consistent(),
        first.sound_for(truth),
        second.sound_for(truth),
        first.num_undecoded_data_blocks == 0,
        second.num_undecoded_data_blocks == 0,
    ensures
        first.message() == second.message(),
{
    first.lemma_complete_message(truth);
    second.lemma_complete_message(truth);
}

} // verus!
