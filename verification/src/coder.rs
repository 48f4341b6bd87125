//! A coder: the parameters that sender and receiver agree on, from which
//! encoders and decoders are made.
use crate::decode::{fresh_peeling, Decoder};
use crate::encode::{
    augmented_message, blocks_needed, check_block_of, config_error, lemma_blocks_needed, Encoder,
};
use crate::laws::{lemma_coder_pairs, lemma_sent_is_genuine, paired};
use crate::model::{Code, Peeling};
use crate::rng::DegreeDistribution;
use crate::types::{CheckBlockId, CodeError, StreamId};
use vstd::prelude::*;

verus! {

/// The overhead that a code allows for, as a ratio: a number strictly
/// between zero and one.
#[derive(Clone, Copy, Debug, PartialEq, Eq, Structural)]
pub struct Epsilon {
    pub numerator: u64,
    pub denominator: u64,
}

impl Epsilon {
    /// The ratio lies strictly between zero and one.
    pub open spec fn valid(self) -> bool {
        0 < self.numerator < self.denominator
    }
}

/// The usual epsilon: a hundredth.
pub open spec fn usual_epsilon() -> Epsilon {
    Epsilon { numerator: 1, denominator: 100 }
}

/// `55 * q * epsilon * num_blocks`, times the denominator of epsilon.
pub open spec fn aux_blocks_scaled(num_blocks: int, epsilon: Epsilon, q: int) -> int {
    55 * q * epsilon.numerator * num_blocks
}

/// The number of auxiliary blocks of a code: `0.55 * q * epsilon *
/// num_blocks`, rounded up.
pub open spec fn aux_blocks(num_blocks: int, epsilon: Epsilon, q: int) -> int {
    let scaled = aux_blocks_scaled(num_blocks, epsilon, q);
    let divisor = 100 * epsilon.denominator;
    if scaled % divisor == 0 {
        scaled / divisor
    } else {
        scaled / divisor + 1
    }
}

/// Epsilon is valid, and the number of auxiliary blocks can be computed and
/// held on this machine.
pub open spec fn aux_blocks_fit(num_blocks: int, epsilon: Epsilon, q: int) -> bool {
    &&& epsilon.valid()
    &&& aux_blocks_scaled(num_blocks, epsilon, q) <= u128::MAX
    &&& aux_blocks(num_blocks, epsilon, q) <= usize::MAX
}

/// The number of auxiliary blocks for `num_blocks` source blocks.
pub fn num_aux_blocks(num_blocks: usize, epsilon: Epsilon, q: usize) -> (counted: Result<
    usize,
    CodeError,
>)
    ensures
        counted.is_ok() == aux_blocks_fit(num_blocks as int, epsilon, q as int),
        counted.is_ok() ==> counted.unwrap() == aux_blocks(num_blocks as int, epsilon, q as int),
        counted.is_err() ==> counted.unwrap_err() == CodeError::ConfigError,
{
    if epsilon.numerator == 0 || epsilon.numerator >= epsilon.denominator {
        return Err(CodeError::ConfigError);
    }
    let ghost scaled = aux_blocks_scaled(num_blocks as int, epsilon, q as int);
    let ghost divisor = 100 * epsilon.denominator;
    if num_blocks == 0 || q == 0 {
        proof {
            assert(scaled == 0) by (nonlinear_arith)
                requires
                    scaled == 55 * q * epsilon.numerator * num_blocks,
                    num_blocks == 0 || q == 0,
            ;
            assert(0int % divisor == 0 && 0int / divisor == 0) by (nonlinear_arith)
                requires
                    divisor > 0,
            ;
        }
        return Ok(0);
    }
    let by_q: u128 = 55 * (q as u128);
    let by_epsilon = match by_q.checked_mul(epsilon.numerator as u128) {
        Some(product) => product,
        None => {
            proof {
                assert(scaled > u128::MAX) by (nonlinear_arith)
                    requires
                        scaled == 55 * q * epsilon.numerator * num_blocks,
                        55 * q * epsilon.numerator > u128::MAX,
                        num_blocks >= 1,
                ;
            }
            return Err(CodeError::ConfigError);
        },
    };
    let by_blocks = match by_epsilon.checked_mul(num_blocks as u128) {
        Some(product) => product,
        None => {
            return Err(CodeError::ConfigError);
        },
    };
    let divisor: u128 = 100 * (epsilon.denominator as u128);
    proof {
        let whole = by_blocks as int / divisor as int;
        vstd::arithmetic::div_mod::lemma_fundamental_div_mod(by_blocks as int, divisor as int);
        vstd::arithmetic::div_mod::lemma_mod_bound(by_blocks as int, divisor as int);
        vstd::arithmetic::div_mod::lemma_div_pos_is_pos(by_blocks as int, divisor as int);
        assert(whole < u128::MAX) by (nonlinear_arith)
            requires
                by_blocks == divisor * whole + by_blocks % divisor,
                0 <= by_blocks % divisor,
                divisor >= 2,
                0 <= whole,
                by_blocks <= u128::MAX,
        ;
    }
    let count = if by_blocks % divisor == 0 {
        by_blocks / divisor
    } else {
        by_blocks / divisor + 1
    };
    if count > usize::MAX as u128 {
        return Err(CodeError::ConfigError);
    }
    Ok(count as usize)
}

/// The check blocks of the augmented message `truth` with the identifiers
/// below `limit`, in order.
pub open spec fn sent_blocks(truth: Seq<u8>, code: Code, limit: nat) -> Seq<
    (CheckBlockId, Seq<u8>),
> {
    Seq::new(
        limit,
        |i: int| (i as u64, check_block_of(truth, code.neighbours(i as u64), code.block_size)),
    )
}

/// The parameters of a code, with the degree distribution that belongs to
/// epsilon.
#[derive(Clone, Debug)]
pub struct OnlineCoder {
    pub block_size: usize,
    pub epsilon: Epsilon,
    pub q: usize,
    pub degree_distribution: DegreeDistribution,
}

impl OnlineCoder {
    /// The coder with the usual parameters: epsilon a hundredth, and three
    /// picks for every source block.
    pub fn new(block_size: usize, degree_distribution: DegreeDistribution) -> (coder: OnlineCoder)
        ensures
            coder.block_size == block_size,
            coder.epsilon == usual_epsilon(),
            coder.q == 3,
            coder.degree_distribution@ == degree_distribution@,
    {
        Self::with_parameters(
            block_size,
            Epsilon { numerator: 1, denominator: 100 },
            3,
            degree_distribution,
        )
    }

    /// The coder with the given parameters.
    pub fn with_parameters(
        block_size: usize,
        epsilon: Epsilon,
        q: usize,
        degree_distribution: DegreeDistribution,
    ) -> (coder: OnlineCoder)
        ensures
            coder.block_size == block_size,
            coder.epsilon == epsilon,
            coder.q == q,
            coder.degree_distribution@ == degree_distribution@,
    {
        OnlineCoder { block_size, epsilon, q, degree_distribution }
    }

    /// The number of auxiliary blocks that go with `num_blocks` source
    /// blocks in this code.
    pub open spec fn aux_blocks(&self, num_blocks: int) -> int {
        aux_blocks(num_blocks, self.epsilon, self.q as int)
    }

    /// The parameters of stream `stream_id` for a message of `len` bytes.
    pub open spec fn code(&self, len: int, stream_id: StreamId) -> Code {
        let num_blocks = blocks_needed(len, self.block_size as int);
        Code {
            stream_id,
            weights: self.degree_distribution@,
            num_blocks: num_blocks as usize,
            num_augmented_blocks: (num_blocks + self.aux_blocks(num_blocks)) as usize,
            block_size: self.block_size,
            q: self.q,
            pad: (num_blocks * self.block_size - len) as usize,
        }
    }

    /// What a decoder of this coder holds after it was fed the check blocks
    /// of `data` with the identifiers below `limit`, in order, up to the one
    /// that leaves no source block missing.
    pub open spec fn received(&self, data: Seq<u8>, stream_id: StreamId, limit: u64) -> Peeling {
        let code = self.code(data.len() as int, stream_id);
        let num_aux_blocks = (code.num_augmented_blocks - code.num_blocks) as usize;
        let truth = augmented_message(
            data,
            stream_id,
            code.num_blocks,
            num_aux_blocks,
            self.q,
            self.block_size,
        );
        fresh_peeling(stream_id, code.num_blocks, num_aux_blocks, self.q, self.block_size).feed(
            code,
            sent_blocks(truth, code, limit as nat),
            0,
        )
    }

    /// Why `data` cannot be encoded, if it cannot: the parameters are no
    /// code for it, or it is empty.
    pub open spec fn encode_error(&self, len: int) -> Option<CodeError> {
        let num_blocks = blocks_needed(len, self.block_size as int);
        if self.block_size == 0 || !aux_blocks_fit(num_blocks, self.epsilon, self.q as int) {
            Some(CodeError::ConfigError)
        } else if len == 0 {
            Some(CodeError::LengthError)
        } else if config_error(num_blocks, self.aux_blocks(num_blocks), self.block_size as int) {
            Some(CodeError::ConfigError)
        } else {
            None
        }
    }

    /// Why a message of `num_blocks` blocks with `pad` bytes of padding
    /// cannot be decoded, if it cannot: the parameters are no code for it,
    /// or the padding is longer than the message.
    pub open spec fn decode_error(&self, num_blocks: int, pad: int) -> Option<CodeError> {
        if !aux_blocks_fit(num_blocks, self.epsilon, self.q as int) || config_error(
            num_blocks,
            self.aux_blocks(num_blocks),
            self.block_size as int,
        ) {
            Some(CodeError::ConfigError)
        } else if pad > num_blocks * self.block_size {
            Some(CodeError::LengthError)
        } else {
            None
        }
    }

    /// An encoder of `data` for stream `stream_id`, and the number of bytes
    /// of padding, which the receiver has to be told.
    pub fn encode(&self, data: &[u8], stream_id: StreamId) -> (made: Result<
        (Encoder, usize),
        CodeError,
    >)
        ensures
            made.is_err() == self.encode_error(data@.len() as int).is_some(),
            made.is_err() ==> Some(made.unwrap_err()) == self.encode_error(data@.len() as int),
            made.is_ok() ==> made.unwrap().0.holds(
                data@,
                self.block_size,
                stream_id,
                self.aux_blocks(blocks_needed(data@.len() as int, self.block_size as int)) as usize,
                self.degree_distribution@,
                self.q,
                made.unwrap().1,
            ),
    {
        if self.block_size == 0 {
            return Err(CodeError::ConfigError);
        }
        let len = data.len();
        proof {
            lemma_blocks_needed(len as int, self.block_size as int);
        }
        let num_blocks = if len % self.block_size == 0 {
            len / self.block_size
        } else {
            len / self.block_size + 1
        };
        let num_aux_blocks = match num_aux_blocks(num_blocks, self.epsilon, self.q) {
            Ok(count) => count,
            Err(e) => {
                return Err(e);
            },
        };
        Encoder::new(
            data,
            self.block_size,
            stream_id,
            num_aux_blocks,
            self.degree_distribution.clone(),
            self.q,
        )
    }

    /// A decoder for stream `stream_id`, whose message has `num_blocks`
    /// blocks, the last `pad` bytes of which are padding.
    pub fn decode(&self, num_blocks: usize, stream_id: StreamId, pad: usize) -> (made: Result<
        Decoder,
        CodeError,
    >)
        ensures
            made.is_err() == self.decode_error(num_blocks as int, pad as int).is_some(),
            made.is_err() ==> Some(made.unwrap_err()) == self.decode_error(
                num_blocks as int,
                pad as int,
            ),
            made.is_ok() ==> made.unwrap().is_fresh(
                num_blocks,
                self.block_size,
                stream_id,
                self.aux_blocks(num_blocks as int) as usize,
                self.degree_distribution@,
                self.q,
                pad,
            ),
    {
        Decoder::with_parameters(
            num_blocks,
            self.block_size,
            stream_id,
            self.epsilon,
            self.q,
            pad,
            self.degree_distribution.clone(),
        )
    }

    /// Sends `data` to a decoder of this coder: encodes it for stream
    /// `stream_id` and feeds the check blocks with the identifiers below
    /// `limit`, in order, until the decoder has the message. Gives what the
    /// decoder made of them: the message, which is `data`, where those check
    /// blocks leave no source block missing, and nothing where they do.
    pub fn round_trip(&self, data: &[u8], stream_id: StreamId, limit: u64) -> (sent: Result<
        Option<Vec<u8>>,
        CodeError,
    >)
        ensures
            sent.is_err() == self.encode_error(data@.len() as int).is_some(),
            sent.is_err() ==> Some(sent.unwrap_err()) == self.encode_error(data@.len() as int),
            sent.is_ok() ==> sent.unwrap().is_some() == (self.received(
                data@,
                stream_id,
                limit,
            ).missing == 0),
            sent.is_ok() && sent.unwrap().is_some() ==> sent.unwrap().unwrap()@ == data@,
    {
        let (encoder, pad) = match self.encode(data, stream_id) {
            Ok(made) => made,
            Err(e) => {
                return Err(e);
            },
        };
        proof {
            lemma_blocks_needed(data@.len() as int, self.block_size as int);
            vstd::arithmetic::mul::lemma_mul_inequality(
                1,
                encoder.num_blocks as int,
                self.block_size as int,
            );
        }
        let mut decoder = match self.decode(encoder.num_blocks, stream_id, pad) {
            Ok(made) => made,
            Err(e) => {
                return Err(e);
            },
        };
        proof {
            lemma_coder_pairs(
                decoder,
                encoder,
                data@,
                self.aux_blocks(encoder.num_blocks as int) as usize,
                pad,
            );
        }
        let ghost code = self.code(data@.len() as int, stream_id);
        let ghost start = decoder.peeling();
        let ghost blocks = sent_blocks(encoder.augmented_data@, code, limit as nat);
        proof {
            assert(decoder.code() == code);
            assert(start.feed(code, blocks, 0) == self.received(data@, stream_id, limit));
        }
        let mut check_block_id: u64 = 0;
        while check_block_id < limit
            invariant
                check_block_id <= limit,
                decoder.code() == code,
                blocks == sent_blocks(encoder.augmented_data@, code, limit as nat),
                decoder.peeling().feed(code, blocks, check_block_id as int) == start.feed(
                    code,
                    blocks,
                    0,
                ),
                start.feed(code, blocks, 0) == self.received(data@, stream_id, limit),
                decoder.num_undecoded_data_blocks > 0,
                self.encode_error(data@.len() as int).is_none(),
                encoder.wf(),
                decoder.wf(),
                paired(decoder, encoder),
                decoder.sound_for(encoder.augmented_data@),
                decoder.pad == encoder.num_blocks * encoder.block_size - data@.len(),
                encoder.augmented_data@.take(data@.len() as int) == data@,
            decreases limit - check_block_id,
        {
            let check_block = encoder.check_block(check_block_id);
            proof {
                lemma_sent_is_genuine(decoder, encoder, check_block_id, check_block@);
                assert(encoder.neighbours(check_block_id) == code.neighbours(check_block_id));
                assert(blocks[check_block_id as int] == (check_block_id, check_block@));
            }
            match decoder.decode_block(check_block_id, check_block.as_slice()) {
                Ok(Some(message)) => {
                    return Ok(Some(message));
                },
                Ok(None) => {},
                Err(e) => {
                    return Err(e);
                },
            }
            check_block_id += 1;
        }
        Ok(None)
    }
}

} // verus!
