use on_line_codes::coder::{num_aux_blocks, Epsilon, OnlineCoder};
use on_line_codes::decode::{DecodeResult, Decoder};
use on_line_codes::encode::Encoder;
use on_line_codes::rng::DegreeDistribution;
use on_line_codes::types::CodeError;
use on_line_codes::util::{get_adjacent_blocks, seed_block_rng};
use rand::distributions::{Distribution, WeightedIndex};
use rand_core::{Error, RngCore, SeedableRng};
use rand_xoshiro::Xoshiro256StarStar;

const GRID: u64 = 1 << 52;

const PARAGRAPH: &str =
    "Gormenghast, that is the main massing of the original stone, taken by itself \
     would have displayed a certain ponderous architectural quality were it not \
     for the circumfusion of mean dwellings that swarmed like an epidemic around \
     its outer walls. They sprawled over the sloping earth, each one have way \
     over its neighbor until, held back by the castle ramparts, the innermost of \
     these hovels laid hold on the great walls, clamping themselves thereto like \
     limpets to a rock. These dwellings, by ancient law, were granted this chill \
     intimacy with the stronghold that loomed above them. Over their irregular \
     roofs would fall, thoughout the seasons, the shadows of time-eaten buttresses, \
     of broken and lofty turrets, and-most enormous of all-the shadow of the Tower of \
     Flints. This tower, patched uneavenly with black ivy, arose like a mutilated \
     finger from among the fists of knuckled masonry and pointed blasphemously at heaven. \
     At night the owls made of it an echoing throat; by day it stood voiceless and cast \
     its long shadow.";

/// A generator that gives the same word for ever.
struct Fixed(u64);

impl RngCore for Fixed {
    fn next_u32(&mut self) -> u32 {
        (self.0 >> 32) as u32
    }

    fn next_u64(&mut self) -> u64 {
        self.0
    }

    fn fill_bytes(&mut self, dest: &mut [u8]) {
        for byte in dest.iter_mut() {
            *byte = self.0 as u8;
        }
    }

    fn try_fill_bytes(&mut self, dest: &mut [u8]) -> Result<(), Error> {
        self.fill_bytes(dest);
        Ok(())
    }
}

fn degree_probabilities(epsilon: f64) -> Vec<f64> {
    let f = ((f64::ln(epsilon * epsilon / 4.0)) / f64::ln(1.0 - epsilon / 2.0)).ceil() as usize;
    let mut p = Vec::with_capacity(f);
    let first = 1.0 - ((1.0 + 1.0 / f as f64) / (1.0 + epsilon));
    p.push(first);
    let c = (1.0 - first) * f as f64 / (f - 1) as f64;
    for i in 2..=f {
        p.push(c / (i * (i - 1)) as f64);
    }
    p
}

/// The probabilities as integer weights: weight `i` counts the 52-bit draws
/// on which a sampler over the probabilities gives index `i`.
fn degree_weights(epsilon: f64) -> Vec<u64> {
    let p = degree_probabilities(epsilon);
    let sampler = WeightedIndex::new(&p).expect("serious probability calculation error");
    let mut weights = Vec::with_capacity(p.len());
    let mut below = 0u64;
    for i in 0..p.len() - 1 {
        let (mut lo, mut hi) = (below, GRID);
        while lo < hi {
            let mid = lo + (hi - lo) / 2;
            if sampler.sample(&mut Fixed(mid << 12)) > i {
                hi = mid;
            } else {
                lo = mid + 1;
            }
        }
        weights.push(lo - below);
        below = lo;
    }
    weights.push(GRID - below);
    weights
}

const HUNDREDTH: Epsilon = Epsilon { numerator: 1, denominator: 100 };

fn distribution(epsilon: f64) -> DegreeDistribution {
    DegreeDistribution::new(&degree_weights(epsilon)).unwrap()
}

/// An encoder of `data` and a decoder for it, in the code with epsilon a
/// hundredth.
fn coder(
    data: &[u8],
    block_size: usize,
    epsilon: f64,
    q: usize,
    stream_id: u64,
) -> (Encoder, Decoder) {
    assert_eq!(epsilon, 0.01);
    let coder = OnlineCoder::with_parameters(block_size, HUNDREDTH, q, distribution(epsilon));
    let (encoder, pad) = coder.encode(data, stream_id).unwrap();
    let decoder = coder.decode(encoder.num_blocks, stream_id, pad).unwrap();
    assert_eq!(encoder.num_blocks, (data.len() + block_size - 1) / block_size);
    assert_eq!(decoder.num_augmented_blocks, encoder.num_blocks + encoder.num_aux_blocks);
    (encoder, decoder)
}

fn usual_coder(block_size: usize) -> OnlineCoder {
    OnlineCoder::with_parameters(block_size, HUNDREDTH, 3, distribution(0.01))
}

#[test]
fn tiny_identity() {
    let message = usual_coder(1).round_trip(b"01", 0xDEADBEEF, 500);
    assert_eq!(message, Ok(Some(b"01".to_vec())));
}

#[test]
fn ascii_paragraph() {
    let data = PARAGRAPH.as_bytes();
    let limit = data.len() as u64 + 500;
    let message = usual_coder(1).round_trip(data, 0xDEADBEEF, limit);
    assert_eq!(message, Ok(Some(data.to_vec())));
}

#[test]
fn random_four_kib() {
    let mut source = Xoshiro256StarStar::seed_from_u64(4096);
    let mut data = vec![0u8; 4096];
    source.fill_bytes(&mut data);
    let message = usual_coder(1024).round_trip(&data, 7, 64);
    assert_eq!(message, Ok(Some(data)));
}

#[test]
fn padded_message_round_trip() {
    let data: Vec<u8> = (0..=99u8).collect();
    let (encoder, mut decoder) = coder(&data, 8, 0.01, 3, 42);
    assert_eq!(encoder.num_blocks, 13);
    assert_eq!(decoder.pad, 4);
    assert_eq!(&encoder.augmented_data[..100], &data[..]);
    assert_eq!(&encoder.augmented_data[100..104], &[0u8; 4][..]);
    let mut decoded = None;
    for id in 0..2000u64 {
        if let Some(message) = decoder.decode_block(id, &encoder.check_block(id)).unwrap() {
            decoded = Some(message);
            break;
        }
    }
    assert_eq!(decoded, Some(data));
}

#[test]
fn degree_distribution_sanity() {
    let p = degree_probabilities(0.01);
    let f = (f64::ln(0.01 * 0.01 / 4.0) / f64::ln(1.0 - 0.01 / 2.0)).ceil();
    assert_eq!(f, 2115.0);
    assert_eq!(p.len(), 2115);
    assert!((p[0] - 0.0099).abs() < 1e-3);
    let expected_first = 1.0 - (1.0 + 1.0 / 2115.0) / 1.01;
    assert!((p[0] - expected_first).abs() < 1e-15);
    assert!((p[1] - (1.0 - p[0]) * 2115.0 / (2114.0 * 2.0)).abs() < 1e-15);
    let sum: f64 = p.iter().sum();
    assert!((sum - 1.0).abs() < 1e-12);
    let weights = degree_weights(0.01);
    assert_eq!(weights.len(), 2115);
    assert_eq!(weights.iter().sum::<u64>(), GRID);
    assert!(DegreeDistribution::new(&weights).is_ok());
    for i in 0..weights.len() {
        let share = weights[i] as f64 / GRID as f64;
        assert!((share - p[i]).abs() < 1e-12);
    }
}

#[test]
fn aux_block_count() {
    assert_eq!(num_aux_blocks(1000, HUNDREDTH, 3), Ok(17));
    assert_eq!(num_aux_blocks(2, HUNDREDTH, 3), Ok(1));
    assert_eq!(num_aux_blocks(986, HUNDREDTH, 3), Ok(17));
    assert_eq!(num_aux_blocks(2000, HUNDREDTH, 3), Ok(33));
    assert_eq!(num_aux_blocks(2001, HUNDREDTH, 3), Ok(34));
    assert_eq!(num_aux_blocks(0, HUNDREDTH, 3), Ok(0));
    assert_eq!(num_aux_blocks(1000, HUNDREDTH, 0), Ok(0));
    let half = Epsilon { numerator: 1, denominator: 2 };
    assert_eq!(num_aux_blocks(4, half, 1), Ok(2));
    assert_eq!(num_aux_blocks(3, half, 1), Ok(1));
    assert_eq!((0.55_f64 * 3.0 * 0.01 * 1000.0).ceil() as usize, 17);
}

#[test]
fn epsilon_must_lie_between_zero_and_one() {
    let bad = |numerator, denominator| num_aux_blocks(10, Epsilon { numerator, denominator }, 3);
    assert_eq!(bad(0, 100), Err(CodeError::ConfigError));
    assert_eq!(bad(100, 100), Err(CodeError::ConfigError));
    assert_eq!(bad(101, 100), Err(CodeError::ConfigError));
    assert_eq!(bad(1, 0), Err(CodeError::ConfigError));
    assert_eq!(bad(0, 0), Err(CodeError::ConfigError));
    assert_eq!(bad(99, 100), Ok(17));
    let nearly_one = Epsilon { numerator: u64::MAX - 1, denominator: u64::MAX };
    assert_eq!(num_aux_blocks(usize::MAX, nearly_one, usize::MAX), Err(CodeError::ConfigError));
    assert_eq!(num_aux_blocks(usize::MAX, nearly_one, 2), Err(CodeError::ConfigError));
    assert_eq!(num_aux_blocks(1 << 40, nearly_one, 1), Ok(604731395277));
    let over_one = Epsilon { numerator: 3, denominator: 2 };
    let coder = OnlineCoder::with_parameters(4, over_one, 3, distribution(0.01));
    assert_eq!(coder.encode(b"abcdefgh", 1).err(), Some(CodeError::ConfigError));
    assert_eq!(coder.decode(2, 1, 0).err(), Some(CodeError::ConfigError));
}

#[test]
fn the_usual_coder_has_epsilon_a_hundredth_and_three_picks() {
    let coder = OnlineCoder::new(7, distribution(0.01));
    assert_eq!((coder.block_size, coder.epsilon, coder.q), (7, HUNDREDTH, 3));
    let data: Vec<u8> = (0..100u8).collect();
    let (encoder, pad) = coder.encode(&data, 5).unwrap();
    assert_eq!((encoder.num_blocks, encoder.num_aux_blocks, pad), (15, 1, 5));
    let usual = Decoder::new(15, 7, 5, pad, distribution(0.01)).unwrap();
    let same = coder.decode(15, 5, pad).unwrap();
    assert_eq!(usual.num_augmented_blocks, 16);
    assert_eq!(usual.q, 3);
    assert_eq!(usual.unused_aux_block_adjacencies, same.unused_aux_block_adjacencies);
    let given =
        Decoder::with_parameters(15, 7, 5, HUNDREDTH, 3, pad, distribution(0.01)).unwrap();
    assert_eq!(given.unused_aux_block_adjacencies, same.unused_aux_block_adjacencies);
    assert_eq!(coder.encode(b"", 5).err(), Some(CodeError::LengthError));
    assert_eq!(coder.decode(15, 5, 106).err(), Some(CodeError::LengthError));
    assert_eq!(coder.decode(0, 5, 0).err(), Some(CodeError::ConfigError));
    let no_size = OnlineCoder::new(0, distribution(0.01));
    assert_eq!(no_size.encode(b"abc", 5).err(), Some(CodeError::ConfigError));
    assert_eq!(no_size.encode(b"", 5).err(), Some(CodeError::ConfigError));
    assert_eq!(no_size.decode(3, 5, 0).err(), Some(CodeError::ConfigError));
}

#[test]
fn integer_weights_sample_as_the_probabilities_do() {
    let p = degree_probabilities(0.01);
    let by_probability = WeightedIndex::new(&p).unwrap();
    let by_weight = distribution(0.01);
    for seed in 0..5000u64 {
        let mut ours = seed_block_rng(seed, 77);
        let mut theirs = Xoshiro256StarStar::seed_from_u64(seed.wrapping_add(77));
        let degree = by_weight.sample_degree(&mut ours);
        assert_eq!(degree, 1 + by_probability.sample(&mut theirs));
        assert_eq!(ours.next_u64(), theirs.next_u64());
    }
}

#[test]
fn cross_implementation_vector() {
    let dist = distribution(0.01);
    let mut adjacent = get_adjacent_blocks(0, 1, &dist, 10);
    let again = get_adjacent_blocks(0, 1, &distribution(0.01), 10);
    assert_eq!(adjacent, again);
    adjacent.sort();
    assert_eq!(adjacent, vec![1, 3, 5, 6]);
}

#[test]
fn encoders_are_deterministic() {
    let data = PARAGRAPH.as_bytes();
    let (first, _) = coder(data, 16, 0.01, 3, 99);
    let (mut second, _) = coder(data, 16, 0.01, 3, 99);
    assert_eq!(first.augmented_data, second.augmented_data);
    for id in 0..200u64 {
        let (next_id, block) = second.next_block();
        assert_eq!(next_id, id);
        assert_eq!(first.check_block(id), block);
        assert_eq!(block.len(), 16);
    }
    let (other, _) = coder(data, 16, 0.01, 3, 100);
    assert_ne!(first.check_block(3), other.check_block(3));
}

#[test]
fn decoders_are_deterministic() {
    let data = PARAGRAPH.as_bytes();
    let (encoder, mut first) = coder(data, 16, 0.01, 3, 5);
    let (_, mut second) = coder(data, 16, 0.01, 3, 5);
    let mut done = false;
    for id in 0..1000u64 {
        let block = encoder.check_block(id);
        let a = first.decode_block(id, &block).unwrap();
        let b = second.decode_block(id, &block).unwrap();
        assert_eq!(a, b);
        assert_eq!(first.blocks_decoded, second.blocks_decoded);
        assert_eq!(first.augmented_data, second.augmented_data);
        if let Some(message) = a {
            assert_eq!(message, data.to_vec());
            done = true;
            break;
        }
    }
    assert!(done);
}

#[test]
fn feeding_a_block_twice_changes_no_output() {
    let data = PARAGRAPH.as_bytes();
    let (encoder, mut once) = coder(data, 16, 0.01, 3, 5);
    let (_, mut twice) = coder(data, 16, 0.01, 3, 5);
    let mut first_done = None;
    let mut second_done = None;
    for id in 0..1000u64 {
        let block = encoder.check_block(id);
        if first_done.is_none() {
            first_done = once.decode_block(id, &block).unwrap();
        }
        if second_done.is_none() {
            second_done = twice.decode_block(id, &block).unwrap();
        }
        if second_done.is_none() {
            second_done = twice.decode_block(id, &block).unwrap();
        }
        assert!(twice.decode_stack.is_empty() && twice.aux_decode_stack.is_empty());
        if first_done.is_some() && second_done.is_some() {
            break;
        }
    }
    assert_eq!(first_done, Some(data.to_vec()));
    assert_eq!(second_done, Some(data.to_vec()));
}

#[test]
fn a_block_whose_neighbours_are_known_changes_nothing() {
    let data = b"0123456789abcdef";
    let (encoder, mut decoder) = coder(data, 4, 0.01, 3, 11);
    let mut fed = Vec::new();
    let mut message = None;
    for id in 0..500u64 {
        let block = encoder.check_block(id);
        fed.push((id, block.clone()));
        message = decoder.decode_block(id, &block).unwrap();
        if message.is_some() {
            break;
        }
    }
    assert_eq!(message, Some(data.to_vec()));
    let flags = decoder.blocks_decoded.clone();
    let bytes = decoder.augmented_data.clone();
    for (id, block) in fed {
        assert_eq!(decoder.decode_block(id, &block).unwrap(), Some(data.to_vec()));
        assert_eq!(decoder.blocks_decoded, flags);
        assert_eq!(decoder.augmented_data, bytes);
    }
}

#[test]
fn arrival_order_does_not_change_the_message() {
    let data = PARAGRAPH.as_bytes();
    let (encoder, mut forward) = coder(data, 32, 0.01, 3, 21);
    let mut used = 0;
    for id in 0..2000u64 {
        used = id + 1;
        if forward.decode_block(id, &encoder.check_block(id)).unwrap().is_some() {
            break;
        }
    }
    let (_, mut backward) = coder(data, 32, 0.01, 3, 21);
    let mut decoded = None;
    for id in (0..used + 200).rev() {
        if let Some(message) = backward.decode_block(id, &encoder.check_block(id)).unwrap() {
            decoded = Some(message);
            break;
        }
    }
    assert_eq!(decoded, Some(data.to_vec()));
}

#[test]
fn decoded_flags_never_fall_back() {
    let data = PARAGRAPH.as_bytes();
    let (encoder, mut decoder) = coder(data, 8, 0.01, 3, 3);
    let mut known = vec![false; decoder.num_blocks];
    let mut missing = decoder.num_blocks;
    for id in 0..3000u64 {
        let done = decoder.decode_block(id, &encoder.check_block(id)).unwrap();
        let (flags, bytes) = decoder.get_incomplete_result();
        assert_eq!(flags.len(), known.len());
        for b in 0..flags.len() {
            assert!(flags[b] || !known[b]);
            if flags[b] {
                let end = std::cmp::min((b + 1) * 8, data.len());
                assert_eq!(&bytes[b * 8..end], &data[b * 8..end]);
            } else {
                assert_eq!(&bytes[b * 8..(b + 1) * 8], &[0u8; 8][..]);
            }
        }
        known = flags.to_vec();
        let now_missing = known.iter().filter(|f| !**f).count();
        assert!(now_missing <= missing);
        missing = now_missing;
        assert_eq!(decoder.num_undecoded_data_blocks, missing);
        assert_eq!(done.is_some(), missing == 0);
        if done.is_some() {
            break;
        }
    }
    assert_eq!(missing, 0);
    let (flags, bytes) = decoder.into_incomplete_result();
    assert!(flags.iter().all(|f| *f));
    assert_eq!(&bytes[..data.len()], data);
}

#[test]
fn into_iter_stops_at_completion() {
    let data = b"online codes are rateless";
    let (encoder, decoder) = coder(data, 5, 0.01, 3, 8);
    let blocks: Vec<(u64, Vec<u8>)> = (0..400u64).map(|id| (id, encoder.check_block(id))).collect();
    let result = decoder.into_iter(&blocks).unwrap();
    assert_eq!(result.complete(), Some(data.to_vec()));
    let (_, decoder) = coder(data, 5, 0.01, 3, 8);
    match decoder.into_iter(&blocks[..1]).unwrap() {
        DecodeResult::InProgress(rest) => {
            assert!(rest.num_undecoded_data_blocks > 0);
            assert!(DecodeResult::InProgress(rest).complete().is_none());
        }
        DecodeResult::Complete(_) => panic!("one check block cannot hold five blocks"),
    }
    let (_, decoder) = coder(data, 5, 0.01, 3, 8);
    let bad = vec![(0u64, vec![0u8; 4])];
    assert_eq!(decoder.into_iter(&bad).err(), Some(CodeError::UsageError));
}

#[test]
fn wrong_block_size_is_a_usage_error() {
    let data = b"0123456789";
    let (encoder, mut decoder) = coder(data, 5, 0.01, 3, 8);
    let before = decoder.clone();
    assert_eq!(decoder.decode_block(0, &[1, 2, 3, 4]), Err(CodeError::UsageError));
    assert_eq!(decoder.decode_block(0, &[1, 2, 3, 4, 5, 6]), Err(CodeError::UsageError));
    assert_eq!(decoder.decode_block(0, &[]), Err(CodeError::UsageError));
    assert_eq!(decoder.blocks_decoded, before.blocks_decoded);
    assert_eq!(decoder.augmented_data, before.augmented_data);
    assert!(decoder.unused_check_blocks.is_empty());
    assert!(decoder.decode_block(0, &encoder.check_block(0)).is_ok());
}

#[test]
fn encoder_rejects_bad_input() {
    let d = || distribution(0.01);
    assert_eq!(Encoder::new(b"abc", 0, 1, 1, d(), 3).err(), Some(CodeError::ConfigError));
    assert_eq!(Encoder::new(b"", 0, 1, 1, d(), 3).err(), Some(CodeError::ConfigError));
    assert_eq!(Encoder::new(b"", 4, 1, 1, d(), 3).err(), Some(CodeError::LengthError));
    assert_eq!(Encoder::new(b"abc", 4, 1, 0, d(), 3).err(), Some(CodeError::ConfigError));
    assert_eq!(Encoder::new(b"abc", 4, 1, usize::MAX, d(), 3).err(), Some(CodeError::ConfigError));
    assert_eq!(
        Encoder::new(b"abcdefgh", 1, 1, usize::MAX / 4, d(), 3).err(),
        Some(CodeError::ConfigError)
    );
    let (encoder, pad) = Encoder::new(b"abc", 4, 1, 1, d(), 3).unwrap();
    assert_eq!(pad, 1);
    assert_eq!(encoder.num_blocks, 1);
    assert_eq!(encoder.augmented_data, b"abc\0abc\0".to_vec());
    assert_eq!(encoder.next_check_block_id, 0);
}

#[test]
fn decoder_rejects_bad_input() {
    let d = || distribution(0.01);
    let made = |n, size, m, pad| Decoder::with_aux_blocks(n, size, 1, m, d(), 3, pad).err();
    assert_eq!(made(4, 0, 1, 0), Some(CodeError::ConfigError));
    assert_eq!(made(1, 4, 0, 0), Some(CodeError::ConfigError));
    assert_eq!(made(0, 4, 0, 0), Some(CodeError::ConfigError));
    assert_eq!(made(0, 4, 1, 0), Some(CodeError::ConfigError));
    assert_eq!(made(usize::MAX, 4, 1, 0), Some(CodeError::ConfigError));
    assert_eq!(made(usize::MAX / 2, 1, usize::MAX / 2, 0), Some(CodeError::ConfigError));
    assert_eq!(made(4, usize::MAX / 2, 1, 0), Some(CodeError::ConfigError));
    assert_eq!(made(4, 4, 1, 17), Some(CodeError::LengthError));
    assert_eq!(made(4, 0, 1, 17), Some(CodeError::ConfigError));
    let decoder = Decoder::with_aux_blocks(4, 4, 1, 1, d(), 3, 16).unwrap();
    assert_eq!(decoder.num_augmented_blocks, 5);
    assert_eq!(decoder.num_undecoded_data_blocks, 4);
    assert_eq!(decoder.augmented_data, vec![0u8; 20]);
    assert_eq!(decoder.blocks_decoded, vec![false; 5]);
    assert!(decoder.unused_check_blocks.is_empty() && decoder.adjacent_check_blocks.is_empty());
    assert_eq!(decoder.decoded_message(), Vec::<u8>::new());
}

#[test]
fn a_kept_check_block_is_listed_under_its_neighbours() {
    let data = PARAGRAPH.as_bytes();
    let (encoder, mut decoder) = coder(data, 1, 0.01, 3, 0xDEADBEEF);
    let dist = distribution(0.01);
    let mut id = 0u64;
    let adjacent = loop {
        let adjacent = get_adjacent_blocks(id, 0xDEADBEEF, &dist, decoder.num_augmented_blocks);
        if adjacent.len() >= 2 {
            break adjacent;
        }
        id += 1;
    };
    let block = encoder.check_block(id);
    assert_eq!(decoder.decode_block(id, &block), Ok(None));
    assert_eq!(decoder.unused_check_blocks.len(), 1);
    assert_eq!(decoder.unused_check_blocks[&id], (adjacent.len(), block));
    assert_eq!(decoder.adjacent_check_blocks.len(), adjacent.len());
    for b in &adjacent {
        assert_eq!(decoder.adjacent_check_blocks[b], vec![id]);
    }
    assert!(decoder.blocks_decoded.iter().all(|f| !*f));
    assert!(decoder.augmented_data.iter().all(|b| *b == 0));
}

#[test]
fn a_check_block_of_degree_one_yields_its_neighbour() {
    let data = PARAGRAPH.as_bytes();
    let (encoder, mut decoder) = coder(data, 2, 0.01, 3, 17);
    let dist = distribution(0.01);
    let mut id = 0u64;
    let target = loop {
        let adjacent = get_adjacent_blocks(id, 17, &dist, decoder.num_augmented_blocks);
        if adjacent.len() == 1 {
            break adjacent[0];
        }
        id += 1;
    };
    let block = encoder.check_block(id);
    assert_eq!(block, encoder.augmented_data[target * 2..target * 2 + 2].to_vec());
    assert_eq!(decoder.decode_block(id, &block), Ok(None));
    assert!(decoder.blocks_decoded[target]);
    assert_eq!(decoder.augmented_data[target * 2..target * 2 + 2].to_vec(), block);
    assert_eq!(decoder.blocks_decoded.iter().filter(|f| **f).count(), 1);
}

#[test]
fn an_auxiliary_block_helps_only_after_its_other_source() {
    let data = b"01";
    let dist = distribution(0.01);
    let alone = |wanted: usize| {
        (0..10_000u64)
            .find(|id| get_adjacent_blocks(*id, 0xDEADBEEF, &dist, 3) == vec![wanted])
            .unwrap()
    };
    let (aux_only, source_only) = (alone(2), alone(0));
    assert_eq!((aux_only, source_only), (277, 522));
    let (encoder, mut decoder) = coder(data, 1, 0.01, 3, 0xDEADBEEF);
    assert_eq!(decoder.unused_aux_block_adjacencies[&2], (2, vec![0, 1]));
    let aux_block = encoder.check_block(aux_only);
    let source_block = encoder.check_block(source_only);
    assert_eq!(decoder.decode_block(source_only, &source_block), Ok(None));
    assert_eq!(decoder.decode_block(aux_only, &aux_block), Ok(Some(data.to_vec())));
    let (_, mut decoder) = coder(data, 1, 0.01, 3, 0xDEADBEEF);
    assert_eq!(decoder.decode_block(aux_only, &aux_block), Ok(None));
    assert_eq!(decoder.decode_block(source_only, &source_block), Ok(None));
    assert_eq!(decoder.blocks_decoded, vec![true, false, true]);
    assert!(decoder.unused_aux_block_adjacencies.is_empty());
}

#[test]
fn a_round_trip_needs_enough_check_blocks() {
    let data = PARAGRAPH.as_bytes();
    let coder = usual_coder(4);
    assert_eq!(coder.round_trip(data, 3, 0), Ok(None));
    assert_eq!(coder.round_trip(data, 3, 10), Ok(None));
    assert_eq!(coder.round_trip(data, 3, 100_000), Ok(Some(data.to_vec())));
    assert_eq!(coder.round_trip(b"", 3, 10), Err(CodeError::LengthError));
    assert_eq!(usual_coder(0).round_trip(data, 3, 10), Err(CodeError::ConfigError));
}

#[test]
fn tiny_identity_block_by_block() {
    let usual = distribution(0.01);
    let mut decoder =
        Decoder::with_parameters(2, 1, 0xDEADBEEF, HUNDREDTH, 3, 0, distribution(0.01)).unwrap();
    assert_eq!(decoder.num_augmented_blocks, 3);
    let (encoder, pad) = usual_coder(1).encode(b"01", 0xDEADBEEF).unwrap();
    assert_eq!(pad, 0);
    let augmented = encoder.augmented_data.clone();
    assert_eq!(augmented, vec![0x30, 0x31, 0x30 ^ 0x31]);
    let mut decoded = None;
    for id in 0..500u64 {
        let mut check_block = vec![0u8];
        for j in get_adjacent_blocks(id, 0xDEADBEEF, &usual, 3) {
            check_block[0] ^= augmented[j];
        }
        assert_eq!(check_block, encoder.check_block(id));
        match decoder.decode_block(id, &check_block).unwrap() {
            Some(message) => {
                decoded = Some(message);
                break;
            }
            None => assert!(decoder.num_undecoded_data_blocks > 0),
        }
    }
    assert_eq!(decoded, Some(vec![0x30, 0x31]));
}

#[test]
fn ascii_paragraph_through_into_iter() {
    let data = PARAGRAPH.as_bytes();
    let stream_id = 0xDEADBEEF;
    let (encoder, pad) = usual_coder(1).encode(data, stream_id).unwrap();
    assert_eq!(pad, 0);
    let blocks: Vec<(u64, Vec<u8>)> =
        (0..data.len() as u64 + 500).map(|id| (id, encoder.check_block(id))).collect();
    let decoder = Decoder::new(data.len(), 1, stream_id, 0, distribution(0.01)).unwrap();
    match decoder.into_iter(&blocks).unwrap() {
        DecodeResult::Complete(message) => {
            assert_eq!(message.len(), data.len());
            assert_eq!(message, data.to_vec());
        }
        DecodeResult::InProgress(_) => panic!("not decoded"),
    }
}

#[test]
fn random_four_kib_through_into_iter() {
    let mut source = Xoshiro256StarStar::seed_from_u64(2024);
    let mut data = vec![0u8; 4096];
    source.fill_bytes(&mut data);
    let stream_id = 7;
    let (encoder, pad) = usual_coder(1024).encode(&data, stream_id).unwrap();
    assert_eq!((encoder.num_blocks, encoder.num_aux_blocks, pad), (4, 1, 0));
    let blocks: Vec<(u64, Vec<u8>)> = (0..64u64).map(|id| (id, encoder.check_block(id))).collect();
    let mut needed = 0;
    let mut fresh = Decoder::new(4, 1024, stream_id, 0, distribution(0.01)).unwrap();
    let mut decoded = None;
    for (id, block) in &blocks {
        needed += 1;
        decoded = fresh.decode_block(*id, block).unwrap();
        if decoded.is_some() {
            break;
        }
    }
    assert!(decoded.is_some(), "not decoded from {} check blocks", needed);
    assert!(decoded == Some(data.clone()));
    let decoder = Decoder::new(4, 1024, stream_id, 0, distribution(0.01)).unwrap();
    assert!(decoder.into_iter(&blocks).unwrap().complete() == Some(data.clone()));
    let coder = usual_coder(1024);
    assert!(coder.round_trip(&data, stream_id, needed) == Ok(Some(data.clone())));
    assert!(coder.round_trip(&data, stream_id, needed - 1) == Ok(None));
}

#[test]
fn how_many_check_blocks_suffice_depends_on_the_stream() {
    let mut source = Xoshiro256StarStar::seed_from_u64(2024);
    let mut data = vec![0u8; 4096];
    source.fill_bytes(&mut data);
    let coder = usual_coder(1024);
    assert!(coder.round_trip(&data, 7, 64) == Ok(Some(data.clone())));
    assert!(coder.round_trip(&data, 31, 64) == Ok(None));
    assert!(coder.round_trip(&data, 31, 100_000) == Ok(Some(data.clone())));
}
