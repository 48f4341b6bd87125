use on_line_codes::recover::{decode_aux_block, decode_from_check_block};
use on_line_codes::rng::DegreeDistribution;
use on_line_codes::types::CodeError;
use on_line_codes::undecoded::{block_to_decode, undecoded_degree, UndecodedDegree};
use on_line_codes::util::{
    get_adjacent_blocks, get_aux_block_adjacencies, sample_with_exclusive_repeats, seed_block_rng,
    seed_stream_rng, xor_adjacent_blocks, xor_block,
};
use rand_core::{RngCore, SeedableRng};
use rand_xoshiro::Xoshiro256StarStar;

#[test]
fn sample_with_exclusive_repeats_test() {
    let mut rng = seed_stream_rng(0);
    let ans = sample_with_exclusive_repeats(&mut rng, 1, 3, None);
    println!("ans: {:?}", ans);
}

#[test]
fn num_aux_blocks_test() {
    let q = 3;
    let epsilon = 0.01;
    let num_blocks = 10;
    let num_aux_blocks = (0.55_f64 * q as f64 * epsilon * num_blocks as f64).ceil() as usize;
    println!("num_aux_blocks: {:?}", num_aux_blocks);
}

#[test]
fn sampling_a_range_of_one_gives_its_value() {
    let mut rng = seed_stream_rng(0);
    assert_eq!(sample_with_exclusive_repeats(&mut rng, 1, 3, None), vec![0]);
    assert_eq!(sample_with_exclusive_repeats(&mut rng, 1, 3, Some(0)), Vec::<usize>::new());
    assert_eq!(sample_with_exclusive_repeats(&mut rng, 1, 3, Some(1)), vec![0]);
    assert_eq!(sample_with_exclusive_repeats(&mut rng, 0, 3, None), Vec::<usize>::new());
    assert_eq!(sample_with_exclusive_repeats(&mut rng, 9, 0, None), Vec::<usize>::new());
}

#[test]
fn samples_are_distinct_and_leave_the_excluded_value_out() {
    for seed in 0..200u64 {
        let mut rng = seed_block_rng(seed, 5);
        let some = sample_with_exclusive_repeats(&mut rng, 10, 3, Some(5));
        assert_eq!(some.len(), 3);
        let all = sample_with_exclusive_repeats(&mut rng, 10, 20, Some(5));
        assert_eq!(all.len(), 9);
        let whole = sample_with_exclusive_repeats(&mut rng, 10, 10, Some(10));
        assert_eq!(whole.len(), 10);
        for samples in [&some, &all, &whole] {
            let mut sorted = (*samples).clone();
            sorted.sort();
            sorted.dedup();
            assert_eq!(sorted.len(), samples.len());
            assert!(samples.iter().all(|s| *s < 10));
        }
        assert!(!some.contains(&5) && !all.contains(&5));
    }
}

#[test]
fn samples_follow_the_generator() {
    let mut ours = seed_block_rng(3, 4);
    let mut theirs = Xoshiro256StarStar::seed_from_u64(7);
    assert_eq!(ours.clone().next_u64(), theirs.clone().next_u64());
    let first = sample_with_exclusive_repeats(&mut ours, 1000, 5, None);
    assert_eq!(first.len(), 5);
    assert_ne!(ours.clone().next_u64(), theirs.next_u64());
    let mut again = seed_block_rng(4, 3);
    assert_eq!(sample_with_exclusive_repeats(&mut again, 1000, 5, None), first);
    let second = sample_with_exclusive_repeats(&mut ours, 1000, 5, None);
    assert_ne!(first, second);
    let mut other = seed_block_rng(3, 5);
    assert_ne!(sample_with_exclusive_repeats(&mut other, 1000, 5, None), first);
    let mut zero = seed_stream_rng(9);
    let mut same = seed_block_rng(9, 0);
    assert_eq!(zero.next_u64(), same.next_u64());
}

#[test]
fn seeds_wrap_around() {
    let mut wrapped = seed_block_rng(u64::MAX, 2);
    let mut plain = seed_block_rng(0, 1);
    assert_eq!(wrapped.next_u64(), plain.next_u64());
}

#[test]
fn xor_block_xors_the_first_bytes() {
    let mut dest = vec![0b1010u8, 0b1100, 0xff, 7];
    xor_block(&mut dest, &[0b0110, 0b1100, 0x0f, 9], 3);
    assert_eq!(dest, vec![0b1100, 0, 0xf0, 7]);
    xor_block(&mut dest, &[1, 2, 3], 0);
    assert_eq!(dest, vec![0b1100, 0, 0xf0, 7]);
}

#[test]
fn xor_adjacent_blocks_skips_the_target() {
    let mut data = vec![1u8, 2, 4, 8, 16, 32, 64, 128];
    xor_adjacent_blocks(1, &[0, 1, 3], &mut data, 2);
    assert_eq!(data, vec![1, 2, 4 ^ 1 ^ 64, 8 ^ 2 ^ 128, 16, 32, 64, 128]);
    xor_adjacent_blocks(0, &[], &mut data, 2);
    xor_adjacent_blocks(0, &[0], &mut data, 2);
    assert_eq!(data, vec![1, 2, 4 ^ 1 ^ 64, 8 ^ 2 ^ 128, 16, 32, 64, 128]);
}

#[test]
fn aux_adjacencies_hold_every_pick() {
    let (n, m, q) = (200usize, 4usize, 3usize);
    let mapping = get_aux_block_adjacencies(12, n, m, q);
    assert_eq!(mapping, get_aux_block_adjacencies(12, n, m, q));
    let mut picks = vec![0usize; n];
    for (aux, (count, sources)) in &mapping {
        assert!(*aux >= n && *aux < n + m);
        assert_eq!(*count, sources.len());
        assert!(!sources.is_empty());
        for pair in sources.windows(2) {
            assert!(pair[0] < pair[1]);
        }
        for source in sources {
            assert!(*source < n);
            picks[*source] += 1;
        }
    }
    assert!(picks.iter().all(|p| *p == q));
    let mut rng = seed_stream_rng(12);
    for i in 0..n {
        for j in sample_with_exclusive_repeats(&mut rng, m, q, None) {
            assert!(mapping[&(j + n)].1.contains(&i));
        }
    }
    let few = get_aux_block_adjacencies(12, 5, 2, 3);
    assert_eq!(few.len(), 2);
    assert_eq!(few[&5], (5, vec![0, 1, 2, 3, 4]));
    assert_eq!(few[&6], (5, vec![0, 1, 2, 3, 4]));
    assert!(get_aux_block_adjacencies(12, 5, 0, 3).is_empty());
    assert!(get_aux_block_adjacencies(12, 0, 5, 3).is_empty());
    assert!(get_aux_block_adjacencies(12, 5, 5, 0).is_empty());
}

#[test]
fn adjacent_blocks_are_distinct_and_exclude_the_block_of_that_number() {
    let weights = vec![1u64, 1, 1, 1, 1, 1];
    let dist = DegreeDistribution::new(&weights).unwrap();
    let mut degrees = vec![0usize; 7];
    for id in 0..300u64 {
        let adjacent = get_adjacent_blocks(id, 1, &dist, 10);
        assert_eq!(adjacent, get_adjacent_blocks(id, 1, &dist.clone(), 10));
        assert!(!adjacent.is_empty() && adjacent.len() <= 6);
        degrees[adjacent.len()] += 1;
        let mut sorted = adjacent.clone();
        sorted.sort();
        sorted.dedup();
        assert_eq!(sorted.len(), adjacent.len());
        assert!(adjacent.iter().all(|b| *b < 10));
        if id < 10 {
            assert!(!adjacent.contains(&(id as usize)));
        }
    }
    assert!(degrees[1..].iter().all(|d| *d > 0));
    let only = DegreeDistribution::new(&vec![0, 0, 5]).unwrap();
    for id in 0..50u64 {
        assert_eq!(get_adjacent_blocks(id, 9, &only, 100).len(), 3);
    }
    let wide = DegreeDistribution::new(&vec![0, 0, 0, 0, 1]).unwrap();
    let mut all = get_adjacent_blocks(1, 9, &wide, 3);
    all.sort();
    assert_eq!(all, vec![0, 2]);
    let mut all = get_adjacent_blocks(3, 9, &wide, 3);
    all.sort();
    assert_eq!(all, vec![0, 1, 2]);
}

#[test]
fn degree_distribution_rejects_bad_weights() {
    assert_eq!(DegreeDistribution::new(&vec![]).err(), Some(CodeError::ConfigError));
    assert_eq!(DegreeDistribution::new(&vec![0, 0, 0]).err(), Some(CodeError::ConfigError));
    assert_eq!(DegreeDistribution::new(&vec![u64::MAX, 1]).err(), Some(CodeError::ConfigError));
    assert!(DegreeDistribution::new(&vec![u64::MAX - 1, 1]).is_ok());
    assert!(DegreeDistribution::new(&vec![0, 1]).is_ok());
    let certain = DegreeDistribution::new(&vec![0, 7, 0]).unwrap();
    for seed in 0..100u64 {
        assert_eq!(certain.sample_degree(&mut seed_stream_rng(seed)), 2);
    }
}

#[test]
fn undecoded_degree_counts_the_missing() {
    let decoded = [true, false, true, false, false];
    assert_eq!(undecoded_degree(&[], &decoded), UndecodedDegree::Zero);
    assert_eq!(undecoded_degree(&[0, 2], &decoded), UndecodedDegree::Zero);
    assert_eq!(undecoded_degree(&[0, 3, 2], &decoded), UndecodedDegree::One(3));
    assert_eq!(undecoded_degree(&[1, 3], &decoded), UndecodedDegree::Many(2));
    assert_eq!(undecoded_degree(&[4, 0, 1, 2, 3], &decoded), UndecodedDegree::Many(3));
    assert_eq!(block_to_decode(&[], &decoded), None);
    assert_eq!(block_to_decode(&[0, 2], &decoded), None);
    assert_eq!(block_to_decode(&[0, 3, 2], &decoded), Some(3));
    assert_eq!(block_to_decode(&[1, 3], &decoded), None);
}

#[test]
fn decode_from_check_block_recovers_the_missing_block() {
    let truth = vec![1u8, 2, 3, 4, 5, 6, 7, 8];
    let check = vec![1 ^ 5 ^ 7, 2 ^ 6 ^ 8];
    let mut data = vec![1u8, 2, 3, 4, 0, 0, 7, 8];
    decode_from_check_block(2, &check, &[0, 2, 3], &mut data, 2);
    assert_eq!(data, truth);
}

#[test]
fn decode_aux_block_recovers_the_missing_source() {
    let mut data = vec![1u8, 2, 0, 0, 5, 6, 1 ^ 3 ^ 5, 2 ^ 4 ^ 6];
    let decoded = [true, false, true, true];
    assert_eq!(decode_aux_block(3, &[0, 1, 2], &mut data, 2, &decoded), Some(1));
    assert_eq!(data, vec![1, 2, 3, 4, 5, 6, 1 ^ 3 ^ 5, 2 ^ 4 ^ 6]);
    let mut data = vec![0u8, 0, 0, 0, 5, 6, 1 ^ 3 ^ 5, 2 ^ 4 ^ 6];
    let decoded = [false, false, true, true];
    assert_eq!(decode_aux_block(3, &[0, 1, 2], &mut data, 2, &decoded), None);
    assert_eq!(data, vec![0, 0, 0, 0, 5, 6, 1 ^ 3 ^ 5, 2 ^ 4 ^ 6]);
    let decoded = [true, true, true, true];
    assert_eq!(decode_aux_block(3, &[0, 1, 2], &mut data, 2, &decoded), None);
}
