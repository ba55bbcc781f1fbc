use pow_solver::prefix::build_prefix;
use pow_solver::sha256::{compress16_without_feedback, compress_block, expand_schedule, run_rounds};
use pow_solver::{
    compute_target, DoubleBlockSolver16Way, SingleBlockSolver16Way, SingleBlockSolverNative, Solver,
};
use sha2::{Digest, Sha256};
use std::collections::HashSet;

const SALT: &str = "z";
const DIFFICULTY: u32 = 50_000;

fn target_words(target: u128) -> [u32; 4] {
    let b = target.to_be_bytes();
    core::array::from_fn(|i| u32::from_be_bytes([b[i * 4], b[i * 4 + 1], b[i * 4 + 2], b[i * 4 + 3]]))
}

fn phrase_prefix(phrase_len: usize) -> (String, Vec<u8>) {
    let phrase = String::from_iter(std::iter::repeat('a').take(phrase_len));
    let prefix = build_prefix(&phrase, SALT);
    (phrase, prefix)
}

fn digest_top128(prefix: &[u8], nonce: u64) -> u128 {
    let mut hasher = Sha256::new();
    hasher.update(prefix);
    hasher.update(nonce.to_string().as_bytes());
    let out = hasher.finalize();
    u128::from_be_bytes(out[..16].try_into().unwrap())
}

fn check_proof(prefix: &[u8], nonce: u64, result: u128, difficulty: u32) {
    assert_eq!(digest_top128(prefix, nonce), result);
    assert!(result > compute_target(difficulty));
    assert!(!nonce.to_string().starts_with('0'));
}

fn solve_all<S: Solver<Ctx = ()>>() -> HashSet<usize> {
    let mut solved = HashSet::new();
    for phrase_len in 0..64 {
        let (_, prefix) = phrase_prefix(phrase_len);
        let Some(mut solver) = S::new((), &prefix) else {
            continue;
        };
        solved.insert(phrase_len);
        let (nonce, result) = solver
            .solve(target_words(compute_target(DIFFICULTY)))
            .expect("solver failed");
        check_proof(&prefix, nonce, result, DIFFICULTY);
    }
    solved
}

#[test]
fn test_solve_16way() {
    let solved_single_block = solve_all::<SingleBlockSolver16Way>();
    let solved_double_block = solve_all::<DoubleBlockSolver16Way>();
    let mut total_solved = solved_single_block.union(&solved_double_block).collect::<Vec<_>>();
    total_solved.sort();
    for expect in 0..64 {
        assert!(total_solved.contains(&&expect), "{} not in {:?}", expect, total_solved);
    }
}

#[test]
fn target_of_difficulty_one_is_zero() {
    assert_eq!(compute_target(1), 0);
}

#[test]
fn target_of_largest_difficulty_has_top_word_below_max() {
    assert_eq!(target_words(compute_target(u32::MAX))[0], u32::MAX - 1);
}

#[test]
fn target_exact_value() {
    assert_eq!(compute_target(2), u128::MAX - u128::MAX / 2);
    assert_eq!(compute_target(DIFFICULTY), u128::MAX - u128::MAX / 50_000);
}

#[test]
fn target_increases_with_difficulty() {
    let mut last = compute_target(1);
    for d in [2u32, 3, 10, 1000, 50_000, 5_000_000, u32::MAX - 1, u32::MAX] {
        let t = compute_target(d);
        assert!(t > last);
        last = t;
    }
}

#[test]
fn prefix_is_salt_then_length_then_phrase() {
    let p = build_prefix("aa", "z");
    assert_eq!(p, vec![b'z', 2, 0, 0, 0, 0, 0, 0, 0, b'a', b'a']);
    let q = build_prefix("", "salt");
    assert_eq!(q, vec![b's', b'a', b'l', b't', 0, 0, 0, 0, 0, 0, 0, 0]);
}

#[test]
fn compress_block_matches_known_digest() {
    // "abc" padded into one block
    let mut block = [0u32; 16];
    block[0] = 0x61626380;
    block[15] = 24;
    let mut state = [
        0x6a09e667, 0xbb67ae85, 0x3c6ef372, 0xa54ff53a, 0x510e527f, 0x9b05688c, 0x1f83d9ab,
        0x5be0cd19,
    ];
    compress_block(&mut state, &block);
    assert_eq!(
        state,
        [
            0xba7816bf, 0x8f01cfea, 0x414140de, 0x5dae2223, 0xb00361a3, 0x96177a9c, 0xb410ff61,
            0xf20015ad
        ]
    );
}

#[test]
fn schedule_expansion_follows_recurrence() {
    let mut w = [0u32; 64];
    for (i, x) in w.iter_mut().take(16).enumerate() {
        *x = (i as u32).wrapping_mul(0x9e3779b9);
    }
    let orig = w;
    expand_schedule(&mut w);
    assert_eq!(&w[..16], &orig[..16]);
    for t in 16..64 {
        let s0 = w[t - 15].rotate_right(7) ^ w[t - 15].rotate_right(18) ^ (w[t - 15] >> 3);
        let s1 = w[t - 2].rotate_right(17) ^ w[t - 2].rotate_right(19) ^ (w[t - 2] >> 10);
        assert_eq!(w[t], s1.wrapping_add(w[t - 7]).wrapping_add(s0).wrapping_add(w[t - 16]));
    }
}

#[test]
fn wide_compression_matches_scalar_per_lane() {
    let init = [
        0x6a09e667u32, 0xbb67ae85, 0x3c6ef372, 0xa54ff53a, 0x510e527f, 0x9b05688c, 0x1f83d9ab,
        0x5be0cd19,
    ];
    let mut blocks = [[0u32; 16]; 16];
    for (l, b) in blocks.iter_mut().enumerate() {
        for (i, x) in b.iter_mut().enumerate() {
            *x = ((l * 16 + i) as u32).wrapping_mul(0x01000193);
        }
    }
    let mut state = [init; 16];
    compress16_without_feedback(&mut state, &blocks);
    for l in 0..16 {
        let mut w = [0u32; 64];
        w[..16].copy_from_slice(&blocks[l]);
        expand_schedule(&mut w);
        assert_eq!(state[l], run_rounds(&init, &w));
        let mut full = init;
        compress_block(&mut full, &blocks[l]);
        for i in 0..8 {
            assert_eq!(full[i], init[i].wrapping_add(state[l][i]));
        }
    }
}

fn raw_prefix(len: usize) -> Vec<u8> {
    (0..len).map(|i| b'a' + (i % 26) as u8).collect()
}

#[test]
fn construction_at_block_boundaries() {
    // prefix length, single-block constructs, double-block constructs
    let cases = [
        (0usize, true, false),
        (1, true, false),
        (46, true, false),
        (47, false, true),
        (52, false, true),
        (53, true, true),
        (54, true, true),
        (55, true, false),
        (63, true, false),
        (64, true, false),
        (65, true, false),
        (118, true, true),
        (119, true, false),
    ];
    for (len, single, double) in cases {
        let p = raw_prefix(len);
        assert_eq!(SingleBlockSolver16Way::new((), &p).is_some(), single, "single at {}", len);
        assert_eq!(DoubleBlockSolver16Way::new((), &p).is_some(), double, "double at {}", len);
    }
}

#[test]
fn boundary_prefixes_give_valid_proofs() {
    let target = target_words(compute_target(DIFFICULTY));
    for len in [0usize, 1, 54, 55, 63, 64, 65, 118, 119] {
        let p = raw_prefix(len);
        if let Some(mut s) = SingleBlockSolver16Way::new((), &p) {
            let (nonce, result) = s.solve(target).unwrap();
            check_proof(&p, nonce, result, DIFFICULTY);
        }
        if let Some(mut s) = DoubleBlockSolver16Way::new((), &p) {
            let (nonce, result) = s.solve(target).unwrap();
            check_proof(&p, nonce, result, DIFFICULTY);
        }
    }
}

#[test]
fn filler_ones_lead_the_nonce() {
    // a 55-byte prefix leaves 9 bytes in its block: nine filler ones
    let p = raw_prefix(55);
    let mut s = SingleBlockSolver16Way::new((), &p).unwrap();
    let (nonce, result) = s.solve(target_words(compute_target(DIFFICULTY))).unwrap();
    check_proof(&p, nonce, result, DIFFICULTY);
    assert!(nonce >= 111_111_111_000_000_000);
    assert!(nonce.to_string().starts_with("111111111"));
    assert_eq!(nonce.to_string().len(), 18);
}

#[test]
fn double_block_filler_ones_lead_the_nonce() {
    // a 50-byte prefix is padded with four ones to reach byte 54
    let p = raw_prefix(50);
    let mut s = DoubleBlockSolver16Way::new((), &p).unwrap();
    let (nonce, result) = s.solve(target_words(compute_target(DIFFICULTY))).unwrap();
    check_proof(&p, nonce, result, DIFFICULTY);
    assert!(nonce.to_string().starts_with("1111"));
    assert_eq!(nonce.to_string().len(), 13);
}

#[test]
fn scenario_phrase_lengths() {
    let target = target_words(compute_target(DIFFICULTY));
    for phrase_len in [0usize, 5, 55, 63] {
        let (_, p) = phrase_prefix(phrase_len);
        let mut s = SingleBlockSolver16Way::new((), &p).expect("single-block");
        let (nonce, result) = s.solve(target).unwrap();
        check_proof(&p, nonce, result, DIFFICULTY);
        assert!(nonce >= 100_000_000);
    }
    let (_, p) = phrase_prefix(40);
    assert!(SingleBlockSolver16Way::new((), &p).is_none());
    let mut s = DoubleBlockSolver16Way::new((), &p).expect("double-block");
    let (nonce, result) = s.solve(target).unwrap();
    check_proof(&p, nonce, result, DIFFICULTY);
}

#[test]
fn difficulty_one_accepts_the_first_candidate() {
    let p = raw_prefix(10);
    let mut s = SingleBlockSolver16Way::new((), &p).unwrap();
    let (nonce, result) = s.solve(target_words(compute_target(1))).unwrap();
    check_proof(&p, nonce, result, 1);
    // the first candidate is lane 0 of prefix set 0 with inner key 0
    if digest_top128(&p, 100_000_000) >> 96 > 0 {
        assert_eq!(nonce, 100_000_000);
    }
}

#[test]
fn solving_is_deterministic() {
    let target = target_words(compute_target(DIFFICULTY));
    for len in [3usize, 50, 60] {
        let p = raw_prefix(len);
        if let (Some(mut a), Some(mut b)) =
            (SingleBlockSolver16Way::new((), &p), SingleBlockSolver16Way::new((), &p))
        {
            assert_eq!(a.solve(target), b.solve(target));
            // solving again on the same instance gives the same answer
            assert_eq!(a.solve(target), b.solve(target));
        }
        if let (Some(mut a), Some(mut b)) =
            (DoubleBlockSolver16Way::new((), &p), DoubleBlockSolver16Way::new((), &p))
        {
            assert_eq!(a.solve(target), b.solve(target));
        }
    }
}

#[test]
fn first_hit_in_search_order() {
    // every earlier candidate of the winning inner key must miss
    let p = raw_prefix(20);
    let target = target_words(compute_target(DIFFICULTY));
    let mut s = SingleBlockSolver16Way::new((), &p).unwrap();
    let (nonce, _) = s.solve(target).unwrap();
    let lane_id = nonce / 10_000_000;
    let inner = nonce % 10_000_000;
    let set = (lane_id - 10) / 16;
    for earlier in (10 + 16 * set)..lane_id {
        let n = earlier * 10_000_000 + inner;
        assert!((digest_top128(&p, n) >> 96) as u32 <= target[0]);
    }
}

#[test]
fn test_solve_sha2_crate() {
    solve_all::<SingleBlockSolverNative>();
}

#[test]
fn native_search_starts_with_the_high_keys() {
    let target = target_words(compute_target(DIFFICULTY));
    for len in [0usize, 30, 60] {
        let p = raw_prefix(len);
        let mut s = SingleBlockSolverNative::new((), &p).unwrap();
        let (nonce, result) = s.solve(target).unwrap();
        check_proof(&p, nonce, result, DIFFICULTY);
        assert!(nonce % 1_000_000_000 >= 900_000_000);
    }
    let p = raw_prefix(50);
    assert!(SingleBlockSolverNative::new((), &p).is_none());
}

fn reverse7(x: u64) -> u64 {
    let mut v = x;
    let mut r = 0;
    for _ in 0..7 {
        r = r * 10 + v % 10;
        v /= 10;
    }
    r
}

#[test]
fn double_block_visits_reversed_inner_keys_in_order() {
    // a 50-byte prefix: four filler ones, so the addend is 1111 * 10^9
    let p = raw_prefix(50);
    let addend = 1_111_000_000_000u64;
    let target = target_words(compute_target(DIFFICULTY));
    let mut s = DoubleBlockSolver16Way::new((), &p).unwrap();
    let (nonce, result) = s.solve(target).unwrap();
    check_proof(&p, nonce, result, DIFFICULTY);
    let v = nonce - addend;
    let lane_id = v / 10_000_000;
    let inner = reverse7(v % 10_000_000);
    let set = (lane_id - 10) / 16;
    if set == 0 {
        for ik in 0..inner {
            for lane in 0..16u64 {
                let n = addend + (10 + lane) * 10_000_000 + reverse7(ik);
                assert!((digest_top128(&p, n) >> 96) as u32 <= target[0]);
            }
        }
    }
    for earlier in (10 + 16 * set)..lane_id {
        let n = addend + earlier * 10_000_000 + reverse7(inner);
        assert!((digest_top128(&p, n) >> 96) as u32 <= target[0]);
    }
}
