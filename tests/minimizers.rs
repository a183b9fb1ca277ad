use minimizer_sketch::hash::{all_canonical, encode_base, hash_kmer, invertible_hash, SENTINEL};
use minimizer_sketch::matcher::match_sketches;
use minimizer_sketch::queue::{MinimizerQueue, INVALID_RANK};
use minimizer_sketch::sketch::{get_minimizers, SketchError};

/// Deterministic pseudo-random bytes over the alphabet, with an occasional 'N'.
fn pseudo_sequence(len: usize, seed: u64, with_n: bool) -> Vec<u8> {
    let mut state = seed;
    let mut out = Vec::new();
    for _ in 0..len {
        state = state.wrapping_mul(6364136223846793005).wrapping_add(1442695040888963407);
        let r = (state >> 33) % 23;
        let b = if with_n && r == 22 { b'N' } else { b"GCTA"[(r % 4) as usize] };
        out.push(b);
    }
    out
}

/// The minimizer of the last `w` ranks: smallest rank, latest on a tie.
fn brute_window_min(hashes: &[u64], w: usize) -> (u64, usize) {
    let n = hashes.len();
    let lo = n.saturating_sub(w);
    let mut best = lo;
    for p in lo..n {
        if hashes[p] <= hashes[best] {
            best = p;
        }
    }
    (hashes[best], best)
}

fn is_valid(kmer: &[u8]) -> bool {
    kmer.iter().all(|b| b"ACGT".contains(b))
}

fn brute_sketch(seq: &[u8], k: usize, w: usize) -> Vec<(u32, usize)> {
    let ranks: Vec<u64> = (0..=seq.len() - k)
        .map(|i| {
            let kmer = &seq[i..i + k];
            if is_valid(kmer) { hash_kmer(kmer) as u64 } else { 1u64 << 32 }
        })
        .collect();
    let mut out = Vec::new();
    for n in 1..=ranks.len() {
        let m = brute_window_min(&ranks[..n], w);
        if m.0 < 1u64 << 32 {
            out.push((m.0 as u32, m.1));
        }
    }
    out.sort();
    out.dedup();
    out
}

#[test]
fn encode_base_maps_the_alphabet() {
    assert_eq!(encode_base(b'G'), Some(0));
    assert_eq!(encode_base(b'C'), Some(1));
    assert_eq!(encode_base(b'T'), Some(2));
    assert_eq!(encode_base(b'A'), Some(3));
    assert_eq!(encode_base(b'N'), None);
    assert_eq!(encode_base(b'a'), None);
    assert_eq!(encode_base(0), None);
    assert!(all_canonical(b"GATTACA"));
    assert!(all_canonical(b""));
    assert!(!all_canonical(b"GATTNCA"));
}

#[test]
fn invalid_kmer_hashes_to_sentinel() {
    assert_eq!(SENTINEL, u32::MAX);
    assert_eq!(hash_kmer(b"ACNT"), SENTINEL);
    assert_eq!(hash_kmer(b"NACG"), SENTINEL);
    assert_eq!(hash_kmer(b"acgt"), SENTINEL);
    assert_eq!(hash_kmer(b"ACGR"), SENTINEL);
}

#[test]
fn kmer_hash_exact_values() {
    assert_eq!(hash_kmer(b"ACGT"), 557321349);
    assert_eq!(hash_kmer(b"GGGG"), 4290886808);
    assert_eq!(hash_kmer(b"AAAA"), 1746887881);
    assert_eq!(hash_kmer(b""), invertible_hash(0, 32));
}

#[test]
fn finalizer_exact_values() {
    assert_eq!(invertible_hash(0, 32), 4290886808);
    assert_eq!(invertible_hash(1, 32), 3079993582);
    assert_eq!(invertible_hash(5, 8), 146);
    assert_eq!(invertible_hash(0, 0), 0);
}

#[test]
fn finalizer_is_a_bijection_on_small_widths() {
    for p in [1u32, 4, 8, 12] {
        let size = 1usize << p;
        let mut seen = vec![false; size];
        for x in 0..size as u32 {
            let y = invertible_hash(x, p) as usize;
            assert!(y < size);
            assert!(!seen[y]);
            seen[y] = true;
        }
        assert!(seen.iter().all(|&s| s));
    }
}

#[test]
fn distinct_kmers_have_distinct_hashes() {
    let mut hashes = Vec::new();
    for code in 0u32..256 {
        let kmer: Vec<u8> = (0..4).map(|i| b"GCTA"[((code >> (6 - 2 * i)) & 3) as usize]).collect();
        hashes.push(hash_kmer(&kmer));
    }
    hashes.sort();
    hashes.dedup();
    assert_eq!(hashes.len(), 256);
}

#[test]
fn queue_reports_only_changes_of_the_minimum() {
    let mut q = MinimizerQueue::new(3);
    assert_eq!(q.insert(5, 0), Some((5, 0)));
    assert_eq!(q.insert(3, 1), Some((3, 1)));
    assert_eq!(q.insert(4, 2), None);
    assert_eq!(q.insert(6, 3), None);
    // 3 at position 1 leaves the window [2, 4].
    assert_eq!(q.insert(7, 4), Some((4, 2)));
    // 4 at position 2 leaves the window [3, 5].
    assert_eq!(q.insert(8, 5), Some((6, 3)));
    assert_eq!(q.insert(1, 6), Some((1, 6)));
    // A tie moves the minimizer to the later position.
    assert_eq!(q.insert(1, 7), Some((1, 7)));
}

#[test]
fn queue_width_one_follows_every_hash() {
    let mut q = MinimizerQueue::new(1);
    assert_eq!(q.insert(9, 0), Some((9, 0)));
    assert_eq!(q.insert(9, 1), Some((9, 1)));
    assert_eq!(q.insert(2, 2), Some((2, 2)));
    assert_eq!(q.insert(7, 3), Some((7, 3)));
}

#[test]
fn queue_matches_brute_force_window_minimum() {
    for w in 1..=7usize {
        for seed in 0..4u64 {
            let mut q = MinimizerQueue::new(w);
            let mut hashes: Vec<u64> = Vec::new();
            let mut state = seed * 7919 + w as u64;
            let mut previous: Option<(u64, usize)> = None;
            for pos in 0..300usize {
                state = state.wrapping_mul(6364136223846793005).wrapping_add(1);
                let h = (state >> 40) % 16;
                hashes.push(h);
                let expected = brute_window_min(&hashes, w);
                let got = q.insert(h, pos);
                if previous == Some(expected) {
                    assert_eq!(got, None);
                } else {
                    assert_eq!(got, Some(expected));
                }
                previous = Some(expected);
            }
        }
    }
}

#[test]
fn sketch_of_repeated_acgt() {
    let s = get_minimizers(b"ACGTACGTACGT", 4, 2).unwrap();
    assert_eq!(
        s,
        vec![(557321349, 0), (557321349, 4), (557321349, 8), (1188634292, 2), (1188634292, 6)]
    );
    assert_eq!(s, brute_sketch(b"ACGTACGTACGT", 4, 2));
}

#[test]
fn sketch_skips_ambiguous_kmers() {
    let s = get_minimizers(b"ACGTNACGTACGT", 4, 2).unwrap();
    assert_eq!(s, vec![(557321349, 0), (557321349, 5), (557321349, 9), (1188634292, 7)]);
    // Positions 1 to 4 hold the 'N'; the windows made only of them give nothing.
    assert!(s.iter().all(|&(h, p)| h != SENTINEL && !(1..=4).contains(&p)));
}

#[test]
fn sketch_with_a_run_of_ambiguous_symbols() {
    let s = get_minimizers(b"GATTACANNNNNNGATTACA", 3, 3).unwrap();
    assert_eq!(
        s,
        vec![
            (437279381, 1),
            (437279381, 14),
            (1188634292, 3),
            (1188634292, 16),
            (1935301714, 4),
            (2323460283, 0),
            (2323460283, 13)
        ]
    );
}

#[test]
fn sketch_rejects_bad_parameters() {
    assert_eq!(get_minimizers(b"ACGTACGT", 0, 2), Err(SketchError::InvalidParameters));
    assert_eq!(get_minimizers(b"ACGTACGT", 3, 0), Err(SketchError::InvalidParameters));
    assert_eq!(get_minimizers(b"ACGTACGT", 5, 4), Err(SketchError::InvalidParameters));
    assert_eq!(get_minimizers(b"", 1, 1), Err(SketchError::InvalidParameters));
    assert!(get_minimizers(b"ACGTACGT", 4, 4).is_ok());
}

#[test]
fn sketch_is_sorted_and_unique() {
    let seq = pseudo_sequence(2000, 11, true);
    let s = get_minimizers(&seq, 7, 13).unwrap();
    for pair in s.windows(2) {
        assert!(pair[0] < pair[1]);
    }
    assert_eq!(s, brute_sketch(&seq, 7, 13));
}

#[test]
fn sketch_is_idempotent() {
    let seq = pseudo_sequence(1500, 3, true);
    assert_eq!(get_minimizers(&seq, 9, 20), get_minimizers(&seq, 9, 20));
}

#[test]
fn sketch_covers_every_window() {
    let seq = pseudo_sequence(1200, 5, true);
    let (k, w) = (5usize, 8usize);
    let s = get_minimizers(&seq, k, w).unwrap();
    for i in 0..=seq.len() - k + 1 - w {
        let valid: Vec<usize> = (i..i + w).filter(|&p| is_valid(&seq[p..p + k])).collect();
        if valid.is_empty() {
            continue;
        }
        let min = valid.iter().map(|&p| hash_kmer(&seq[p..p + k])).min().unwrap();
        assert!(s.iter().any(|&(h, p)| h == min && valid.contains(&p)));
    }
}

#[test]
fn match_scenario() {
    let reference = vec![(5u32, 0usize), (9, 3)];
    let query = vec![(5u32, 10usize), (9, 20), (7, 30)];
    assert_eq!(match_sketches(&reference, &query), vec![(10, 0), (20, 3)]);
}

#[test]
fn match_reports_every_reference_position() {
    let reference = vec![(2u32, 4usize), (5, 0), (5, 7), (9, 3)];
    let query = vec![(9u32, 1usize), (5, 2), (1, 8)];
    assert_eq!(match_sketches(&reference, &query), vec![(1, 3), (2, 0), (2, 7)]);
}

#[test]
fn match_without_shared_hashes_is_empty() {
    assert_eq!(match_sketches(&[(1, 0), (2, 1)], &[(3, 0)]), vec![]);
    assert_eq!(match_sketches(&[], &[(3, 0)]), vec![]);
    assert_eq!(match_sketches(&[(3, 0)], &[]), vec![]);
}

#[test]
fn match_both_ways_finds_the_same_pairs() {
    let a = get_minimizers(&pseudo_sequence(800, 21, false), 4, 6).unwrap();
    let b = get_minimizers(&pseudo_sequence(700, 22, false), 4, 6).unwrap();
    let ab = match_sketches(&a, &b);
    let mut ba: Vec<(usize, usize)> = match_sketches(&b, &a).into_iter().map(|(x, y)| (y, x)).collect();
    ba.sort();
    assert!(!ab.is_empty());
    assert_eq!(ab, ba);
}

#[test]
fn sketches_of_shared_text_match() {
    let reference = get_minimizers(b"GGGGGGACGTACGTCCCCCC", 4, 3).unwrap();
    let query = get_minimizers(b"TTACGTACGTTT", 4, 3).unwrap();
    let matches = match_sketches(&reference, &query);
    assert_eq!(matches, vec![(2, 6), (2, 10), (4, 8), (6, 6), (6, 10)]);
}

#[test]
fn valid_kmer_with_the_sentinel_hash_is_kept() {
    let kmer = b"GCTGATAAGCCGGGCA";
    assert_eq!(hash_kmer(kmer), u32::MAX);
    let mut seq = kmer.to_vec();
    seq.push(b'N');
    assert_eq!(get_minimizers(&seq, 16, 1).unwrap(), vec![(u32::MAX, 0)]);
    // A later invalid k-mer does not take the window from it on the tie.
    seq.push(b'N');
    assert_eq!(get_minimizers(&seq, 16, 2).unwrap(), vec![(u32::MAX, 0)]);
    assert_eq!(get_minimizers(&seq, 16, 2).unwrap(), brute_sketch(&seq, 16, 2));
}

#[test]
fn queue_ranks_invalid_above_every_hash() {
    assert_eq!(INVALID_RANK, 1u64 << 32);
    let mut q = MinimizerQueue::new(2);
    assert_eq!(q.insert(INVALID_RANK, 0), Some((INVALID_RANK, 0)));
    assert_eq!(q.insert(u32::MAX as u64, 1), Some((u32::MAX as u64, 1)));
    assert_eq!(q.insert(INVALID_RANK, 2), None);
    assert_eq!(q.insert(INVALID_RANK, 3), Some((INVALID_RANK, 3)));
}
