use chunked_sum::partition::{
    checked_split_chunks, chunk_size, chunks_of, copy_range, partition, split_chunks, Chunk};

fn ch(start: usize, end: usize) -> Chunk {
    Chunk { start, end }
}

/// How many chunks of `chunks` contain each index of `0..n`, and whether any
/// chunk reaches past `n`.
fn cover_counts(chunks: &[Chunk], n: usize) -> (Vec<usize>, bool) {
    let mut counts = vec![0usize; n];
    let mut outside = false;
    for c in chunks {
        for i in c.start..c.end {
            if i < n {
                counts[i] += 1;
            } else {
                outside = true;
            }
        }
    }
    (counts, outside)
}

fn sum_pieces(pieces: &[Vec<f64>], f: fn(f64) -> f64) -> f64 {
    pieces.iter().map(|p| p.iter().map(|x| f(*x)).sum::<f64>()).sum()
}

fn sample(n: usize) -> Vec<f64> {
    (0..n).map(|i| ((i * 7919) % 1000) as f64 * 0.37 + i as f64).collect()
}

#[test]
fn four_values_two_workers() {
    let v = vec![0.0, 1.0, 2.0, 3.0];
    let pieces = split_chunks(&v, 2);
    assert_eq!(pieces, vec![vec![0.0, 1.0], vec![2.0, 3.0]]);
    assert_eq!(sum_pieces(&pieces, |x| x), 6.0);
    assert_eq!(partition(4, 2), vec![ch(0, 2), ch(2, 4)]);
}

#[test]
fn dangling_last_element_is_kept() {
    assert_eq!(chunks_of(5, 2), vec![ch(0, 2), ch(2, 4), ch(4, 5)]);
    let (counts, outside) = cover_counts(&chunks_of(5, 2), 5);
    assert_eq!(counts, vec![1; 5]);
    assert!(!outside);
    assert_eq!(partition(5, 2), vec![ch(0, 3), ch(3, 5)]);
    let v = vec![1.0, 2.0, 3.0, 4.0, 5.0];
    assert_eq!(split_chunks(&v, 2), vec![vec![1.0, 2.0, 3.0], vec![4.0, 5.0]]);
}

#[test]
fn many_more_workers_than_elements() {
    let chunks = partition(4, 100);
    assert_eq!(chunks, vec![ch(0, 1), ch(1, 2), ch(2, 3), ch(3, 4)]);
    let v = vec![0.5, 1.5, 2.5, 3.5];
    let pieces = split_chunks(&v, 100);
    assert_eq!(pieces.len(), 4);
    assert!(pieces.iter().all(|p| p.len() == 1));
    assert_eq!(sum_pieces(&pieces, |x| x), 8.0);
}

#[test]
fn empty_input_has_no_chunks() {
    assert_eq!(chunk_size(0, 1), 1);
    assert_eq!(chunk_size(0, 16), 1);
    assert_eq!(partition(0, 1), vec![]);
    assert_eq!(partition(0, 100_000), vec![]);
    let v: Vec<f64> = vec![];
    let pieces = split_chunks(&v, 8);
    assert!(pieces.is_empty());
    assert_eq!(sum_pieces(&pieces, f64::sin), 0.0);
}

#[test]
fn one_worker_gets_everything() {
    assert_eq!(partition(7, 1), vec![ch(0, 7)]);
    let v = sample(1000);
    let pieces = split_chunks(&v, 1);
    assert_eq!(pieces, vec![v.clone()]);
    let sequential: f64 = v.iter().map(|x| x.sin()).sum();
    assert_eq!(sum_pieces(&pieces, f64::sin), sequential);
}

#[test]
fn chunk_size_is_ceiling() {
    assert_eq!(chunk_size(10, 3), 4);
    assert_eq!(chunk_size(9, 3), 3);
    assert_eq!(chunk_size(5, 2), 3);
    assert_eq!(chunk_size(1, 100), 1);
    assert_eq!(chunk_size(50_000_000, 100_000), 500);
    assert_eq!(chunk_size(usize::MAX, 1), usize::MAX);
    assert_eq!(chunk_size(usize::MAX, 2), usize::MAX / 2 + 1);
}

#[test]
fn coverage_for_many_sizes() {
    for n in 0..60usize {
        for w in 1..70usize {
            let chunks = partition(n, w);
            let (counts, outside) = cover_counts(&chunks, n);
            assert!(counts.iter().all(|c| *c == 1), "n={} w={}", n, w);
            assert!(!outside);
            assert!(chunks.len() <= w && chunks.len() <= n);
            assert!(chunks.iter().all(|c| c.start < c.end));
        }
    }
}

#[test]
fn largest_input_two_workers() {
    let chunks = partition(usize::MAX, 2);
    assert_eq!(chunks, vec![ch(0, usize::MAX / 2 + 1), ch(usize::MAX / 2 + 1, usize::MAX)]);
}

#[test]
fn pieces_rejoin_to_input() {
    let v = sample(1237);
    for w in [1usize, 2, 3, 8, 16, 100, 5000] {
        let joined: Vec<f64> = split_chunks(&v, w).concat();
        assert_eq!(joined, v);
    }
}

#[test]
fn parallel_sum_matches_sequential() {
    let v = sample(20_000);
    let sequential: f64 = v.iter().map(|x| x.sin()).sum();
    for w in [2usize, 8, 16, 100_000] {
        let split = sum_pieces(&split_chunks(&v, w), f64::sin);
        assert!((split - sequential).abs() < 1e-6, "w={}", w);
    }
}

#[test]
fn repeated_runs_agree() {
    let v = sample(5000);
    for w in [2usize, 8, 16] {
        let first = sum_pieces(&split_chunks(&v, w), f64::sin);
        let second = sum_pieces(&split_chunks(&v, w), f64::sin);
        assert_eq!(first.to_bits(), second.to_bits());
        assert_eq!(partition(v.len(), w), partition(v.len(), w));
    }
}

#[test]
fn copy_range_copies_the_range() {
    let v = vec![3u32, 1, 4, 1, 5, 9];
    assert_eq!(copy_range(&v, 1, 4), vec![1, 4, 1]);
    assert_eq!(copy_range(&v, 2, 2), Vec::<u32>::new());
    assert_eq!(copy_range(&v, 0, 6), v);
}

#[test]
fn no_workers_is_refused() {
    let v = vec![1.0, 2.0];
    assert_eq!(checked_split_chunks(&v, 0), None);
    assert_eq!(checked_split_chunks(&v, 2), Some(vec![vec![1.0], vec![2.0]]));
}
