use qdb::external_sort::{number_of_runs, sort_run, Merger, B, BLOCK, M, MAX_RUNS};

#[test]
fn runs_are_counted() {
    assert_eq!(number_of_runs(B, M), Some(5));
    assert_eq!(number_of_runs(0, 8), Some(0));
    assert_eq!(number_of_runs(1, 8), Some(1));
    assert_eq!(number_of_runs(8, 8), Some(1));
    assert_eq!(number_of_runs(9, 8), Some(2));
    assert_eq!(number_of_runs(56, 8), Some(7));
    // eight runs would leave no block for the output
    assert_eq!(number_of_runs(57, 8), None);
    assert_eq!(number_of_runs(1, 1), None);
    assert_eq!(number_of_runs(0, 1), Some(0));
}

#[test]
fn a_run_is_sorted() {
    let mut buffers = [[0u8; BLOCK]; M];
    for b in 0..M {
        for i in 0..BLOCK {
            buffers[b][i] = ((b * 31 + i * 7) % 251) as u8;
        }
    }
    let sorted = sort_run(&buffers);
    assert_eq!(sorted.len(), M * BLOCK);
    assert!(sorted.windows(2).all(|w| w[0] <= w[1]));
    let mut expected: Vec<u8> = buffers.concat();
    assert_ne!(sorted, expected);
    expected.sort();
    assert_eq!(sorted, expected);
}

#[test]
fn no_more_runs_than_memory_has_room_for() {
    assert!(Merger::new(MAX_RUNS).is_some());
    assert!(Merger::new(MAX_RUNS + 1).is_none());
    let m = Merger::new(3).unwrap();
    assert_eq!(m.runs(), 3);
    assert_eq!(m.awaiting(), None);
    assert_eq!(m.remainder_len(), 0);
    assert!(m.buffer(0).iter().all(|b| *b == 0));
    assert!(m.output().iter().all(|b| *b == 0));
}

#[test]
fn least_byte_goes_first_and_the_later_run_wins_a_tie() {
    let mut m = Merger::new(3).unwrap();
    m.load(0, [7u8; BLOCK]);
    m.load(1, [5u8; BLOCK]);
    m.load(2, [5u8; BLOCK]);
    assert_eq!(m.select_min(), (2, 5));
    assert_eq!(m.advance(2), false);
    assert_eq!(m.emit(5), false);
    assert_eq!(m.output()[0], 5);
    assert_eq!(m.remainder_len(), 2);
    let mut block = [9u8; BLOCK];
    block[0] = 1;
    m.load(0, block);
    assert_eq!(m.select_min(), (0, 1));
    assert_eq!(m.advance(0), false);
    // run 0 now stands at a 9
    assert_eq!(m.select_min(), (2, 5));
}

#[test]
fn a_merge_without_live_runs_names_run_zero() {
    let m = Merger::new(0).unwrap();
    assert_eq!(m.select_min(), (0, 255));
}

/// Merges the runs, each a whole number of blocks, as a caller with files
/// would: it reads a block when told to, and writes when told to.
fn merge(runs: &[Vec<u8>]) -> Vec<u8> {
    let mut m = Merger::new(runs.len()).unwrap();
    let mut next_block = vec![1usize; runs.len()];
    for (i, run) in runs.iter().enumerate() {
        let mut block = [0u8; BLOCK];
        block.copy_from_slice(&run[..BLOCK]);
        m.load(i, block);
    }
    let mut out = Vec::new();
    loop {
        let (min_i, min) = m.select_min();
        if m.advance(min_i) {
            let mut block = *m.buffer(min_i);
            let from = next_block[min_i] * BLOCK;
            let n = if from < runs[min_i].len() {
                block.copy_from_slice(&runs[min_i][from..from + BLOCK]);
                next_block[min_i] += 1;
                BLOCK
            } else {
                0
            };
            if m.refilled(block, n) {
                break;
            }
        }
        if m.emit(min) {
            out.extend_from_slice(m.output());
        }
    }
    let n = m.remainder_len();
    out.extend_from_slice(&m.output()[..n]);
    out
}

#[test]
fn two_runs_of_one_block_each() {
    let out = merge(&[vec![1u8; BLOCK], vec![2u8; BLOCK]]);
    // all of run 0, then all of run 1 but its last byte, whose place the
    // byte before keeps that was left in the output block
    assert_eq!(out.len(), 2 * BLOCK);
    assert!(out[..BLOCK].iter().all(|b| *b == 1));
    assert!(out[BLOCK..2 * BLOCK - 1].iter().all(|b| *b == 2));
    assert_eq!(out[2 * BLOCK - 1], 1);
}

#[test]
fn runs_are_interleaved_in_order() {
    let mut a = vec![0u8; 2 * BLOCK];
    let mut b = vec![0u8; BLOCK];
    for i in 0..2 * BLOCK {
        a[i] = (i / 64) as u8 * 2; // 0, 2, 4, ..., 254 in steps
    }
    for i in 0..BLOCK {
        b[i] = (i / 32) as u8 * 2 + 1; // 1, 3, 5, ..., 255 in steps
    }
    let out = merge(&[a.clone(), b.clone()]);
    assert_eq!(out.len(), 3 * BLOCK);
    let body = &out[..3 * BLOCK - 1];
    assert!(body.windows(2).all(|w| w[0] <= w[1]));
    let mut all = a;
    all.extend_from_slice(&b);
    all.sort();
    assert_eq!(body, &all[..3 * BLOCK - 1]);
}

#[test]
fn a_run_that_ends_stands_still() {
    let mut m = Merger::new(2).unwrap();
    m.load(0, [3u8; BLOCK]);
    m.load(1, [4u8; BLOCK]);
    for _ in 0..BLOCK - 1 {
        assert_eq!(m.select_min(), (0, 3));
        assert!(!m.advance(0));
        m.emit(3);
    }
    assert_eq!(m.select_min(), (0, 3));
    assert!(m.advance(0));
    assert_eq!(m.awaiting(), Some(0));
    // nothing more to read: the run is over, the merge is not
    assert_eq!(m.refilled([3u8; BLOCK], 0), false);
    assert_eq!(m.awaiting(), None);
    assert!(m.emit(3));
    assert_eq!(m.remainder_len(), 0);
    assert_eq!(m.select_min(), (1, 4));
}
