use slb::fileblocks::{
    average_size, check_parameters, chunkify, chunkify_multiple, desired_chunks, ChunkError,
    ChunkPlan, FileChunk,
};
use slb::lines::{read_until, NEWLINE};
use std::path::PathBuf;

fn ranges(chunks: &[FileChunk]) -> Vec<(usize, usize)> {
    chunks.iter().map(|c| (c.start(), c.stop())).collect()
}

fn input() -> PathBuf {
    PathBuf::from("input.txt")
}

#[test]
fn chunkify_rejects_zero_chunks() {
    let r = chunkify(&input(), b"a\nb\n", 0, 1);
    assert_eq!(r.err(), Some(ChunkError::InvariantViolation));
}

#[test]
fn chunkify_short_file_is_one_chunk() {
    let chunks = chunkify(&input(), b"a\nb\n", 2, 1).unwrap();
    assert_eq!(ranges(&chunks), vec![(0, 4)]);
    assert_eq!(chunks[0].path(), &input());
}

#[test]
fn chunkify_three_lines_in_three_pieces() {
    let data = b"aaaa\nbbbb\ncccc\n";
    let chunks = chunkify(&input(), data, 3, 1).unwrap();
    assert_eq!(ranges(&chunks), vec![(0, 10), (10, 15)]);
}

#[test]
fn chunkify_eight_bytes_in_four_pieces() {
    let chunks = chunkify(&input(), b"a\nb\nc\nd\n", 4, 1).unwrap();
    assert_eq!(ranges(&chunks), vec![(0, 4), (4, 8)]);
}

#[test]
fn chunkify_respects_min_size() {
    let data = b"aaaa\nbbbb\ncccc\n";
    let chunks = chunkify(&input(), data, 3, 16).unwrap();
    assert_eq!(ranges(&chunks), vec![(0, 15)]);
    let chunks = chunkify(&input(), data, 3, 7).unwrap();
    assert_eq!(ranges(&chunks), vec![(0, 10), (10, 15)]);
}

#[test]
fn chunkify_empty_file_has_no_chunk() {
    let chunks = chunkify(&input(), b"", 4, 1).unwrap();
    assert!(chunks.is_empty());
}

#[test]
fn chunkify_without_trailing_newline() {
    let chunks = chunkify(&input(), b"abc", 2, 1).unwrap();
    assert_eq!(ranges(&chunks), vec![(0, 3)]);
    let chunks = chunkify(&input(), b"ab\ncd\nef", 4, 1).unwrap();
    assert_eq!(ranges(&chunks), vec![(0, 3), (3, 6), (6, 8)]);
}

#[test]
fn chunkify_line_longer_than_a_piece() {
    // a first line that runs over the first three tentative stops
    let data = b"0123456789\nab\n";
    let chunks = chunkify(&input(), data, 4, 1).unwrap();
    assert_eq!(ranges(&chunks), vec![(0, 11), (11, 14)]);
}

#[test]
fn chunkify_large_sizes_do_not_overflow() {
    // one piece per byte: every tentative stop is passed or cut at
    let data = vec![b'\n'; 1000];
    let chunks = chunkify(&input(), &data, usize::MAX, 1).unwrap();
    assert_eq!(chunks.len(), 500);
    assert_eq!((chunks[0].start(), chunks[0].stop()), (0, 2));
    assert_eq!(chunks[499].stop(), 1000);
}

#[test]
fn chunks_cover_the_file() {
    let data = b"one 1\ntwo 22\nthree 333\nfour 4444\nfive 55555\nsix";
    for max_chunks in 1..12 {
        for min_size in 1..9 {
            let chunks = chunkify(&input(), data, max_chunks, min_size).unwrap();
            let mut cursor = 0;
            let mut bytes = Vec::new();
            for chunk in &chunks {
                assert_eq!(chunk.start(), cursor);
                assert!(chunk.start() < chunk.stop());
                cursor = chunk.stop();
                bytes.extend_from_slice(&chunk.dump(data));
            }
            assert_eq!(cursor, data.len());
            assert_eq!(&bytes[..], &data[..]);
            assert!(chunks.len() <= max_chunks);
        }
    }
}

#[test]
fn chunks_are_line_coherent() {
    let data = b"one 1\ntwo 22\nthree 333\nfour 4444\nfive 55555\nsix";
    for max_chunks in 1..12 {
        let chunks = chunkify(&input(), data, max_chunks, 1).unwrap();
        for chunk in &chunks {
            let (start, stop) = (chunk.start(), chunk.stop());
            assert!(start == 0 || data[start - 1] == b'\n');
            assert!(stop == data.len() || data[stop - 1] == b'\n');
        }
    }
}

#[test]
fn chunkify_is_deterministic() {
    let data = b"one 1\ntwo 22\nthree 333\nfour 4444\n";
    let first = chunkify(&input(), data, 3, 2).unwrap();
    let second = chunkify(&input(), data, 3, 2).unwrap();
    assert_eq!(ranges(&first), ranges(&second));
}

#[test]
fn nbytes_is_stop_minus_start() {
    let chunks = chunkify(&input(), b"aaaa\nbbbb\ncccc\n", 3, 1).unwrap();
    assert_eq!(chunks[0].nbytes(), 10);
    assert_eq!(chunks[1].nbytes(), 5);
}

#[test]
fn dump_gives_the_lines_of_the_chunk() {
    let data = b"aaaa\nbbbb\ncccc\n";
    let chunks = chunkify(&input(), data, 3, 1).unwrap();
    assert_eq!(chunks[0].dump(data), b"aaaa\nbbbb\n".to_vec());
    assert_eq!(chunks[1].dump(data), b"cccc\n".to_vec());
}

#[test]
fn dump_of_a_file_that_changed() {
    let chunks = chunkify(&input(), b"aaaa\nbbbb\ncccc\n", 3, 1).unwrap();
    // the first chunk, 0..10, ends within a line now: the line is dumped whole
    assert_eq!(chunks[0].dump(b"aaaaaaaaaaaa\nb\n"), b"aaaaaaaaaaaa\n".to_vec());
    // the lines end before the chunk does
    assert_eq!(chunks[0].dump(b"aa\nbb"), b"aa\nbb".to_vec());
    // the second chunk, 10..15, begins beyond the end, or at it
    assert_eq!(chunks[1].dump(b"short"), Vec::<u8>::new());
    assert_eq!(chunks[1].dump(b"0123456789"), Vec::<u8>::new());
}

#[test]
fn average_size_rounds_up() {
    assert_eq!(average_size(&[4, 12]), 8);
    assert_eq!(average_size(&[1, 2]), 2);
    assert_eq!(average_size(&[7]), 7);
    assert_eq!(average_size(&[0, 0, 0]), 0);
    assert_eq!(average_size(&[0, 0, 1]), 1);
    assert_eq!(average_size(&[]), 0);
}

#[test]
fn average_size_of_huge_files() {
    assert_eq!(average_size(&[usize::MAX, usize::MAX, usize::MAX]), usize::MAX);
    assert_eq!(average_size(&[usize::MAX, usize::MAX - 1]), usize::MAX);
}

#[test]
fn desired_chunks_rounds_up() {
    assert_eq!(desired_chunks(12, 8), 2);
    assert_eq!(desired_chunks(8, 8), 1);
    assert_eq!(desired_chunks(9, 8), 2);
    assert_eq!(desired_chunks(1, 8), 1);
    assert_eq!(desired_chunks(0, 8), 0);
    assert_eq!(desired_chunks(5, 0), 0);
    assert_eq!(desired_chunks(usize::MAX, usize::MAX), 1);
    assert_eq!(desired_chunks(usize::MAX, 1), usize::MAX);
}

#[test]
fn check_parameters_wants_files_and_chunks() {
    assert_eq!(check_parameters(1, 1), Ok(()));
    assert_eq!(check_parameters(0, 1), Err(ChunkError::InvariantViolation));
    assert_eq!(check_parameters(1, 0), Err(ChunkError::InvariantViolation));
    assert_eq!(check_parameters(0, 0), Err(ChunkError::InvariantViolation));
}

#[test]
fn chunkify_multiple_rejects_bad_parameters() {
    let files = vec![(input(), b"a\n".to_vec())];
    assert_eq!(
        chunkify_multiple(&files, 0, 1).err(),
        Some(ChunkError::InvariantViolation)
    );
    assert_eq!(
        chunkify_multiple(&[], 4, 1).err(),
        Some(ChunkError::InvariantViolation)
    );
}

#[test]
fn chunkify_multiple_gives_large_files_more_chunks() {
    let small = PathBuf::from("small.txt");
    let large = PathBuf::from("large.txt");
    let files = vec![
        (small.clone(), b"x\ny\n".to_vec()),
        (large.clone(), b"aaa\nbbb\nccc\nddd\neee\n".to_vec()),
    ];
    // sizes 4 and 20, average 12: one chunk and two chunks
    let chunks = chunkify_multiple(&files, 8, 1).unwrap();
    let got: Vec<(PathBuf, usize, usize)> = chunks
        .iter()
        .map(|c| (c.path().clone(), c.start(), c.stop()))
        .collect();
    assert_eq!(
        got,
        vec![(small, 0, 4), (large.clone(), 0, 12), (large, 12, 20)]
    );
}

#[test]
fn chunkify_multiple_passes_over_empty_files() {
    let empty = PathBuf::from("empty.txt");
    let full = PathBuf::from("full.txt");
    let files = vec![
        (empty.clone(), Vec::new()),
        (full.clone(), b"aaaa\nbbbb\n".to_vec()),
        (empty, Vec::new()),
    ];
    let chunks = chunkify_multiple(&files, 2, 1).unwrap();
    let got: Vec<(PathBuf, usize, usize)> = chunks
        .iter()
        .map(|c| (c.path().clone(), c.start(), c.stop()))
        .collect();
    // sizes 0, 10, 0; average 4: three pieces for the one file with bytes
    assert_eq!(got, vec![(full.clone(), 0, 5), (full, 5, 10)]);
}

#[test]
fn chunkify_multiple_of_empty_files_only() {
    let files = vec![(input(), Vec::new()), (input(), Vec::new())];
    let chunks = chunkify_multiple(&files, 3, 1).unwrap();
    assert!(chunks.is_empty());
}

#[test]
fn chunkify_multiple_covers_every_file() {
    let files = vec![
        (PathBuf::from("a"), b"k1 v\nk2 v\nk3 v\nk4 v\n".to_vec()),
        (PathBuf::from("b"), b"\n\n\n".to_vec()),
        (PathBuf::from("c"), b"one long line without an end".to_vec()),
        (PathBuf::from("d"), Vec::new()),
    ];
    for min_size in 1..6 {
        let chunks = chunkify_multiple(&files, 5, min_size).unwrap();
        let mut bytes = Vec::new();
        for chunk in &chunks {
            let file = files.iter().find(|f| &f.0 == chunk.path()).unwrap();
            bytes.extend_from_slice(&chunk.dump(&file.1));
        }
        let whole: Vec<u8> = files.iter().flat_map(|f| f.1.iter().copied()).collect();
        assert_eq!(bytes, whole);
    }
}

#[test]
fn plan_asks_where_lines_must_end() {
    let data = b"aaaa\nbbbb\ncccc\n";
    let mut plan = ChunkPlan::new(input(), data.len(), 3, 1);
    assert_eq!(plan.probe(), Some(5));
    // asking again changes nothing
    assert_eq!(plan.probe(), Some(5));
    assert!(plan.cut(read_until(NEWLINE, &data[5..])));
    // the second tentative stop, 10, is where the first chunk ends
    assert_eq!(plan.probe(), Some(15));
    assert!(plan.cut(read_until(NEWLINE, &data[15..])));
    assert_eq!(plan.probe(), None);
    assert_eq!(ranges(&plan.into_chunks()), vec![(0, 10), (10, 15)]);
}

#[test]
fn plan_refuses_a_cut_that_is_not_due() {
    let mut plan = ChunkPlan::new(input(), 10, 2, 1);
    assert_eq!(plan.probe(), Some(5));
    // beyond the end of the file
    assert!(!plan.cut(6));
    assert!(plan.cut(5));
    // nothing is left to cut
    assert!(!plan.cut(0));
    assert_eq!(plan.probe(), None);
    assert_eq!(ranges(&plan.into_chunks()), vec![(0, 10)]);
}

#[test]
fn plan_for_an_empty_file() {
    let mut plan = ChunkPlan::new(input(), 0, 4, 1);
    assert_eq!(plan.probe(), None);
    assert!(!plan.cut(0));
    assert!(plan.into_chunks().is_empty());
}

#[test]
fn plan_agrees_with_chunkify() {
    let data = b"one 1\ntwo 22\nthree 333\nfour 4444\nfive 55555\nsix";
    for max_chunks in 0..10 {
        let mut plan = ChunkPlan::new(input(), data.len(), max_chunks, 2);
        while let Some(at) = plan.probe() {
            assert!(plan.cut(read_until(NEWLINE, &data[at..])));
        }
        let planned = ranges(&plan.into_chunks());
        let pieces = if max_chunks == 0 { 1 } else { max_chunks };
        let cut = ranges(&chunkify(&input(), data, pieces, 2).unwrap());
        assert_eq!(planned, cut);
    }
}

#[test]
fn chunkify_multiple_counts_by_size_alone() {
    let mut files = Vec::new();
    for name in ["a", "b", "c", "d"] {
        files.push((PathBuf::from(name), b"\n".to_vec()));
    }
    files.push((PathBuf::from("e"), b"x\n".repeat(50)));
    // sizes 1, 1, 1, 1 and 100; average 21: one chunk each, and five
    for max_chunks in [1, 2, 100] {
        let chunks = chunkify_multiple(&files, max_chunks, 1).unwrap();
        assert_eq!(chunks.len(), 9);
        let last: Vec<(usize, usize)> = chunks[4..].iter().map(|c| (c.start(), c.stop())).collect();
        assert_eq!(last, vec![(0, 22), (22, 42), (42, 62), (62, 82), (82, 100)]);
    }
}

#[test]
fn dump_keeps_carriage_returns_and_empty_lines() {
    let data = b"a\r\n\n\nb\r\nlast";
    let chunks = chunkify(&input(), data, 1, 1).unwrap();
    assert_eq!(chunks.len(), 1);
    assert_eq!(chunks[0].dump(data), data.to_vec());
}
