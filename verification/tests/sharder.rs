use slb::sharder::{hash_key, key, partition_for, shard, Sharder};
use std::collections::hash_map::DefaultHasher;
use std::hash::Hasher;

fn expected_partition(key: &[u8], npartitions: usize) -> usize {
    let mut hasher = DefaultHasher::new();
    hasher.write(key);
    (hasher.finish() % npartitions as u64) as usize
}

/// What each partition was handed, put together.
fn streams(out: &[(usize, Vec<u8>)], npartitions: usize) -> Vec<Vec<u8>> {
    let mut streams = vec![Vec::new(); npartitions];
    for (partition, buffer) in out {
        streams[*partition].extend_from_slice(buffer);
    }
    streams
}

fn lines_of(data: &[u8]) -> Vec<&[u8]> {
    data.split_inclusive(|b| *b == b'\n').collect()
}

#[test]
fn hash_key_hashes_the_bytes_before_the_first_space() {
    for n in 1..9 {
        assert_eq!(hash_key(b"key1 a b c d\n", n), expected_partition(b"key1", n));
        assert_eq!(hash_key(b"key2 e f g h\n", n), expected_partition(b"key2", n));
    }
}

#[test]
fn hash_key_of_a_line_without_space_leaves_out_the_newline() {
    for n in 1..9 {
        assert_eq!(hash_key(b"lonely\n", n), expected_partition(b"lonely", n));
        assert_eq!(hash_key(b"lonely", n), expected_partition(b"lonely", n));
        assert_eq!(hash_key(b"lonely\r\n", n), expected_partition(b"lonely\r", n));
    }
}

#[test]
fn hash_key_of_empty_keys() {
    for n in 1..9 {
        let empty = expected_partition(b"", n);
        assert_eq!(hash_key(b"", n), empty);
        assert_eq!(hash_key(b"\n", n), empty);
        assert_eq!(hash_key(b" starts with a space\n", n), empty);
        assert_eq!(hash_key(b" \n", n), empty);
    }
}

#[test]
fn hash_key_keeps_a_newline_within_the_key() {
    for n in 1..9 {
        assert_eq!(hash_key(b"a\nb c\n", n), expected_partition(b"a\nb", n));
        assert_eq!(hash_key(b"a\n\n", n), expected_partition(b"a\n", n));
    }
}

#[test]
fn hash_key_is_below_the_number_of_partitions() {
    for n in 1..50 {
        for key in 0..40 {
            let line = format!("key{} value\n", key);
            assert!(hash_key(line.as_bytes(), n) < n);
        }
    }
}

#[test]
fn hash_key_with_one_partition() {
    assert_eq!(hash_key(b"anything at all\n", 1), 0);
}

#[test]
fn hash_key_depends_on_the_key_alone() {
    for n in 1..9 {
        let partition = hash_key(b"key1 a b c d\n", n);
        assert_eq!(hash_key(b"key1 a b\n", n), partition);
        assert_eq!(hash_key(b"key1\n", n), partition);
        assert_eq!(hash_key(b"key1", n), partition);
        assert_eq!(hash_key(b"key1 ", n), partition);
    }
}

#[test]
fn sharder_holds_lines_until_the_buffers_are_full() {
    let mut sharder = Sharder::new(1, 8);
    assert!(sharder.push_line(b"a 1\n").is_empty());
    assert_eq!(sharder.push_line(b"b 2\n"), vec![(0, b"a 1\nb 2\n".to_vec())]);
    assert!(sharder.push_line(b"c 3\n").is_empty());
    assert_eq!(sharder.flush(), vec![(0, b"c 3\n".to_vec())]);
    assert!(sharder.flush().is_empty());
}

#[test]
fn sharder_counts_the_bytes_of_all_buffers() {
    let n = 4;
    let lines: [&[u8]; 3] = [b"k1 aaaa\n", b"k2 bbbb\n", b"k3 cccc\n"];
    let mut sharder = Sharder::new(n, 24);
    assert!(sharder.push_line(lines[0]).is_empty());
    assert!(sharder.push_line(lines[1]).is_empty());
    let out = sharder.push_line(lines[2]);
    let mut expected = vec![Vec::new(); n];
    for line in lines {
        expected[hash_key(line, n)].extend_from_slice(line);
    }
    let expected: Vec<(usize, Vec<u8>)> = expected
        .into_iter()
        .enumerate()
        .filter(|(_, buffer)| !buffer.is_empty())
        .collect();
    assert_eq!(out, expected);
    assert!(sharder.flush().is_empty());
}

#[test]
fn sharder_with_no_room_flushes_every_line() {
    let mut sharder = Sharder::new(3, 0);
    let p = hash_key(b"k v\n", 3);
    assert_eq!(sharder.push_line(b"k v\n"), vec![(p, b"k v\n".to_vec())]);
    assert_eq!(sharder.push_line(b"k v\n"), vec![(p, b"k v\n".to_vec())]);
    assert!(sharder.push_line(b"").is_empty());
    assert!(sharder.flush().is_empty());
}

#[test]
fn shard_routes_three_lines_to_two_partitions() {
    let data = b"key1 a b c d\nkey2 e f g h\nkey1 a b\n";
    let out = shard(data, 2, 64 * 1024);
    let one = expected_partition(b"key1", 2);
    let two = expected_partition(b"key2", 2);
    let mut expected = vec![Vec::new(); 2];
    expected[one].extend_from_slice(b"key1 a b c d\n");
    expected[two].extend_from_slice(b"key2 e f g h\n");
    expected[one].extend_from_slice(b"key1 a b\n");
    assert_eq!(streams(&out, 2), expected);
    // one buffer for each partition that has lines, in the order of the partitions
    let partitions: Vec<usize> = out.iter().map(|e| e.0).collect();
    if one == two {
        assert_eq!(partitions, vec![one]);
    } else {
        assert_eq!(partitions, vec![0, 1]);
    }
}

#[test]
fn shard_of_nothing_hands_on_nothing() {
    assert!(shard(b"", 4, 16).is_empty());
}

#[test]
fn shard_of_a_line_without_newline() {
    let n = 5;
    let out = shard(b"lonely_key value", n, 1024);
    assert_eq!(
        out,
        vec![(expected_partition(b"lonely_key", n), b"lonely_key value".to_vec())]
    );
}

#[test]
fn shard_hands_on_empty_lines_as_newlines() {
    assert_eq!(shard(b"\n\n\n", 1, 1024), vec![(0, b"\n\n\n".to_vec())]);
    assert_eq!(
        shard(b"\n\n", 1, 1),
        vec![(0, b"\n".to_vec()), (0, b"\n".to_vec())]
    );
}

#[test]
fn shard_flushes_when_the_buffers_are_full() {
    let data = b"a 1\nb 2\nc 3\nd 4\ne 5\n";
    assert_eq!(
        shard(data, 1, 8),
        vec![
            (0, b"a 1\nb 2\n".to_vec()),
            (0, b"c 3\nd 4\n".to_vec()),
            (0, b"e 5\n".to_vec())
        ]
    );
    assert_eq!(
        shard(data, 1, 9),
        vec![(0, b"a 1\nb 2\nc 3\n".to_vec()), (0, b"d 4\ne 5\n".to_vec())]
    );
    assert_eq!(shard(data, 1, 20), vec![(0, data.to_vec())]);
    assert_eq!(shard(data, 1, 21), vec![(0, data.to_vec())]);
}

#[test]
fn shard_with_no_room_hands_on_line_by_line() {
    let data = b"key1 a\nkey2 b\nkey1 c\nlast";
    let n = 3;
    let expected: Vec<(usize, Vec<u8>)> = lines_of(data)
        .into_iter()
        .map(|line| (hash_key(line, n), line.to_vec()))
        .collect();
    assert_eq!(shard(data, n, 0), expected);
    assert_eq!(shard(data, n, 1), expected);
}

#[test]
fn shard_keeps_carriage_returns() {
    assert_eq!(shard(b"a 1\r\nb 2\r\n", 1, 5), vec![
        (0, b"a 1\r\n".to_vec()),
        (0, b"b 2\r\n".to_vec())
    ]);
}

fn sample() -> Vec<u8> {
    let mut data = Vec::new();
    for i in 0..200 {
        data.extend_from_slice(format!("key{} value {}\n", i % 17, i).as_bytes());
        if i % 23 == 0 {
            data.extend_from_slice(b"\n");
        }
        if i % 31 == 0 {
            data.extend_from_slice(b" no key here\n");
        }
    }
    data.extend_from_slice(b"key3 last line without newline");
    data
}

#[test]
fn lines_go_to_the_partition_of_their_key() {
    let data = sample();
    for n in [1, 2, 3, 7] {
        for bufsize in [0, 1, 50, 64, 1000, 1 << 20] {
            for (partition, buffer) in shard(&data, n, bufsize) {
                assert!(partition < n);
                assert!(!buffer.is_empty());
                for line in lines_of(&buffer) {
                    assert_eq!(hash_key(line, n), partition);
                }
            }
        }
    }
}

#[test]
fn lines_are_conserved() {
    let data = sample();
    let mut input: Vec<Vec<u8>> = lines_of(&data).into_iter().map(|l| l.to_vec()).collect();
    input.sort();
    for n in [1, 2, 3, 7] {
        for bufsize in [0, 1, 50, 64, 1000, 1 << 20] {
            let mut output: Vec<Vec<u8>> = Vec::new();
            for (_, buffer) in shard(&data, n, bufsize) {
                output.extend(lines_of(&buffer).into_iter().map(|l| l.to_vec()));
            }
            output.sort();
            assert_eq!(output, input);
        }
    }
}

#[test]
fn partitions_receive_their_lines_in_input_order() {
    let data = sample();
    for n in [1, 2, 3, 7] {
        let mut expected = vec![Vec::new(); n];
        for line in lines_of(&data) {
            expected[hash_key(line, n)].extend_from_slice(line);
        }
        for bufsize in [0, 1, 50, 64, 1000, 1 << 20] {
            assert_eq!(streams(&shard(&data, n, bufsize), n), expected);
        }
    }
}

#[test]
fn buffers_hold_consecutive_lines_of_their_partition() {
    let data = sample();
    let n = 3;
    let lines = lines_of(&data);
    let mut seen = vec![0; n];
    for (partition, buffer) in shard(&data, n, 100) {
        let mine: Vec<&[u8]> = lines
            .iter()
            .copied()
            .filter(|l| hash_key(l, n) == partition)
            .collect();
        let held = lines_of(&buffer);
        let from = seen[partition];
        assert_eq!(&mine[from..from + held.len()], &held[..]);
        seen[partition] = from + held.len();
    }
}

#[test]
fn shard_is_deterministic() {
    let data = sample();
    assert_eq!(shard(&data, 4, 128), shard(&data, 4, 128));
}

#[test]
fn shard_agrees_with_the_sharder() {
    let data = sample();
    let n = 4;
    let bufsize = 77;
    let mut sharder = Sharder::new(n, bufsize);
    let mut out = Vec::new();
    for line in lines_of(&data) {
        out.extend(sharder.push_line(line));
    }
    out.extend(sharder.flush());
    assert_eq!(shard(&data, n, bufsize), out);
}

#[test]
fn shard_keeps_repeated_lines() {
    let n = 6;
    let out = shard(b"k v\nk v\n", n, 1024);
    assert_eq!(out, vec![(hash_key(b"k v\n", n), b"k v\nk v\n".to_vec())]);
}

#[test]
fn partition_count_is_one_at_least() {
    assert_eq!(slb::sharder::partition_count(0), 1);
    assert_eq!(slb::sharder::partition_count(1), 1);
    assert_eq!(slb::sharder::partition_count(12), 12);
}

#[test]
fn key_is_what_comes_before_the_first_space() {
    assert_eq!(key(b"key1 a b c d\n"), b"key1");
    assert_eq!(key(b"key2 e"), b"key2");
    assert_eq!(key(b"a  b"), b"a");
}

#[test]
fn key_of_a_line_without_space_is_the_line_less_its_newline() {
    assert_eq!(key(b"lonely\n"), b"lonely");
    assert_eq!(key(b"lonely"), b"lonely");
    assert_eq!(key(b"lonely\r\n"), b"lonely\r");
    assert_eq!(key(b"a\n\n"), b"a\n");
}

#[test]
fn key_may_be_empty() {
    assert_eq!(key(b""), b"");
    assert_eq!(key(b"\n"), b"");
    assert_eq!(key(b" value\n"), b"");
}

#[test]
fn partition_for_is_the_hash_modulo_the_partitions() {
    assert_eq!(partition_for(10, 3), 1);
    assert_eq!(partition_for(0, 5), 0);
    assert_eq!(partition_for(4, 5), 4);
    assert_eq!(partition_for(u64::MAX, 1), 0);
    assert_eq!(partition_for(u64::MAX, 10), 5);
    assert_eq!(partition_for(7, usize::MAX), 7);
}

#[test]
fn push_to_fills_the_buffer_named() {
    let mut sharder = Sharder::new(3, 12);
    assert!(sharder.push_to(2, b"c 1\n").is_empty());
    assert!(sharder.push_to(0, b"a 1\n").is_empty());
    assert_eq!(
        sharder.push_to(2, b"c 2\n"),
        vec![(0, b"a 1\n".to_vec()), (2, b"c 1\nc 2\n".to_vec())]
    );
    assert!(sharder.push_to(1, b"b 1\n").is_empty());
    assert_eq!(sharder.flush(), vec![(1, b"b 1\n".to_vec())]);
}

#[test]
fn push_to_flushes_on_reaching_the_size_not_before() {
    let mut sharder = Sharder::new(2, 5);
    assert!(sharder.push_to(0, b"1234").is_empty());
    assert_eq!(sharder.push_to(1, b"5"), vec![(0, b"1234".to_vec()), (1, b"5".to_vec())]);
    assert!(sharder.push_to(1, b"1234").is_empty());
    assert_eq!(sharder.push_to(1, b"56"), vec![(1, b"123456".to_vec())]);
}
