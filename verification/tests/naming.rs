use slb::naming::{shard_suffix, width_of};

#[test]
fn width_counts_decimal_digits() {
    assert_eq!(width_of(0), 1);
    assert_eq!(width_of(9), 1);
    assert_eq!(width_of(10), 2);
    assert_eq!(width_of(99), 2);
    assert_eq!(width_of(100), 3);
    assert_eq!(width_of(usize::MAX), format!("{}", usize::MAX).len());
}

#[test]
fn suffix_of_a_single_partition() {
    assert_eq!(shard_suffix(0, 1), b"0".to_vec());
}

#[test]
fn suffix_is_padded_to_the_widest_index() {
    assert_eq!(shard_suffix(3, 10), b"3".to_vec());
    assert_eq!(shard_suffix(3, 11), b"03".to_vec());
    assert_eq!(shard_suffix(10, 11), b"10".to_vec());
    assert_eq!(shard_suffix(7, 100), b"07".to_vec());
    assert_eq!(shard_suffix(7, 101), b"007".to_vec());
    assert_eq!(shard_suffix(42, 1000), b"042".to_vec());
    assert_eq!(shard_suffix(0, 2), b"0".to_vec());
    assert_eq!(shard_suffix(1, 2), b"1".to_vec());
}

#[test]
fn suffix_is_never_cut_short() {
    assert_eq!(shard_suffix(123, 10), b"123".to_vec());
}

#[test]
fn suffix_matches_the_formatter() {
    for n in 1..120usize {
        let width = format!("{}", n - 1).len();
        for i in 0..n {
            let expected = format!("{:0>width$}", i, width = width);
            assert_eq!(shard_suffix(i, n), expected.into_bytes());
        }
    }
}

#[test]
fn suffix_of_the_largest_index() {
    let expected = format!("{}", usize::MAX - 1);
    assert_eq!(shard_suffix(usize::MAX - 1, usize::MAX), expected.into_bytes());
}
