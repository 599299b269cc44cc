use slb::lines::{read_until, scan, NEWLINE};

#[test]
fn scan_stops_after_first_delimiter() {
    assert_eq!(scan(b'\n', b"ab\ncd\n"), (true, 3));
}

#[test]
fn scan_takes_everything_without_delimiter() {
    assert_eq!(scan(b'\n', b"abcd"), (false, 4));
}

#[test]
fn scan_of_nothing() {
    assert_eq!(scan(b'\n', b""), (false, 0));
}

#[test]
fn scan_finds_delimiter_at_the_start() {
    assert_eq!(scan(b' ', b" x y"), (true, 1));
}

#[test]
fn scan_looks_for_the_given_byte_only() {
    assert_eq!(scan(b';', b"a\nb;c"), (true, 4));
}

#[test]
fn read_until_counts_through_the_newline() {
    assert_eq!(read_until(NEWLINE, b"key value\nnext\n"), 10);
}

#[test]
fn read_until_end_of_data() {
    assert_eq!(read_until(NEWLINE, b"no newline here"), 15);
    assert_eq!(read_until(NEWLINE, b""), 0);
}

#[test]
fn read_until_lone_newline() {
    assert_eq!(read_until(NEWLINE, b"\n\n"), 1);
}

#[test]
fn newline_is_line_feed() {
    assert_eq!(NEWLINE, b'\n');
}
