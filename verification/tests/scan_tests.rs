use read_until_slice::memchr;
use read_until_slice::scan;
use read_until_slice::scan_step;
use read_until_slice::ChunkedSource;

fn source_of(chunks: &[&[u8]]) -> ChunkedSource {
    let owned: Vec<Vec<u8>> = chunks.iter().map(|c| c.to_vec()).collect();
    ChunkedSource::new(owned)
}

#[test]
fn end_of_stream_without_match() {
    let mut src = source_of(&[b"abc"]);
    let mut buf: Vec<u8> = Vec::new();
    let n = scan(&mut src, b"xyz", &mut buf);
    assert_eq!(n, 3);
    assert_eq!(buf, b"abc".to_vec());
    assert!(src.exhausted());
}

#[test]
fn exact_match_at_a_single_boundary() {
    let mut src = source_of(&[b"foo\r", b"\nbar"]);
    let mut buf: Vec<u8> = Vec::new();
    let n = scan(&mut src, b"\r\n", &mut buf);
    assert_eq!(n, 5);
    assert_eq!(buf, b"foo\r\n".to_vec());
    // "bar" stays unconsumed in the source for a subsequent call.
    assert!(!src.exhausted());
    assert_eq!(src.remaining_bytes(), b"bar".to_vec());
    let mut rest: Vec<u8> = Vec::new();
    let m = scan(&mut src, b"xy", &mut rest);
    assert_eq!(m, 3);
    assert_eq!(rest, b"bar".to_vec());
    assert!(src.exhausted());
}

#[test]
fn repeated_call_composition() {
    let mut src = source_of(&[b"line1\r\nline2\r\n"]);
    let mut first: Vec<u8> = Vec::new();
    let n1 = scan(&mut src, b"\r\n", &mut first);
    assert_eq!(n1, 7);
    assert_eq!(first, b"line1\r\n".to_vec());
    let mut second: Vec<u8> = Vec::new();
    let n2 = scan(&mut src, b"\r\n", &mut second);
    assert_eq!(n2, 7);
    assert_eq!(second, b"line2\r\n".to_vec());
    let mut third: Vec<u8> = Vec::new();
    let n3 = scan(&mut src, b"\r\n", &mut third);
    assert_eq!(n3, 0);
    assert!(third.is_empty());
    assert!(src.exhausted());
}

#[test]
fn chunk_boundary_invariance() {
    let mut whole = source_of(&[b"hello\r\nworld"]);
    let mut buf_whole: Vec<u8> = Vec::new();
    let n_whole = scan(&mut whole, b"\r\n", &mut buf_whole);

    let mut split = source_of(&[b"he", b"llo\r", b"\nworld"]);
    let mut buf_split: Vec<u8> = Vec::new();
    let n_split = scan(&mut split, b"\r\n", &mut buf_split);

    assert_eq!(n_whole, 7);
    assert_eq!(n_whole, n_split);
    assert_eq!(buf_whole, b"hello\r\n".to_vec());
    assert_eq!(buf_whole, buf_split);
}

#[test]
fn chunk_boundary_invariance_no_match() {
    let mut whole = source_of(&[b"abcdef"]);
    let mut buf_whole: Vec<u8> = Vec::new();
    let n_whole = scan(&mut whole, b"zz", &mut buf_whole);

    let mut split = source_of(&[b"a", b"b", b"c", b"d", b"e", b"f"]);
    let mut buf_split: Vec<u8> = Vec::new();
    let n_split = scan(&mut split, b"zz", &mut buf_split);

    assert_eq!(n_whole, 6);
    assert_eq!(n_whole, n_split);
    assert_eq!(buf_whole, buf_split);
}

#[test]
fn prefix_preservation() {
    let mut src = source_of(&[b"abc"]);
    let mut buf = b"P".to_vec();
    let n = scan(&mut src, b"c", &mut buf);
    assert_eq!(n, 3);
    assert_eq!(buf, b"Pabc".to_vec());
}

#[test]
fn partial_match_reset_on_mismatch() {
    let mut match_len = 0usize;
    assert_eq!(memchr(b"aabc", b"aabcaabd", &mut match_len), Some(4));
}

#[test]
fn partial_match_restart_reexamines_failed_byte() {
    let mut match_len = 0usize;
    assert_eq!(memchr(b"aabc", b"aaaabc", &mut match_len), Some(6));
}

#[test]
fn memchr_carries_partial_match_between_regions() {
    let mut match_len = 0usize;
    assert_eq!(memchr(b"\r\n", b"foo\r", &mut match_len), None);
    assert_eq!(match_len, 1);
    assert_eq!(memchr(b"\r\n", b"\nbar", &mut match_len), Some(1));
}

#[test]
fn memchr_no_match_leaves_open_run() {
    let mut match_len = 0usize;
    assert_eq!(memchr(b"abc", b"xxab", &mut match_len), None);
    assert_eq!(match_len, 2);
}

#[test]
fn memchr_single_byte_needle() {
    let mut match_len = 0usize;
    assert_eq!(memchr(b"\n", b"ab\ncd", &mut match_len), Some(3));
    let mut match_len2 = 0usize;
    assert_eq!(memchr(b"\n", b"abcd", &mut match_len2), None);
    assert_eq!(match_len2, 0);
}

#[test]
fn scan_step_threads_state_and_appends() {
    let mut buf: Vec<u8> = Vec::new();
    let mut match_len = 0usize;
    let (done, used) = scan_step(b"\r\n", b"foo\r", &mut buf, &mut match_len);
    assert!(!done);
    assert_eq!(used, 4);
    assert_eq!(match_len, 1);
    assert_eq!(buf, b"foo\r".to_vec());
    let (done2, used2) = scan_step(b"\r\n", b"\nbar", &mut buf, &mut match_len);
    assert!(done2);
    assert_eq!(used2, 1);
    assert_eq!(buf, b"foo\r\n".to_vec());
}

#[test]
fn delimiter_across_three_regions() {
    let mut src = source_of(&[b"xa", b"b", b"cz"]);
    let mut buf: Vec<u8> = Vec::new();
    let n = scan(&mut src, b"abc", &mut buf);
    assert_eq!(n, 4);
    assert_eq!(buf, b"xabc".to_vec());
    let mut rest: Vec<u8> = Vec::new();
    assert_eq!(scan(&mut src, b"abc", &mut rest), 1);
    assert_eq!(rest, b"z".to_vec());
}

#[test]
fn single_byte_delimiter_reads_line() {
    let mut src = source_of(&[b"ab\ncd"]);
    let mut buf: Vec<u8> = Vec::new();
    let n = scan(&mut src, b"\n", &mut buf);
    assert_eq!(n, 3);
    assert_eq!(buf, b"ab\n".to_vec());
}

#[test]
fn empty_source_reads_nothing() {
    let mut src = ChunkedSource::new(Vec::new());
    assert!(src.exhausted());
    let mut buf: Vec<u8> = Vec::new();
    let n = scan(&mut src, b"\r\n", &mut buf);
    assert_eq!(n, 0);
    assert!(buf.is_empty());
}

#[test]
fn delimiter_longer_than_stream() {
    let mut src = source_of(&[b"ab"]);
    let mut buf: Vec<u8> = Vec::new();
    let n = scan(&mut src, b"abc", &mut buf);
    assert_eq!(n, 2);
    assert_eq!(buf, b"ab".to_vec());
}

#[test]
fn delimiter_is_whole_stream() {
    let mut src = source_of(&[b"\r", b"\n"]);
    let mut buf: Vec<u8> = Vec::new();
    let n = scan(&mut src, b"\r\n", &mut buf);
    assert_eq!(n, 2);
    assert_eq!(buf, b"\r\n".to_vec());
    assert!(src.exhausted());
}

#[test]
fn peek_and_consume_walk_the_regions() {
    let mut src = source_of(&[b"abc", b"de"]);
    assert_eq!(src.remaining_bytes(), b"abcde".to_vec());
    assert_eq!(src.peek().to_vec(), b"abc".to_vec());
    src.consume(1);
    assert_eq!(src.peek().to_vec(), b"bc".to_vec());
    assert_eq!(src.remaining_bytes(), b"bcde".to_vec());
    src.consume(2);
    assert_eq!(src.peek().to_vec(), b"de".to_vec());
    src.consume(2);
    assert!(src.exhausted());
    assert!(src.remaining_bytes().is_empty());
}
