use pdfparse::reader::{u8s_to_string, PDFReader, StreamReader};
use pdfparse::structure::ParseError;

fn reader(text: &[u8]) -> PDFReader {
    PDFReader::new(text.to_vec())
}

#[test]
fn peek_and_read_clamp_at_end() {
    let mut r = reader(b"abcdef");
    assert_eq!(r.peek(3), b"abc");
    assert_eq!(r.offset, 0);
    assert_eq!(r.read(2), b"ab");
    assert_eq!(r.offset, 2);
    assert_eq!(r.peek(10), b"cdef");
    assert_eq!(r.read(10), b"cdef");
    assert_eq!(r.offset, 6);
    assert!(r.at_eof());
}

#[test]
fn advance_is_clamped() {
    let mut r = reader(b"abc");
    r.advance(2);
    assert!(!r.at_eof());
    r.advance(100);
    assert_eq!(r.offset, 3);
    assert!(r.at_eof());
}

#[test]
fn next_repeats_last_byte_at_end() {
    let mut r = reader(b"xy");
    assert_eq!(r.next(), b'x');
    assert_eq!(r.next(), b'y');
    assert_eq!(r.next(), b'y');
    assert_eq!(r.peek_next(), b'y');
}

#[test]
fn skip_whitespace_stops_at_token() {
    let mut r = reader(b" \t\r\n\x0c x");
    r.skip_whitespace();
    assert_eq!(r.offset, 6);
    assert_eq!(r.peek_next(), b'x');
    let mut all = reader(b"   ");
    all.skip_whitespace();
    assert!(all.at_eof());
}

#[test]
fn until_byte_found_and_missing() {
    let mut r = reader(b"line one\nline two");
    assert_eq!(r.peek_until(b'\n'), b"line one");
    assert_eq!(r.offset, 0);
    assert_eq!(r.read_until(b'\n'), b"line one");
    assert_eq!(r.offset, 9);
    assert_eq!(r.peek_until(b'\n'), b"");
    assert_eq!(r.read_until(b'\n'), b"");
    assert_eq!(r.offset, 9);
}

#[test]
fn utf8_views() {
    assert_eq!(u8s_to_string(b"obj"), Ok("obj"));
    assert_eq!(u8s_to_string("é".as_bytes()), Ok("é"));
    assert_eq!(u8s_to_string(b"\xff"), Err(ParseError::InvalidText));
}
