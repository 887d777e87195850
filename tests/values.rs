use pdfparse::reader::PDFReader;
use pdfparse::structure::{AnyPDFData, ParseError};

fn value(text: &[u8]) -> Result<AnyPDFData, ParseError> {
    let mut reader = PDFReader::new(text.to_vec());
    AnyPDFData::consume(&mut reader)
}

fn value_and_offset(text: &[u8]) -> (Result<AnyPDFData, ParseError>, usize) {
    let mut reader = PDFReader::new(text.to_vec());
    let r = AnyPDFData::consume(&mut reader);
    (r, reader.offset)
}

fn s(text: &str) -> AnyPDFData {
    AnyPDFData::String(text.to_string())
}

#[test]
fn integer_literals() {
    assert_eq!(value(b"123"), Ok(AnyPDFData::Integer(123)));
    assert_eq!(value(b"-98"), Ok(AnyPDFData::Integer(-98)));
    assert_eq!(value(b"+17"), Ok(AnyPDFData::Integer(17)));
    assert_eq!(value(b"  0 "), Ok(AnyPDFData::Integer(0)));
    assert_eq!(value(b"9223372036854775807"), Ok(AnyPDFData::Integer(i64::MAX)));
    assert_eq!(value(b"-9223372036854775808"), Ok(AnyPDFData::Integer(i64::MIN)));
}

#[test]
fn decimal_literals_are_reals() {
    assert_eq!(value(b"34.5"), Ok(AnyPDFData::Real("34.5".to_string())));
    assert_eq!(value(b"4.0"), Ok(AnyPDFData::Real("4.0".to_string())));
    assert_eq!(value(b".5"), Ok(AnyPDFData::Real(".5".to_string())));
    assert_eq!(value(b"-3.62]"), Ok(AnyPDFData::Real("-3.62".to_string())));
}

#[test]
fn integer_too_large_is_real() {
    let r = value(b"99999999999999999999").unwrap();
    assert_eq!(r, AnyPDFData::Real("99999999999999999999".to_string()));
    assert_eq!(value(b"9223372036854775808"), Ok(AnyPDFData::Real("9223372036854775808".to_string())));
}

#[test]
fn malformed_numbers() {
    assert_eq!(value(b"--"), Err(ParseError::InvalidNumber));
    assert_eq!(value(b"1.2.3"), Err(ParseError::InvalidNumber));
    assert_eq!(value(b"."), Err(ParseError::InvalidNumber));
    assert_eq!(value(b"1-2"), Err(ParseError::InvalidNumber));
}

#[test]
fn booleans() {
    assert_eq!(value_and_offset(b"true "), (Ok(AnyPDFData::Boolean(true)), 4));
    assert_eq!(value_and_offset(b"false"), (Ok(AnyPDFData::Boolean(false)), 5));
    assert_eq!(value(b"tru"), Err(ParseError::UnexpectedByte));
}

#[test]
fn hex_and_literal_strings_agree() {
    assert_eq!(value(b"<41>"), Ok(s("A")));
    assert_eq!(value(b"(A)"), Ok(s("A")));
    assert_eq!(value(b"<41>"), value(b"(A)"));
}

#[test]
fn hex_strings() {
    assert_eq!(value(b"<48656c6C6f>"), Ok(s("Hello")));
    assert_eq!(value(b"<414>"), Ok(s("A@")));
    assert_eq!(value(b"<>"), Ok(s("")));
    assert_eq!(value(b"<ff>"), Ok(s("\u{ff}")));
    assert_eq!(value(b"<4G>"), Err(ParseError::InvalidText));
    assert_eq!(value(b"<41"), Err(ParseError::Unterminated));
}

#[test]
fn balanced_parentheses_kept() {
    assert_eq!(value_and_offset(b"(a(b)c) x"), (Ok(s("a(b)c")), 7));
}

#[test]
fn octal_escapes() {
    assert_eq!(value(b"(\\101)"), Ok(s("A")));
    assert_eq!(value(b"(\\53)"), Ok(s("+")));
    assert_eq!(value(b"(\\7)"), Ok(s("\u{7}")));
    assert_eq!(value(b"(\\0053)"), Ok(s("\u{5}3")));
    assert_eq!(value(b"(\\501)"), Ok(s("A")));
}

#[test]
fn single_character_escapes() {
    assert_eq!(value(b"(\\n\\r\\b\\f\\(\\)\\\\)"), Ok(s("\n\r\u{7f}\u{c}()\\")));
    assert_eq!(value(b"(a\\qb)"), Ok(s("ab")));
    assert_eq!(value(b"(a\\\nb)"), Ok(s("ab")));
    assert_eq!(value(b"(a\rb)"), Ok(s("a\nb")));
}

#[test]
fn unterminated_literal_string() {
    assert_eq!(value(b"(abc"), Err(ParseError::Unterminated));
    assert_eq!(value(b"(a(b)"), Err(ParseError::Unterminated));
    assert_eq!(value(b"(a\\"), Err(ParseError::Unterminated));
}

#[test]
fn name_escape() {
    assert_eq!(value(b"/A#42"), Ok(AnyPDFData::Name("AB".to_string())));
    assert_eq!(value_and_offset(b"/Abc/Def"), (Ok(AnyPDFData::Name("Abc".to_string())), 4));
    assert_eq!(value(b"/"), Ok(AnyPDFData::Name(String::new())));
    assert_eq!(value(b"/A#4"), Err(ParseError::InvalidText));
    assert_eq!(value(b"/A#zz "), Err(ParseError::InvalidText));
}

#[test]
fn dictionary_key_collision() {
    assert_eq!(
        value(b"<< /K 1 /K 2 >>"),
        Ok(AnyPDFData::Dictionary(vec![("K".to_string(), AnyPDFData::Integer(2))]))
    );
    assert_eq!(
        value(b"<< /K 1 /J 3 /K 2 >>"),
        Ok(AnyPDFData::Dictionary(vec![
            ("K".to_string(), AnyPDFData::Integer(2)),
            ("J".to_string(), AnyPDFData::Integer(3)),
        ]))
    );
}

#[test]
fn dictionary_errors() {
    assert_eq!(value(b"<< 1 2 >>"), Err(ParseError::KeyNotName));
    assert_eq!(value(b"<< /K 1"), Err(ParseError::Unterminated));
    assert_eq!(value(b"<< /K"), Err(ParseError::Unterminated));
}

#[test]
fn stream_extraction() {
    let (r, offset) = value_and_offset(b"<< /Length 5 >>\nstream\nhello\nendstream");
    assert_eq!(
        r,
        Ok(AnyPDFData::Stream(vec![("Length".to_string(), AnyPDFData::Integer(5))], b"hello".to_vec()))
    );
    assert_eq!(offset, 38);
}

#[test]
fn stream_with_crlf_and_binary_payload() {
    let r = value(b"<< /Length 3 /Filter /FlateDecode >>\r\nstream\r\n\x00\xff)\r\nendstream\n");
    assert_eq!(
        r,
        Ok(AnyPDFData::Stream(
            vec![
                ("Length".to_string(), AnyPDFData::Integer(3)),
                ("Filter".to_string(), AnyPDFData::Name("FlateDecode".to_string())),
            ],
            vec![0, 255, b')'],
        ))
    );
}

#[test]
fn stream_errors() {
    assert_eq!(value(b"<< >>\nstream\nhello\nendstream"), Err(ParseError::BadStreamLength));
    assert_eq!(value(b"<< /Length (5) >>\nstream\nhello\nendstream"), Err(ParseError::BadStreamLength));
    assert_eq!(value(b"<< /Length -1 >>\nstream\nhello\nendstream"), Err(ParseError::BadStreamLength));
    assert_eq!(value(b"<< /Length 50 >>\nstream\nhello\nendstream"), Err(ParseError::Unterminated));
    assert_eq!(value(b"<< /Length 3 >>\nstream\nhello\nendstream"), Err(ParseError::Unterminated));
}

#[test]
fn indirect_reference() {
    assert_eq!(value_and_offset(b"10 0 R"), (Ok(AnyPDFData::ObjRef(10, 0)), 6));
    assert_eq!(value(b"[1 2 R]"), Ok(AnyPDFData::Array(vec![AnyPDFData::ObjRef(1, 2)])));
    assert_eq!(value(b"10 0 5 R"), Ok(AnyPDFData::Integer(10)));
}

#[test]
fn empty_containers() {
    assert_eq!(value(b"[]"), Ok(AnyPDFData::Array(vec![])));
    assert_eq!(value(b"<<>>"), Ok(AnyPDFData::Dictionary(vec![])));
}

#[test]
fn nested_arrays() {
    assert_eq!(
        value(b"[1 [2 [3]] /x]"),
        Ok(AnyPDFData::Array(vec![
            AnyPDFData::Integer(1),
            AnyPDFData::Array(vec![
                AnyPDFData::Integer(2),
                AnyPDFData::Array(vec![AnyPDFData::Integer(3)]),
            ]),
            AnyPDFData::Name("x".to_string()),
        ]))
    );
    assert_eq!(value(b"[1 2"), Err(ParseError::Unterminated));
}

#[test]
fn unexpected_bytes() {
    assert_eq!(value(b"}"), Err(ParseError::UnexpectedByte));
    assert_eq!(value(b""), Err(ParseError::Unterminated));
    assert_eq!(value(b"   "), Err(ParseError::Unterminated));
}

#[test]
fn error_leaves_cursor_where_found() {
    assert_eq!(value_and_offset(b"  }"), (Err(ParseError::UnexpectedByte), 2));
    assert_eq!(
        value_and_offset(b"<< /Size 5 >>\nstream\nhello\nendstream"),
        (Err(ParseError::BadStreamLength), 14)
    );
    assert_eq!(value_and_offset(b"(abc"), (Err(ParseError::Unterminated), 4));
    assert_eq!(value_and_offset(b"<< 1 >>"), (Err(ParseError::KeyNotName), 3));
    assert_eq!(value_and_offset(b"1.2.3 "), (Err(ParseError::InvalidNumber), 5));
}

#[test]
fn same_error_and_offset_from_independent_cursors() {
    let text = b" [1 (a) <4Z>]";
    assert_eq!(value_and_offset(text), value_and_offset(text));
    assert_eq!(value_and_offset(text), (Err(ParseError::InvalidText), 10));
}

#[test]
fn consume_decided_takes_the_reference_test() {
    let mut r = PDFReader::new(b"(R)".to_vec());
    assert_eq!(AnyPDFData::consume_decided(&mut r, false), Ok(s("R")));
    let mut r = PDFReader::new(b"10 0 R".to_vec());
    assert_eq!(AnyPDFData::consume_decided(&mut r, true), Ok(AnyPDFData::ObjRef(10, 0)));
    assert_eq!(r.offset, 6);
    let mut r = PDFReader::new(b"10 0 R".to_vec());
    assert_eq!(AnyPDFData::consume_decided(&mut r, false), Ok(AnyPDFData::Integer(10)));
    let mut r = PDFReader::new(b"10\n0\tR".to_vec());
    assert_eq!(AnyPDFData::consume_decided(&mut r, true), Ok(AnyPDFData::ObjRef(10, 0)));
}

#[test]
fn reference_with_other_whitespace() {
    assert_eq!(value(b"10\n0 R"), Ok(AnyPDFData::ObjRef(10, 0)));
}

#[test]
fn number_token_stops_at_delimiter() {
    let mut r = PDFReader::new(b"-42/x".to_vec());
    assert_eq!(AnyPDFData::consume_num(&mut r), Ok(AnyPDFData::Integer(-42)));
    assert_eq!(r.offset, 3);
    let mut r = PDFReader::new(b"4.0)".to_vec());
    assert_eq!(AnyPDFData::consume_num(&mut r), Ok(AnyPDFData::Real("4.0".to_string())));
    assert_eq!(r.offset, 3);
}

#[test]
fn reader_from_string() {
    let mut r = PDFReader::from_string("/Name ".to_string());
    assert_eq!(AnyPDFData::consume(&mut r), Ok(AnyPDFData::Name("Name".to_string())));
}

#[test]
fn dictionary_keeps_first_slot_and_last_value() {
    let pairs = |v: Vec<(&str, i64)>| {
        AnyPDFData::Dictionary(v.into_iter().map(|(k, n)| (k.to_string(), AnyPDFData::Integer(n))).collect())
    };
    assert_eq!(
        value(b"<< /A 1 /B 2 /A 3 /C 4 /B 5 >>"),
        Ok(pairs(vec![("A", 3), ("B", 5), ("C", 4)]))
    );
}

#[test]
fn string_syntaxes_agree_on_longer_text() {
    assert_eq!(value(b"<48656C6C6F2C20776F726C64>"), Ok(s("Hello, world")));
    assert_eq!(value(b"(Hello, world)"), Ok(s("Hello, world")));
}

#[test]
fn nested_balanced_literal() {
    assert_eq!(value_and_offset(b"(x((y)z)()w)"), (Ok(s("x((y)z)()w")), 12));
}
