use pdfparse::parser::parse;
use pdfparse::reader::PDFReader;
use pdfparse::structure::{AnyPDFData, Object, ParseError};

fn objects_of(text: &str) -> Vec<Object> {
    let mut reader = PDFReader::new(text.as_bytes().to_vec());
    parse(&mut reader).unwrap().objects
}

fn obj(number: i64, data: AnyPDFData) -> Object {
    Object { number, gen: 0, data }
}

fn integer(v: i64) -> AnyPDFData {
    AnyPDFData::Integer(v)
}

fn name(s: &str) -> AnyPDFData {
    AnyPDFData::Name(s.to_string())
}

fn string(s: &str) -> AnyPDFData {
    AnyPDFData::String(s.to_string())
}

fn real_value(d: &AnyPDFData) -> f64 {
    match d {
        AnyPDFData::Real(text) => text.parse::<f64>().unwrap(),
        other => panic!("not a real: {:?}", other),
    }
}

/// Equality where reals compare by value.
fn same(a: &AnyPDFData, b: &AnyPDFData) -> bool {
    match (a, b) {
        (AnyPDFData::Real(_), AnyPDFData::Real(_)) => real_value(a) == real_value(b),
        (AnyPDFData::Array(x), AnyPDFData::Array(y)) => {
            x.len() == y.len() && x.iter().zip(y.iter()).all(|(p, q)| same(p, q))
        }
        (AnyPDFData::Dictionary(x), AnyPDFData::Dictionary(y)) => {
            x.len() == y.len()
                && x.iter().zip(y.iter()).all(|(p, q)| p.0 == q.0 && same(&p.1, &q.1))
        }
        _ => a == b,
    }
}

fn decimal(text: &str) -> AnyPDFData {
    AnyPDFData::Real(text.to_string())
}

fn check(expected: Vec<Object>, objects: Vec<Object>) {
    assert_eq!(expected.len(), objects.len());
    for i in 0..expected.len() {
        assert_eq!(expected[i].number, objects[i].number);
        assert_eq!(expected[i].gen, objects[i].gen);
        assert!(same(&expected[i].data, &objects[i].data), "{:?} != {:?}", expected[i], objects[i]);
    }
}

#[test]
fn test_number_parsing() {
    let objects = objects_of(
        "%PDF-1.7\n1 0 obj\n123\nendobj\n2 0 obj\n43445\nendobj\n3 0 obj\n+17\nendobj\n\
         4 0 obj\n-98\nendobj\n5 0 obj\n0\nendobj\n10 0 obj\n34.5\nendobj\n\
         11 0 obj\n-3.62\nendobj\n12 0 obj\n123.6\nendobj\n13 0 obj\n4.0\nendobj\n\
         14 0 obj\n-.002\nendobj\n15 0 obj\n0.0\nendobj\n",
    );
    let expected = vec![
        obj(1, integer(123)),
        obj(2, integer(43445)),
        obj(3, integer(17)),
        obj(4, integer(-98)),
        obj(5, integer(0)),
        obj(10, decimal("34.5")),
        obj(11, decimal("-3.62")),
        obj(12, decimal("123.6")),
        obj(13, decimal("4.0")),
        obj(14, decimal("-0.002")),
        obj(15, decimal("0.0")),
    ];
    check(expected, objects);
}

#[test]
fn test_string_parsing() {
    let objects = objects_of(
        "%PDF-1.7\n1 0 obj\n(This is a string)\nendobj\n\
         2 0 obj\n(Strings can contain newlines\nand such.)\nendobj\n\
         3 0 obj\n(Strings can contain balanced parentheses ()\nand special characters ( * ! & } ^ %and so on) .)\nendobj\n\
         4 0 obj\n(The following is an empty string .)\nendobj\n\
         5 0 obj\n()\nendobj\n\
         6 0 obj\n(It has zero (0) length.)\nendobj\n\
         7 0 obj\n(These \\\ntwo strings are the same.)\nendobj\n\
         8 0 obj\n(These two strings are the same.)\nendobj\n\
         9 0 obj\n(This string has an end-of-line at the end of it.\n)\nendobj\n\
         10 0 obj\n(So does this one.\\n)\nendobj\n\
         11 0 obj\n(This string contains \\245two octal characters\\307.)\nendobj\n\
         20 0 obj\n<4E6F762073686D6F7A206B6120706F702E>\nendobj\n",
    );
    let expected = vec![
        obj(1, string("This is a string")),
        obj(2, string("Strings can contain newlines\nand such.")),
        obj(
            3,
            string("Strings can contain balanced parentheses ()\nand special characters ( * ! & } ^ %and so on) ."),
        ),
        obj(4, string("The following is an empty string .")),
        obj(5, string("")),
        obj(6, string("It has zero (0) length.")),
        obj(7, string("These two strings are the same.")),
        obj(8, string("These two strings are the same.")),
        obj(9, string("This string has an end-of-line at the end of it.\n")),
        obj(10, string("So does this one.\n")),
        obj(11, string("This string contains \u{a5}two octal characters\u{c7}.")),
        obj(20, string("Nov shmoz ka pop.")),
    ];
    check(expected, objects);
}

#[test]
fn test_name_parsing() {
    let objects = objects_of(
        "%PDF-1.7\n1 0 obj\n/Name1\nendobj\n2 0 obj\n/ASomewhatLongerName\nendobj\n\
         3 0 obj\n/A;Name_With-Various***Characters?\nendobj\n4 0 obj\n/1.2\nendobj\n\
         5 0 obj\n/$$\nendobj\n6 0 obj\n/@pattern\nendobj\n7 0 obj\n/.notdef\nendobj\n\
         8 0 obj\n/Lime#20Green\nendobj\n9 0 obj\n/paired#28#29parentheses\nendobj\n\
         10 0 obj\n/The_Key_of_F#23_Minor\nendobj\n11 0 obj\n/A#42\nendobj\n",
    );
    let expected = vec![
        obj(1, name("Name1")),
        obj(2, name("ASomewhatLongerName")),
        obj(3, name("A;Name_With-Various***Characters?")),
        obj(4, name("1.2")),
        obj(5, name("$$")),
        obj(6, name("@pattern")),
        obj(7, name(".notdef")),
        obj(8, name("Lime Green")),
        obj(9, name("paired()parentheses")),
        obj(10, name("The_Key_of_F#_Minor")),
        obj(11, name("AB")),
    ];
    check(expected, objects);
}

#[test]
fn test_array_parsing() {
    let objects = objects_of(
        "%PDF-1.7\n1 0 obj\n[549 3.14 false (Ralph) /SomeName]\nendobj\n\
         2 0 obj\n[/Name1 /ASomewhatLongerName /A;Name_With-Various***Characters?]\nendobj\n\
         3 0 obj\n[(one) (two) (three) (four) (five)]\nendobj\n\
         4 0 obj\n[/ABC /XYZ false 123 3.14]\nendobj\n\
         5 0 obj\n[]\nendobj\n6 0 obj\n[1 2 3 4]\nendobj\n7 0 obj\n[1 2 [3 4] 5]\nendobj\n\
         8 0 obj\n[[[]]]\nendobj\n9 0 obj\n[(hello) 123 true /Name]\nendobj\n\
         10 0 obj\n[ 1 2 3 ]\nendobj\n11 0 obj\n[ ]\nendobj\n12 0 obj\n[\n]\nendobj\n",
    );
    let arr = AnyPDFData::Array;
    let expected = vec![
        obj(1, arr(vec![integer(549), decimal("3.14"), AnyPDFData::Boolean(false), string("Ralph"), name("SomeName")])),
        obj(2, arr(vec![name("Name1"), name("ASomewhatLongerName"), name("A;Name_With-Various***Characters?")])),
        obj(3, arr(vec![string("one"), string("two"), string("three"), string("four"), string("five")])),
        obj(4, arr(vec![name("ABC"), name("XYZ"), AnyPDFData::Boolean(false), integer(123), decimal("3.14")])),
        obj(5, arr(vec![])),
        obj(6, arr(vec![integer(1), integer(2), integer(3), integer(4)])),
        obj(7, arr(vec![integer(1), integer(2), arr(vec![integer(3), integer(4)]), integer(5)])),
        obj(8, arr(vec![arr(vec![arr(vec![])])])),
        obj(9, arr(vec![string("hello"), integer(123), AnyPDFData::Boolean(true), name("Name")])),
        obj(10, arr(vec![integer(1), integer(2), integer(3)])),
        obj(11, arr(vec![])),
        obj(12, arr(vec![])),
    ];
    check(expected, objects);
}

#[test]
fn test_dictionary_parsing() {
    let objects = objects_of(
        "%PDF-1.7\n1 0 obj\n<< /Type /Example /Subtype /DictionaryExample /Version 0.01 \
         /IntegerItem 12 /StringItem (a string) /Subdictionary << /Item1 0.4 /Item2 true \
         /LastItem (not !) /VeryLastItem (OK) >> >>\nendobj\n\
         2 0 obj\n<< /Type /Example /Value 123 >>\nendobj\n\
         3 0 obj\n<< /Name (John Doe) /Age 30 /City (New York) >>\nendobj\n\
         4 0 obj\n<< /Array [1 2 3] /Dict << /Inner /Value >> >>\nendobj\n\
         5 0 obj\n<< /Boolean true /Indirect 10 0 R >>\nendobj\n\
         6 0 obj\n<< /Key1 /Value1 /Key2 /Value2 >>\nendobj\n\
         7 0 obj\n<< >>\nendobj\n\
         8 0 obj\n<< /Key1 (Value with (nested) parentheses) >>\nendobj\n\
         9 0 obj\n<< /Key1 123 /Key2 /Value2 /Key1 456 >>\nendobj\n",
    );
    let dict = |pairs: Vec<(&str, AnyPDFData)>| {
        AnyPDFData::Dictionary(pairs.into_iter().map(|(k, v)| (k.to_string(), v)).collect())
    };
    let expected = vec![
        obj(
            1,
            dict(vec![
                ("Type", name("Example")),
                ("Subtype", name("DictionaryExample")),
                ("Version", decimal("0.01")),
                ("IntegerItem", integer(12)),
                ("StringItem", string("a string")),
                (
                    "Subdictionary",
                    dict(vec![
                        ("Item1", decimal("0.4")),
                        ("Item2", AnyPDFData::Boolean(true)),
                        ("LastItem", string("not !")),
                        ("VeryLastItem", string("OK")),
                    ]),
                ),
            ]),
        ),
        obj(2, dict(vec![("Type", name("Example")), ("Value", integer(123))])),
        obj(3, dict(vec![("Name", string("John Doe")), ("Age", integer(30)), ("City", string("New York"))])),
        obj(
            4,
            dict(vec![
                ("Array", AnyPDFData::Array(vec![integer(1), integer(2), integer(3)])),
                ("Dict", dict(vec![("Inner", name("Value"))])),
            ]),
        ),
        obj(5, dict(vec![("Boolean", AnyPDFData::Boolean(true)), ("Indirect", AnyPDFData::ObjRef(10, 0))])),
        obj(6, dict(vec![("Key1", name("Value1")), ("Key2", name("Value2"))])),
        obj(7, dict(vec![])),
        obj(8, dict(vec![("Key1", string("Value with (nested) parentheses"))])),
        obj(9, dict(vec![("Key1", integer(456)), ("Key2", name("Value2"))])),
    ];
    check(expected, objects);
}

#[test]
fn document_version_and_generation() {
    let mut reader = PDFReader::new(b"%PDF-1.4\n7 3 obj\ntrue\nendobj\n".to_vec());
    let pdf = parse(&mut reader).unwrap();
    assert_eq!(pdf.version, "%PDF-1.4");
    assert_eq!(pdf.objects, vec![Object { number: 7, gen: 3, data: AnyPDFData::Boolean(true) }]);
}

#[test]
fn document_skips_lines_that_are_not_text() {
    let mut reader = PDFReader::new(b"%PDF-1.4\n\xff\xfe\n1 0 obj\n5\nendobj\n".to_vec());
    let pdf = parse(&mut reader).unwrap();
    assert_eq!(pdf.objects, vec![obj(1, integer(5))]);
}

#[test]
fn document_with_bad_version_line_fails() {
    let mut reader = PDFReader::new(b"%PDF\xff\n1 0 obj\n5\nendobj\n".to_vec());
    assert_eq!(parse(&mut reader), Err(ParseError::InvalidText));
}

#[test]
fn document_fails_on_bad_object() {
    let mut reader = PDFReader::new(b"%PDF-1.4\n1 0 obj\n}\nendobj\n".to_vec());
    assert_eq!(parse(&mut reader), Err(ParseError::UnexpectedByte));
}

#[test]
fn parsing_twice_gives_equal_documents() {
    let text = b"%PDF-1.7\n1 0 obj\n<< /Length 5 >>\nstream\nhello\nendstream\nendobj\n2 0 obj\n[1 (a) /b 3 0 R]\nendobj\n";
    let first = parse(&mut PDFReader::new(text.to_vec()));
    let second = parse(&mut PDFReader::new(text.to_vec()));
    assert!(first.is_ok());
    assert_eq!(first, second);
}
