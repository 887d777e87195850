use vstd::prelude::*;
use vstd::slice::slice_subrange;
use vstd::string::StringExecFns;
use vstd::utf8::{decode_utf8, valid_utf8};
use crate::grammar::{
    all_digits, array_from, at_kw, bool_at, byte_char, chars_of, dict_from, digit_end,
    digits_value, document_at, escape_char, fits_i64, hex_from, hex_val, int_text_value,
    is_decimal_text, is_delim, is_int_text, is_num_char, is_octal, is_ref_at, key_index,
    kw_dict_close, kw_dict_open, kw_endstream, kw_false, kw_stream, kw_true, lemma_digit_end,
    lemma_key_index, lemma_name_from_bounds, length_key, value_at_with, lit_from, name_from, name_result,
    num_end, number_at, number_pair, objects_from, octal_len, octal_value, ref_at, stream_at,
    text_result, unsigned_part, upsert, value_at, BACKSLASH, CR, DOT, GT, HASH, LBRACKET, LF,
    LPAREN, LT, MINUS, OBJ_PATTERN, PLUS, RBRACKET, REF_PATTERN, RPAREN, SLASH, UPPER_R,
};
use crate::reader::{
    after_byte, is_ws_byte, lemma_find_from_bounds, lemma_skip_ws_bounds, skip_ws, u8s_to_string,
    until_byte, PDFReader, StreamReader,
};
use crate::structure::{
    lemma_pairs_view, objects_view, pairs_view, values_view, AnyPDFData, Object, ParseError, Val,
    PDF,
};
use crate::trusted::{push_char, regex_test};

verus! {

/// `r` is what the spec outcome `s` describes, with the cursor left at `end`:
/// after the value, or where the error was found.
pub open spec fn outcome(
    r: Result<AnyPDFData, ParseError>,
    s: Result<(Val, int), (ParseError, int)>,
    end: int,
) -> bool {
    match s {
        Ok((v, e)) => r matches Ok(x) && x@ == v && end == e,
        Err((err, e)) => r == Err::<AnyPDFData, ParseError>(err) && end == e,
    }
}

/// Whether `kw` lies at the reader's offset.
fn has_keyword(reader: &PDFReader, kw: &[u8]) -> (r: bool)
    requires
        reader.wf(),
    ensures
        r == at_kw(reader.bytes@, reader.offset as int, kw@),
{
    let w = reader.peek(kw.len());
    if w.len() != kw.len() {
        return false;
    }
    let mut i: usize = 0;
    while i < kw.len()
        invariant
            w.len() == kw.len(),
            w@ == reader.bytes@.subrange(reader.offset as int, reader.offset + kw.len()),
            reader.offset + kw.len() <= reader.bytes.len(),
            i <= kw.len(),
            forall|j: int| 0 <= j < i ==> w@[j] == kw@[j],
        decreases kw.len() - i,
    {
        if w[i] != kw[i] {
            return false;
        }
        i = i + 1;
    }
    assert(w@ =~= kw@);
    true
}

fn is_digit_byte(c: u8) -> (r: bool)
    ensures
        r == (48 <= c <= 57),
{
    48 <= c && c <= 57
}

fn is_num_byte(c: u8) -> (r: bool)
    ensures
        r == is_num_char(c),
{
    is_digit_byte(c) || c == MINUS || c == PLUS || c == DOT
}

fn is_delim_byte(c: u8) -> (r: bool)
    ensures
        r == is_delim(c),
{
    c == 0 || c == 9 || c == 10 || c == 13 || c == 12 || c == 32 || c == 40 || c == 41 || c == 60
        || c == 62 || c == 91 || c == 93 || c == 123 || c == 125 || c == 47 || c == 37 || c == 92
}

fn hex_digit(c: u8) -> (r: Option<u8>)
    ensures
        r matches Some(v) ==> hex_val(c) == Some(v as int) && v < 16,
        r is None ==> hex_val(c) is None,
{
    if 48 <= c && c <= 57 {
        Some(c - 48)
    } else if 65 <= c && c <= 70 {
        Some(c - 55)
    } else if 97 <= c && c <= 102 {
        Some(c - 87)
    } else {
        None
    }
}

fn escape_of(e: u8) -> (r: Option<char>)
    ensures
        r == escape_char(e),
{
    if e == 110 {
        Some('\n')
    } else if e == 114 {
        Some('\r')
    } else if e == 98 {
        Some('\x7f')
    } else if e == 102 {
        Some('\x0c')
    } else if e == LPAREN {
        Some('(')
    } else if e == RPAREN {
        Some(')')
    } else if e == BACKSLASH {
        Some('\\')
    } else {
        None
    }
}

/// One character per byte of `t`.
fn text_of(t: &[u8]) -> (s: String)
    ensures
        s@ == chars_of(t@),
{
    let mut s = String::new();
    let mut i: usize = 0;
    while i < t.len()
        invariant
            i <= t.len(),
            s@.len() == i,
            forall|j: int| 0 <= j < i ==> s@[j] == byte_char(t@[j]),
        decreases t.len() - i,
    {
        push_char(&mut s, t[i] as char);
        i = i + 1;
    }
    assert(s@ =~= chars_of(t@));
    s
}

/// Length of the sign, if any, that starts `t`.
fn sign_len(t: &[u8]) -> (k: usize)
    ensures
        k <= t.len(),
        t@.subrange(k as int, t@.len() as int) == unsigned_part(t@),
{
    if t.len() > 0 && (t[0] == MINUS || t[0] == PLUS) {
        assert(t@.subrange(1, t@.len() as int) =~= t@.drop_first());
        1
    } else {
        assert(t@.subrange(0, t@.len() as int) =~= t@);
        0
    }
}

/// The integer that `t` spells, when it spells one that fits in 64 bits.
fn int_of_text(t: &[u8]) -> (r: Option<i64>)
    ensures
        r is Some <==> (is_int_text(t@) && fits_i64(int_text_value(t@))),
        r matches Some(v) ==> v == int_text_value(t@),
{
    let k = sign_len(t);
    let u = slice_subrange(t, k, t.len());
    if u.len() == 0 {
        return None;
    }
    let mut mag: u64 = 0;
    let mut big = false;
    let mut i: usize = 0;
    while i < u.len()
        invariant
            i <= u.len(),
            u@ == unsigned_part(t@),
            all_digits(u@.subrange(0, i as int)),
            !big ==> mag == digits_value(u@.subrange(0, i as int)),
            !big ==> mag <= 0x8000_0000_0000_0000u64,
            big ==> digits_value(u@.subrange(0, i as int)) > 0x8000_0000_0000_0000u64,
        decreases u.len() - i,
    {
        let c = u[i];
        if !is_digit_byte(c) {
            assert(!all_digits(u@));
            return None;
        }
        let d = (c - 48) as u64;
        assert(u@.subrange(0, i + 1).drop_last() =~= u@.subrange(0, i as int));
        assert(all_digits(u@.subrange(0, i + 1))) by {
            assert forall|j: int| 0 <= j < i + 1 implies crate::grammar::is_digit(
                #[trigger] u@.subrange(0, i + 1)[j],
            ) by {
                if j < i {
                    assert(u@.subrange(0, i + 1)[j] == u@.subrange(0, i as int)[j]);
                }
            }
        }
        if !big {
            if mag > 922_337_203_685_477_580u64 || (mag == 922_337_203_685_477_580u64 && d > 8) {
                big = true;
            } else {
                mag = mag * 10 + d;
            }
        }
        i = i + 1;
    }
    assert(u@.subrange(0, u@.len() as int) =~= u@);
    let neg = t[0] == MINUS;
    if big {
        None
    } else if neg {
        if mag == 0x8000_0000_0000_0000u64 {
            Some(i64::MIN)
        } else {
            Some(-(mag as i64))
        }
    } else if mag <= 0x7fff_ffff_ffff_ffffu64 {
        Some(mag as i64)
    } else {
        None
    }
}

/// Whether `t` is a decimal literal in the sense of `is_decimal_text`.
fn is_decimal(t: &[u8]) -> (r: bool)
    ensures
        r == is_decimal_text(t@),
{
    let k = sign_len(t);
    let u = slice_subrange(t, k, t.len());
    let mut seen_dot = false;
    let mut seen_digit = false;
    let mut i: usize = 0;
    while i < u.len()
        invariant
            i <= u.len(),
            u@ == unsigned_part(t@),
            forall|j: int| 0 <= j < i ==> crate::grammar::is_digit(#[trigger] u@[j]) || u@[j] == DOT,
            forall|j1: int, j2: int|
                0 <= j1 < j2 < i && #[trigger] u@[j1] == DOT ==> #[trigger] u@[j2] != DOT,
            seen_dot <==> exists|j: int| 0 <= j < i && #[trigger] u@[j] == DOT,
            seen_digit <==> exists|j: int| 0 <= j < i && crate::grammar::is_digit(#[trigger] u@[j]),
        decreases u.len() - i,
    {
        let c = u[i];
        if is_digit_byte(c) {
            seen_digit = true;
        } else if c == DOT {
            if seen_dot {
                let ghost j = choose|j: int| 0 <= j < i && #[trigger] u@[j] == DOT;
                assert(u@[j] == DOT && u@[i as int] == DOT);
                return false;
            }
            seen_dot = true;
        } else {
            assert(!(crate::grammar::is_digit(u@[i as int]) || u@[i as int] == DOT));
            return false;
        }
        i = i + 1;
    }
    seen_digit
}

impl AnyPDFData {
    /// Reads the keyword `true` or `false` at the offset.
    pub fn consume_bool(reader: &mut PDFReader) -> (r: Result<AnyPDFData, ParseError>)
        requires
            old(reader).wf(),
        ensures
            final(reader).wf(),
            final(reader).bytes@ == old(reader).bytes@,
            outcome(r, bool_at(old(reader).bytes@, old(reader).offset as int), final(reader).offset as int),
            r is Ok ==> final(reader).offset > old(reader).offset,
    {
        assert(kw_true() =~= seq![116u8, 114, 117, 101]);
        assert(kw_false() =~= seq![102u8, 97, 108, 115, 101]);
        if has_keyword(reader, &[116u8, 114, 117, 101]) {
            reader.advance(4);
            Ok(AnyPDFData::Boolean(true))
        } else if has_keyword(reader, &[102u8, 97, 108, 115, 101]) {
            reader.advance(5);
            Ok(AnyPDFData::Boolean(false))
        } else {
            Err(ParseError::UnexpectedByte)
        }
    }

    /// Reads the run of numeric characters at the offset as an integer, or
    /// else as a decimal literal.
    pub fn consume_num(reader: &mut PDFReader) -> (r: Result<AnyPDFData, ParseError>)
        requires
            old(reader).wf(),
            old(reader).offset < old(reader).bytes.len(),
            is_num_char(old(reader).bytes@[old(reader).offset as int]),
        ensures
            final(reader).wf(),
            final(reader).bytes@ == old(reader).bytes@,
            outcome(r, number_at(old(reader).bytes@, old(reader).offset as int), final(reader).offset as int),
            r is Ok ==> final(reader).offset > old(reader).offset,
    {
        let ghost b = reader.bytes@;
        let ghost start = reader.offset as int;
        let mut num: Vec<u8> = Vec::new();
        while !reader.at_eof() && is_num_byte(reader.peek_next())
            invariant
                reader.wf(),
                reader.bytes@ == b,
                b == old(reader).bytes@,
                start == old(reader).offset,
                start <= reader.offset,
                num@ == b.subrange(start, reader.offset as int),
                num_end(b, start) == num_end(b, reader.offset as int),
            decreases reader.bytes.len() - reader.offset,
        {
            let c = reader.peek_next();
            let ghost off = reader.offset as int;
            assert(c == b[off]);
            num.push(c);
            reader.advance(1);
            assert(reader.offset == off + 1);
            assert(b.subrange(start, off + 1) =~= b.subrange(start, off).push(c));
        }
        assert(reader.offset as int == num_end(b, reader.offset as int));
        match int_of_text(num.as_slice()) {
            Some(v) => Ok(AnyPDFData::Integer(v)),
            None => if is_decimal(num.as_slice()) {
                Ok(AnyPDFData::Real(text_of(num.as_slice())))
            } else {
                Err(ParseError::InvalidNumber)
            },
        }
    }

    /// Reads a name; the offset is at its leading `/`.
    pub fn consume_name(reader: &mut PDFReader) -> (r: Result<AnyPDFData, ParseError>)
        requires
            old(reader).wf(),
            old(reader).offset < old(reader).bytes.len(),
        ensures
            final(reader).wf(),
            final(reader).bytes@ == old(reader).bytes@,
            outcome(
                r,
                name_result(name_from(old(reader).bytes@, old(reader).offset + 1, seq![])),
                final(reader).offset as int,
            ),
            r is Ok ==> final(reader).offset > old(reader).offset,
    {
        let ghost b = reader.bytes@;
        let ghost start = reader.offset + 1;
        reader.advance(1);
        let mut name = String::new();
        loop
            invariant
                reader.wf(),
                reader.bytes@ == b,
                b == old(reader).bytes@,
                start == old(reader).offset + 1,
                start <= reader.offset,
                name_from(b, start, seq![]) == name_from(b, reader.offset as int, name@),
            decreases reader.bytes.len() - reader.offset,
        {
            if reader.at_eof() {
                return Ok(AnyPDFData::Name(name));
            }
            let c = reader.peek_next();
            if is_delim_byte(c) {
                return Ok(AnyPDFData::Name(name));
            }
            if c == HASH {
                let w = reader.peek(3);
                if w.len() < 3 {
                    return Err(ParseError::InvalidText);
                }
                let h = hex_digit(w[1]);
                let l = hex_digit(w[2]);
                match (h, l) {
                    (Some(h), Some(l)) => {
                        reader.advance(3);
                        push_char(&mut name, (16 * h + l) as char);
                    },
                    _ => {
                        return Err(ParseError::InvalidText);
                    },
                }
            } else {
                reader.advance(1);
                push_char(&mut name, c as char);
            }
        }
    }

    /// Reads a hex string; the offset is at its leading `<`.
    pub fn consume_hex_str(reader: &mut PDFReader) -> (r: Result<AnyPDFData, ParseError>)
        requires
            old(reader).wf(),
            old(reader).offset < old(reader).bytes.len(),
        ensures
            final(reader).wf(),
            final(reader).bytes@ == old(reader).bytes@,
            outcome(
                r,
                text_result(hex_from(old(reader).bytes@, old(reader).offset + 1, seq![])),
                final(reader).offset as int,
            ),
            r is Ok ==> final(reader).offset > old(reader).offset,
    {
        let ghost b = reader.bytes@;
        let ghost start = reader.offset + 1;
        reader.advance(1);
        let mut string = String::new();
        loop
            invariant
                reader.wf(),
                reader.bytes@ == b,
                b == old(reader).bytes@,
                start == old(reader).offset + 1,
                start <= reader.offset,
                hex_from(b, start, seq![]) == hex_from(b, reader.offset as int, string@),
            decreases reader.bytes.len() - reader.offset,
        {
            if reader.at_eof() {
                return Err(ParseError::Unterminated);
            }
            let c1 = reader.next();
            if c1 == GT {
                return Ok(AnyPDFData::String(string));
            }
            if reader.at_eof() {
                return Err(ParseError::Unterminated);
            }
            let c2 = reader.peek_next();
            let h = match hex_digit(c1) {
                Some(h) => h,
                None => {
                    return Err(ParseError::InvalidText);
                },
            };
            if c2 == GT {
                push_char(&mut string, (16 * h) as char);
            } else {
                match hex_digit(c2) {
                    Some(l) => {
                        reader.advance(1);
                        push_char(&mut string, (16 * h + l) as char);
                    },
                    None => {
                        return Err(ParseError::InvalidText);
                    },
                }
            }
        }
    }

    /// Reads the one to three octal digits at the offset as one byte.
    fn read_octal(reader: &mut PDFReader) -> (v: u8)
        requires
            old(reader).wf(),
            old(reader).offset < old(reader).bytes.len(),
            is_octal(old(reader).bytes@[old(reader).offset as int]),
        ensures
            final(reader).wf(),
            final(reader).bytes@ == old(reader).bytes@,
            final(reader).offset == old(reader).offset + octal_len(
                old(reader).bytes@,
                old(reader).offset as int,
            ),
            v as int == octal_value(
                old(reader).bytes@.subrange(
                    old(reader).offset as int,
                    final(reader).offset as int,
                ),
            ) % 256,
    {
        let ghost b = reader.bytes@;
        let ghost start = reader.offset as int;
        let mut acc: u32 = 0;
        let mut k: usize = 0;
        while k < 3 && !reader.at_eof() && is_octal_byte(reader.peek_next())
            invariant
                reader.wf(),
                reader.bytes@ == b,
                b == old(reader).bytes@,
                start == old(reader).offset,
                start < b.len(),
                is_octal(b[start]),
                k <= 3,
                reader.offset == start + k,
                forall|j: int| start <= j < start + k ==> is_octal(#[trigger] b[j]),
                acc as int == octal_value(b.subrange(start, start + k)),
                k == 0 ==> acc == 0,
                k == 1 ==> acc < 8,
                k == 2 ==> acc < 64,
                acc < 512,
            decreases 3 - k,
        {
            let c = reader.peek_next();
            assert(b.subrange(start, start + k + 1).drop_last() =~= b.subrange(start, start + k));
            acc = acc * 8 + (c - 48) as u32;
            reader.advance(1);
            k = k + 1;
        }
        assert(k == octal_len(b, start));
        (acc % 256) as u8
    }

    /// Reads a literal string; the offset is at its opening parenthesis.
    pub fn consume_lit_str(reader: &mut PDFReader) -> (r: Result<AnyPDFData, ParseError>)
        requires
            old(reader).wf(),
            old(reader).offset < old(reader).bytes.len(),
        ensures
            final(reader).wf(),
            final(reader).bytes@ == old(reader).bytes@,
            outcome(
                r,
                text_result(lit_from(old(reader).bytes@, old(reader).offset + 1, 1, seq![])),
                final(reader).offset as int,
            ),
            r is Ok ==> final(reader).offset > old(reader).offset,
    {
        let ghost b = reader.bytes@;
        let ghost start = reader.offset + 1;
        reader.advance(1);
        let mut level: usize = 1;
        let mut string = String::new();
        loop
            invariant
                reader.wf(),
                reader.bytes@ == b,
                b == old(reader).bytes@,
                start == old(reader).offset + 1,
                start <= reader.offset,
                1 <= level <= reader.offset - old(reader).offset,
                lit_from(b, start, 1, seq![]) == lit_from(
                    b,
                    reader.offset as int,
                    level as int,
                    string@,
                ),
            decreases reader.bytes.len() - reader.offset,
        {
            if reader.at_eof() {
                return Err(ParseError::Unterminated);
            }
            let c = reader.next();
            if c == BACKSLASH {
                if reader.at_eof() {
                    return Err(ParseError::Unterminated);
                }
                let e = reader.peek_next();
                match escape_of(e) {
                    Some(ch) => {
                        reader.advance(1);
                        push_char(&mut string, ch);
                    },
                    None => {
                        if is_octal_byte(e) {
                            let v = Self::read_octal(reader);
                            push_char(&mut string, v as char);
                        } else {
                            reader.advance(1);
                        }
                    },
                }
            } else if c == CR {
                push_char(&mut string, '\n');
            } else if c == LPAREN {
                level = level + 1;
                push_char(&mut string, '(');
            } else if c == RPAREN {
                if level == 1 {
                    return Ok(AnyPDFData::String(string));
                }
                level = level - 1;
                push_char(&mut string, ')');
            } else {
                push_char(&mut string, c as char);
            }
        }
    }
}

fn is_octal_byte(c: u8) -> (r: bool)
    ensures
        r == is_octal(c),
{
    48 <= c && c <= 55
}

/// `r` is the dictionary body that the spec outcome `s` describes, with the
/// cursor left at `end`.
pub open spec fn dict_outcome(
    r: Result<Vec<(String, AnyPDFData)>, ParseError>,
    s: Result<(Seq<(Seq<char>, Val)>, int), (ParseError, int)>,
    end: int,
) -> bool {
    match s {
        Ok((d, e)) => r matches Ok(x) && pairs_view(x@) == d && end == e,
        Err((err, e)) => r matches Err(x) && x == err && end == e,
    }
}

/// The two numbers of a reference's head `t`, when both fit in 64 bits.
fn number_pair_of(t: &[u8]) -> (r: Option<(i64, i64)>)
    ensures
        match number_pair(t@) {
            Some((n, g)) => if fits_i64(n) && fits_i64(g) {
                r == Some((n as i64, g as i64))
            } else {
                r is None
            },
            None => r is None,
        },
{
    let mut e1: usize = 0;
    while e1 < t.len() && is_digit_byte(t[e1])
        invariant
            e1 <= t.len(),
            digit_end(t@, 0) == digit_end(t@, e1 as int),
        decreases t.len() - e1,
    {
        e1 = e1 + 1;
    }
    let mut s2: usize = e1;
    while s2 < t.len() && is_ws_byte(t[s2])
        invariant
            e1 <= s2 <= t.len(),
            skip_ws(t@, e1 as int) == skip_ws(t@, s2 as int),
        decreases t.len() - s2,
    {
        s2 = s2 + 1;
    }
    let mut e2: usize = s2;
    while e2 < t.len() && is_digit_byte(t[e2])
        invariant
            s2 <= e2 <= t.len(),
            digit_end(t@, s2 as int) == digit_end(t@, e2 as int),
        decreases t.len() - e2,
    {
        e2 = e2 + 1;
    }
    proof {
        lemma_digit_end(t@, 0);
        lemma_digit_end(t@, s2 as int);
    }
    if e1 == 0 || e2 == s2 {
        return None;
    }
    let a = slice_subrange(t, 0, e1);
    let c = slice_subrange(t, s2, e2);
    assert(unsigned_part(a@) == a@);
    assert(unsigned_part(c@) == c@);
    assert(all_digits(a@));
    assert(all_digits(c@));
    match (int_of_text(a), int_of_text(c)) {
        (Some(n), Some(g)) => Some((n, g)),
        _ => None,
    }
}

/// Binds `key` to `value` in `dict`: in place when the key is present, else
/// at the end.
fn upsert_entry(dict: &mut Vec<(String, AnyPDFData)>, key: String, value: AnyPDFData)
    ensures
        pairs_view(final(dict)@) == upsert(pairs_view(old(dict)@), key@, value@),
{
    let ghost before = dict@;
    let ghost k = key@;
    let ghost v = value@;
    let mut i: usize = 0;
    while i < dict.len()
        invariant
            i <= dict.len(),
            dict@ == before,
            before == old(dict)@,
            k == key@,
            v == value@,
            forall|j: int| 0 <= j < i ==> (#[trigger] dict@[j]).0@ != k,
        decreases dict.len() - i,
    {
        if dict[i].0 == key {
            proof {
                lemma_pairs_view(before);
                lemma_key_index(pairs_view(before), k);
                assert(pairs_view(before)[i as int].0 == k);
                if key_index(pairs_view(before), k) != Some(i as int) {
                    match key_index(pairs_view(before), k) {
                        Some(m) => {
                            assert(pairs_view(before)[m].0 == k);
                            assert(dict@[m].0@ == k);
                        },
                        None => {
                            assert(pairs_view(before)[i as int].0 != k);
                        },
                    }
                }
            }
            dict[i] = (key, value);
            proof {
                lemma_pairs_view(dict@);
                assert(pairs_view(dict@) =~= pairs_view(before).update(i as int, (k, v)));
            }
            return;
        }
        i = i + 1;
    }
    proof {
        lemma_pairs_view(before);
        lemma_key_index(pairs_view(before), k);
        if key_index(pairs_view(before), k) is Some {
            let m = key_index(pairs_view(before), k)->0;
            assert(pairs_view(before)[m].0 == k);
            assert(dict@[m].0@ == k);
        }
    }
    dict.push((key, value));
    proof {
        lemma_pairs_view(dict@);
        assert(pairs_view(dict@) =~= pairs_view(before).push((k, v)));
    }
}

impl AnyPDFData {
    /// Whether the text up to the next `R` has the shape of a reference's head.
    fn is_objref(reader: &PDFReader) -> (r: bool)
        requires
            reader.wf(),
        ensures
            r == is_ref_at(reader.bytes@, reader.offset as int),
    {
        let t = reader.peek_until(UPPER_R);
        if t.len() == 0 {
            return false;
        }
        match u8s_to_string(t) {
            Ok(s) => match regex_test(REF_PATTERN, s) {
                Some(m) => m,
                None => false,
            },
            Err(_) => false,
        }
    }

    /// Reads an indirect reference: two numbers, then the next `R`.
    pub fn consume_objref(reader: &mut PDFReader) -> (r: Result<AnyPDFData, ParseError>)
        requires
            old(reader).wf(),
        ensures
            final(reader).wf(),
            final(reader).bytes@ == old(reader).bytes@,
            outcome(r, ref_at(old(reader).bytes@, old(reader).offset as int), final(reader).offset as int),
            r is Ok ==> final(reader).offset > old(reader).offset,
    {
        proof {
            lemma_find_from_bounds(reader.bytes@, reader.offset as int, UPPER_R);
        }
        let t = reader.read_until(UPPER_R);
        match number_pair_of(t) {
            Some((n, g)) => Ok(AnyPDFData::ObjRef(n, g)),
            None => Err(ParseError::InvalidNumber),
        }
    }

    /// Reads an array; the offset is at its `[`.
    pub fn consume_array(reader: &mut PDFReader) -> (r: Result<AnyPDFData, ParseError>)
        requires
            old(reader).wf(),
            old(reader).offset < old(reader).bytes.len(),
        ensures
            final(reader).wf(),
            final(reader).bytes@ == old(reader).bytes@,
            outcome(
                r,
                array_from(old(reader).bytes@, old(reader).offset + 1, seq![]),
                final(reader).offset as int,
            ),
            r is Ok ==> final(reader).offset > old(reader).offset,
        decreases old(reader).bytes.len() - old(reader).offset - 1, 3int,
    {
        let ghost b = reader.bytes@;
        let ghost start = reader.offset + 1;
        reader.advance(1);
        let mut objects: Vec<AnyPDFData> = Vec::new();
        loop
            invariant
                reader.wf(),
                reader.bytes@ == b,
                b == old(reader).bytes@,
                start == old(reader).offset + 1,
                start <= reader.offset,
                array_from(b, start, seq![]) == array_from(
                    b,
                    reader.offset as int,
                    values_view(objects@),
                ),
            decreases reader.bytes.len() - reader.offset,
        {
            proof {
                lemma_skip_ws_bounds(b, reader.offset as int);
            }
            reader.skip_whitespace();
            if reader.at_eof() {
                return Err(ParseError::Unterminated);
            }
            if reader.peek_next() == RBRACKET {
                reader.advance(1);
                return Ok(AnyPDFData::Array(objects));
            }
            let v = match Self::consume(reader) {
                Ok(v) => v,
                Err(e) => {
                    return Err(e);
                },
            };
            let ghost before = objects@;
            objects.push(v);
            proof {
                assert(objects@.subrange(0, before.len() as int) =~= before);
            }
        }
    }

    /// Reads the entries of a dictionary; the offset is at its `<<`.
    pub fn consume_dict(reader: &mut PDFReader) -> (r: Result<Vec<(String, AnyPDFData)>, ParseError>)
        requires
            old(reader).wf(),
            old(reader).offset + 2 <= old(reader).bytes.len(),
        ensures
            final(reader).wf(),
            final(reader).bytes@ == old(reader).bytes@,
            dict_outcome(
                r,
                dict_from(old(reader).bytes@, old(reader).offset + 2, seq![]),
                final(reader).offset as int,
            ),
            r is Ok ==> final(reader).offset > old(reader).offset,
        decreases old(reader).bytes.len() - old(reader).offset - 1, 3int,
    {
        let ghost b = reader.bytes@;
        let ghost start = reader.offset + 2;
        reader.advance(2);
        let mut dict: Vec<(String, AnyPDFData)> = Vec::new();
        loop
            invariant
                reader.wf(),
                reader.bytes@ == b,
                b == old(reader).bytes@,
                start == old(reader).offset + 2,
                start <= reader.offset,
                dict_from(b, start, seq![]) == dict_from(b, reader.offset as int, pairs_view(dict@)),
            decreases reader.bytes.len() - reader.offset,
        {
            proof {
                lemma_skip_ws_bounds(b, reader.offset as int);
            }
            reader.skip_whitespace();
            if reader.at_eof() {
                return Err(ParseError::Unterminated);
            }
            if has_keyword(reader, &[62u8, 62]) {
                assert(kw_dict_close() =~= seq![62u8, 62]);
                reader.advance(2);
                return Ok(dict);
            }
            assert(kw_dict_close() =~= seq![62u8, 62]);
            if reader.peek_next() != SLASH {
                return Err(ParseError::KeyNotName);
            }
            let ghost q = reader.offset as int;
            proof {
                lemma_name_from_bounds(b, q + 1, seq![]);
            }
            let key = match Self::consume_name(reader) {
                Ok(AnyPDFData::Name(k)) => k,
                Ok(_) => {
                    return Err(ParseError::KeyNotName);
                },
                Err(e) => {
                    return Err(e);
                },
            };
            let value = match Self::consume(reader) {
                Ok(v) => v,
                Err(e) => {
                    return Err(e);
                },
            };
            upsert_entry(&mut dict, key, value);
        }
    }

    /// Reads the payload of a stream whose dictionary `dict` has been read;
    /// the offset is at the `stream` keyword.
    pub fn consume_stream(reader: &mut PDFReader, dict: Vec<(String, AnyPDFData)>) -> (r: Result<
        AnyPDFData,
        ParseError,
    >)
        requires
            old(reader).wf(),
            at_kw(old(reader).bytes@, old(reader).offset as int, kw_stream()),
        ensures
            final(reader).wf(),
            final(reader).bytes@ == old(reader).bytes@,
            outcome(
                r,
                stream_at(old(reader).bytes@, old(reader).offset as int, pairs_view(dict@)),
                final(reader).offset as int,
            ),
            r is Ok ==> final(reader).offset > old(reader).offset,
    {
        let ghost b = reader.bytes@;
        let ghost d = pairs_view(dict@);
        proof {
            lemma_pairs_view(dict@);
            lemma_key_index(d, length_key());
        }
        let length_name = String::from_str("Length");
        proof {
            reveal_strlit("Length");
            assert(length_name@ =~= length_key());
        }
        let mut i: usize = 0;
        while i < dict.len() && !(dict[i].0 == length_name)
            invariant
                i <= dict.len(),
                d == pairs_view(dict@),
                d.len() == dict.len(),
                forall|j: int| 0 <= j < dict.len() ==> #[trigger] d[j] == (dict@[j].0@, dict@[j].1@),
                length_name@ == length_key(),
                forall|j: int| 0 <= j < i ==> (#[trigger] d[j]).0 != length_key(),
            decreases dict.len() - i,
        {
            i = i + 1;
        }
        proof {
            lemma_key_index(d, length_key());
        }
        if i == dict.len() {
            return Err(ParseError::BadStreamLength);
        }
        proof {
            assert(d[i as int].0 == length_key());
            if key_index(d, length_key()) != Some(i as int) {
                assert(key_index(d, length_key()) is Some);
                let m = key_index(d, length_key())->0;
                assert(d[m].0 == length_key());
            }
        }
        let n: i64 = match &dict[i].1 {
            AnyPDFData::Integer(n) => *n,
            _ => {
                return Err(ParseError::BadStreamLength);
            },
        };
        if n < 0 {
            return Err(ParseError::BadStreamLength);
        }
        assert(kw_stream().len() == 6);
        reader.advance(6);
        if !reader.at_eof() && reader.peek_next() == CR {
            reader.advance(1);
        }
        reader.advance(1);
        if ((reader.bytes.len() - reader.offset) as u64) < (n as u64) {
            return Err(ParseError::Unterminated);
        }
        let data = vstd::slice::slice_to_vec(reader.read(n as usize));
        proof {
            lemma_skip_ws_bounds(b, reader.offset as int);
        }
        reader.skip_whitespace();
        if has_keyword(reader, &[101u8, 110, 100, 115, 116, 114, 101, 97, 109]) {
            assert(kw_endstream() =~= seq![101u8, 110, 100, 115, 116, 114, 101, 97, 109]);
            reader.advance(9);
            Ok(AnyPDFData::Stream(dict, data))
        } else {
            assert(kw_endstream() =~= seq![101u8, 110, 100, 115, 116, 114, 101, 97, 109]);
            Err(ParseError::Unterminated)
        }
    }

    /// Parses the value at the reader's offset, after any whitespace. On an
    /// error the cursor is left where the error was found.
    pub fn consume(reader: &mut PDFReader) -> (r: Result<AnyPDFData, ParseError>)
        requires
            old(reader).wf(),
        ensures
            final(reader).wf(),
            final(reader).bytes@ == old(reader).bytes@,
            outcome(r, value_at(old(reader).bytes@, old(reader).offset as int), final(reader).offset as int),
            r is Ok ==> final(reader).offset > old(reader).offset,
        decreases old(reader).bytes.len() - old(reader).offset, 2int,
    {
        let ghost b = reader.bytes@;
        let ghost p = reader.offset as int;
        proof {
            lemma_skip_ws_bounds(b, p);
        }
        reader.skip_whitespace();
        let is_reference = Self::is_objref(reader);
        proof {
            lemma_skip_ws_bounds(b, reader.offset as int);
        }
        Self::consume_decided(reader, is_reference)
    }

    /// Parses the value at the reader's offset, after any whitespace, as
    /// `consume` does, with `is_reference` standing for the outcome of the
    /// reference test there: whether the text up to the next `R` has the
    /// shape `<digits> <digits> `.
    pub fn consume_decided(reader: &mut PDFReader, is_reference: bool) -> (r: Result<
        AnyPDFData,
        ParseError,
    >)
        requires
            old(reader).wf(),
        ensures
            final(reader).wf(),
            final(reader).bytes@ == old(reader).bytes@,
            outcome(
                r,
                value_at_with(old(reader).bytes@, old(reader).offset as int, is_reference),
                final(reader).offset as int,
            ),
            r is Ok ==> final(reader).offset > old(reader).offset,
        decreases old(reader).bytes.len() - old(reader).offset, 1int,
    {
        let ghost b = reader.bytes@;
        proof {
            lemma_skip_ws_bounds(b, reader.offset as int);
        }
        reader.skip_whitespace();
        if reader.at_eof() {
            return Err(ParseError::Unterminated);
        }
        if has_keyword(reader, &[60u8, 60]) {
            assert(kw_dict_open() =~= seq![60u8, 60]);
            let dict = match Self::consume_dict(reader) {
                Ok(d) => d,
                Err(e) => {
                    return Err(e);
                },
            };
            proof {
                lemma_skip_ws_bounds(b, reader.offset as int);
            }
            reader.skip_whitespace();
            if has_keyword(reader, &[115u8, 116, 114, 101, 97, 109]) {
                assert(kw_stream() =~= seq![115u8, 116, 114, 101, 97, 109]);
                return Self::consume_stream(reader, dict);
            }
            assert(kw_stream() =~= seq![115u8, 116, 114, 101, 97, 109]);
            return Ok(AnyPDFData::Dictionary(dict));
        }
        assert(kw_dict_open() =~= seq![60u8, 60]);
        let c = reader.peek_next();
        if c == 116 || c == 102 {
            Self::consume_bool(reader)
        } else if is_reference {
            Self::consume_objref(reader)
        } else if is_num_byte(c) {
            Self::consume_num(reader)
        } else if c == LPAREN {
            Self::consume_lit_str(reader)
        } else if c == LT {
            Self::consume_hex_str(reader)
        } else if c == SLASH {
            Self::consume_name(reader)
        } else if c == LBRACKET {
            Self::consume_array(reader)
        } else {
            Err(ParseError::UnexpectedByte)
        }
    }
}

/// `r` is the document that `b` holds from `p` on, or the error that stops
/// it with the cursor at `end`, where that error was found.
pub open spec fn parsed_as(b: Seq<u8>, p: int, r: Result<PDF, ParseError>, end: int) -> bool {
    match document_at(b, p) {
        Ok((v, objs)) => r matches Ok(pdf) && pdf.version@ == v && objects_view(pdf.objects@) == objs,
        Err((e, q)) => r matches Err(x) && x == e && end == q,
    }
}

/// Reads a document from the reader's offset: the first line is its version;
/// each later line with the shape `<number> <generation> obj` is followed by
/// that object's value. Lines that are not valid UTF-8 are passed over; a
/// value that fails to parse fails the whole document.
pub fn parse(reader: &mut PDFReader) -> (r: Result<PDF, ParseError>)
    requires
        old(reader).wf(),
    ensures
        final(reader).wf(),
        final(reader).bytes@ == old(reader).bytes@,
        parsed_as(old(reader).bytes@, old(reader).offset as int, r, final(reader).offset as int),
{
    let ghost b = reader.bytes@;
    let first = reader.read_until(LF);
    let version = match u8s_to_string(first) {
        Ok(s) => String::from_str(s),
        Err(e) => {
            return Err(e);
        },
    };
    let ghost start = reader.offset as int;
    let mut objects: Vec<Object> = Vec::new();
    assert(objects_view(objects@) =~= seq![]);
    loop
        invariant
            reader.wf(),
            reader.bytes@ == b,
            b == old(reader).bytes@,
            start == after_byte(b, old(reader).offset as int, LF),
            valid_utf8(until_byte(b, old(reader).offset as int, LF)),
            version@ == decode_utf8(until_byte(b, old(reader).offset as int, LF)),
            objects_from(b, start, seq![]) == objects_from(
                b,
                reader.offset as int,
                objects_view(objects@),
            ),
        ensures
            objects_from(b, start, seq![]) == Ok::<Seq<(int, int, Val)>, (ParseError, int)>(
                objects_view(objects@),
            ),
        decreases reader.bytes.len() - reader.offset,
    {
        if reader.at_eof() {
            break;
        }
        let p = reader.offset;
        proof {
            lemma_find_from_bounds(b, p as int, LF);
        }
        let line = vstd::slice::slice_to_vec(reader.read_until(LF));
        if reader.offset <= p {
            break;
        }
        let header = match u8s_to_string(line.as_slice()) {
            Ok(text) => match regex_test(OBJ_PATTERN, text) {
                Some(m) => m,
                None => false,
            },
            Err(_) => false,
        };
        if header {
            let (number, gen) = match number_pair_of(line.as_slice()) {
                Some(pair) => pair,
                None => {
                    return Err(ParseError::InvalidNumber);
                },
            };
            let data = match AnyPDFData::consume(reader) {
                Ok(v) => v,
                Err(e) => {
                    return Err(e);
                },
            };
            let ghost before = objects@;
            objects.push(Object { number, gen, data });
            assert(objects_view(objects@) =~= objects_view(before).push(
                (number as int, gen as int, objects@.last().data@),
            ));
        }
    }
    Ok(PDF { version, objects })
}

} // verus!
