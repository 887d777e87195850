use vstd::prelude::*;
use vstd::utf8::{decode_utf8, valid_utf8};
use crate::reader::{
    after_byte, clamp_add, lemma_find_from_bounds, lemma_skip_ws_bounds, skip_ws, until_byte,
};
use crate::structure::{ParseError, Val};
use crate::trusted::regex_outcome;

verus! {

pub const TAB: u8 = 9;
pub const LF: u8 = 10;
pub const FF: u8 = 12;
pub const CR: u8 = 13;
pub const SPACE: u8 = 32;
pub const HASH: u8 = 35;
pub const PERCENT: u8 = 37;
pub const LPAREN: u8 = 40;
pub const RPAREN: u8 = 41;
pub const PLUS: u8 = 43;
pub const MINUS: u8 = 45;
pub const DOT: u8 = 46;
pub const SLASH: u8 = 47;
pub const LT: u8 = 60;
pub const GT: u8 = 62;
pub const UPPER_R: u8 = 82;
pub const LBRACKET: u8 = 91;
pub const BACKSLASH: u8 = 92;
pub const RBRACKET: u8 = 93;
pub const LBRACE: u8 = 123;
pub const RBRACE: u8 = 125;

/// Shape of the text before an `R` that makes an indirect reference.
pub const REF_PATTERN: &'static str = "^\\d+\\s+\\d+\\s+$";

/// Shape of a line that opens an indirect object.
pub const OBJ_PATTERN: &'static str = "^\\d+\\s+\\d+\\s+obj";

/// `kw` occurs in `b` at `p`.
pub open spec fn at_kw(b: Seq<u8>, p: int, kw: Seq<u8>) -> bool {
    0 <= p && p + kw.len() <= b.len() && b.subrange(p, p + kw.len()) == kw
}

pub open spec fn kw_true() -> Seq<u8> {
    seq![116u8, 114, 117, 101]
}

pub open spec fn kw_false() -> Seq<u8> {
    seq![102u8, 97, 108, 115, 101]
}

pub open spec fn kw_dict_open() -> Seq<u8> {
    seq![60u8, 60]
}

pub open spec fn kw_dict_close() -> Seq<u8> {
    seq![62u8, 62]
}

pub open spec fn kw_stream() -> Seq<u8> {
    seq![115u8, 116, 114, 101, 97, 109]
}

pub open spec fn kw_endstream() -> Seq<u8> {
    seq![101u8, 110, 100, 115, 116, 114, 101, 97, 109]
}

/// The key under which a stream's dictionary gives its byte count.
pub open spec fn length_key() -> Seq<char> {
    seq!['L', 'e', 'n', 'g', 't', 'h']
}

/// One character per byte.
pub open spec fn byte_char(c: u8) -> char {
    c as char
}

pub open spec fn chars_of(t: Seq<u8>) -> Seq<char> {
    t.map_values(|c: u8| byte_char(c))
}

pub open spec fn is_digit(c: u8) -> bool {
    48 <= c <= 57
}

pub open spec fn is_octal(c: u8) -> bool {
    48 <= c <= 55
}

pub open spec fn is_num_char(c: u8) -> bool {
    is_digit(c) || c == MINUS || c == PLUS || c == DOT
}

/// The format's delimiters, which end a name.
pub open spec fn is_delim(c: u8) -> bool {
    c == 0 || c == TAB || c == LF || c == CR || c == FF || c == SPACE || c == LPAREN || c
        == RPAREN || c == LT || c == GT || c == LBRACKET || c == RBRACKET || c == LBRACE || c
        == RBRACE || c == SLASH || c == PERCENT || c == BACKSLASH
}

pub open spec fn hex_val(c: u8) -> Option<int> {
    if 48 <= c <= 57 {
        Some(c - 48)
    } else if 65 <= c <= 70 {
        Some(c - 55)
    } else if 97 <= c <= 102 {
        Some(c - 87)
    } else {
        None
    }
}

/// End of the run of numeric characters that starts at `p`.
pub open spec fn num_end(b: Seq<u8>, p: int) -> int
    decreases b.len() - p,
{
    if 0 <= p < b.len() && is_num_char(b[p]) {
        num_end(b, p + 1)
    } else {
        p
    }
}

/// End of the run of decimal digits that starts at `p`.
pub open spec fn digit_end(b: Seq<u8>, p: int) -> int
    decreases b.len() - p,
{
    if 0 <= p < b.len() && is_digit(b[p]) {
        digit_end(b, p + 1)
    } else {
        p
    }
}

pub open spec fn all_digits(t: Seq<u8>) -> bool {
    forall|i: int| 0 <= i < t.len() ==> is_digit(#[trigger] t[i])
}

/// The number that a run of decimal digits denotes.
pub open spec fn digits_value(t: Seq<u8>) -> int
    decreases t.len(),
{
    if t.len() == 0 {
        0
    } else {
        10 * digits_value(t.drop_last()) + (t.last() - 48)
    }
}

/// The number that a run of octal digits denotes.
pub open spec fn octal_value(t: Seq<u8>) -> int
    decreases t.len(),
{
    if t.len() == 0 {
        0
    } else {
        8 * octal_value(t.drop_last()) + (t.last() - 48)
    }
}

pub open spec fn has_sign(t: Seq<u8>) -> bool {
    t.len() > 0 && (t[0] == MINUS || t[0] == PLUS)
}

pub open spec fn unsigned_part(t: Seq<u8>) -> Seq<u8> {
    if has_sign(t) {
        t.drop_first()
    } else {
        t
    }
}

/// `[+-]?[0-9]+`
pub open spec fn is_int_text(t: Seq<u8>) -> bool {
    unsigned_part(t).len() > 0 && all_digits(unsigned_part(t))
}

pub open spec fn int_text_value(t: Seq<u8>) -> int {
    if t.len() > 0 && t[0] == MINUS {
        -digits_value(unsigned_part(t))
    } else {
        digits_value(unsigned_part(t))
    }
}

/// `[+-]?` then digits with at most one `.` among them, and at least one digit.
pub open spec fn is_decimal_text(t: Seq<u8>) -> bool {
    let u = unsigned_part(t);
    &&& forall|i: int| 0 <= i < u.len() ==> is_digit(#[trigger] u[i]) || u[i] == DOT
    &&& forall|i: int, j: int| 0 <= i < j < u.len() && #[trigger] u[i] == DOT ==> #[trigger] u[j] != DOT
    &&& exists|i: int| 0 <= i < u.len() && is_digit(#[trigger] u[i])
}

/// A numeric token: an integer when it is one and fits in 64 bits, else a
/// real when it is a decimal literal.
pub open spec fn number_value(t: Seq<u8>) -> Result<Val, ParseError> {
    if is_int_text(t) && i64::MIN <= int_text_value(t) <= i64::MAX {
        Ok(Val::Integer(int_text_value(t)))
    } else if is_decimal_text(t) {
        Ok(Val::Real(chars_of(t)))
    } else {
        Err(ParseError::InvalidNumber)
    }
}

pub open spec fn number_at(b: Seq<u8>, p: int) -> Result<(Val, int), (ParseError, int)> {
    match number_value(b.subrange(p, num_end(b, p))) {
        Ok(v) => Ok((v, num_end(b, p))),
        Err(e) => Err((e, num_end(b, p))),
    }
}

pub open spec fn bool_at(b: Seq<u8>, p: int) -> Result<(Val, int), (ParseError, int)> {
    if at_kw(b, p, kw_true()) {
        Ok((Val::Boolean(true), p + 4))
    } else if at_kw(b, p, kw_false()) {
        Ok((Val::Boolean(false), p + 5))
    } else {
        Err((ParseError::UnexpectedByte, p))
    }
}

/// What a backslash followed by `e` stands for, for the single-character escapes.
pub open spec fn escape_char(e: u8) -> Option<char> {
    if e == 110 {
        Some('\n')
    } else if e == 114 {
        Some('\r')
    } else if e == 98 {
        Some('\x7f')
    } else if e == 102 {
        Some('\x0c')
    } else if e == LPAREN {
        Some('(')
    } else if e == RPAREN {
        Some(')')
    } else if e == BACKSLASH {
        Some('\\')
    } else {
        None
    }
}

/// How many octal digits (at most three) start at `p`.
pub open spec fn octal_len(b: Seq<u8>, p: int) -> int {
    if 0 <= p < b.len() && is_octal(b[p]) {
        if p + 1 < b.len() && is_octal(b[p + 1]) {
            if p + 2 < b.len() && is_octal(b[p + 2]) {
                3
            } else {
                2
            }
        } else {
            1
        }
    } else {
        0
    }
}

/// The body of a literal string from `p`, at parenthesis depth `level`,
/// with `acc` decoded so far: the decoded text and the position after the
/// closing parenthesis.
pub open spec fn lit_from(b: Seq<u8>, p: int, level: int, acc: Seq<char>) -> Result<
    (Seq<char>, int),
    (ParseError, int),
>
    decreases b.len() - p,
{
    if p < 0 || p >= b.len() {
        Err((ParseError::Unterminated, p))
    } else if b[p] == BACKSLASH {
        if p + 1 >= b.len() {
            Err((ParseError::Unterminated, p + 1))
        } else if escape_char(b[p + 1]) is Some {
            lit_from(b, p + 2, level, acc.push(escape_char(b[p + 1])->0))
        } else if is_octal(b[p + 1]) {
            let k = octal_len(b, p + 1);
            let v = octal_value(b.subrange(p + 1, p + 1 + k)) % 256;
            lit_from(b, p + 1 + k, level, acc.push(byte_char(v as u8)))
        } else {
            lit_from(b, p + 2, level, acc)
        }
    } else if b[p] == CR {
        lit_from(b, p + 1, level, acc.push('\n'))
    } else if b[p] == LPAREN {
        lit_from(b, p + 1, level + 1, acc.push('('))
    } else if b[p] == RPAREN {
        if level <= 1 {
            Ok((acc, p + 1))
        } else {
            lit_from(b, p + 1, level - 1, acc.push(')'))
        }
    } else {
        lit_from(b, p + 1, level, acc.push(byte_char(b[p])))
    }
}

/// The body of a hex string from `p`, with `acc` decoded so far; a lone
/// final digit is read as if followed by `0`.
pub open spec fn hex_from(b: Seq<u8>, p: int, acc: Seq<char>) -> Result<
    (Seq<char>, int),
    (ParseError, int),
>
    decreases b.len() - p,
{
    if p < 0 || p >= b.len() {
        Err((ParseError::Unterminated, p))
    } else if b[p] == GT {
        Ok((acc, p + 1))
    } else if p + 1 >= b.len() {
        Err((ParseError::Unterminated, p + 1))
    } else {
        match hex_val(b[p]) {
            None => Err((ParseError::InvalidText, p + 1)),
            Some(h) => if b[p + 1] == GT {
                hex_from(b, p + 1, acc.push(byte_char((16 * h) as u8)))
            } else {
                match hex_val(b[p + 1]) {
                    None => Err((ParseError::InvalidText, p + 1)),
                    Some(l) => hex_from(b, p + 2, acc.push(byte_char((16 * h + l) as u8))),
                }
            },
        }
    }
}

/// The rest of a name from `p`, with `acc` decoded so far: it ends at a
/// delimiter or at the end of the buffer; `#` and two hex digits stand for
/// one byte.
pub open spec fn name_from(b: Seq<u8>, p: int, acc: Seq<char>) -> Result<
    (Seq<char>, int),
    (ParseError, int),
>
    decreases b.len() - p,
{
    if p < 0 || p >= b.len() || is_delim(b[p]) {
        Ok((acc, p))
    } else if b[p] == HASH {
        if p + 2 < b.len() && hex_val(b[p + 1]) is Some && hex_val(b[p + 2]) is Some {
            name_from(
                b,
                p + 3,
                acc.push(byte_char((16 * hex_val(b[p + 1])->0 + hex_val(b[p + 2])->0) as u8)),
            )
        } else {
            Err((ParseError::InvalidText, p))
        }
    } else {
        name_from(b, p + 1, acc.push(byte_char(b[p])))
    }
}

pub proof fn lemma_name_from_bounds(b: Seq<u8>, p: int, acc: Seq<char>)
    requires
        0 <= p <= b.len(),
    ensures
        name_from(b, p, acc) matches Ok((_, r)) ==> p <= r <= b.len(),
    decreases b.len() - p,
{
    if p < b.len() && !is_delim(b[p]) {
        if b[p] == HASH {
            if p + 2 < b.len() && hex_val(b[p + 1]) is Some && hex_val(b[p + 2]) is Some {
                lemma_name_from_bounds(
                    b,
                    p + 3,
                    acc.push(byte_char((16 * hex_val(b[p + 1])->0 + hex_val(b[p + 2])->0) as u8)),
                );
            }
        } else {
            lemma_name_from_bounds(b, p + 1, acc.push(byte_char(b[p])));
        }
    }
}

pub open spec fn fits_i64(n: int) -> bool {
    i64::MIN <= n <= i64::MAX
}

/// Two runs of digits parted by whitespace, at the start of `t`.
pub open spec fn number_pair(t: Seq<u8>) -> Option<(int, int)> {
    let e1 = digit_end(t, 0);
    let s2 = skip_ws(t, e1);
    let e2 = digit_end(t, s2);
    if 0 < e1 && s2 < e2 {
        Some((digits_value(t.subrange(0, e1)), digits_value(t.subrange(s2, e2))))
    } else {
        None
    }
}

/// The text from `q` up to the next `R` has the shape of a reference's head.
pub open spec fn is_ref_at(b: Seq<u8>, q: int) -> bool {
    let t = until_byte(b, q, UPPER_R);
    &&& t.len() > 0
    &&& valid_utf8(t)
    &&& regex_outcome(REF_PATTERN@, decode_utf8(t)) == Some(true)
}

pub open spec fn ref_at(b: Seq<u8>, q: int) -> Result<(Val, int), (ParseError, int)> {
    match number_pair(until_byte(b, q, UPPER_R)) {
        Some((n, g)) => if fits_i64(n) && fits_i64(g) {
            Ok((Val::ObjRef(n, g), after_byte(b, q, UPPER_R)))
        } else {
            Err((ParseError::InvalidNumber, after_byte(b, q, UPPER_R)))
        },
        None => Err((ParseError::InvalidNumber, after_byte(b, q, UPPER_R))),
    }
}

/// Index of the first entry of `d` under key `k`.
pub open spec fn key_index(d: Seq<(Seq<char>, Val)>, k: Seq<char>) -> Option<int>
    decreases d.len(),
{
    if d.len() == 0 {
        None
    } else {
        match key_index(d.drop_last(), k) {
            Some(i) => Some(i),
            None => if d.last().0 == k {
                Some(d.len() - 1)
            } else {
                None
            },
        }
    }
}

/// `d` with `k` bound to `v`: in place when `k` is present, else appended.
pub open spec fn upsert(d: Seq<(Seq<char>, Val)>, k: Seq<char>, v: Val) -> Seq<(Seq<char>, Val)> {
    match key_index(d, k) {
        Some(i) => d.update(i, (k, v)),
        None => d.push((k, v)),
    }
}

/// A stream whose dictionary `d` has been read, with `p` at the `stream` keyword.
pub open spec fn stream_at(b: Seq<u8>, p: int, d: Seq<(Seq<char>, Val)>) -> Result<
    (Val, int),
    (ParseError, int),
> {
    match key_index(d, length_key()) {
        Some(i) => match d[i].1 {
            Val::Integer(n) => if n < 0 {
                Err((ParseError::BadStreamLength, p))
            } else {
                let p1 = p + 6;
                let p2 = if p1 < b.len() && b[p1] == CR {
                    p1 + 1
                } else {
                    p1
                };
                let p3 = clamp_add(p2, 1, b.len() as int);
                if p3 + n > b.len() {
                    Err((ParseError::Unterminated, p3))
                } else {
                    let p4 = skip_ws(b, p3 + n);
                    if at_kw(b, p4, kw_endstream()) {
                        Ok((Val::Stream(d, b.subrange(p3, p3 + n)), p4 + 9))
                    } else {
                        Err((ParseError::Unterminated, p4))
                    }
                }
            },
            _ => Err((ParseError::BadStreamLength, p)),
        },
        None => Err((ParseError::BadStreamLength, p)),
    }
}

/// A decoded string body as a string value.
pub open spec fn text_result(r: Result<(Seq<char>, int), (ParseError, int)>) -> Result<
    (Val, int),
    (ParseError, int),
> {
    match r {
        Ok((s, e)) => Ok((Val::Str(s), e)),
        Err(e) => Err(e),
    }
}

/// A decoded name as a name value.
pub open spec fn name_result(r: Result<(Seq<char>, int), (ParseError, int)>) -> Result<
    (Val, int),
    (ParseError, int),
> {
    match r {
        Ok((s, e)) => Ok((Val::Name(s), e)),
        Err(e) => Err(e),
    }
}

/// The value that starts at `p`, after any whitespace, and the position after
/// it; or the error and the position where it was found.
pub open spec fn value_at(b: Seq<u8>, p: int) -> Result<(Val, int), (ParseError, int)>
    decreases b.len() - p, 2int,
{
    if p < 0 || p > b.len() {
        Err((ParseError::Unterminated, p))
    } else {
        proof {
            lemma_skip_ws_bounds(b, p);
        }
        value_at_with(b, p, is_ref_at(b, skip_ws(b, p)))
    }
}

/// As `value_at`, with `is_ref` standing for the outcome of the reference
/// test at the value's first byte (`is_ref_at`).
pub open spec fn value_at_with(b: Seq<u8>, p: int, is_ref: bool) -> Result<
    (Val, int),
    (ParseError, int),
>
    decreases b.len() - p, 1int,
{
    if p < 0 || p > b.len() {
        Err((ParseError::Unterminated, p))
    } else {
        proof {
            lemma_skip_ws_bounds(b, p);
        }
        let q = skip_ws(b, p);
        if q >= b.len() {
            Err((ParseError::Unterminated, q))
        } else if at_kw(b, q, kw_dict_open()) {
            match dict_from(b, q + 2, seq![]) {
                Ok((d, r)) => {
                    let r2 = skip_ws(b, r);
                    if at_kw(b, r2, kw_stream()) {
                        stream_at(b, r2, d)
                    } else {
                        Ok((Val::Dictionary(d), r2))
                    }
                },
                Err(e) => Err(e),
            }
        } else if b[q] == 116 || b[q] == 102 {
            bool_at(b, q)
        } else if is_ref {
            ref_at(b, q)
        } else if is_num_char(b[q]) {
            number_at(b, q)
        } else if b[q] == LPAREN {
            text_result(lit_from(b, q + 1, 1, seq![]))
        } else if b[q] == LT {
            text_result(hex_from(b, q + 1, seq![]))
        } else if b[q] == SLASH {
            name_result(name_from(b, q + 1, seq![]))
        } else if b[q] == LBRACKET {
            array_from(b, q + 1, seq![])
        } else {
            Err((ParseError::UnexpectedByte, q))
        }
    }
}

/// The rest of an array from `p`, with `acc` read so far.
pub open spec fn array_from(b: Seq<u8>, p: int, acc: Seq<Val>) -> Result<(Val, int), (ParseError, int)>
    decreases b.len() - p, 3int,
{
    if p < 0 || p > b.len() {
        Err((ParseError::Unterminated, p))
    } else {
        proof {
            lemma_skip_ws_bounds(b, p);
        }
        let q = skip_ws(b, p);
        if q >= b.len() {
            Err((ParseError::Unterminated, q))
        } else if b[q] == RBRACKET {
            Ok((Val::Array(acc), q + 1))
        } else {
            match value_at(b, q) {
                Ok((v, r)) => if r <= q || r > b.len() {
                    Err((ParseError::Unterminated, r))
                } else {
                    array_from(b, r, acc.push(v))
                },
                Err(e) => Err(e),
            }
        }
    }
}

/// The rest of a dictionary from `p`, with the entries `acc` read so far.
pub open spec fn dict_from(b: Seq<u8>, p: int, acc: Seq<(Seq<char>, Val)>) -> Result<
    (Seq<(Seq<char>, Val)>, int),
    (ParseError, int),
>
    decreases b.len() - p, 3int,
{
    if p < 0 || p > b.len() {
        Err((ParseError::Unterminated, p))
    } else {
        proof {
            lemma_skip_ws_bounds(b, p);
        }
        let q = skip_ws(b, p);
        if q >= b.len() {
            Err((ParseError::Unterminated, q))
        } else if at_kw(b, q, kw_dict_close()) {
            Ok((acc, q + 2))
        } else if b[q] != SLASH {
            Err((ParseError::KeyNotName, q))
        } else {
            match name_from(b, q + 1, seq![]) {
                Ok((k, r)) => {
                    proof {
                        lemma_name_from_bounds(b, q + 1, seq![]);
                    }
                    match value_at(b, r) {
                        Ok((v, s)) => if s <= q || s > b.len() {
                            Err((ParseError::Unterminated, s))
                        } else {
                            dict_from(b, s, upsert(acc, k, v))
                        },
                        Err(e) => Err(e),
                    }
                },
                Err(e) => Err(e),
            }
        }
    }
}

pub proof fn lemma_key_index(d: Seq<(Seq<char>, Val)>, k: Seq<char>)
    ensures
        key_index(d, k) matches Some(i) ==> 0 <= i < d.len() && d[i].0 == k && forall|j: int|
            0 <= j < i ==> (#[trigger] d[j]).0 != k,
        key_index(d, k) is None ==> forall|j: int| 0 <= j < d.len() ==> (#[trigger] d[j]).0 != k,
    decreases d.len(),
{
    if d.len() > 0 {
        lemma_key_index(d.drop_last(), k);
        assert forall|j: int| 0 <= j < d.len() - 1 implies d.drop_last()[j] == d[j] by {}
    }
}

pub proof fn lemma_digit_end(b: Seq<u8>, p: int)
    requires
        0 <= p <= b.len(),
    ensures
        p <= digit_end(b, p) <= b.len(),
        forall|j: int| p <= j < digit_end(b, p) ==> is_digit(#[trigger] b[j]),
        digit_end(b, p) < b.len() ==> !is_digit(b[digit_end(b, p)]),
    decreases b.len() - p,
{
    if p < b.len() && is_digit(b[p]) {
        lemma_digit_end(b, p + 1);
    }
}

/// The objects whose header lines start at or after `p`, appended to `objs`:
/// a line with the shape of an object header is followed by the object's
/// value; every other line, and one that is not valid UTF-8, is passed over.
pub open spec fn objects_from(b: Seq<u8>, p: int, objs: Seq<(int, int, Val)>) -> Result<
    Seq<(int, int, Val)>,
    (ParseError, int),
>
    decreases b.len() - p,
{
    if p < 0 || p >= b.len() {
        Ok(objs)
    } else {
        proof {
            lemma_find_from_bounds(b, p, LF);
        }
        let np = after_byte(b, p, LF);
        let line = until_byte(b, p, LF);
        if np <= p {
            Ok(objs)
        } else if valid_utf8(line) && regex_outcome(OBJ_PATTERN@, decode_utf8(line)) == Some(true) {
            match number_pair(line) {
                Some((n, g)) => if fits_i64(n) && fits_i64(g) {
                    match value_at(b, np) {
                        Ok((v, r)) => if r <= p || r > b.len() {
                            Err((ParseError::Unterminated, r))
                        } else {
                            objects_from(b, r, objs.push((n, g, v)))
                        },
                        Err(e) => Err(e),
                    }
                } else {
                    Err((ParseError::InvalidNumber, np))
                },
                None => Err((ParseError::InvalidNumber, np)),
            }
        } else {
            objects_from(b, np, objs)
        }
    }
}

/// A document from `p`: its first line as the version, then its objects.
pub open spec fn document_at(b: Seq<u8>, p: int) -> Result<
    (Seq<char>, Seq<(int, int, Val)>),
    (ParseError, int),
> {
    let line = until_byte(b, p, LF);
    if !valid_utf8(line) {
        Err((ParseError::InvalidText, after_byte(b, p, LF)))
    } else {
        match objects_from(b, after_byte(b, p, LF), seq![]) {
            Ok(objs) => Ok((decode_utf8(line), objs)),
            Err(e) => Err(e),
        }
    }
}

} // verus!
