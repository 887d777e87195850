use vstd::prelude::*;
use crate::grammar::{
    byte_char, chars_of, digit_end, digits_value, fits_i64, int_text_value, is_decimal_text,
    is_digit, is_int_text, is_num_char, lit_from, num_end, number_at, value_at, value_at_with,
    hex_from, hex_val, key_index, lemma_key_index, text_result, upsert, GT, BACKSLASH, CR, DOT, LPAREN, RPAREN, UPPER_R,
};
use crate::parser::parsed_as;
use crate::reader::{after_byte, find_from, is_ws, skip_ws, until_byte};
use crate::structure::{objects_view, ParseError, Val, PDF};

verus! {

proof fn lemma_no_byte(b: Seq<u8>, p: int, c: u8)
    requires
        0 <= p,
        forall|i: int| 0 <= i < b.len() ==> b[i] != c,
    ensures
        find_from(b, p, c) is None,
    decreases b.len() - p,
{
    if p < b.len() {
        lemma_no_byte(b, p + 1, c);
    }
}

proof fn lemma_num_run(b: Seq<u8>, p: int)
    requires
        0 <= p <= b.len(),
        forall|i: int| 0 <= i < b.len() ==> is_num_char(#[trigger] b[i]),
    ensures
        num_end(b, p) == b.len(),
    decreases b.len() - p,
{
    if p < b.len() {
        lemma_num_run(b, p + 1);
    }
}

/// A buffer made of numeric characters alone, none of them `R`, is read
/// as one numeric token that spans it.
proof fn lemma_numeric_buffer(b: Seq<u8>)
    requires
        b.len() > 0,
        forall|i: int| 0 <= i < b.len() ==> is_num_char(#[trigger] b[i]),
    ensures
        value_at(b, 0) == match crate::grammar::number_value(b) {
            Ok(v) => Ok((v, b.len() as int)),
            Err(e) => Err::<(Val, int), (ParseError, int)>((e, b.len() as int)),
        },
{
    assert(is_num_char(b[0]));
    assert(skip_ws(b, 0) == 0);
    assert forall|i: int| 0 <= i < b.len() implies b[i] != UPPER_R by {
        assert(is_num_char(b[i]));
    }
    lemma_no_byte(b, 0, UPPER_R);
    lemma_num_run(b, 0);
    assert(b.subrange(0, b.len() as int) =~= b);
}

/// An integer literal that fits in 64 bits, alone in a buffer, is read as
/// that integer, and the whole buffer is consumed.
pub proof fn law_integer_literal(b: Seq<u8>)
    requires
        is_int_text(b),
        fits_i64(int_text_value(b)),
    ensures
        value_at(b, 0) == Ok::<(Val, int), (ParseError, int)>((Val::Integer(int_text_value(b)), b.len() as int)),
{
    let u = crate::grammar::unsigned_part(b);
    assert forall|i: int| 0 <= i < b.len() implies is_num_char(#[trigger] b[i]) by {
        if crate::grammar::has_sign(b) {
            if i > 0 {
                assert(u[i - 1] == b[i]);
                assert(crate::grammar::is_digit(u[i - 1]));
            }
        } else {
            assert(crate::grammar::is_digit(u[i]));
        }
    }
    lemma_numeric_buffer(b);
}

/// A decimal literal with a fractional point, alone in a buffer, is read as
/// a real that keeps its text, even when its value is a whole number.
pub proof fn law_decimal_literal(b: Seq<u8>)
    requires
        is_decimal_text(b),
        exists|i: int| 0 <= i < b.len() && b[i] == DOT,
    ensures
        value_at(b, 0) == Ok::<(Val, int), (ParseError, int)>((Val::Real(chars_of(b)), b.len() as int)),
{
    let u = crate::grammar::unsigned_part(b);
    let k = choose|i: int| 0 <= i < b.len() && b[i] == DOT;
    assert forall|i: int| 0 <= i < b.len() implies is_num_char(#[trigger] b[i]) by {
        if crate::grammar::has_sign(b) {
            if i > 0 {
                assert(u[i - 1] == b[i]);
            }
        } else {
            assert(u[i] == b[i]);
        }
    }
    if is_int_text(b) {
        if crate::grammar::has_sign(b) {
            assert(k > 0);
            assert(u[k - 1] == b[k]);
            assert(crate::grammar::is_digit(u[k - 1]));
        } else {
            assert(crate::grammar::is_digit(u[k]));
        }
    }
    lemma_numeric_buffer(b);
}

/// Parsing is a function of the bytes: two parses of the same buffer from
/// the same offset give equal documents, or the same error with the cursor
/// stopped at the same offset.
pub proof fn law_parse_deterministic(
    b: Seq<u8>,
    p: int,
    r1: Result<PDF, ParseError>,
    end1: int,
    r2: Result<PDF, ParseError>,
    end2: int,
)
    requires
        parsed_as(b, p, r1, end1),
        parsed_as(b, p, r2, end2),
    ensures
        r1 is Ok <==> r2 is Ok,
        r1 matches Ok(d1) ==> r2 matches Ok(d2) && d1.version@ == d2.version@ && objects_view(
            d1.objects@,
        ) == objects_view(d2.objects@),
        r1 matches Err(e1) ==> r2 matches Err(e2) && e1 == e2 && end1 == end2,
{
}

proof fn lemma_num_run_to(b: Seq<u8>, p: int, e: int)
    requires
        0 <= p <= e <= b.len(),
        forall|i: int| p <= i < e ==> is_num_char(#[trigger] b[i]),
        e == b.len() || !is_num_char(b[e]),
    ensures
        num_end(b, p) == e,
    decreases e - p,
{
    if p < e {
        lemma_num_run_to(b, p + 1, e);
    }
}

proof fn lemma_digit_run_to(b: Seq<u8>, p: int, e: int)
    requires
        0 <= p <= e <= b.len(),
        forall|i: int| p <= i < e ==> is_digit(#[trigger] b[i]),
        e == b.len() || !is_digit(b[e]),
    ensures
        digit_end(b, p) == e,
    decreases e - p,
{
    if p < e {
        lemma_digit_run_to(b, p + 1, e);
    }
}

proof fn lemma_ws_run_to(b: Seq<u8>, p: int, e: int)
    requires
        0 <= p <= e <= b.len(),
        forall|i: int| p <= i < e ==> is_ws(#[trigger] b[i]),
        e == b.len() || !is_ws(b[e]),
    ensures
        skip_ws(b, p) == e,
    decreases e - p,
{
    if p < e {
        lemma_ws_run_to(b, p + 1, e);
    }
}

proof fn lemma_find_at(b: Seq<u8>, p: int, e: int, c: u8)
    requires
        0 <= p <= e < b.len(),
        forall|i: int| p <= i < e ==> #[trigger] b[i] != c,
        b[e] == c,
    ensures
        find_from(b, p, c) == Some(e),
    decreases e - p,
{
    if p < e {
        lemma_find_at(b, p + 1, e, c);
    }
}

/// The numeric characters of `t` are exactly its signs, digits and points
/// when `t` is a decimal literal.
proof fn lemma_decimal_chars(t: Seq<u8>)
    requires
        is_decimal_text(t),
    ensures
        forall|i: int| 0 <= i < t.len() ==> is_num_char(#[trigger] t[i]),
{
    let u = crate::grammar::unsigned_part(t);
    assert forall|i: int| 0 <= i < t.len() implies is_num_char(#[trigger] t[i]) by {
        if crate::grammar::has_sign(t) {
            if i > 0 {
                assert(u[i - 1] == t[i]);
            }
        } else {
            assert(u[i] == t[i]);
        }
    }
}

/// An integer literal that fits in 64 bits and is not followed by another
/// numeric character is read as that integer, and the cursor stops right
/// after it.
pub proof fn law_integer_token(b: Seq<u8>, o: int, k: int)
    requires
        0 <= o,
        0 <= k,
        o + k <= b.len(),
        is_int_text(b.subrange(o, o + k)),
        fits_i64(int_text_value(b.subrange(o, o + k))),
        o + k == b.len() || !is_num_char(b[o + k]),
    ensures
        number_at(b, o) == Ok::<(Val, int), (ParseError, int)>(
            (Val::Integer(int_text_value(b.subrange(o, o + k))), o + k),
        ),
{
    let t = b.subrange(o, o + k);
    let u = crate::grammar::unsigned_part(t);
    assert(u.len() > 0);
    assert forall|i: int| o <= i < o + k implies is_num_char(#[trigger] b[i]) by {
        assert(t[i - o] == b[i]);
        if crate::grammar::has_sign(t) {
            if i > o {
                assert(u[i - o - 1] == t[i - o]);
                assert(is_digit(u[i - o - 1]));
            }
        } else {
            assert(is_digit(u[i - o]));
        }
    }
    lemma_num_run_to(b, o, o + k);
}

/// A decimal literal with a fractional point, not followed by another
/// numeric character, is read as a real that keeps its text (never as an
/// integer, even when its value is whole), and the cursor stops right
/// after it.
pub proof fn law_decimal_token(b: Seq<u8>, o: int, k: int)
    requires
        0 <= o,
        0 <= k,
        o + k <= b.len(),
        is_decimal_text(b.subrange(o, o + k)),
        exists|i: int| o <= i < o + k && b[i] == DOT,
        o + k == b.len() || !is_num_char(b[o + k]),
    ensures
        number_at(b, o) == Ok::<(Val, int), (ParseError, int)>(
            (Val::Real(chars_of(b.subrange(o, o + k))), o + k),
        ),
{
    let t = b.subrange(o, o + k);
    let u = crate::grammar::unsigned_part(t);
    let d = choose|i: int| o <= i < o + k && b[i] == DOT;
    assert(t[d - o] == DOT);
    lemma_decimal_chars(t);
    assert forall|i: int| o <= i < o + k implies is_num_char(#[trigger] b[i]) by {
        assert(t[i - o] == b[i]);
    }
    lemma_num_run_to(b, o, o + k);
    if is_int_text(t) {
        if crate::grammar::has_sign(t) {
            assert(d - o > 0);
            assert(u[d - o - 1] == t[d - o]);
            assert(is_digit(u[d - o - 1]));
        } else {
            assert(is_digit(u[d - o]));
        }
    }
}

/// `n`, whitespace, `g`, whitespace and then `R`, read where the reference
/// test has succeeded, is the reference `n g R` (never the integer `n`),
/// and the cursor stops right after the `R`.
pub proof fn law_reference(b: Seq<u8>, q: int, e1: int, s2: int, e2: int, e: int)
    requires
        0 <= q < e1 < s2 < e2 <= e < b.len(),
        forall|i: int| q <= i < e1 ==> is_digit(#[trigger] b[i]),
        forall|i: int| e1 <= i < s2 ==> is_ws(#[trigger] b[i]),
        forall|i: int| s2 <= i < e2 ==> is_digit(#[trigger] b[i]),
        forall|i: int| e2 <= i < e ==> is_ws(#[trigger] b[i]),
        b[e] == UPPER_R,
        fits_i64(digits_value(b.subrange(q, e1))),
        fits_i64(digits_value(b.subrange(s2, e2))),
    ensures
        value_at_with(b, q, true) == Ok::<(Val, int), (ParseError, int)>(
            (
                Val::ObjRef(digits_value(b.subrange(q, e1)), digits_value(b.subrange(s2, e2))),
                e + 1,
            ),
        ),
{
    assert(is_digit(b[q]));
    assert(skip_ws(b, q) == q);
    assert forall|i: int| q <= i < e implies #[trigger] b[i] != UPPER_R by {
        if i < e1 {
            assert(is_digit(b[i]));
        } else if i < s2 {
            assert(is_ws(b[i]));
        } else if i < e2 {
            assert(is_digit(b[i]));
        } else {
            assert(is_ws(b[i]));
        }
    }
    lemma_find_at(b, q, e, UPPER_R);
    let t = b.subrange(q, e);
    assert(until_byte(b, q, UPPER_R) == t);
    assert(after_byte(b, q, UPPER_R) == e + 1);
    assert forall|i: int| 0 <= i < e1 - q implies is_digit(#[trigger] t[i]) by {
        assert(t[i] == b[q + i]);
    }
    assert(t[e1 - q] == b[e1]);
    assert(is_ws(b[e1]));
    lemma_digit_run_to(t, 0, e1 - q);
    assert forall|i: int| e1 - q <= i < s2 - q implies is_ws(#[trigger] t[i]) by {
        assert(t[i] == b[q + i]);
    }
    assert(t[s2 - q] == b[s2]);
    assert(is_digit(b[s2]));
    lemma_ws_run_to(t, e1 - q, s2 - q);
    assert forall|i: int| s2 - q <= i < e2 - q implies is_digit(#[trigger] t[i]) by {
        assert(t[i] == b[q + i]);
    }
    if e2 < e {
        assert(t[e2 - q] == b[e2]);
        assert(is_ws(b[e2]));
    }
    lemma_digit_run_to(t, s2 - q, e2 - q);
    assert(t.subrange(0, e1 - q) =~= b.subrange(q, e1));
    assert(t.subrange(s2 - q, e2 - q) =~= b.subrange(s2, e2));
}

/// Opening minus closing parentheses in `t`.
pub open spec fn paren_depth(t: Seq<u8>) -> int
    decreases t.len(),
{
    if t.len() == 0 {
        0
    } else {
        paren_depth(t.drop_last()) + if t.last() == LPAREN {
            1int
        } else if t.last() == RPAREN {
            -1int
        } else {
            0int
        }
    }
}

/// `t` has no backslash and no CR, and its parentheses are balanced.
pub open spec fn plain_balanced(t: Seq<u8>) -> bool {
    &&& forall|j: int| 0 <= j < t.len() ==> #[trigger] t[j] != BACKSLASH && t[j] != CR
    &&& forall|j: int| 0 <= j <= t.len() ==> paren_depth(#[trigger] t.subrange(0, j)) >= 0
    &&& paren_depth(t) == 0
}

proof fn lemma_balanced_from(b: Seq<u8>, o: int, k: int, i: int)
    requires
        0 <= o,
        0 <= i <= k,
        o + k + 2 <= b.len(),
        plain_balanced(b.subrange(o + 1, o + 1 + k)),
        b[o + 1 + k] == RPAREN,
    ensures
        lit_from(
            b,
            o + 1 + i,
            1 + paren_depth(b.subrange(o + 1, o + 1 + i)),
            chars_of(b.subrange(o + 1, o + 1 + i)),
        ) == Ok::<(Seq<char>, int), (ParseError, int)>(
            (chars_of(b.subrange(o + 1, o + 1 + k)), o + k + 2),
        ),
    decreases k - i,
{
    let s = b.subrange(o + 1, o + 1 + k);
    let pre = b.subrange(o + 1, o + 1 + i);
    if i < k {
        let c = b[o + 1 + i];
        let pre1 = b.subrange(o + 1, o + 1 + i + 1);
        assert(s[i] == c);
        assert(c != BACKSLASH && c != CR);
        assert(pre1.drop_last() =~= pre);
        assert(pre1.last() == c);
        assert(s.subrange(0, i + 1) =~= pre1);
        assert(paren_depth(s.subrange(0, i + 1)) >= 0);
        assert(chars_of(pre1) =~= chars_of(pre).push(byte_char(c)));
        assert(byte_char(LPAREN) == '(');
        assert(byte_char(RPAREN) == ')');
        lemma_balanced_from(b, o, k, i + 1);
    } else {
        assert(pre =~= s);
    }
}

/// A literal string whose body has no backslash or CR and balanced
/// parentheses is that body verbatim: the inner parentheses do not end it,
/// and the cursor stops right after the closing one.
pub proof fn law_balanced_literal(b: Seq<u8>, o: int, k: int)
    requires
        0 <= o,
        0 <= k,
        o + k + 2 <= b.len(),
        plain_balanced(b.subrange(o + 1, o + 1 + k)),
        b[o + 1 + k] == RPAREN,
    ensures
        text_result(lit_from(b, o + 1, 1, seq![])) == Ok::<(Val, int), (ParseError, int)>(
            (Val::Str(chars_of(b.subrange(o + 1, o + 1 + k))), o + k + 2),
        ),
{
    lemma_balanced_from(b, o, k, 0);
    assert(b.subrange(o + 1, o + 1) =~= Seq::<u8>::empty());
    assert(chars_of(Seq::<u8>::empty()) =~= seq![]);
}

/// `h` is a hex encoding of `s`: two hex digits per byte.
pub open spec fn hex_encodes(h: Seq<u8>, s: Seq<u8>) -> bool {
    &&& h.len() == 2 * s.len()
    &&& forall|i: int|
        0 <= i < s.len() ==> {
            &&& hex_val(#[trigger] h[2 * i]) is Some
            &&& hex_val(h[2 * i + 1]) is Some
            &&& 16 * hex_val(h[2 * i])->0 + hex_val(h[2 * i + 1])->0 == s[i] as int
        }
}

proof fn lemma_hex_from(b: Seq<u8>, o: int, s: Seq<u8>, i: int)
    requires
        0 <= o,
        0 <= i <= s.len(),
        o + 2 * s.len() + 2 <= b.len(),
        hex_encodes(b.subrange(o + 1, o + 1 + 2 * s.len()), s),
        b[o + 1 + 2 * s.len()] == GT,
    ensures
        hex_from(b, o + 1 + 2 * i, chars_of(s.subrange(0, i))) == Ok::<
            (Seq<char>, int),
            (ParseError, int),
        >((chars_of(s), o + 2 * s.len() + 2)),
    decreases s.len() - i,
{
    let h = b.subrange(o + 1, o + 1 + 2 * s.len());
    if i < s.len() {
        let p = o + 1 + 2 * i;
        assert(h[2 * i] == b[p]);
        assert(h[2 * i + 1] == b[p + 1]);
        assert(hex_val(h[2 * i]) is Some);
        assert(hex_val(h[2 * i + 1]) is Some);
        assert(b[p] != GT);
        assert(b[p + 1] != GT);
        let v = 16 * hex_val(b[p])->0 + hex_val(b[p + 1])->0;
        assert(v == s[i] as int);
        assert((v as u8) == s[i]);
        assert(s.subrange(0, i + 1).drop_last() =~= s.subrange(0, i));
        assert(chars_of(s.subrange(0, i + 1)) =~= chars_of(s.subrange(0, i)).push(byte_char(s[i])));
        lemma_hex_from(b, o, s, i + 1);
    } else {
        assert(s.subrange(0, i) =~= s);
    }
}

/// A hex string decodes to the bytes it encodes, one character each, and
/// the cursor stops right after the `>`.
pub proof fn law_hex_string(b: Seq<u8>, o: int, s: Seq<u8>)
    requires
        0 <= o,
        o + 2 * s.len() + 2 <= b.len(),
        hex_encodes(b.subrange(o + 1, o + 1 + 2 * s.len()), s),
        b[o + 1 + 2 * s.len()] == GT,
    ensures
        text_result(hex_from(b, o + 1, seq![])) == Ok::<(Val, int), (ParseError, int)>(
            (Val::Str(chars_of(s)), o + 2 * s.len() + 2),
        ),
{
    lemma_hex_from(b, o, s, 0);
    assert(chars_of(s.subrange(0, 0)) =~= seq![]);
}

/// The two string syntaxes agree: a literal string `(s)` and a hex string
/// that encodes the same bytes `s` both give the string `s`, when `s` has
/// no parenthesis, backslash or CR.
pub proof fn law_string_syntaxes_agree(b1: Seq<u8>, b2: Seq<u8>, s: Seq<u8>)
    requires
        b1 == seq![LPAREN] + s + seq![RPAREN],
        b2.len() == 2 * s.len() + 2,
        b2[0] == crate::grammar::LT,
        hex_encodes(b2.subrange(1, 1 + 2 * s.len() as int), s),
        b2[1 + 2 * s.len() as int] == GT,
        forall|j: int|
            0 <= j < s.len() ==> #[trigger] s[j] != LPAREN && s[j] != RPAREN && s[j] != BACKSLASH
                && s[j] != CR,
    ensures
        text_result(lit_from(b1, 1, 1, seq![])) == Ok::<(Val, int), (ParseError, int)>(
            (Val::Str(chars_of(s)), b1.len() as int),
        ),
        text_result(hex_from(b2, 1, seq![])) == Ok::<(Val, int), (ParseError, int)>(
            (Val::Str(chars_of(s)), b2.len() as int),
        ),
{
    let k = s.len() as int;
    assert(b1.subrange(1, 1 + k) =~= s);
    assert(b1[1 + k] == RPAREN);
    assert forall|j: int| 0 <= j <= k implies paren_depth(#[trigger] s.subrange(0, j)) == 0 by {
        lemma_depth_plain(s, j);
    }
    assert(s.subrange(0, k) =~= s);
    law_balanced_literal(b1, 0, k);
    law_hex_string(b2, 0, s);
}

proof fn lemma_depth_plain(s: Seq<u8>, j: int)
    requires
        0 <= j <= s.len(),
        forall|i: int| 0 <= i < s.len() ==> #[trigger] s[i] != LPAREN && s[i] != RPAREN,
    ensures
        paren_depth(s.subrange(0, j)) == 0,
    decreases j,
{
    if j > 0 {
        lemma_depth_plain(s, j - 1);
        assert(s.subrange(0, j).drop_last() =~= s.subrange(0, j - 1));
    }
}

/// The entries `e` bound one after another into `d`, each by `upsert`, as a
/// dictionary's body binds them.
pub open spec fn upsert_all(d: Seq<(Seq<char>, Val)>, e: Seq<(Seq<char>, Val)>) -> Seq<
    (Seq<char>, Val),
>
    decreases e.len(),
{
    if e.len() == 0 {
        d
    } else {
        upsert(upsert_all(d, e.drop_last()), e.last().0, e.last().1)
    }
}

pub open spec fn keys_distinct(d: Seq<(Seq<char>, Val)>) -> bool {
    forall|i: int, j: int| 0 <= i < j < d.len() ==> (#[trigger] d[i]).0 != (#[trigger] d[j]).0
}

pub open spec fn has_key(d: Seq<(Seq<char>, Val)>, k: Seq<char>) -> bool {
    exists|i: int| 0 <= i < d.len() && (#[trigger] d[i]).0 == k
}

/// `(k, v)` is the last entry of `e` under the key `k`.
pub open spec fn last_entry(e: Seq<(Seq<char>, Val)>, k: Seq<char>, v: Val) -> bool {
    exists|i: int|
        0 <= i < e.len() && #[trigger] e[i] == (k, v) && forall|j: int|
            i < j < e.len() ==> (#[trigger] e[j]).0 != k
}

proof fn lemma_has_key(d: Seq<(Seq<char>, Val)>, k: Seq<char>)
    ensures
        has_key(d, k) <==> key_index(d, k) is Some,
{
    lemma_key_index(d, k);
    if has_key(d, k) {
        let i = choose|i: int| 0 <= i < d.len() && (#[trigger] d[i]).0 == k;
        assert(d[i].0 == k);
    }
    if key_index(d, k) is Some {
        let i = key_index(d, k)->0;
        assert(d[i].0 == k);
    }
}

/// A dictionary body binds each key once, in the order of the key's first
/// entry, to the value of its last entry: after binding the entries `e`
/// one by one into an empty dictionary, the keys are distinct, they are the
/// keys of `e`, each is bound to its last value in `e`, and they stand in
/// the order in which they first occur in `e`.
pub proof fn law_dictionary_entries(e: Seq<(Seq<char>, Val)>)
    ensures
        keys_distinct(upsert_all(seq![], e)),
        forall|k: Seq<char>| has_key(upsert_all(seq![], e), k) <==> #[trigger] has_key(e, k),
        forall|j: int|
            0 <= j < upsert_all(seq![], e).len() ==> last_entry(
                e,
                (#[trigger] upsert_all(seq![], e)[j]).0,
                upsert_all(seq![], e)[j].1,
            ),
        forall|j1: int, j2: int|
            0 <= j1 < j2 < upsert_all(seq![], e).len() ==> key_index(
                e,
                (#[trigger] upsert_all(seq![], e)[j1]).0,
            )->0 < key_index(e, (#[trigger] upsert_all(seq![], e)[j2]).0)->0,
    decreases e.len(),
{
    let r = upsert_all(seq![], e);
    if e.len() == 0 {
        assert forall|k: Seq<char>| has_key(r, k) <==> #[trigger] has_key(e, k) by {}
    } else {
        let e0 = e.drop_last();
        let r0 = upsert_all(seq![], e0);
        let k = e.last().0;
        let v = e.last().1;
        let n = e0.len() as int;
        law_dictionary_entries(e0);
        lemma_key_index(r0, k);
        lemma_has_key(r0, k);
        lemma_has_key(e0, k);
        assert(forall|i: int| 0 <= i < n ==> e0[i] == #[trigger] e[i]);
        assert(e[n] == (k, v));
        // first occurrences in `e` extend those in `e0`
        assert forall|kk: Seq<char>| has_key(e0, kk) implies #[trigger] key_index(e, kk) == key_index(
            e0,
            kk,
        ) by {
            lemma_has_key(e0, kk);
        }
        assert forall|kk: Seq<char>| has_key(e, kk) <==> (has_key(e0, kk) || kk == k) by {
            if has_key(e, kk) {
                let i = choose|i: int| 0 <= i < e.len() && (#[trigger] e[i]).0 == kk;
                if i < n {
                    assert(e0[i].0 == kk);
                }
            }
            if has_key(e0, kk) {
                let i = choose|i: int| 0 <= i < e0.len() && (#[trigger] e0[i]).0 == kk;
                assert(e[i].0 == kk);
            }
            if kk == k {
                assert(e[n].0 == kk);
            }
        }
        match key_index(r0, k) {
            Some(i) => {
                assert(r == r0.update(i, (k, v)));
                assert forall|kk: Seq<char>| has_key(r, kk) <==> #[trigger] has_key(e, kk) by {
                    if has_key(r, kk) {
                        let j = choose|j: int| 0 <= j < r.len() && (#[trigger] r[j]).0 == kk;
                        assert(r0[j].0 == kk);
                    }
                    if has_key(r0, kk) {
                        let j = choose|j: int| 0 <= j < r0.len() && (#[trigger] r0[j]).0 == kk;
                        assert(r[j].0 == kk);
                    }
                }
                assert forall|j: int| 0 <= j < r.len() implies last_entry(
                    e,
                    (#[trigger] r[j]).0,
                    r[j].1,
                ) by {
                    if j == i {
                        assert(e[n] == r[j]);
                    } else {
                        assert(r[j] == r0[j]);
                        assert(last_entry(e0, r0[j].0, r0[j].1));
                        let w = choose|w: int|
                            0 <= w < e0.len() && #[trigger] e0[w] == (r0[j].0, r0[j].1) && forall|
                                x: int,
                            | w < x < e0.len() ==> (#[trigger] e0[x]).0 != r0[j].0;
                        assert(e[w] == r[j]);
                        assert forall|x: int| w < x < e.len() implies (#[trigger] e[x]).0 != r[j].0 by {
                            if x < n {
                                assert(e0[x] == e[x]);
                            } else {
                                assert(r0[i].0 == k);
                            }
                        }
                    }
                }
                assert forall|j1: int, j2: int| 0 <= j1 < j2 < r.len() implies key_index(
                    e,
                    (#[trigger] r[j1]).0,
                )->0 < key_index(e, (#[trigger] r[j2]).0)->0 by {
                    assert(r[j1].0 == r0[j1].0);
                    assert(r[j2].0 == r0[j2].0);
                    assert(has_key(r0, r0[j1].0));
                    assert(has_key(r0, r0[j2].0));
                }
            },
            None => {
                assert(r == r0.push((k, v)));
                assert(!has_key(e0, k));
                lemma_key_index(e, k);
                assert(key_index(e, k) == Some(n));
                assert forall|kk: Seq<char>| has_key(r, kk) <==> #[trigger] has_key(e, kk) by {
                    if has_key(r, kk) {
                        let j = choose|j: int| 0 <= j < r.len() && (#[trigger] r[j]).0 == kk;
                        if j < r0.len() {
                            assert(r0[j].0 == kk);
                        }
                    }
                    if has_key(r0, kk) {
                        let j = choose|j: int| 0 <= j < r0.len() && (#[trigger] r0[j]).0 == kk;
                        assert(r[j].0 == kk);
                    }
                    if kk == k {
                        assert(r[r0.len() as int].0 == kk);
                    }
                }
                assert forall|j: int| 0 <= j < r.len() implies last_entry(
                    e,
                    (#[trigger] r[j]).0,
                    r[j].1,
                ) by {
                    if j == r0.len() {
                        assert(e[n] == r[j]);
                    } else {
                        assert(r[j] == r0[j]);
                        assert(last_entry(e0, r0[j].0, r0[j].1));
                        let w = choose|w: int|
                            0 <= w < e0.len() && #[trigger] e0[w] == (r0[j].0, r0[j].1) && forall|
                                x: int,
                            | w < x < e0.len() ==> (#[trigger] e0[x]).0 != r0[j].0;
                        assert(e[w] == r[j]);
                        assert forall|x: int| w < x < e.len() implies (#[trigger] e[x]).0 != r[j].0 by {
                            if x < n {
                                assert(e0[x] == e[x]);
                            } else {
                                assert(r0[j].0 != k);
                            }
                        }
                    }
                }
                assert forall|i: int, j: int| 0 <= i < j < r.len() implies (#[trigger] r[i]).0 != (
                #[trigger] r[j]).0 by {
                    if j == r0.len() {
                        assert(r0[i].0 != k);
                    } else {
                        assert(r[i] == r0[i] && r[j] == r0[j]);
                    }
                }
                assert forall|j1: int, j2: int| 0 <= j1 < j2 < r.len() implies key_index(
                    e,
                    (#[trigger] r[j1]).0,
                )->0 < key_index(e, (#[trigger] r[j2]).0)->0 by {
                    assert(r[j1] == r0[j1]);
                    assert(has_key(r0, r0[j1].0));
                    lemma_has_key(e0, r0[j1].0);
                    lemma_key_index(e0, r0[j1].0);
                    if j2 < r0.len() {
                        assert(r[j2] == r0[j2]);
                        assert(has_key(r0, r0[j2].0));
                    }
                }
            },
        }
    }
}

} // verus!
