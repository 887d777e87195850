use vstd::prelude::*;
use vstd::slice::slice_subrange;
use vstd::utf8::{decode_utf8, encode_utf8, valid_utf8};
use crate::structure::ParseError;
use crate::trusted::utf8_str;

verus! {

/// ASCII whitespace as the format understands it: space, tab, LF, FF and CR.
pub open spec fn is_ws(c: u8) -> bool {
    c == 9 || c == 10 || c == 12 || c == 13 || c == 32
}

/// The position reached from `p` by stepping over a run of whitespace.
pub open spec fn skip_ws(b: Seq<u8>, p: int) -> int
    decreases b.len() - p,
{
    if 0 <= p < b.len() && is_ws(b[p]) {
        skip_ws(b, p + 1)
    } else {
        p
    }
}

/// The first index at or after `p` that holds `c`, if any.
pub open spec fn find_from(b: Seq<u8>, p: int, c: u8) -> Option<int>
    decreases b.len() - p,
{
    if p < 0 || p >= b.len() {
        None
    } else if b[p] == c {
        Some(p)
    } else {
        find_from(b, p + 1, c)
    }
}

/// The bytes from `p` up to (not including) the first `c`; empty if there is none.
pub open spec fn until_byte(b: Seq<u8>, p: int, c: u8) -> Seq<u8> {
    match find_from(b, p, c) {
        Some(e) => b.subrange(p, e),
        None => Seq::empty(),
    }
}

/// Where a cursor at `p` lands after `read_until(c)`: one past the first `c`,
/// or unchanged when none follows.
pub open spec fn after_byte(b: Seq<u8>, p: int, c: u8) -> int {
    match find_from(b, p, c) {
        Some(e) => e + 1,
        None => p,
    }
}

/// `p + n`, clamped to the end of a buffer of length `len`.
pub open spec fn clamp_add(p: int, n: int, len: int) -> int {
    if p + n < len {
        p + n
    } else {
        len
    }
}

pub proof fn lemma_skip_ws_bounds(b: Seq<u8>, p: int)
    requires
        0 <= p <= b.len(),
    ensures
        p <= skip_ws(b, p) <= b.len(),
        skip_ws(b, p) < b.len() ==> !is_ws(b[skip_ws(b, p)]),
    decreases b.len() - p,
{
    if p < b.len() && is_ws(b[p]) {
        lemma_skip_ws_bounds(b, p + 1);
    }
}

pub proof fn lemma_find_from_bounds(b: Seq<u8>, p: int, c: u8)
    requires
        0 <= p,
    ensures
        find_from(b, p, c) matches Some(e) ==> p <= e < b.len() && b[e] == c,
    decreases b.len() - p,
{
    if p < b.len() && b[p] != c {
        lemma_find_from_bounds(b, p + 1, c);
    }
}

/// Sequential, clamping access to an in-memory byte buffer.
///
/// The offset ranges over `[0, len]`: moves stop at the end of the buffer,
/// one past its last byte, rather than at the last byte itself. So every
/// byte can be read, and a parser sees the end of its input as such (it
/// reports an unterminated value instead of reading the last byte again).
/// `peek_next` and `next` still return the final byte once the end is
/// reached.
pub trait StreamReader {
    /// The whole buffer.
    spec fn buffer(&self) -> Seq<u8>;

    /// The read offset.
    spec fn position(&self) -> int;

    /// The offset lies within `[0, len]`.
    spec fn wf(&self) -> bool;

    /// Moves forward by `amt`, clamped to the end of the buffer (`len`).
    fn advance(&mut self, amt: usize)
        requires
            old(self).wf(),
        ensures
            final(self).wf(),
            final(self).buffer() == old(self).buffer(),
            final(self).position() == clamp_add(
                old(self).position(),
                amt as int,
                old(self).buffer().len() as int,
            ),
    ;

    /// Returns up to `amt` bytes from the offset and moves past them.
    fn read(&mut self, amt: usize) -> (r: &[u8])
        requires
            old(self).wf(),
        ensures
            final(self).wf(),
            final(self).buffer() == old(self).buffer(),
            final(self).position() == clamp_add(
                old(self).position(),
                amt as int,
                old(self).buffer().len() as int,
            ),
            r@ == old(self).buffer().subrange(old(self).position(), final(self).position()),
    ;

    /// True once every byte has been consumed (the offset is `len`).
    fn at_eof(&self) -> (r: bool)
        requires
            self.wf(),
        ensures
            r == (self.position() >= self.buffer().len()),
    ;

    /// Up to `amt` bytes from the offset; the offset does not move.
    fn peek(&self, amt: usize) -> (r: &[u8])
        requires
            self.wf(),
        ensures
            r@ == self.buffer().subrange(
                self.position(),
                clamp_add(self.position(), amt as int, self.buffer().len() as int),
            ),
    ;

    /// The byte at the offset; at the end of the buffer, its final byte.
    fn peek_next(&self) -> (r: u8)
        requires
            self.wf(),
            self.buffer().len() > 0,
        ensures
            r == self.buffer()[if self.position() < self.buffer().len() {
                self.position()
            } else {
                self.buffer().len() - 1
            }],
    ;

    /// As `peek_next`, then moves forward by one.
    fn next(&mut self) -> (r: u8)
        requires
            old(self).wf(),
            old(self).buffer().len() > 0,
        ensures
            final(self).wf(),
            final(self).buffer() == old(self).buffer(),
            final(self).position() == clamp_add(
                old(self).position(),
                1,
                old(self).buffer().len() as int,
            ),
            r == old(self).buffer()[if old(self).position() < old(self).buffer().len() {
                old(self).position()
            } else {
                old(self).buffer().len() - 1
            }],
    ;

    /// Moves over the run of whitespace at the offset.
    fn skip_whitespace(&mut self)
        requires
            old(self).wf(),
        ensures
            final(self).wf(),
            final(self).buffer() == old(self).buffer(),
            final(self).position() == skip_ws(old(self).buffer(), old(self).position()),
    ;

    /// The bytes up to the next `byte`, or none if it does not occur.
    fn peek_until(&self, byte: u8) -> (r: &[u8])
        requires
            self.wf(),
        ensures
            r@ == until_byte(self.buffer(), self.position(), byte),
    ;

    /// As `peek_until`, and moves one past the `byte` found.
    fn read_until(&mut self, byte: u8) -> (r: &[u8])
        requires
            old(self).wf(),
        ensures
            final(self).wf(),
            final(self).buffer() == old(self).buffer(),
            r@ == until_byte(old(self).buffer(), old(self).position(), byte),
            final(self).position() == after_byte(
                old(self).buffer(),
                old(self).position(),
                byte,
            ),
    ;
}

/// A cursor over an owned byte buffer.
#[derive(Debug, Clone)]
pub struct PDFReader {
    pub bytes: Vec<u8>,
    pub offset: usize,
}

impl PDFReader {
    /// A cursor at the start of `bytes`.
    pub fn new(bytes: Vec<u8>) -> (r: PDFReader)
        ensures
            r.bytes@ == bytes@,
            r.offset == 0,
            r.wf(),
    {
        PDFReader { bytes, offset: 0 }
    }

    /// A cursor at the start of the bytes of `s`.
    pub fn from_string(s: String) -> (r: PDFReader)
        ensures
            r.bytes@ == encode_utf8(s@),
            r.offset == 0,
            r.wf(),
    {
        PDFReader::new(vstd::slice::slice_to_vec(s.as_str().as_bytes()))
    }

    /// Index of the first `byte` at or after the offset.
    fn find(&self, byte: u8) -> (r: Option<usize>)
        requires
            self.wf(),
        ensures
            r matches Some(e) ==> find_from(self.bytes@, self.offset as int, byte) == Some(e as int),
            r is None ==> find_from(self.bytes@, self.offset as int, byte) is None,
    {
        let mut i: usize = self.offset;
        while i < self.bytes.len()
            invariant
                self.offset <= i <= self.bytes.len(),
                find_from(self.bytes@, self.offset as int, byte) == find_from(
                    self.bytes@,
                    i as int,
                    byte,
                ),
            decreases self.bytes.len() - i,
        {
            if self.bytes[i] == byte {
                return Some(i);
            }
            i = i + 1;
        }
        None
    }
}

impl StreamReader for PDFReader {
    open spec fn buffer(&self) -> Seq<u8> {
        self.bytes@
    }

    open spec fn position(&self) -> int {
        self.offset as int
    }

    open spec fn wf(&self) -> bool {
        self.offset <= self.bytes.len()
    }

    fn advance(&mut self, amt: usize) {
        let room = self.bytes.len() - self.offset;
        if amt < room {
            self.offset = self.offset + amt;
        } else {
            self.offset = self.bytes.len();
        }
    }

    fn read(&mut self, amt: usize) -> (r: &[u8]) {
        let start = self.offset;
        self.advance(amt);
        slice_subrange(self.bytes.as_slice(), start, self.offset)
    }

    fn at_eof(&self) -> (r: bool) {
        self.offset >= self.bytes.len()
    }

    fn peek(&self, amt: usize) -> (r: &[u8]) {
        let room = self.bytes.len() - self.offset;
        let end = if amt < room {
            self.offset + amt
        } else {
            self.bytes.len()
        };
        slice_subrange(self.bytes.as_slice(), self.offset, end)
    }

    fn peek_next(&self) -> (r: u8) {
        if self.offset < self.bytes.len() {
            self.bytes[self.offset]
        } else {
            self.bytes[self.bytes.len() - 1]
        }
    }

    fn next(&mut self) -> (r: u8) {
        let b = self.peek_next();
        self.advance(1);
        b
    }

    fn skip_whitespace(&mut self) {
        while self.offset < self.bytes.len() && is_ws_byte(self.bytes[self.offset])
            invariant
                self.wf(),
                self.bytes@ == old(self).bytes@,
                skip_ws(self.bytes@, self.offset as int) == skip_ws(
                    old(self).bytes@,
                    old(self).offset as int,
                ),
            decreases self.bytes.len() - self.offset,
        {
            self.offset = self.offset + 1;
        }
    }

    fn peek_until(&self, byte: u8) -> (r: &[u8]) {
        proof {
            lemma_find_from_bounds(self.bytes@, self.offset as int, byte);
        }
        match self.find(byte) {
            Some(e) => slice_subrange(self.bytes.as_slice(), self.offset, e),
            None => slice_subrange(self.bytes.as_slice(), self.offset, self.offset),
        }
    }

    fn read_until(&mut self, byte: u8) -> (r: &[u8]) {
        proof {
            lemma_find_from_bounds(self.bytes@, self.offset as int, byte);
        }
        let start = self.offset;
        match self.find(byte) {
            Some(e) => {
                self.offset = e + 1;
                slice_subrange(self.bytes.as_slice(), start, e)
            },
            None => slice_subrange(self.bytes.as_slice(), start, start),
        }
    }
}

/// Whether `c` is whitespace in the sense of `is_ws`.
pub fn is_ws_byte(c: u8) -> (r: bool)
    ensures
        r == is_ws(c),
{
    c == 9 || c == 10 || c == 12 || c == 13 || c == 32
}

} // verus!

verus! {

/// Views `bytes` as text when they are valid UTF-8.
pub fn u8s_to_string(bytes: &[u8]) -> (r: Result<&str, ParseError>)
    ensures
        r is Ok <==> valid_utf8(bytes@),
        r matches Ok(s) ==> s@ == decode_utf8(bytes@),
        r matches Err(e) ==> e == ParseError::InvalidText,
{
    match utf8_str(bytes) {
        Some(s) => Ok(s),
        None => Err(ParseError::InvalidText),
    }
}

} // verus!
