use vstd::prelude::*;

verus! {

broadcast use {
    vstd::seq::axiom_seq_index_decreases,
    vstd::seq::axiom_seq_subrange_decreases,
    vstd::std_specs::vec::axiom_vec_decreases_to_view,
};

/// A parsed value. Names and strings hold one `char` per source byte
/// (`\u{0}`..=`\u{ff}`); a real holds its decimal literal as written.
#[derive(Debug, PartialEq)]
pub enum AnyPDFData {
    Boolean(bool),
    Integer(i64),
    Real(String),
    Name(String),
    String(String),
    Array(Vec<AnyPDFData>),
    Dictionary(Vec<(String, AnyPDFData)>),
    Stream(Vec<(String, AnyPDFData)>, Vec<u8>),
    ObjRef(i64, i64),
}

/// An indirect object: its identity and its value.
#[derive(Debug, PartialEq)]
pub struct Object {
    pub number: i64,
    pub gen: i64,
    pub data: AnyPDFData,
}

/// A document: the header line and the objects in the order found.
#[derive(Debug, PartialEq)]
pub struct PDF {
    pub version: String,
    pub objects: Vec<Object>,
}

/// The mathematical form of a value.
pub enum Val {
    Boolean(bool),
    Integer(int),
    Real(Seq<char>),
    Name(Seq<char>),
    Str(Seq<char>),
    Array(Seq<Val>),
    Dictionary(Seq<(Seq<char>, Val)>),
    Stream(Seq<(Seq<char>, Val)>, Seq<u8>),
    ObjRef(int, int),
}

pub open spec fn value_view(v: AnyPDFData) -> Val
    decreases v,
{
    match v {
        AnyPDFData::Boolean(b) => Val::Boolean(b),
        AnyPDFData::Integer(i) => Val::Integer(i as int),
        AnyPDFData::Real(s) => Val::Real(s@),
        AnyPDFData::Name(s) => Val::Name(s@),
        AnyPDFData::String(s) => Val::Str(s@),
        AnyPDFData::Array(a) => Val::Array(values_view(a@)),
        AnyPDFData::Dictionary(d) => Val::Dictionary(pairs_view(d@)),
        AnyPDFData::Stream(d, s) => Val::Stream(pairs_view(d@), s@),
        AnyPDFData::ObjRef(n, g) => Val::ObjRef(n as int, g as int),
    }
}

pub open spec fn values_view(s: Seq<AnyPDFData>) -> Seq<Val>
    decreases s,
{
    if s.len() == 0 {
        Seq::empty()
    } else {
        values_view(s.subrange(0, s.len() - 1)).push(value_view(s[s.len() - 1]))
    }
}

pub open spec fn pairs_view(s: Seq<(String, AnyPDFData)>) -> Seq<(Seq<char>, Val)>
    decreases s,
{
    if s.len() == 0 {
        Seq::empty()
    } else {
        pairs_view(s.subrange(0, s.len() - 1)).push((s[s.len() - 1].0@, value_view(s[s.len() - 1].1)))
    }
}

/// Each object as its number, generation and value.
pub open spec fn objects_view(s: Seq<Object>) -> Seq<(int, int, Val)> {
    s.map_values(|o: Object| (o.number as int, o.gen as int, o.data@))
}

impl View for AnyPDFData {
    type V = Val;

    open spec fn view(&self) -> Val {
        value_view(*self)
    }
}

} // verus!

verus! {

/// Why a value could not be parsed.
#[derive(Debug, Clone, Copy, PartialEq, Eq, Structural)]
pub enum ParseError {
    /// A numeric token is neither an integer nor a decimal literal.
    InvalidNumber,
    /// Text that is not valid UTF-8, or a malformed hex escape.
    InvalidText,
    /// A stream whose dictionary lacks a non-negative integer `Length`.
    BadStreamLength,
    /// The buffer ends inside a value.
    Unterminated,
    /// No value starts with the byte found.
    UnexpectedByte,
    /// A dictionary key is not a name.
    KeyNotName,
}

pub proof fn lemma_pairs_view(s: Seq<(String, AnyPDFData)>)
    ensures
        pairs_view(s).len() == s.len(),
        forall|i: int| 0 <= i < s.len() ==> #[trigger] pairs_view(s)[i] == (s[i].0@, s[i].1@),
    decreases s.len(),
{
    if s.len() > 0 {
        lemma_pairs_view(s.subrange(0, s.len() - 1));
    }
}

} // verus!
