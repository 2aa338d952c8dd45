//! The wire value type of the protocol and its mathematical model.
//!
//! [`RespValue`] is the executable value: what the parser produces and the
//! serializer consumes.  [`RespData`] is its ghost counterpart, built from
//! `Seq` instead of `Vec`, and is what every contract of the codec speaks
//! of; `v@` maps one to the other.

use vstd::prelude::*;

use crate::error::{Error, ErrorData};

verus! {

/// Ghost model of a wire value: the same five variants as [`RespValue`],
/// over mathematical sequences.
pub enum RespData {
    /// Short trusted status text, never containing CR or LF.
    SimpleString(Seq<u8>),
    /// Error message text.
    Error(Seq<u8>),
    /// A signed 64-bit integer.
    Integer(i64),
    /// A length-prefixed binary-safe byte string; `None` is the protocol's
    /// null bulk string, distinct from `Some` of an empty one.
    BulkString(Option<Seq<u8>>),
    /// An ordered sequence of values, possibly empty, possibly nested.
    Array(Seq<RespData>),
}

/// One decoded unit of the request/response protocol.
#[derive(Debug, PartialEq, Eq)]
pub enum RespValue {
    /// Short trusted status text, never containing CR or LF.
    SimpleString(Vec<u8>),
    /// Error message text.
    Error(Vec<u8>),
    /// A signed 64-bit integer.
    Integer(i64),
    /// A length-prefixed binary-safe byte string; `None` is the protocol's
    /// null bulk string, distinct from `Some` of an empty one.
    BulkString(Option<Vec<u8>>),
    /// An ordered sequence of values, possibly empty, possibly nested.
    Array(Vec<RespValue>),
}

impl View for RespValue {
    type V = RespData;

    open spec fn view(&self) -> RespData {
        view_of(*self)
    }
}

/// The model of a value: each `Vec` replaced by the `Seq` of its contents.
pub open spec fn view_of(v: RespValue) -> RespData
    decreases v,
{
    match v {
        RespValue::SimpleString(s) => RespData::SimpleString(s@),
        RespValue::Error(s) => RespData::Error(s@),
        RespValue::Integer(i) => RespData::Integer(i),
        RespValue::BulkString(s) => match s {
            Some(b) => RespData::BulkString(Some(b@)),
            None => RespData::BulkString(None),
        },
        RespValue::Array(elems) => RespData::Array(seq_views(elems@)),
    }
}

/// The models of a sequence of values, element by element.
pub open spec fn seq_views(elems: Seq<RespValue>) -> Seq<RespData>
    decreases elems,
{
    Seq::new(
        elems.len(),
        |i: int|
            if 0 <= i < elems.len() {
                view_of(elems[i])
            } else {
                RespData::Integer(0)
            },
    )
}

/// The model of an array value is the array of its elements' models.
pub proof fn lemma_array_view(v: RespValue)
    requires
        v matches RespValue::Array(_),
    ensures
        v@ == RespData::Array(seq_views(v->Array_0@)),
{
}

/// Nesting depth of a value: scalars have depth zero, an array is one
/// deeper than its deepest element.
pub open spec fn depth_of(d: RespData) -> nat
    decreases d,
{
    match d {
        RespData::Array(elems) => 1 + depth_of_seq(elems),
        _ => 0,
    }
}

/// Depth of the deepest element of a sequence of values; zero for an empty
/// sequence.
pub open spec fn depth_of_seq(elems: Seq<RespData>) -> nat
    decreases elems,
{
    if elems.len() == 0 {
        0
    } else {
        let head = depth_of(elems[0]);
        let rest = depth_of_seq(elems.drop_first());
        if head >= rest {
            head
        } else {
            rest
        }
    }
}

/// The text of an argument: simple strings and non-null bulk strings
/// carry bytes usable as text; nothing else does.
pub open spec fn spec_arg_bytes(d: RespData) -> Option<Seq<u8>> {
    match d {
        RespData::SimpleString(s) => Some(s),
        RespData::BulkString(s) => match s {
            Some(b) => Some(b),
            None => None,
        },
        _ => None,
    }
}

/// The integer an argument denotes: an integer value directly, or string
/// text read as signed decimal.
pub open spec fn spec_arg_i64(d: RespData) -> Result<i64, ErrorData> {
    match d {
        RespData::Integer(i) => Ok(i),
        RespData::SimpleString(s) => match crate::decimal::spec_parse_i64(s) {
            Some(v) => Ok(v),
            None => Err(ErrorData::InvalidInteger),
        },
        RespData::BulkString(s) => match s {
            Some(b) => match crate::decimal::spec_parse_i64(b) {
                Some(v) => Ok(v),
                None => Err(ErrorData::InvalidInteger),
            },
            None => Err(ErrorData::WrongType),
        },
        _ => Err(ErrorData::WrongType),
    }
}

impl RespValue {
    /// The byte text of this value, for simple strings and non-null bulk
    /// strings; anything else is the wrong kind of value.  Bytes are kept
    /// opaque end to end; nothing here assumes they are valid text.
    pub fn as_str(&self) -> (r: Result<&Vec<u8>, Error>)
        ensures
            match r {
                Ok(b) => spec_arg_bytes(self@) == Some(b@),
                Err(e) => spec_arg_bytes(self@) is None && e == Error::WrongType,
            },
    {
        match self {
            RespValue::SimpleString(s) => Ok(s),
            RespValue::BulkString(s) => match s {
                Some(b) => Ok(b),
                None => Err(Error::WrongType),
            },
            _ => Err(Error::WrongType),
        }
    }

    /// The integer this value denotes: an integer reply directly, or
    /// string text read as signed decimal.
    pub fn as_i64(&self) -> (r: Result<i64, Error>)
        ensures
            match r {
                Ok(v) => spec_arg_i64(self@) == Ok::<i64, ErrorData>(v),
                Err(e) => spec_arg_i64(self@) == Err::<i64, ErrorData>(e@),
            },
    {
        match self {
            RespValue::Integer(i) => Ok(*i),
            RespValue::SimpleString(s) => match crate::decimal::parse_i64_bytes(s.as_slice()) {
                Some(v) => Ok(v),
                None => Err(Error::InvalidInteger),
            },
            RespValue::BulkString(s) => match s {
                Some(b) => match crate::decimal::parse_i64_bytes(b.as_slice()) {
                    Some(v) => Ok(v),
                    None => Err(Error::InvalidInteger),
                },
                None => Err(Error::WrongType),
            },
            _ => Err(Error::WrongType),
        }
    }
}

} // verus!
