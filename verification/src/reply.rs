//! What a reply means, operation by operation.
//!
//! A reply carries values and nothing else: an empty list is how the server
//! says that an operation which owes a value did not succeed.

use crate::decimal::{parse_i64, parsed};
use crate::error::CallError;
use crate::message::{texts, Message};
use vstd::prelude::*;

verus! {

/// The first of `values`; `EmptyResult` when there is none.
pub open spec fn first_value(values: Seq<Seq<char>>) -> Result<Seq<char>, CallError> {
    if values.len() == 0 {
        Err(CallError::EmptyResult)
    } else {
        Ok(values[0])
    }
}

/// Success when `values` holds anything; `EmptyResult` when it holds nothing.
pub open spec fn acknowledged(values: Seq<Seq<char>>) -> Result<(), CallError> {
    if values.len() == 0 {
        Err(CallError::EmptyResult)
    } else {
        Ok(())
    }
}

/// The first of `values` read as a decimal number; `EmptyResult` when there
/// is none, `ParseError` when it is not a 64-bit decimal number.
pub open spec fn first_number(values: Seq<Seq<char>>) -> Result<i64, CallError> {
    if values.len() == 0 {
        Err(CallError::EmptyResult)
    } else {
        match parsed(values[0]) {
            Some(n) => Ok(n),
            None => Err(CallError::ParseError),
        }
    }
}

/// A text, or the failure to get one, as mathematical values.
pub open spec fn text_view(r: Result<String, CallError>) -> Result<Seq<char>, CallError> {
    match r {
        Ok(s) => Ok(s@),
        Err(e) => Err(e),
    }
}

/// The value that an `hget` found: the first value of its reply. An empty
/// reply means that the field is not there.
pub fn hget(rsp: &Message) -> (r: Result<String, CallError>)
    ensures
        text_view(r) == first_value(rsp@.values),
{
    if rsp.values.len() == 0 {
        return Err(CallError::EmptyResult);
    }
    Ok(rsp.values[0].clone())
}

/// What an `hgetall` found: all values of its reply, as they came.
pub fn hgetall(rsp: Message) -> (values: Vec<String>)
    ensures
        values == rsp.values,
        texts(values@) == rsp@.values,
{
    rsp.values
}

/// Whether an `hset` was done: its reply holds a value exactly when it was.
pub fn hset(rsp: &Message) -> (r: Result<(), CallError>)
    ensures
        r == acknowledged(rsp@.values),
{
    if rsp.values.len() == 0 {
        return Err(CallError::EmptyResult);
    }
    Ok(())
}

/// The keys that a `key_prefix` found: all values of its reply.
pub fn key_prefix(rsp: Message) -> (keys: Vec<String>)
    ensures
        keys == rsp.values,
        texts(keys@) == rsp@.values,
{
    rsp.values
}

/// Whether a `del` was done: its reply holds a value exactly when it was.
pub fn del(rsp: &Message) -> (r: Result<(), CallError>)
    ensures
        r == acknowledged(rsp@.values),
{
    if rsp.values.len() == 0 {
        return Err(CallError::EmptyResult);
    }
    Ok(())
}

/// The number that an `hincrby` left in the field: the first value of its
/// reply, read as decimal text.
pub fn hincrby(rsp: &Message) -> (r: Result<i64, CallError>)
    ensures
        r == first_number(rsp@.values),
{
    if rsp.values.len() == 0 {
        return Err(CallError::EmptyResult);
    }
    match parse_i64(rsp.values[0].as_str()) {
        Some(n) => Ok(n),
        None => Err(CallError::ParseError),
    }
}

} // verus!
