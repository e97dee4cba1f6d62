//! Errors of durable operations.

use vstd::prelude::*;
use vstd::string::*;

verus! {

/// Errors returned by durable operations.
#[derive(Debug)]
pub enum Error {
    /// The key-value store failed.
    RocksDb(String),
    Serialize(String),
    Deserialize(String),
    Corruption(String),
    Query(String),
    Log(String),
    Reducer(String),
    /// A fact about floats is to be learned first.
    Need(crate::value::Ask),
}

pub enum ErrorV {
    RocksDb(Seq<char>),
    Serialize(Seq<char>),
    Deserialize(Seq<char>),
    Corruption(Seq<char>),
    Query(Seq<char>),
    Log(Seq<char>),
    Reducer(Seq<char>),
    Need(crate::value::AskV),
}

impl View for Error {
    type V = ErrorV;

    open spec fn view(&self) -> ErrorV {
        match *self {
            Error::RocksDb(m) => ErrorV::RocksDb(m@),
            Error::Serialize(m) => ErrorV::Serialize(m@),
            Error::Deserialize(m) => ErrorV::Deserialize(m@),
            Error::Corruption(m) => ErrorV::Corruption(m@),
            Error::Query(m) => ErrorV::Query(m@),
            Error::Log(m) => ErrorV::Log(m@),
            Error::Reducer(m) => ErrorV::Reducer(m@),
            Error::Need(q) => ErrorV::Need(q@),
        }
    }
}

/// The message of an error.
pub open spec fn message_of(e: ErrorV) -> Seq<char> {
    match e {
        ErrorV::RocksDb(m) => "rocksdb error: "@ + m,
        ErrorV::Serialize(m) => "serialization error: "@ + m,
        ErrorV::Deserialize(m) => "deserialization error: "@ + m,
        ErrorV::Corruption(m) => "data corruption: "@ + m,
        ErrorV::Query(m) => "query error: "@ + m,
        ErrorV::Log(m) => "event log error: "@ + m,
        ErrorV::Reducer(m) => "reducer error: "@ + m,
        ErrorV::Need(_) => "a float is not settled"@,
    }
}

fn told(kind: &str, m: &str) -> (r: String)
    ensures
        r@ == kind@ + m@,
{
    let mut r: String = kind.to_owned();
    r.append(m);
    r
}

impl Error {
    /// The message of the error.
    pub fn message(&self) -> (r: String)
        ensures
            r@ == message_of(self@),
    {
        match self {
            Error::RocksDb(m) => told("rocksdb error: ", m.as_str()),
            Error::Serialize(m) => told("serialization error: ", m.as_str()),
            Error::Deserialize(m) => told("deserialization error: ", m.as_str()),
            Error::Corruption(m) => told("data corruption: ", m.as_str()),
            Error::Query(m) => told("query error: ", m.as_str()),
            Error::Log(m) => told("event log error: ", m.as_str()),
            Error::Reducer(m) => told("reducer error: ", m.as_str()),
            Error::Need(_) => "a float is not settled".to_owned(),
        }
    }
}

pub fn query_error<T>(m: &str) -> (r: Result<T, Error>)
    ensures
        r is Err,
        r->Err_0@ == ErrorV::Query(m@),
{
    Err(Error::Query(m.to_owned()))
}

pub fn corruption<T>(m: &str) -> (r: Result<T, Error>)
    ensures
        r is Err,
        r->Err_0@ == ErrorV::Corruption(m@),
{
    Err(Error::Corruption(m.to_owned()))
}

} // verus!
