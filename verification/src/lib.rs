//! Durable path codecs, queries and the hop runtime.

use vstd::prelude::*;

pub mod ast;
pub mod auth;
pub mod browser;
pub mod bytes;
pub mod cluster;
pub mod codec;
pub mod collections;
pub mod compiler;
pub mod copying;
pub mod crossing;
pub mod data;
pub mod db;
pub mod dynpath;
pub mod effects;
pub mod error;
pub mod evaluating;
pub mod explain;
pub mod float;
pub mod flow;
pub mod focus;
pub mod gathering;
pub mod grammar;
pub mod hub;
pub mod hui;
pub mod interp;
pub mod ir;
pub mod json;
pub mod keys;
pub mod learning;
pub mod lexer;
pub mod listing;
pub mod liveness;
pub mod llm;
pub mod lowering;
pub mod machine;
pub mod markdown;
pub mod modules;
pub mod names;
pub mod nav;
pub mod op;
pub mod ordered;
pub mod parser;
pub mod path;
pub mod plan;
pub mod project;
pub mod putting;
pub mod query;
pub mod ranking;
pub mod reading;
pub mod relations;
pub mod rendering;
pub mod rt;
pub mod running;
pub mod runtime;
pub mod schema;
pub mod score;
pub mod serve;
pub mod shape;
pub mod sim;
pub mod sorting;
pub mod soundness;
pub mod spelling;
pub mod standing;
pub mod store;
pub mod terminal;
pub mod text;
pub mod value;
pub mod whole;
pub mod wire;
pub mod writing;

verus! {

}
