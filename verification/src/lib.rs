//! QZT: a cold evidence container for text.
//!
//! Original UTF-8 bytes are split into independently compressed chunks, bound
//! together by a fixed header, a CBOR metadata block, an index root, a fixed
//! chunk table and a checksummed footer. Every structural codec and every
//! range computation here is stated with a contract and proved by Verus.

#![allow(unused_imports)]

pub mod error;
pub mod format;
pub mod primitives;
pub mod bytes_util;
pub mod fixed;
pub mod chunk_table;
pub mod cbor;
pub mod cli_json;
pub mod chunker;
pub mod varint;
pub mod dense_line_index;
pub mod limits;
pub mod hashing;
pub mod schema;
pub mod corpus;
pub mod io;
pub mod skeleton;
pub mod codec;
pub mod reader;
pub mod writer;
pub mod search;
pub mod sidecar;
pub mod benchmark;

use vstd::prelude::*;

verus! {

/// Returns the implementation version advertised by this crate.
pub fn version() -> (r: &'static str)
    ensures
        r@ == "0.1.0"@,
{
    "0.1.0"
}

} // verus!
