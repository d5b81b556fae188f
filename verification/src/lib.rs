//! Client-side core of the Trino/Presto HTTP statement protocol:
//! deterministic encoding of protocol request headers, and the state
//! machine that drives one statement from submission to completion.

pub mod headers;
pub mod protocol;
pub mod text;
