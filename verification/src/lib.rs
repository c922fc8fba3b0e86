//! A small DNS toolkit: a fixed-size packet buffer, the wire encoding of the
//! header, questions and resource records, and the decisions of a recursive
//! resolver, each with a machine-checked contract.

pub mod dns;
