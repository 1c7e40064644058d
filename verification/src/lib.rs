//! Decoder for MRT TABLE_DUMP_V2 routing-table dumps and a longest-prefix-match
//! index over the decoded prefixes.
//!
//! The wire decoders are functions on byte slices whose results are pinned by
//! specification functions over `Seq<u8>`; the index is a binary trie whose
//! contents are described by a map from a route's address and length to the
//! entries stored under it. Filters, the load pipeline, the readers and
//! writers of text and the command line are specified in the same way.
//!
//! Three things are taken on trust, each behind one small function: the
//! big-endian decoding of `byteorder` (`reader`), the UTF-8 check of
//! `String::from_utf8` (`peer`) and the date format of `time` (`mrt`).
pub mod error;
pub mod reader;
pub mod text;
pub mod ipaddrmask;
pub mod literal;
pub mod prefix;
pub mod community;
pub mod aspath;
pub mod attribute;
pub mod peer;
pub mod rib;
pub mod mrt;
pub mod trie;
pub mod routing_table;
pub mod filter;
pub mod getopt;
pub mod util;
pub mod output;
pub mod loader;
