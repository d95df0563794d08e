//! Storage engine for DTF tick-data files: the binary codec, the chunk index
//! with time-range access, candle aggregation, integrity analysis, repair,
//! and splitting and merging of files; beside it, the settings of the
//! storage upload. Every function carries a contract that Verus proves. The
//! proofs rest on three small wrappers whose contracts are taken on trust:
//! two around `byteorder` in [`wire`] and one around `String::from_utf8` in
//! [`codec`].

pub mod error;
pub mod record;
pub mod wire;
pub mod layout;
pub mod roundtrip;
pub mod codec;
pub mod integrity;
pub mod repair;
pub mod reshape;
pub mod aggregator;
pub mod range;
pub mod reader;
pub mod gstorage;
