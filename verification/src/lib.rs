//! Reading and editing player stats (gold, renown) in Bellwright `.sav` files.
//!
//! The container is a UE `SerializeCompressed` archive (magic `VSWB`) whose
//! payload, split into 128 KiB blocks, is a custom protobuf blob.
//!
//! - `save`: the container header, chunk table and decompressed payload.
//! - `locate`: the gold and renown records in the payload.
//! - `tree`: the protobuf containers that enclose a field.
//! - `edit`: planning a varint rewrite and splicing it into the payload.
//! - `rebuild`: re-emitting the container around an edited payload.
//! - `reload`: why a rebuilt file reads back the edited payload.
//! - `stats`: gold and renown edits, checked by reloading the result.
//! - `oodle`: the table of decoded Oodle blocks a save is read with.
//! - `varint`, `bytes`, `text`: the building blocks.

use vstd::prelude::*;

pub mod bytes;
pub mod edit;
pub mod error;
pub mod form;
pub mod locate;
pub mod oodle;
pub mod rebuild;
pub mod reload;
pub mod save;
pub mod stats;
pub mod text;
pub mod tree;
pub mod varint;

pub use error::Error;
pub use locate::{GoldLoc, RenownLoc};
pub use save::SaveFile;
