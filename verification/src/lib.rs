//! A small patient-record store: validated records are encoded to a strict
//! textual form and placed in a hierarchical file layout, either flat
//! (`<root>/<id>.json`) or sharded by identifier prefix
//! (`<root>/<hex[0:2]>/<hex[2:4]>/<hex>/demographics.json`).
//!
//! The library holds the decision-making core: name validation, identifier
//! formatting, path resolution, the record codec, and the store that ties
//! them together over an explicit model of the storage directory. Process
//! bootstrap and real filesystem access live outside the library and hand
//! it plain values.

pub mod codec;
pub mod ident;
pub mod paths;
pub mod record;
pub mod service;
pub mod store;
pub mod text;
