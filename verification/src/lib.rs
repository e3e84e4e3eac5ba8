//! Conversion of Remmina per-file connection profiles into a Tabby
//! configuration document: parsing the line-oriented source format,
//! filtering by connection protocol, and merging the resulting records
//! into the target document without duplicating existing entries.

pub mod protocols;
pub mod remmina;
pub mod tabby;
pub mod text;
pub mod yaml;
