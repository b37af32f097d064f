//! A reader for MDict dictionary files: `.mdx` text dictionaries and `.mdd`
//! resource archives.
//!
//! The reader works on the bytes of a file held in memory. It parses the
//! header, builds the key index and the record index, and answers lookups by
//! decoding exactly the key block and the record block that a query needs.

pub mod error;
pub mod wire;
pub mod checksum;
pub mod codec;
pub mod text;
pub mod header;
pub mod index;
pub mod keys;
pub mod records;
pub mod cache;
pub mod store;
pub mod mdict;
pub mod config;
pub mod hotkey;

pub use config::AppConfig;
pub use mdict::{DictionaryEntry, MddResource, MdxDictionary};
