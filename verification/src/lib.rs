//! A reader for MDX dictionary files.
//!
//! An MDX file packs headwords and their articles into three sections: a
//! metadata header, a key index and a record index. This crate decodes such
//! a file from a byte slice into an [`Mdx`] value and states, for every
//! function, what it returns as a function of the bytes.
//!
//! Decompression, hashing, XML and text decoding are left to other crates
//! and to the standard library. What they return is given a name in the
//! contracts, and everything around them is proved.

pub mod bytes;
pub mod codec;
pub mod decimal;
pub mod error;
pub mod key_index;
pub mod keys;
pub mod layout;
pub mod mdx;
pub mod meta;
pub mod obfuscate;
pub mod record_index;
pub mod record_layout;
pub mod text;
pub mod well_formed;

pub use crate::bytes::cond_if;
pub use crate::error::Error;
pub use crate::mdx::parse;
pub use crate::mdx::parse_with_limit;
pub use crate::mdx::Mdx;
pub use crate::mdx::DEFAULT_CEILING;
pub use crate::meta::DictMeta;
