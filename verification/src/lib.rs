//! Core engine for a personal notes vault: wikilink extraction, resolution
//! of link targets against the vault's file set, forward and backward link
//! indices, broken-link reporting, and an in-memory note store.

use vstd::prelude::*;

pub mod error;
pub mod index;
pub mod links;
pub mod parser;
pub mod paths;
pub mod text;
pub mod vault;

pub use error::ArkeError;
pub use links::{BacklinksMap, LinksMap, WikiLink};
pub use parser::MarkdownParser;
pub use vault::{Vault, VaultConfig};

verus! {

/// Library version.
pub const VERSION: &'static str = "0.1.0";

} // verus!
