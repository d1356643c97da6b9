//! The settings schema of the Haskell language server, made fit for the Zed
//! editor.
//!
//! The language server describes its settings in one flat JSON object, keyed
//! by dotted names. The editor wants them nested, one container per segment,
//! and each descriptor rewritten a little on the way. [`tree`] does the
//! nesting, [`leaf`] the rewriting, and [`paths`] shows that the tree holds
//! the settings it was given and no others. [`schema_text`] takes the
//! schema from and to JSON text. [`json`] says what is assumed of
//! `serde_json`, whose values the library works on.
//!
//! Beside the schema, the library makes the two other decisions of the
//! editor extension: which command starts the language server ([`command`]),
//! and how a symbol is shown in the outline ([`label`]).

pub mod command;
pub mod json;
pub mod key;
pub mod label;
pub mod leaf;
pub mod paths;
pub mod schema_text;
pub mod text;
pub mod tree;
