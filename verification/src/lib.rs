//! A locale catalog: parsing a semicolon-delimited text database into
//! locale records, ordering the records with a fixed priority rule, and
//! filtering them case-insensitively for an interactive picker.

pub mod engine;
pub mod parser;
pub mod text;

use vstd::prelude::*;

verus! {

/// One catalog entry: `(display_name, locale_code, english_name)`.
///
/// `display_name` is the name in the locale's own language and is what a
/// picker shows; `locale_code` is the machine identifier that gets
/// persisted; `english_name` is the name in English.
pub type LocaleRecord = (String, String, String);

/// The mathematical view of a [`LocaleRecord`]: its three fields as
/// character sequences, in the same order.
pub type RecView = (Seq<char>, Seq<char>, Seq<char>);

/// Errors that can arise while loading the locale catalog.
#[derive(Clone, Copy, Debug, PartialEq, Eq, Structural)]
pub enum CatalogError {
    /// A data line had fewer than the required number of `;`-separated
    /// fields; the whole catalog is rejected.
    MalformedCatalog,
    /// A name on the fixed priority list matched no record's English name.
    /// Loading fails rather than silently skipping the name.
    MissingPriorityEntry,
}

} // verus!
