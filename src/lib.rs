//! Discovery and validation of versioned migration files.
//!
//! A migration file is named `V<version>__<description>.<ext>`. The locator takes
//! the names found directly under a migrations directory, keeps those whose
//! extension belongs to the requested kind, checks each against the naming
//! grammar, rejects duplicated versions and orders the result by version.
mod laws;
mod locate;
mod name;

pub use laws::{
    invalid_name_fails, invalid_root_only_without_directory, lemma_candidates_idempotent,
    other_extensions_ignored, shared_version_fails, valid_listing_is_ordered,
};
pub use locate::{
    candidates, clash, describes, file_stem, first_duplicate, first_invalid, has_extension,
    has_image, has_source, listing_view, locate, located, matches_extension, name_version,
    ordered_files, parsed_from, well_named, DiscoveryError, MigrationFile, MigrationType,
};
pub use name::{
    digits_value, is_digit, is_word_char, parse_stem, stem_description, stem_split,
    stem_version, valid_stem, valid_stem_at,
};
