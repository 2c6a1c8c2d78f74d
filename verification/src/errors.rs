use vstd::prelude::*;

verus! {

/// Why a loader could not be built.
///
/// Construction is all-or-nothing: any of these aborts it, and no partially
/// merged configuration is ever published.
#[derive(Debug)]
pub enum ConfigError {
    /// The embedded default registry does not parse: a build-time defect,
    /// never recoverable at run time.
    MalformedBuiltin { cause: String },
    /// A candidate source that was found could not be read.
    SourceRead { path: String, cause: String },
    /// A candidate source that was found and read does not hold a JSON
    /// object of entries.
    SourceParse { path: String, cause: String },
}

} // verus!
