//! Checks that a binary's undefined dynamic symbols do not require symbol
//! versions newer than caller-configured per-namespace ceilings.

mod extract;
mod report;
mod requirements;
mod symbols;
mod version;

pub use extract::DecodedBinary;
pub use extract::ExtractError;
pub use extract::SymbolEntry;
pub use extract::VersionLookup;
pub use extract::VersionRecord;
pub use extract::extract_symbol_versions;
pub use report::CheckResult;
pub use report::FileCheckResult;
pub use report::FileError;
pub use report::FileInput;
pub use report::FileResult;
pub use report::check_files;
pub use report::get_exit_code;
pub use report::EXIT_BAD_ARGS;
pub use report::EXIT_ERROR_CHECKING_FILES;
pub use report::EXIT_FILES_FAILED_CHECK;
pub use report::EXIT_PASSED;
pub use requirements::BuildError;
pub use requirements::VersionRequirements;
pub use symbols::DemangleChoice;
pub use symbols::SymbolVersion;
pub use symbols::demangle_symbol_name;
pub use symbols::sort_symbols;
pub use version::NamespacedVersion;
pub use version::ParseError;
pub use version::Version;
