//! What each language says about its dependencies.
pub mod aliases;
pub mod comments;
pub mod java;
pub mod java_imports;
pub mod js_pkg;
pub mod js_resolution;
pub mod js_ts;
pub mod jsonc;
pub mod origins;
pub mod package_entries;
pub mod python;
pub mod python_imports;
pub mod reexports;
pub mod specifier;
pub mod statements;
pub mod ts_paths;
