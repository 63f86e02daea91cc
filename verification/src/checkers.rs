//! The implemented CWE checks.
//! See their module descriptions for detailed information about each check.

pub mod cwe_215;
pub mod cwe_476;
pub mod cwe_676;
