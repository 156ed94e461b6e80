//! What the application reports about its own build.
use vstd::prelude::*;

verus! {

/// The edition and version of this build.
#[derive(Debug, Clone, PartialEq, Eq)]
pub struct BuildInfo {
    pub edition: String,
    pub version: String,
}

/// The build information: the edition the build was configured with, or
/// `community` when none was, and the package version.
pub fn build_info(edition: Option<String>, version: String) -> (res: BuildInfo)
    ensures
        res.edition@ == match edition {
            Some(e) => e@,
            None => "community"@,
        },
        res.version@ == version@,
{
    let edition = match edition {
        Some(e) => e,
        None => String::from_str("community"),
    };
    BuildInfo { edition, version }
}

} // verus!
