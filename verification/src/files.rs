//! Where the compiler finds its standard library and puts what it builds.
use vstd::prelude::*;

use std::path::PathBuf;

verus! {

/// The directory that built modules go to.
pub const BUILD_DIR: &'static str = "build";

/// The directory of the standard library.
pub const STDLIB_DIR: &'static str = "stdlib";

/// The file of the standard library, in its directory.
pub const STDLIB_FILE: &'static str = "lib.bl";

#[verifier::external_type_specification]
#[verifier::external_body]
pub struct ExPathBuf(PathBuf);

/// The path that `PathBuf::from_iter` builds from the two components, the first then the
/// second: within one build it depends on them alone (the separator between them is the
/// target platform's).
pub uninterp spec fn components_path(first: Seq<char>, second: Seq<char>) -> PathBuf;

/// The relative path made of the two components, by `PathBuf::from_iter`.
///
/// Trusted: the result is the path that `components_path` names for the two components.
#[verifier::external_body]
fn path_of_components(first: &str, second: &str) -> (p: PathBuf)
    ensures
        p == components_path(first@, second@),
{
    PathBuf::from_iter([first, second])
}

/// The path of the standard library's source: its file inside its directory.
pub fn stdlib() -> (p: PathBuf)
    ensures
        p == components_path(STDLIB_DIR@, STDLIB_FILE@),
{
    path_of_components(STDLIB_DIR, STDLIB_FILE)
}

} // verus!
