use vstd::prelude::*;

verus! {

#[verifier::external_type_specification]
#[verifier::external_body]
pub struct ExIoError(std::io::Error);

/// An executable that cannot be built or run: a stand-in where no platform is targeted.
#[derive(Default)]
pub struct DummyExecutable;

/// Why an executable could not be run.
#[derive(Debug)]
pub enum ExecutableError {
    /// The executable was not built before running.
    NoBuildPath,
    /// Running the executable failed.
    Io(std::io::Error),
    /// A dummy executable cannot run.
    Dummy,
}

} // verus!
