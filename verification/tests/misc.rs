use std::path::Path;

use basil::files::{stdlib, BUILD_DIR, STDLIB_DIR, STDLIB_FILE};
use basil::synthesize::arch::MachineCode;
use basil::synthesize::exe::{DummyExecutable, ExecutableError};

#[test]
fn stdlib_path_is_file_in_directory() {
    assert_eq!(stdlib(), Path::new("stdlib").join("lib.bl"));
    assert_eq!(stdlib(), Path::new(STDLIB_DIR).join(STDLIB_FILE));
    assert_eq!(BUILD_DIR, "build");
}

#[test]
fn default_machine_code_is_empty() {
    let m = MachineCode::default();
    assert!(m.instructions.is_empty());
    assert_eq!(m.entry_point_offset, 0);
    assert!(m.symbols.is_empty());
    assert!(m.str_literals.is_empty());
}

#[test]
fn dummy_executable_and_errors() {
    let _d = DummyExecutable::default();
    let e = ExecutableError::Dummy;
    assert!(matches!(e, ExecutableError::Dummy));
    let e = ExecutableError::Io(std::io::Error::new(std::io::ErrorKind::Other, "x"));
    assert!(matches!(e, ExecutableError::Io(_)));
    assert!(matches!(ExecutableError::NoBuildPath, ExecutableError::NoBuildPath));
}
