//! The entry of the target in the registry.

use linux_x86_64::target::Target;
use linux_x86_64::{LinuxX86_64Backend, TARGET};

#[test]
fn backend_name_is_linux_x86_64() {
    let b = LinuxX86_64Backend;
    assert_eq!(b.name(), "linux_x86_64");
}

#[test]
fn backend_triple_is_x86_64_linux() {
    let b = LinuxX86_64Backend;
    assert_eq!(b.triple(), "x86_64-unknown-linux-gnu");
}

#[test]
fn backend_exposes_standard_metadata() {
    let metadata = LinuxX86_64Backend.metadata("0.1.0");
    assert_eq!(metadata.name, "linux_x86_64");
    assert!(!metadata.author.is_empty());
    assert!(!metadata.version.is_empty());
    assert!(!metadata.description.is_empty());
}

#[test]
fn lower_returns_delegation_error() {
    let b = LinuxX86_64Backend;
    let result = b.lower(&[]);
    assert!(result.is_err());
    assert_eq!(result.unwrap_err(), "delegated to core pipeline");
}

#[test]
fn write_image_returns_delegation_error() {
    let b = LinuxX86_64Backend;
    let result = b.write_image(&[], false);
    assert!(result.is_err());
    assert_eq!(result.unwrap_err(), "delegated to core pipeline");
}

#[test]
fn write_image_with_entry_preamble_returns_error() {
    let b = LinuxX86_64Backend;
    let result = b.write_image(&[], true);
    assert!(result.is_err());
}

#[test]
fn metadata_is_pinned() {
    let m = LinuxX86_64Backend.metadata("1.2.3");
    assert_eq!(m.display_name, "Linux x86-64");
    assert_eq!(m.author, "RubyC contributors");
    assert_eq!(m.version, "1.2.3");
    assert_eq!(m.description, "Static ELF and JIT target adapter");
    assert_eq!(m.license, "MIT");
    assert!(m.homepage.is_empty());
    assert!(m.repository.is_empty());
    assert_eq!(TARGET, Target::LinuxX86_64);
}
