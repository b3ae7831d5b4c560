//! The linux_x86_64 target: from virtual-register programs to machine code,
//! and from machine code to executables, shared objects and pages to run.
use crate::container::ContainerFormat;
use crate::ir::Program;
use crate::mc_serialize::{decode, decoded, encode, encoded};
use crate::target::{MachineCode, TargetError};
use crate::x86::encode_x64::{machine_code, program_encodable};
use crate::x86::runtime::Runtime;
use vstd::prelude::*;

pub mod bytes;
pub mod container;
pub mod ir;
pub mod jit;
pub mod mc_serialize;
pub mod target;
pub mod wire;
pub mod x86;

pub use crate::x86::{BACKEND, IMAGE_WRITER, LOADER, MEMORY, TARGET};

verus! {

/// The entry of this target in the registry of targets.
#[derive(Debug, Clone, Copy)]
pub struct LinuxX86_64Backend;

/// How this target presents itself.
#[derive(Debug, Clone)]
pub struct Metadata {
    pub name: String,
    pub display_name: String,
    pub author: String,
    pub version: String,
    pub description: String,
    pub license: String,
    pub homepage: String,
    pub repository: String,
}

impl LinuxX86_64Backend {
    /// Name of the target.
    pub fn name(&self) -> (r: &'static str)
        ensures
            r@ == "linux_x86_64"@,
    {
        "linux_x86_64"
    }

    /// Target triple.
    pub fn triple(&self) -> (r: &'static str)
        ensures
            r@ == "x86_64-unknown-linux-gnu"@,
    {
        "x86_64-unknown-linux-gnu"
    }

    /// The metadata, with the version of the package.
    pub fn metadata(&self, version: &str) -> (r: Metadata)
        ensures
            r.name@ == "linux_x86_64"@,
            r.display_name@ == "Linux x86-64"@,
            r.author@ == "RubyC contributors"@,
            r.version@ == version@,
            r.description@ == "Static ELF and JIT target adapter"@,
            r.license@ == "MIT"@,
            r.homepage@ == ""@,
            r.repository@ == ""@,
    {
        Metadata {
            name: "linux_x86_64".to_owned(),
            display_name: "Linux x86-64".to_owned(),
            author: "RubyC contributors".to_owned(),
            version: version.to_owned(),
            description: "Static ELF and JIT target adapter".to_owned(),
            license: "MIT".to_owned(),
            homepage: "".to_owned(),
            repository: "".to_owned(),
        }
    }

    /// Lowering goes through the core pipeline; the registry entry always
    /// says so.
    pub fn lower(&self, _program: &[u8]) -> (r: Result<Vec<u8>, String>)
        ensures
            r matches Err(m) && m@ == "delegated to core pipeline"@,
    {
        Err("delegated to core pipeline".to_owned())
    }

    /// So does image writing.
    pub fn write_image(&self, _mc: &[u8], _entry_preamble: bool) -> (r: Result<Vec<u8>, String>)
        ensures
            r matches Err(m) && m@ == "delegated to core pipeline"@,
    {
        Err("delegated to core pipeline".to_owned())
    }
}

/// Lowers a program that was decoded, or failed to be, to serialized machine
/// code.
pub fn lower_target(program: Result<Program, String>, rt: &Runtime) -> (r: Result<
    Vec<u8>,
    String,
>)
    requires
        program matches Ok(p) ==> program_encodable(p, *rt),
    ensures
        match program {
            Ok(p) => r matches Ok(b) && b@ == encoded(machine_code(p, *rt)),
            Err(e) => r matches Err(m) && m@ == "IR decode: "@ + e@,
        },
{
    match program {
        Ok(p) => {
            let lowered: Result<MachineCode, TargetError> = BACKEND.lower(&p, rt);
            Ok(encode(&lowered.unwrap()))
        },
        Err(e) => {
            let mut m: String = "IR decode: ".to_owned();
            m.append(e.as_str());
            Err(m)
        },
    }
}

/// Writes serialized machine code as an executable image.
pub fn write_image_target(mc: &[u8], format: &ContainerFormat, entry_preamble: bool) -> (r: Result<
    Vec<u8>,
    String,
>)
    requires
        decoded(mc@) matches Ok(m) ==> x86::elf::image_ready(m, *format, entry_preamble),
    ensures
        match decoded(mc@) {
            Ok(m) => r matches Ok(img) && img@ == x86::elf::image_of(
                m,
                x86::elf::layout_of(m, *format, entry_preamble),
            ),
            Err(e) => r matches Err(s) && s@ == e,
        },
{
    match decode(mc) {
        Ok(code) => {
            let written: Result<Vec<u8>, TargetError> = IMAGE_WRITER.write_image(
                &code,
                format,
                entry_preamble,
            );
            Ok(written.unwrap())
        },
        Err(e) => Err(e),
    }
}

/// As `write_image_target`, for bytes of which nothing is known: `None` for
/// machine code that no image can be written of.
pub fn try_write_image_target(mc: &[u8], format: &ContainerFormat, entry_preamble: bool) -> (r:
    Result<Option<Vec<u8>>, String>)
    ensures
        match decoded(mc@) {
            Ok(m) => if x86::elf::image_ready(m, *format, entry_preamble) {
                r matches Ok(Some(img)) && img@ == x86::elf::image_of(
                    m,
                    x86::elf::layout_of(m, *format, entry_preamble),
                )
            } else {
                r == Ok::<Option<Vec<u8>>, String>(None)
            },
            Err(e) => r matches Err(s) && s@ == e,
        },
{
    match decode(mc) {
        Ok(code) => {
            if IMAGE_WRITER.can_write_image(&code, format, entry_preamble) {
                match write_image_target(mc, format, entry_preamble) {
                    Ok(img) => Ok(Some(img)),
                    Err(e) => Err(e),
                }
            } else {
                Ok(None)
            }
        },
        Err(e) => Err(e),
    }
}

/// Writes serialized machine code as a shared object.
pub fn write_shared_target(mc: &[u8], format: &ContainerFormat) -> (r: Result<Vec<u8>, String>)
    requires
        decoded(mc@) matches Ok(m) ==> x86::shlib::shared_ready(m),
    ensures
        match decoded(mc@) {
            Ok(m) => r matches Ok(img) && img@ == x86::shlib::image_of(m, format.format_version),
            Err(e) => r matches Err(s) && s@ == e,
        },
{
    match decode(mc) {
        Ok(code) => {
            let written: Result<Vec<u8>, TargetError> = IMAGE_WRITER.write_shared_library(
                &code,
                format,
            );
            Ok(written.unwrap())
        },
        Err(e) => Err(e),
    }
}

/// As `write_shared_target`, for bytes of which nothing is known: `None` for
/// machine code that no image can be written of.
pub fn try_write_shared_target(mc: &[u8], format: &ContainerFormat) -> (r: Result<
    Option<Vec<u8>>,
    String,
>)
    ensures
        match decoded(mc@) {
            Ok(m) => if x86::shlib::shared_ready(m) {
                r matches Ok(Some(img)) && img@ == x86::shlib::image_of(m, format.format_version)
            } else {
                r == Ok::<Option<Vec<u8>>, String>(None)
            },
            Err(e) => r matches Err(s) && s@ == e,
        },
{
    match decode(mc) {
        Ok(code) => {
            if x86::shlib::can_write_shared_library(&code) {
                match write_shared_target(mc, format) {
                    Ok(img) => Ok(Some(img)),
                    Err(e) => Err(e),
                }
            } else {
                Ok(None)
            }
        },
        Err(e) => Err(e),
    }
}

} // verus!
