use vstd::prelude::*;

verus! {

/// An address as the database stores it: a section index and an offset in it.
#[derive(Clone, Copy, Debug, PartialEq, Eq, Structural)]
pub struct SectionOffset {
    pub section: u16,
    pub offset: u32,
}

/// Basic information about a function.
#[derive(Clone, Debug)]
pub struct Function {
    /// The start address of the function, as a relative address (rva).
    pub start_rva: u32,
    /// The end address of the function, if known.
    pub end_rva: Option<u32>,
    /// The function name. `None` if it could not be rendered.
    pub name: Option<String>,
}

/// One frame of the inline stack at a looked-up address.
#[derive(Clone, Debug)]
pub struct Frame {
    /// The function name. `None` if it could not be rendered.
    pub function: Option<String>,
    /// The file name, if known.
    pub file: Option<String>,
    /// The line number, if known.
    pub line: Option<u32>,
}

/// The result of a frame lookup.
#[derive(Clone, Debug)]
pub struct FunctionFrames {
    /// The start address of the function which contains the looked-up address.
    pub start_rva: u32,
    /// Its end address, if known.
    pub end_rva: Option<u32>,
    /// The inline stack at the looked-up address, innermost first. The last
    /// element is the function which contains the address.
    pub frames: Vec<Frame>,
}

/// One raw section contribution record: `module` supplied `size` bytes of
/// `section`, starting at `offset`.
#[derive(Clone, Copy, Debug, PartialEq, Eq, Structural)]
pub struct RawSectionContribution {
    pub module: u16,
    pub section: u16,
    pub offset: u32,
    pub size: u32,
}

/// A merged, non-empty byte range `[start_offset, end_offset)` of one section
/// that belongs to one module.
#[derive(Clone, Copy, Debug, PartialEq, Eq, Structural)]
pub struct ModuleSectionContribution {
    pub section_index: u16,
    pub start_offset: u32,
    pub end_offset: u32,
    pub module_index: u16,
}

/// The ways in which building the contribution index can fail.
#[derive(Clone, Copy, Debug, PartialEq, Eq, Structural)]
pub enum Error {
    /// A run of records of one module in one section has a decreasing end
    /// offset: (module, section).
    UnorderedSectionContributions(u16, u16),
    /// Two merged contributions in one section overlap: (section, module of
    /// the earlier one, module of the later one).
    OverlappingSectionContributions(u16, u16, u16),
}

} // verus!
