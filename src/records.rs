use vstd::prelude::*;
use crate::search::Keyed;
use crate::types::SectionOffset;

verus! {

/// One line record of a procedure: code from `start_rva` on belongs to
/// `line` of `file`.
pub struct LineEntry {
    pub start_rva: u32,
    pub file: Option<String>,
    pub line: u32,
}

/// One line record of an inline site, already placed at the call site:
/// `length` bytes from `start_rva` on belong to `line` of `file`.
pub struct InlineLine {
    pub start_rva: u32,
    pub length: Option<u32>,
    pub file: Option<String>,
    pub line: u32,
}

/// A procedure or thunk record of a module's symbol stream.
pub struct ProcedureRecord {
    /// The index of this record in the stream.
    pub index: u32,
    /// The index of the record that ends this procedure's nested records.
    pub end: u32,
    pub offset: SectionOffset,
    /// The start address as a relative address, if it translates.
    pub start_rva: Option<u32>,
    pub len: u32,
    /// The record's own name.
    pub name: String,
    /// The type of the procedure, or 0 when it has none.
    pub type_index: u32,
    /// The name with its arguments, as rendered from the type.
    pub formatted_name: Option<String>,
    /// The line records of the procedure, in ascending address order.
    pub lines: Vec<LineEntry>,
}

/// An inline site record: the inlined function `inlinee` and its lines.
pub struct InlineSiteRecord {
    pub index: u32,
    pub end: u32,
    pub inlinee: u32,
    /// The rendered name of the inlinee.
    pub inlinee_name: Option<String>,
    pub lines: Vec<InlineLine>,
}

/// One record of a module's symbol stream, in the order of the stream.
pub enum SymbolRecord {
    Procedure(ProcedureRecord),
    Thunk(ProcedureRecord),
    InlineSite(InlineSiteRecord),
    /// Any other record, by its index.
    Other(u32),
}

impl SymbolRecord {
    pub open spec fn spec_index(&self) -> u32 {
        match self {
            SymbolRecord::Procedure(p) => p.index,
            SymbolRecord::Thunk(p) => p.index,
            SymbolRecord::InlineSite(s) => s.index,
            SymbolRecord::Other(i) => *i,
        }
    }

    pub fn index(&self) -> (r: u32)
        ensures
            r == self.spec_index(),
    {
        match self {
            SymbolRecord::Procedure(p) => p.index,
            SymbolRecord::Thunk(p) => p.index,
            SymbolRecord::InlineSite(s) => s.index,
            SymbolRecord::Other(i) => *i,
        }
    }
}

/// One contiguous block of addresses that belongs to one inline activation at
/// one call depth.
pub struct InlineRange {
    pub start_offset: u32,
    pub end_offset: u32,
    pub call_depth: u16,
    pub inlinee: u32,
    pub name: Option<String>,
    pub file: Option<String>,
    pub line: Option<u32>,
}

pub fn copy_text(s: &Option<String>) -> (r: Option<String>)
    ensures
        r == *s,
{
    match s {
        Some(t) => Some(t.clone()),
        None => None,
    }
}

impl Keyed for InlineRange {
    open spec fn key(&self) -> (u32, u32) {
        (self.call_depth as u32, self.start_offset)
    }

    fn sort_key(&self) -> (r: (u32, u32)) {
        (self.call_depth as u32, self.start_offset)
    }

    fn duplicate(&self) -> (r: Self) {
        InlineRange {
            start_offset: self.start_offset,
            end_offset: self.end_offset,
            call_depth: self.call_depth,
            inlinee: self.inlinee,
            name: copy_text(&self.name),
            file: copy_text(&self.file),
            line: self.line,
        }
    }
}

impl Keyed for LineEntry {
    open spec fn key(&self) -> (u32, u32) {
        (0, self.start_rva)
    }

    fn sort_key(&self) -> (r: (u32, u32)) {
        (0, self.start_rva)
    }

    fn duplicate(&self) -> (r: Self) {
        LineEntry { start_rva: self.start_rva, file: copy_text(&self.file), line: self.line }
    }
}

} // verus!
