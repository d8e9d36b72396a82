//! Resolve addresses to function names, source files and line numbers, with
//! inline call stacks, from the symbol and line records of a program database.
//!
//! The library holds the resolution engine: the index of section contributions,
//! the public and per-module procedure indices, the lookup cascade, the line and
//! inline-range tables of each procedure, the assembly of frame stacks, and the
//! caches that make repeated lookups cheap. Reading the database itself is left
//! to the caller, which hands modules over on demand.

pub mod types;
pub mod search;
pub mod sorting;
pub mod ranges;
pub mod contributions;
pub mod records;
pub mod symbols;
pub mod inline;
pub mod context;
pub mod laws;

pub use types::{Error, Frame, Function, FunctionFrames, ModuleSectionContribution, RawSectionContribution, SectionOffset};
pub use contributions::compute_section_contributions;
pub use context::{Context, FunctionIter, Lookup, SymbolMatch};
pub use inline::compute_procedure_inline_ranges;
pub use records::{InlineLine, InlineRange, InlineSiteRecord, LineEntry, ProcedureRecord, SymbolRecord};
pub use symbols::{build_public_index, compute_module_procedures, ProcedureSymbolFunction, PublicSymbolFunction};
