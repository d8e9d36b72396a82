use vstd::prelude::*;
use crate::records::{copy_text, ProcedureRecord, SymbolRecord};
use crate::search::{find_last_le, last_le, sorted_by_key, Keyed};
use crate::sorting::{is_dedup_last, sort_dedup_last};
use crate::types::SectionOffset;

verus! {

/// A function from the public symbols: its start and its decorated name. Its
/// length is not known.
pub struct PublicSymbolFunction {
    pub start_offset: SectionOffset,
    /// The start as a relative address, if it translates.
    pub start_rva: Option<u32>,
    pub name: String,
}

/// A function or thunk from a module's symbols, with known bounds.
pub struct ProcedureSymbolFunction {
    pub offset: SectionOffset,
    /// The start as a relative address, if it translates.
    pub start_rva: Option<u32>,
    /// The length in bytes; never zero.
    pub len: u32,
    /// The name to show, if it could be rendered.
    pub name: Option<String>,
    /// The position of the procedure's record in the module's records.
    pub symbol_position: usize,
    /// The index of the record that ends the procedure.
    pub end_symbol_index: u32,
}

impl Keyed for PublicSymbolFunction {
    open spec fn key(&self) -> (u32, u32) {
        (self.start_offset.section as u32, self.start_offset.offset)
    }

    fn sort_key(&self) -> (r: (u32, u32)) {
        (self.start_offset.section as u32, self.start_offset.offset)
    }

    fn duplicate(&self) -> (r: Self) {
        PublicSymbolFunction { start_offset: self.start_offset, start_rva: self.start_rva, name: self.name.clone() }
    }
}

impl Keyed for ProcedureSymbolFunction {
    open spec fn key(&self) -> (u32, u32) {
        (self.offset.section as u32, self.offset.offset)
    }

    fn sort_key(&self) -> (r: (u32, u32)) {
        (self.offset.section as u32, self.offset.offset)
    }

    fn duplicate(&self) -> (r: Self) {
        ProcedureSymbolFunction {
            offset: self.offset,
            start_rva: self.start_rva,
            len: self.len,
            name: copy_text(&self.name),
            symbol_position: self.symbol_position,
            end_symbol_index: self.end_symbol_index,
        }
    }
}

pub open spec fn offset_key(o: SectionOffset) -> (u32, u32) {
    (o.section as u32, o.offset)
}

/// The byte that starts a decorated name, which already spells out the
/// arguments.
pub const DECORATED_NAME_MARKER: u8 = 63;

pub open spec fn is_decorated(name: String) -> bool {
    let b = vstd::utf8::encode_utf8(name@);
    b.len() > 0 && b[0] == DECORATED_NAME_MARKER
}

pub fn decorated(name: &String) -> (r: bool)
    ensures
        r == is_decorated(*name),
{
    let b = name.as_str().as_bytes();
    b.len() > 0 && b[0] == DECORATED_NAME_MARKER
}

/// Builds the public index: sorted by (section, offset), one entry per
/// offset, the last of the symbols at that offset.
pub fn build_public_index(symbols: &Vec<PublicSymbolFunction>) -> (r: Vec<PublicSymbolFunction>)
    ensures
        is_dedup_last(r@, symbols@),
{
    sort_dedup_last(symbols)
}

/// The public symbol that starts exactly at `o`, if any.
pub open spec fn public_at(publics: Seq<PublicSymbolFunction>, o: SectionOffset) -> Option<int> {
    match last_le(publics, offset_key(o)) {
        Some(i) => if publics[i].key() == offset_key(o) { Some(i) } else { None },
        None => None,
    }
}

/// The name that a procedure record is shown with: the name rendered from its
/// type where it has one; else a decorated public name at the same offset,
/// which spells out the arguments; else its own name.
pub open spec fn procedure_name(p: ProcedureRecord, publics: Seq<PublicSymbolFunction>) -> Option<String> {
    if p.type_index != 0 {
        p.formatted_name
    } else {
        match public_at(publics, p.offset) {
            Some(i) => if is_decorated(publics[i].name) { Some(publics[i].name) } else { Some(p.name) },
            None => Some(p.name),
        }
    }
}

pub open spec fn entry_of(p: ProcedureRecord, name: Option<String>, pos: int) -> ProcedureSymbolFunction {
    ProcedureSymbolFunction {
        offset: p.offset,
        start_rva: p.start_rva,
        len: p.len,
        name: name,
        symbol_position: pos as usize,
        end_symbol_index: p.end,
    }
}

/// The non-empty procedures and thunks of a module's records, in record order.
/// A thunk's name already spells out its arguments.
pub open spec fn procedure_candidates(s: Seq<SymbolRecord>, publics: Seq<PublicSymbolFunction>) -> Seq<ProcedureSymbolFunction>
    decreases s.len(),
{
    if s.len() == 0 {
        Seq::empty()
    } else {
        let c = procedure_candidates(s.drop_last(), publics);
        let pos = s.len() - 1;
        match s.last() {
            SymbolRecord::Procedure(p) => if p.len != 0 {
                c.push(entry_of(p, procedure_name(p, publics), pos))
            } else {
                c
            },
            SymbolRecord::Thunk(p) => if p.len != 0 {
                c.push(entry_of(p, Some(p.name), pos))
            } else {
                c
            },
            _ => c,
        }
    }
}

/// The position of the public symbol that starts exactly at `o`.
pub fn find_public_at(publics: &Vec<PublicSymbolFunction>, o: SectionOffset) -> (r: Option<usize>)
    requires
        sorted_by_key(publics@),
    ensures
        r matches Some(i) ==> public_at(publics@, o) == Some(i as int) && i < publics@.len(),
        r is None ==> public_at(publics@, o) is None,
{
    match find_last_le(publics, (o.section as u32, o.offset)) {
        Some(i) => {
            let k = publics[i].sort_key();
            if k.0 == o.section as u32 && k.1 == o.offset {
                Some(i)
            } else {
                None
            }
        },
        None => None,
    }
}

proof fn lemma_candidates_step(s: Seq<SymbolRecord>, publics: Seq<PublicSymbolFunction>, i: int)
    requires
        0 <= i < s.len(),
    ensures
        s.take(i + 1).drop_last() == s.take(i),
        s.take(i + 1).last() == s[i],
        s.take(i + 1).len() - 1 == i,
{
    assert(s.take(i + 1).drop_last() =~= s.take(i));
}

/// Builds a module's procedure index from its records: every non-empty
/// procedure and thunk, named by `procedure_name`, sorted by (section,
/// offset), one per offset.
pub fn compute_module_procedures(symbols: &Vec<SymbolRecord>, publics: &Vec<PublicSymbolFunction>) -> (r: Vec<ProcedureSymbolFunction>)
    requires
        sorted_by_key(publics@),
    ensures
        is_dedup_last(r@, procedure_candidates(symbols@, publics@)),
        r@.len() <= usize::MAX,
{
    let mut functions: Vec<ProcedureSymbolFunction> = Vec::new();
    let mut i: usize = 0;
    while i < symbols.len()
        invariant
            0 <= i <= symbols@.len(),
            sorted_by_key(publics@),
            functions@ == procedure_candidates(symbols@.take(i as int), publics@),
        decreases symbols@.len() - i,
    {
        proof {
            lemma_candidates_step(symbols@, publics@, i as int);
        }
        match &symbols[i] {
            SymbolRecord::Procedure(p) => {
                if p.len != 0 {
                    let name = if p.type_index != 0 {
                        copy_text(&p.formatted_name)
                    } else {
                        match find_public_at(publics, p.offset) {
                            Some(k) => if decorated(&publics[k].name) {
                                Some(publics[k].name.clone())
                            } else {
                                Some(p.name.clone())
                            },
                            None => Some(p.name.clone()),
                        }
                    };
                    functions.push(ProcedureSymbolFunction {
                        offset: p.offset,
                        start_rva: p.start_rva,
                        len: p.len,
                        name: name,
                        symbol_position: i,
                        end_symbol_index: p.end,
                    });
                }
            },
            SymbolRecord::Thunk(p) => {
                if p.len != 0 {
                    functions.push(ProcedureSymbolFunction {
                        offset: p.offset,
                        start_rva: p.start_rva,
                        len: p.len,
                        name: Some(p.name.clone()),
                        symbol_position: i,
                        end_symbol_index: p.end,
                    });
                }
            },
            _ => {},
        }
        i = i + 1;
    }
    assert(symbols@.take(symbols@.len() as int) =~= symbols@);
    sort_dedup_last(&functions)
}

} // verus!
