use vstd::prelude::*;
use crate::context::{caches_grow, procedure_at, frames_at, frames_result, function_of, inline_match, outer_frame, procedure_covers, procedure_frames, Context, Lookup, SymbolMatch};
use crate::inline::{covered_in, covers, is_inline_table};
use crate::context::{lemma_inline_match_sound, lemma_procedure_at_sound, lemma_resolver_facts};
use crate::records::{InlineRange, LineEntry};
use crate::types::SectionOffset;

verus! {

/// A match with known bounds holds the address: the procedure that the
/// cascade reports for an address starts at or before it and ends after it.
pub proof fn lemma_bounded_match_covers(c: &Context, o: SectionOffset, k: u16, i: usize)
    requires
        c.wf(),
        c.lookup_spec(Some(o)) == Lookup::<SymbolMatch>::Found(SymbolMatch::Procedure(k, i)),
    ensures
        procedure_covers(c.procedure_of(k, i), o),
        c.procedure_of(k, i).offset.section == o.section,
        c.procedure_of(k, i).offset.offset <= o.offset < c.procedure_of(k, i).offset.offset + c.procedure_of(k, i).len,
{
    lemma_resolver_facts(c);
    let procs = c.module_slots()[k as int].unwrap().spec_procedures();
    lemma_procedure_at_sound(procs, o);
    let j = procedure_at(procs, o).unwrap();
    assert(0 <= j < procs.len());
    assert(j == i as int);
}

/// The same in relative addresses: where the address map moves a section as a
/// whole (the probe lies as far from the function's start address as its
/// offset lies from the function's start offset), the function that
/// `find_function` and `find_frames` report with an end holds the probe.
pub proof fn lemma_bounded_function_covers(c: &Context, o: SectionOffset, probe: u32, k: u16, i: usize)
    requires
        c.wf(),
        c.lookup_spec(Some(o)) == Lookup::<SymbolMatch>::Found(SymbolMatch::Procedure(k, i)),
        c.procedure_of(k, i).start_rva matches Some(s)
            && probe as int == s + (o.offset - c.procedure_of(k, i).offset.offset),
    ensures
        function_of(c, SymbolMatch::Procedure(k, i)) matches Some(f) ==> f.end_rva matches Some(e)
            && f.start_rva <= probe < e,
{
    lemma_bounded_match_covers(c, o, k, i);
}

/// A frame lookup that matches yields at least one frame, and its last frame
/// is the function itself, under the name that `find_function` reports.
pub proof fn lemma_frames_end_with_function(c: &Context, m: SymbolMatch, name: Option<String>, probe: u32)
    requires
        m matches SymbolMatch::Procedure(k, i) ==> c.line_table(k, i) is Some && c.inline_table(k, i) is Some,
    ensures
        frames_at(c, m, name, probe).len() >= 1,
        frames_at(c, m, name, probe).last().function == name,
{
    match m {
        SymbolMatch::Public(_) => {},
        SymbolMatch::Procedure(k, i) => {
            if c.line_table(k, i) is Some && c.inline_table(k, i) is Some {
                lemma_procedure_frames_last(name, c.line_table(k, i).unwrap(), c.inline_table(k, i).unwrap(), probe);
            }
        },
    }
}

/// The frames of a procedure end with its own frame, which carries its name.
pub proof fn lemma_procedure_frames_last(name: Option<String>, lines: Seq<LineEntry>, t: Seq<InlineRange>, probe: u32)
    ensures
        procedure_frames(name, lines, t, probe).len() >= 1,
        procedure_frames(name, lines, t, probe).last() == outer_frame(name, lines, probe),
        outer_frame(name, lines, probe).function == name,
{
    let all = seq![outer_frame(name, lines, probe)].add(crate::context::inline_frames(t, 0, probe));
    assert(all[0] == outer_frame(name, lines, probe));
    assert(all.reverse()[all.len() - 1] == all[0]);
}

/// Inline frames nest: every address of a range found at depth `d + 1` is held
/// by a range one level further out, so each frame lies inside the frame that
/// follows it.
pub proof fn lemma_inline_frames_nested(t: Seq<InlineRange>, d: int, probe: u32, x: u32)
    requires
        is_inline_table(t),
        0 <= d,
        inline_match(t, d + 1, probe) is Some,
    ensures
        covered_in(t, 0, t.len() as int, d, probe),
        covers(t[inline_match(t, d + 1, probe).unwrap()], x) ==> covered_in(t, 0, t.len() as int, d, x),
{
    lemma_inline_match_sound(t, d + 1, probe);
    let i = inline_match(t, d + 1, probe).unwrap();
    assert(covers(t[i], probe));
    assert(t[i].call_depth > 0);
}

/// Lookups are idempotent: once a frame lookup has run, the same lookup on any
/// later state that kept the resolver's indices and grew its caches gives an
/// equal result.
pub proof fn lemma_repeat_find_frames(
    c1: &Context,
    c2: &Context,
    o: Option<SectionOffset>,
    probe: u32,
    r1: Lookup<crate::types::FunctionFrames>,
    r2: Lookup<crate::types::FunctionFrames>,
)
    requires
        frames_result(c1, o, probe, r1),
        frames_result(c2, o, probe, r2),
        c2.contributions() == c1.contributions(),
        c2.publics() == c1.publics(),
        c2.module_slots() == c1.module_slots(),
        caches_grow(c1, c2),
    ensures
        r1 is NotFound <==> r2 is NotFound,
        r1 matches Lookup::NeedModule(k) ==> r2 matches Lookup::NeedModule(q) && q == k,
        r1 matches Lookup::Found(f1) ==> r2 matches Lookup::Found(f2) && f1.start_rva == f2.start_rva
            && f1.end_rva == f2.end_rva && f1.frames@ == f2.frames@,
{
    assert(c1.lookup_spec(o) == c2.lookup_spec(o));
    match c1.lookup_spec(o) {
        Lookup::Found(m) => {
            assert(function_of(c1, m) == function_of(c2, m));
            if let Some(f) = function_of(c1, m) {
                assert(frames_at(c1, m, f.name, probe) == frames_at(c2, m, f.name, probe));
            }
        },
        _ => {},
    }
}

/// Inline frames nest at every distance: an address of a range at depth `e`
/// is held by some range at every depth further out, so each inline frame
/// lies inside all the frames that follow it.
pub proof fn lemma_nested_all_levels(t: Seq<InlineRange>, i: int, x: u32, e: int)
    requires
        is_inline_table(t),
        0 <= i < t.len(),
        covers(t[i], x),
        0 <= e <= t[i].call_depth,
    ensures
        covered_in(t, 0, t.len() as int, e, x),
    decreases t[i].call_depth - e,
{
    if e == t[i].call_depth {
        assert(t[i].call_depth == e);
    } else {
        assert(covered_in(t, 0, t.len() as int, t[i].call_depth - 1, x));
        let w = choose|w: int| 0 <= w < t.len() && (#[trigger] t[w]).call_depth == t[i].call_depth - 1 && covers(t[w], x);
        lemma_nested_all_levels(t, w, x, e);
    }
}

} // verus!
