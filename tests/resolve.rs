use pdb_addr2line::{
    compute_procedure_inline_ranges, compute_section_contributions, Context, Error, FunctionFrames,
    InlineLine, InlineSiteRecord, LineEntry, Lookup, ProcedureRecord, PublicSymbolFunction,
    RawSectionContribution, SectionOffset, SymbolRecord,
};

fn raw(module: u16, section: u16, offset: u32, size: u32) -> RawSectionContribution {
    RawSectionContribution { module, section, offset, size }
}

fn at(offset: u32) -> Option<SectionOffset> {
    Some(SectionOffset { section: 1, offset })
}

fn line(start_rva: u32, file: &str, line: u32) -> LineEntry {
    LineEntry { start_rva, file: Some(file.to_string()), line }
}

fn procedure(index: u32, end: u32, offset: u32, len: u32, name: &str, lines: Vec<LineEntry>) -> ProcedureRecord {
    ProcedureRecord {
        index,
        end,
        offset: SectionOffset { section: 1, offset },
        start_rva: Some(offset),
        len,
        name: name.to_string(),
        type_index: 0,
        formatted_name: None,
        lines,
    }
}

fn site(index: u32, end: u32, inlinee: u32, name: &str, lines: Vec<InlineLine>) -> InlineSiteRecord {
    InlineSiteRecord { index, end, inlinee, inlinee_name: Some(name.to_string()), lines }
}

fn inline_line(start_rva: u32, length: u32, file: &str, line: u32) -> InlineLine {
    InlineLine { start_rva, length: Some(length), file: Some(file.to_string()), line }
}

fn foo_records(with_inline: bool) -> Vec<SymbolRecord> {
    let mut records = vec![SymbolRecord::Procedure(procedure(
        4,
        100,
        0x1000,
        0x50,
        "foo",
        vec![line(0x1000, "a.c", 10), line(0x1020, "a.c", 12)],
    ))];
    if with_inline {
        records.push(SymbolRecord::InlineSite(site(
            20,
            40,
            7,
            "inlined_fn",
            vec![inline_line(0x1010, 8, "b.c", 4)],
        )));
        records.push(SymbolRecord::Other(40));
    }
    records.push(SymbolRecord::Other(100));
    records
}

fn context_with(records: Vec<SymbolRecord>, publics: Vec<PublicSymbolFunction>) -> Context {
    let contributions = vec![raw(0, 1, 0x1000, 0x100), raw(1, 1, 0x3000, 0x100)];
    let mut ctx = Context::new(&contributions, &publics, 2).ok().unwrap();
    ctx.load_module(0, records);
    ctx.load_module(1, Vec::new());
    ctx
}

fn frames(ctx: &mut Context, probe: u32) -> Option<FunctionFrames> {
    match ctx.find_frames(at(probe), probe) {
        Lookup::Found(f) => Some(f),
        Lookup::NotFound => None,
        Lookup::NeedModule(k) => panic!("module {} not loaded", k),
    }
}

#[test]
fn single_procedure_frames() {
    let mut ctx = context_with(foo_records(false), Vec::new());
    let f = frames(&mut ctx, 0x1010).unwrap();
    assert_eq!(f.start_rva, 0x1000);
    assert_eq!(f.end_rva, Some(0x1050));
    assert_eq!(f.frames.len(), 1);
    assert_eq!(f.frames[0].function.as_deref(), Some("foo"));
    assert_eq!(f.frames[0].file.as_deref(), Some("a.c"));
    assert_eq!(f.frames[0].line, Some(10));

    let f = frames(&mut ctx, 0x1025).unwrap();
    assert_eq!(f.frames.len(), 1);
    assert_eq!(f.frames[0].line, Some(12));

    assert!(frames(&mut ctx, 0x2000).is_none());
}

#[test]
fn inline_site_frames() {
    let mut ctx = context_with(foo_records(true), Vec::new());
    let f = frames(&mut ctx, 0x1012).unwrap();
    assert_eq!(f.frames.len(), 2);
    assert_eq!(f.frames[0].function.as_deref(), Some("inlined_fn"));
    assert_eq!(f.frames[0].file.as_deref(), Some("b.c"));
    assert_eq!(f.frames[0].line, Some(4));
    assert_eq!(f.frames[1].function.as_deref(), Some("foo"));
    assert_eq!(f.frames[1].file.as_deref(), Some("a.c"));
    assert_eq!(f.frames[1].line, Some(10));

    // outside the inline range only the procedure's own frame is left
    let f = frames(&mut ctx, 0x1018).unwrap();
    assert_eq!(f.frames.len(), 1);
    assert_eq!(f.frames[0].function.as_deref(), Some("foo"));
}

#[test]
fn public_only_symbol() {
    let publics = vec![PublicSymbolFunction {
        start_offset: SectionOffset { section: 1, offset: 0x3000 },
        start_rva: Some(0x3000),
        name: "?mangled@@YAXXZ".to_string(),
    }];
    let mut ctx = context_with(foo_records(false), publics);
    match ctx.find_function(at(0x3010)) {
        Lookup::Found(f) => {
            assert_eq!(f.start_rva, 0x3000);
            assert_eq!(f.end_rva, None);
            assert_eq!(f.name.as_deref(), Some("?mangled@@YAXXZ"));
        }
        _ => panic!("expected a function"),
    }
    let f = frames(&mut ctx, 0x3010).unwrap();
    assert_eq!(f.start_rva, 0x3000);
    assert_eq!(f.end_rva, None);
    assert_eq!(f.frames.len(), 1);
    assert_eq!(f.frames[0].function.as_deref(), Some("?mangled@@YAXXZ"));
    assert_eq!(f.frames[0].file, None);
    assert_eq!(f.frames[0].line, None);
}

#[test]
fn public_fallback_needs_same_section() {
    let publics = vec![PublicSymbolFunction {
        start_offset: SectionOffset { section: 0, offset: 0x10 },
        start_rva: Some(0x10),
        name: "other".to_string(),
    }];
    let mut ctx = context_with(foo_records(false), publics);
    assert!(frames(&mut ctx, 0x3010).is_none());
}

#[test]
fn untranslated_address_is_not_found() {
    let mut ctx = context_with(foo_records(false), Vec::new());
    assert!(matches!(ctx.find_frames(None, 0x1010), Lookup::NotFound));
    assert!(matches!(ctx.find_function(None), Lookup::NotFound));
}

#[test]
fn lookup_asks_for_unloaded_module() {
    let contributions = vec![raw(0, 1, 0x1000, 0x100)];
    let mut ctx = Context::new(&contributions, &Vec::new(), 1).ok().unwrap();
    assert!(!ctx.is_module_loaded(0));
    assert!(matches!(ctx.find_frames(at(0x1010), 0x1010), Lookup::NeedModule(0)));
    ctx.load_module(0, foo_records(false));
    assert!(ctx.is_module_loaded(0));
    assert!(matches!(ctx.find_frames(at(0x1010), 0x1010), Lookup::Found(_)));
}

#[test]
fn loading_a_module_twice_keeps_the_first() {
    let mut ctx = context_with(foo_records(false), Vec::new());
    ctx.load_module(0, Vec::new());
    let f = frames(&mut ctx, 0x1010).unwrap();
    assert_eq!(f.frames[0].function.as_deref(), Some("foo"));
}

#[test]
fn repeated_lookups_are_equal() {
    let mut ctx = context_with(foo_records(true), Vec::new());
    let a = frames(&mut ctx, 0x1012).unwrap();
    let b = frames(&mut ctx, 0x1012).unwrap();
    assert_eq!(a.start_rva, b.start_rva);
    assert_eq!(a.end_rva, b.end_rva);
    assert_eq!(a.frames.len(), b.frames.len());
    for (x, y) in a.frames.iter().zip(b.frames.iter()) {
        assert_eq!(x.function, y.function);
        assert_eq!(x.file, y.file);
        assert_eq!(x.line, y.line);
    }
}

#[test]
fn overlapping_contributions_are_rejected() {
    let r = compute_section_contributions(&vec![raw(0, 1, 0x1000, 0x100), raw(1, 1, 0x1080, 0x100)]);
    assert_eq!(r, Err(Error::OverlappingSectionContributions(1, 0, 1)));
}

#[test]
fn unordered_contributions_are_rejected() {
    let r = compute_section_contributions(&vec![raw(0, 1, 0x1000, 0x100), raw(0, 1, 0x1000, 0x10)]);
    assert_eq!(r, Err(Error::UnorderedSectionContributions(0, 1)));
}

#[test]
fn contributions_merge_and_sort() {
    let v = compute_section_contributions(&vec![
        raw(2, 2, 0x10, 0x10),
        raw(0, 1, 0x1000, 0x10),
        raw(0, 1, 0x1010, 0x20),
        raw(0, 1, 0x1030, 0),
        raw(1, 1, 0x0, 0x100),
    ])
    .unwrap();
    assert_eq!(v.len(), 3);
    assert_eq!((v[0].section_index, v[0].start_offset, v[0].end_offset, v[0].module_index), (1, 0, 0x100, 1));
    assert_eq!((v[1].section_index, v[1].start_offset, v[1].end_offset, v[1].module_index), (1, 0x1000, 0x1030, 0));
    assert_eq!((v[2].section_index, v[2].start_offset, v[2].end_offset, v[2].module_index), (2, 0x10, 0x20, 2));
}

#[test]
fn empty_contributions() {
    assert_eq!(compute_section_contributions(&Vec::new()), Ok(Vec::new()));
}

#[test]
fn functions_lists_each_start_once() {
    let publics = vec![
        PublicSymbolFunction {
            start_offset: SectionOffset { section: 1, offset: 0x3000 },
            start_rva: Some(0x3000),
            name: "pub3000".to_string(),
        },
        PublicSymbolFunction {
            start_offset: SectionOffset { section: 1, offset: 0x1000 },
            start_rva: Some(0x1000),
            name: "?foo@@YAXXZ".to_string(),
        },
    ];
    let mut ctx = context_with(foo_records(false), publics);
    assert_eq!(ctx.function_count(), 2);
    let mut it = match ctx.functions(&Vec::new()) {
        Lookup::Found(it) => it,
        _ => panic!("all modules are loaded"),
    };
    let mut seen = Vec::new();
    while let Some(x) = it.next_rva() {
        seen.push(x);
    }
    assert_eq!(seen, vec![0x1000, 0x3000]);
}

#[test]
fn functions_needs_all_modules() {
    let contributions = vec![raw(0, 1, 0x1000, 0x100)];
    let mut ctx = Context::new(&contributions, &Vec::new(), 1).ok().unwrap();
    assert!(matches!(ctx.functions(&Vec::new()), Lookup::NeedModule(0)));
}

#[test]
fn decorated_public_name_is_preferred() {
    let publics = vec![PublicSymbolFunction {
        start_offset: SectionOffset { section: 1, offset: 0x1000 },
        start_rva: Some(0x1000),
        name: "?foo@@YAXH@Z".to_string(),
    }];
    let ctx = context_with(foo_records(false), publics);
    match ctx.find_function(at(0x1004)) {
        Lookup::Found(f) => {
            assert_eq!(f.name.as_deref(), Some("?foo@@YAXH@Z"));
            assert_eq!(f.end_rva, Some(0x1050));
        }
        _ => panic!("expected a function"),
    }
}

#[test]
fn undecorated_public_name_is_not_used() {
    let publics = vec![PublicSymbolFunction {
        start_offset: SectionOffset { section: 1, offset: 0x1000 },
        start_rva: Some(0x1000),
        name: "foo_public".to_string(),
    }];
    let ctx = context_with(foo_records(false), publics);
    match ctx.find_function(at(0x1004)) {
        Lookup::Found(f) => assert_eq!(f.name.as_deref(), Some("foo")),
        _ => panic!("expected a function"),
    }
}

#[test]
fn typed_procedure_uses_formatted_name() {
    let mut p = procedure(4, 100, 0x1000, 0x50, "foo", Vec::new());
    p.type_index = 0x1234;
    p.formatted_name = Some("foo(int)".to_string());
    let ctx = context_with(vec![SymbolRecord::Procedure(p)], Vec::new());
    match ctx.find_function(at(0x1000)) {
        Lookup::Found(f) => assert_eq!(f.name.as_deref(), Some("foo(int)")),
        _ => panic!("expected a function"),
    }
}

#[test]
fn zero_length_procedure_is_dropped() {
    let records = vec![
        SymbolRecord::Procedure(procedure(4, 8, 0x1000, 0, "empty", Vec::new())),
        SymbolRecord::Other(8),
    ];
    let ctx = context_with(records, Vec::new());
    assert!(matches!(ctx.find_function(at(0x1000)), Lookup::NotFound));
}

#[test]
fn thunk_is_a_procedure() {
    let records = vec![SymbolRecord::Thunk(procedure(4, 8, 0x1000, 6, "?thunk@@", Vec::new()))];
    let ctx = context_with(records, Vec::new());
    match ctx.find_function(at(0x1005)) {
        Lookup::Found(f) => {
            assert_eq!(f.start_rva, 0x1000);
            assert_eq!(f.end_rva, Some(0x1006));
            assert_eq!(f.name.as_deref(), Some("?thunk@@"));
        }
        _ => panic!("expected a function"),
    }
    assert!(matches!(ctx.find_function(at(0x1006)), Lookup::NotFound));
}

#[test]
fn gaps_in_parent_are_patched() {
    // the nested site claims [0x1020, 0x1030) but its caller only [0x1020, 0x1028)
    let records = vec![
        SymbolRecord::Procedure(procedure(4, 100, 0x1000, 0x50, "foo", Vec::new())),
        SymbolRecord::InlineSite(site(10, 60, 1, "outer", vec![inline_line(0x1020, 8, "o.c", 3)])),
        SymbolRecord::InlineSite(site(20, 50, 2, "inner", vec![inline_line(0x1020, 0x10, "i.c", 9)])),
        SymbolRecord::Other(50),
        SymbolRecord::Other(60),
        SymbolRecord::Other(100),
    ];
    let table = compute_procedure_inline_ranges(&records, 0, 100);
    let spans: Vec<(u16, u32, u32, Option<u32>)> =
        table.iter().map(|r| (r.call_depth, r.start_offset, r.end_offset, r.line)).collect();
    assert_eq!(
        spans,
        vec![(0, 0x1020, 0x1028, Some(3)), (0, 0x1028, 0x1030, None), (1, 0x1020, 0x1030, Some(9))]
    );

    let mut ctx = context_with(records, Vec::new());
    let f = frames(&mut ctx, 0x102c).unwrap();
    assert_eq!(f.frames.len(), 3);
    assert_eq!(f.frames[0].function.as_deref(), Some("inner"));
    assert_eq!(f.frames[0].line, Some(9));
    assert_eq!(f.frames[1].function.as_deref(), Some("outer"));
    assert_eq!(f.frames[1].file, None);
    assert_eq!(f.frames[1].line, None);
    assert_eq!(f.frames[2].function.as_deref(), Some("foo"));
}

#[test]
fn nested_procedure_is_skipped() {
    let records = vec![
        SymbolRecord::Procedure(procedure(4, 100, 0x1000, 0x50, "foo", Vec::new())),
        SymbolRecord::Procedure(procedure(10, 30, 0x1040, 0x8, "nested", Vec::new())),
        SymbolRecord::InlineSite(site(20, 25, 3, "hidden", vec![inline_line(0x1040, 4, "h.c", 1)])),
        SymbolRecord::Other(25),
        SymbolRecord::Other(30),
        SymbolRecord::InlineSite(site(40, 50, 4, "shown", vec![inline_line(0x1000, 4, "s.c", 2)])),
        SymbolRecord::Other(50),
        SymbolRecord::Other(100),
    ];
    let table = compute_procedure_inline_ranges(&records, 0, 100);
    assert_eq!(table.len(), 1);
    assert_eq!(table[0].inlinee, 4);
}

#[test]
fn zero_length_inline_lines_are_dropped() {
    let records = vec![
        SymbolRecord::Procedure(procedure(4, 100, 0x1000, 0x50, "foo", Vec::new())),
        SymbolRecord::InlineSite(site(10, 20, 5, "x", vec![inline_line(0x1000, 0, "x.c", 1)])),
        SymbolRecord::Other(20),
        SymbolRecord::Other(100),
    ];
    assert!(compute_procedure_inline_ranges(&records, 0, 100).is_empty());
}

#[test]
fn duplicate_public_offsets_keep_the_last() {
    let publics = vec![
        PublicSymbolFunction {
            start_offset: SectionOffset { section: 1, offset: 0x3000 },
            start_rva: Some(0x3000),
            name: "first".to_string(),
        },
        PublicSymbolFunction {
            start_offset: SectionOffset { section: 1, offset: 0x3000 },
            start_rva: Some(0x3000),
            name: "second".to_string(),
        },
    ];
    let index = pdb_addr2line::build_public_index(&publics);
    assert_eq!(index.len(), 1);
    assert_eq!(index[0].name, "second");
}

#[test]
fn line_before_first_breakpoint_is_unknown() {
    let records = vec![SymbolRecord::Procedure(procedure(
        4,
        100,
        0x1000,
        0x50,
        "foo",
        vec![line(0x1020, "a.c", 12)],
    ))];
    let mut ctx = context_with(records, Vec::new());
    let f = frames(&mut ctx, 0x1004).unwrap();
    assert_eq!(f.frames[0].file, None);
    assert_eq!(f.frames[0].line, None);
}

#[test]
fn each_gap_gets_one_patch() {
    // the caller claims [0x1008, 0x1010); its callee claims [0x1000, 0x1020),
    // which leaves two gaps: [0x1000, 0x1008) and [0x1010, 0x1020)
    let records = vec![
        SymbolRecord::Procedure(procedure(4, 100, 0x1000, 0x50, "foo", Vec::new())),
        SymbolRecord::InlineSite(site(10, 60, 1, "outer", vec![inline_line(0x1008, 8, "o.c", 3)])),
        SymbolRecord::InlineSite(site(20, 50, 2, "inner", vec![inline_line(0x1000, 0x20, "i.c", 9)])),
        SymbolRecord::Other(50),
        SymbolRecord::Other(60),
        SymbolRecord::Other(100),
    ];
    let table = compute_procedure_inline_ranges(&records, 0, 100);
    let spans: Vec<(u16, u32, u32, Option<u32>)> =
        table.iter().map(|r| (r.call_depth, r.start_offset, r.end_offset, r.line)).collect();
    assert_eq!(
        spans,
        vec![
            (0, 0x1000, 0x1008, None),
            (0, 0x1008, 0x1010, Some(3)),
            (0, 0x1010, 0x1020, None),
            (1, 0x1000, 0x1020, Some(9)),
        ]
    );
}

#[test]
fn unordered_line_records_are_sorted() {
    let records = vec![SymbolRecord::Procedure(procedure(
        4,
        100,
        0x1000,
        0x50,
        "foo",
        vec![line(0x1020, "a.c", 12), line(0x1000, "a.c", 10)],
    ))];
    let mut ctx = context_with(records, Vec::new());
    assert_eq!(frames(&mut ctx, 0x1010).unwrap().frames[0].line, Some(10));
    assert_eq!(frames(&mut ctx, 0x1030).unwrap().frames[0].line, Some(12));
}

#[test]
fn functions_passes_over_unreadable_modules() {
    let contributions = vec![raw(0, 1, 0x1000, 0x100), raw(1, 1, 0x3000, 0x100)];
    let mut ctx = Context::new(&contributions, &Vec::new(), 2).ok().unwrap();
    ctx.load_module(0, foo_records(false));
    let mut it = match ctx.functions(&vec![1]) {
        Lookup::Found(it) => it,
        _ => panic!("module 1 is passed over"),
    };
    assert_eq!(it.next_rva(), Some(0x1000));
    assert_eq!(it.next_rva(), None);
    assert!(!ctx.is_module_loaded(1));
    assert!(matches!(ctx.functions(&Vec::new()), Lookup::NeedModule(1)));
}

#[test]
fn covering_procedure_is_found_past_a_later_one() {
    // "outer" covers 0x1030; "inner" starts later but ends before it
    let records = vec![
        SymbolRecord::Procedure(procedure(4, 20, 0x1000, 0x50, "outer", Vec::new())),
        SymbolRecord::Other(20),
        SymbolRecord::Procedure(procedure(24, 40, 0x1010, 0x10, "inner", Vec::new())),
        SymbolRecord::Other(40),
    ];
    let publics = vec![PublicSymbolFunction {
        start_offset: SectionOffset { section: 1, offset: 0x1000 },
        start_rva: Some(0x1000),
        name: "pub1000".to_string(),
    }];
    let ctx = context_with(records, publics);
    match ctx.find_function(at(0x1030)) {
        Lookup::Found(f) => {
            assert_eq!(f.name.as_deref(), Some("outer"));
            assert_eq!(f.end_rva, Some(0x1050));
        }
        _ => panic!("expected a function"),
    }
    match ctx.find_function(at(0x1014)) {
        Lookup::Found(f) => assert_eq!(f.name.as_deref(), Some("inner")),
        _ => panic!("expected a function"),
    }
}

#[test]
fn covering_inline_range_is_found_past_a_later_one() {
    // at depth 0, [0x1000, 0x1040) holds the probe; [0x1008, 0x1010) starts later and ends before it
    let records = vec![
        SymbolRecord::Procedure(procedure(4, 100, 0x1000, 0x50, "foo", vec![line(0x1000, "a.c", 10)])),
        SymbolRecord::InlineSite(site(10, 20, 1, "wide", vec![inline_line(0x1000, 0x40, "w.c", 5)])),
        SymbolRecord::Other(20),
        SymbolRecord::InlineSite(site(30, 40, 2, "narrow", vec![inline_line(0x1008, 8, "n.c", 6)])),
        SymbolRecord::Other(40),
        SymbolRecord::Other(100),
    ];
    let mut ctx = context_with(records, Vec::new());
    let f = frames(&mut ctx, 0x1020).unwrap();
    assert_eq!(f.frames.len(), 2);
    assert_eq!(f.frames[0].function.as_deref(), Some("wide"));
    assert_eq!(f.frames[0].line, Some(5));
    assert_eq!(f.frames[1].function.as_deref(), Some("foo"));
}
