use gcrt::{
    gen_safepoint_table, init, resolve_roots, Collector, Frame, FunctionInfo, RootSlot, GcErr, LocKind, LocOffset, Location, PtrSlot,
    ReturnAddress, StackMapError, StackMapRecord, SPO,
};
use gcrt::safepoints::{as_sp_offset, gen_safepoint_roots, pair_slot};

fn loc(kind: LocKind, offset: LocOffset) -> Location {
    Location { kind, offset }
}

fn constant(c: u32) -> Location {
    loc(LocKind::Constant, LocOffset::U32(c))
}

fn indirect(o: i32) -> Location {
    loc(LocKind::Indirect, LocOffset::I32(o))
}

fn register(r: i32) -> Location {
    loc(LocKind::Register, LocOffset::I32(r))
}

// A record: the two header constants, `deopts` de-optimisation locations,
// then the GC-pointer locations.
fn record(deopts: u32, ptrs: &[Location]) -> StackMapRecord {
    let mut locs = vec![constant(0), constant(0), constant(deopts)];
    for k in 0..deopts {
        locs.push(constant(100 + k));
    }
    locs.extend_from_slice(ptrs);
    StackMapRecord { locs }
}

#[test]
fn equal_offsets_classify_as_base() {
    assert_eq!(pair_slot(&indirect(8), &indirect(8)), Ok(Some(PtrSlot::Base(SPO(8)))));
}

#[test]
fn different_offsets_classify_as_derived() {
    assert_eq!(
        pair_slot(&indirect(8), &indirect(-16)),
        Ok(Some(PtrSlot::Derived(SPO(8), SPO(-16))))
    );
}

#[test]
fn register_pairs_are_skipped() {
    assert_eq!(pair_slot(&register(3), &register(3)), Ok(None));
}

#[test]
fn mixed_kinds_are_unsupported() {
    assert_eq!(pair_slot(&indirect(8), &register(3)), Err(StackMapError::UnsupportedLocations));
    assert_eq!(pair_slot(&register(3), &indirect(8)), Err(StackMapError::UnsupportedLocations));
    let direct = loc(LocKind::Direct, LocOffset::I32(8));
    assert_eq!(pair_slot(&direct, &direct), Err(StackMapError::UnsupportedLocations));
}

#[test]
fn unsigned_stack_offset_is_rejected() {
    let u = loc(LocKind::Indirect, LocOffset::U32(8));
    assert_eq!(pair_slot(&u, &u), Err(StackMapError::OffsetNotSigned));
    assert_eq!(as_sp_offset(&LocOffset::U32(8)), Err(StackMapError::OffsetNotSigned));
    assert_eq!(as_sp_offset(&LocOffset::I32(-4)), Ok(SPO(-4)));
}

#[test]
fn record_skips_deopts_and_registers() {
    let rec = record(2, &[indirect(0), indirect(0), register(1), register(1), indirect(8), indirect(24)]);
    let roots = gen_safepoint_roots(&rec).unwrap();
    assert!(roots.registers().is_empty());
    assert_eq!(roots.stack_offsets(), &vec![PtrSlot::Base(SPO(0)), PtrSlot::Derived(SPO(8), SPO(24))]);
}

#[test]
fn record_without_pointers_has_no_roots() {
    let roots = gen_safepoint_roots(&record(0, &[])).unwrap();
    assert!(roots.stack_offsets().is_empty());
}

#[test]
fn odd_pointer_count_is_rejected() {
    let rec = record(1, &[indirect(0), indirect(0), indirect(8)]);
    assert_eq!(gen_safepoint_roots(&rec).err(), Some(StackMapError::OddPointerCount));
    let funcs = vec![FunctionInfo { addr: 0x10, record_count: 1 }];
    assert_eq!(gen_safepoint_table(&funcs, &vec![rec]).err(), Some(StackMapError::OddPointerCount));
}

#[test]
fn malformed_headers_are_rejected() {
    let short = StackMapRecord { locs: vec![constant(0), constant(0)] };
    assert_eq!(gen_safepoint_roots(&short).err(), Some(StackMapError::MissingHeader));
    let not_constant = StackMapRecord { locs: vec![indirect(0), constant(0), constant(0)] };
    assert_eq!(gen_safepoint_roots(&not_constant).err(), Some(StackMapError::HeaderNotConstant));
    let signed_count = StackMapRecord { locs: vec![constant(0), constant(0), loc(LocKind::Constant, LocOffset::I32(1))] };
    assert_eq!(gen_safepoint_roots(&signed_count).err(), Some(StackMapError::DeoptCountNotU32));
    let truncated = StackMapRecord { locs: vec![constant(0), constant(0), constant(2), constant(7)] };
    assert_eq!(gen_safepoint_roots(&truncated).err(), Some(StackMapError::TruncatedDeopts));
}

#[test]
fn table_round_trip() {
    let funcs = vec![
        FunctionInfo { addr: 0x1000, record_count: 1 },
        FunctionInfo { addr: 0x2000, record_count: 0 },
        FunctionInfo { addr: 0x3000, record_count: 2 },
    ];
    let recs = vec![
        record(0, &[indirect(16), indirect(16)]),
        record(1, &[indirect(8), indirect(12)]),
        record(0, &[indirect(0), indirect(0), indirect(4), indirect(4)]),
    ];
    let table = gen_safepoint_table(&funcs, &recs).unwrap();
    assert_eq!(table.len(), 2);
    assert_eq!(
        table.get(ReturnAddress(0x1000)).unwrap().stack_offsets(),
        &vec![PtrSlot::Base(SPO(16))]
    );
    assert!(table.get(ReturnAddress(0x2000)).is_none());
    // The function's later record replaces the earlier one under its address.
    assert_eq!(
        table.get(ReturnAddress(0x3000)).unwrap().stack_offsets(),
        &vec![PtrSlot::Base(SPO(0)), PtrSlot::Base(SPO(4))]
    );
}

#[test]
fn table_stops_at_last_record() {
    let funcs = vec![
        FunctionInfo { addr: 0x1000, record_count: 3 },
        FunctionInfo { addr: 0x2000, record_count: 1 },
    ];
    let recs = vec![record(0, &[indirect(8), indirect(8)])];
    let table = gen_safepoint_table(&funcs, &recs).unwrap();
    assert_eq!(table.len(), 1);
    assert!(table.get(ReturnAddress(0x2000)).is_none());
}

#[test]
fn unused_bad_record_is_not_read() {
    let funcs = vec![FunctionInfo { addr: 0x1000, record_count: 1 }];
    let recs = vec![record(0, &[]), record(0, &[indirect(0)])];
    assert_eq!(gen_safepoint_table(&funcs, &recs).unwrap().len(), 1);
}

#[test]
fn init_installs_table_and_heap() {
    let mut gc = Collector::new();
    let funcs = vec![FunctionInfo { addr: 0x40, record_count: 1 }];
    let recs = vec![record(0, &[indirect(8), indirect(16)])];
    assert!(init(&mut gc, &funcs, &recs, 32).is_ok());
    let table = gc.table().unwrap();
    assert_eq!(
        table.get(ReturnAddress(0x40)).unwrap().stack_offsets(),
        &vec![PtrSlot::Derived(SPO(8), SPO(16))]
    );
    assert_eq!(gc.alloc_obj(&[1; 16]).unwrap(), 0);
}

#[test]
fn init_reports_bad_section() {
    let mut gc = Collector::new();
    let funcs = vec![FunctionInfo { addr: 0x40, record_count: 1 }];
    let recs = vec![record(0, &[indirect(8), register(2)])];
    match init(&mut gc, &funcs, &recs, 32) {
        Err(GcErr::StackMap(e)) => assert_eq!(e, StackMapError::UnsupportedLocations),
        other => panic!("expected a stack-map error, got {:?}", other),
    }
    assert!(gc.table().is_none());
    assert!(gc.alloc_obj(&[1]).is_err());
}

#[test]
fn roots_resolve_against_each_frame() {
    let funcs = vec![
        FunctionInfo { addr: 0x1000, record_count: 1 },
        FunctionInfo { addr: 0x2000, record_count: 1 },
    ];
    let recs = vec![
        record(0, &[indirect(8), indirect(8), indirect(-16), indirect(24)]),
        record(0, &[indirect(0), indirect(0)]),
    ];
    let table = gen_safepoint_table(&funcs, &recs).unwrap();
    let frames = vec![
        Frame { ret: ReturnAddress(0x1000), sp: 0x7000 },
        Frame { ret: ReturnAddress(0x9999), sp: 0x7100 },
        Frame { ret: ReturnAddress(0x2000), sp: 0x7200 },
    ];
    assert_eq!(
        resolve_roots(&table, &frames),
        Some(vec![RootSlot::Base(0x7008), RootSlot::Derived(0x6ff0, 0x7018), RootSlot::Base(0x7200)])
    );
    assert_eq!(resolve_roots(&table, &vec![]), Some(vec![]));
}

#[test]
fn roots_outside_address_space_fail() {
    let funcs = vec![FunctionInfo { addr: 0x1000, record_count: 1 }];
    let recs = vec![record(0, &[indirect(-16), indirect(-16)])];
    let table = gen_safepoint_table(&funcs, &recs).unwrap();
    assert_eq!(resolve_roots(&table, &vec![Frame { ret: ReturnAddress(0x1000), sp: 8 }]), None);
    let high = vec![record(0, &[indirect(16), indirect(16)])];
    let table = gen_safepoint_table(&funcs, &high).unwrap();
    assert_eq!(resolve_roots(&table, &vec![Frame { ret: ReturnAddress(0x1000), sp: u64::MAX - 8 }]), None);
    assert_eq!(
        resolve_roots(&table, &vec![Frame { ret: ReturnAddress(0x1000), sp: u64::MAX - 16 }]),
        Some(vec![RootSlot::Base(u64::MAX)])
    );
}
