//! Runtime core of a precise, cooperative garbage collector: a bump-pointer
//! heap, the safepoint collection trigger, and the table of stack roots built
//! from compiler-emitted stack-map records.
//!
//! Each mutator thread owns one `Collector` and hands it to these entry points.
use vstd::prelude::*;

pub mod collector;
pub mod safepoints;

pub use collector::{alloc_model, fits, write_bytes, Collector, GcErr, HeapModel, Scan};
pub use safepoints::{
    gen_safepoint_table, resolve_roots, Frame, FunctionInfo, LocKind, LocOffset, Location, PtrSlot, ReturnAddress,
    RootSlot, SafepointRoots, SafepointTable, StackMapError, StackMapRecord, SPO,
};

verus! {

/// Sets a collector up before any allocation: builds the safepoint table from
/// the stack-map section's functions and records and installs it, then gives
/// the collector a zeroed heap of `heap_size` bytes. When the section cannot
/// be decoded the collector is left as it was.
pub fn init(c: &mut Collector, funcs: &Vec<FunctionInfo>, recs: &Vec<StackMapRecord>, heap_size: usize) -> (r: Result<(), GcErr>)
    requires
        old(c).wf(),
    ensures
        final(c).wf(),
        match safepoints::safepoint_table(funcs@, recs@) {
            Ok(t) => r is Ok && final(c)@ == (HeapModel {
                bytes: Seq::new(heap_size as nat, |_i: int| 0u8),
                bump: 0,
                table: Some(t),
                ..old(c)@
            }),
            Err(e) => r matches Err(GcErr::StackMap(e2)) && e2 == e && final(c)@ == old(c)@,
        },
{
    match c.mk_root_table(funcs, recs) {
        Ok(()) => {},
        Err(e) => return Err(GcErr::StackMap(e)),
    }
    c.mk_heap(heap_size);
    Ok(())
}

/// The check that generated code makes at every safepoint: collects only when
/// a collection was requested.
pub fn safepoint_poll(c: &mut Collector)
    requires
        old(c).wf(),
    ensures
        final(c).wf(),
        final(c)@ == (HeapModel { collect_next: false, ..old(c)@ }),
{
    if c.should_collect() {
        c.reclaim();
    }
}

/// Runs a collection now, whether or not one was requested.
pub fn force_collect(c: &mut Collector)
    requires
        old(c).wf(),
    ensures
        final(c).wf(),
        final(c)@ == (HeapModel { collect_next: false, ..old(c)@ }),
{
    c.reclaim();
}

/// Stores the bytes of a managed value in the heap; all heap allocation goes
/// through here.
pub fn alloc_raw(c: &mut Collector, object: &[u8]) -> (r: Result<usize, GcErr>)
    requires
        old(c).wf(),
    ensures
        final(c).wf(),
        r is Ok <==> fits(old(c)@, object@.len()),
        match r {
            Ok(a) => alloc_model(old(c)@, object@) == (final(c)@, Some(a as nat)),
            Err(e) => e is OOM && alloc_model(old(c)@, object@) == (final(c)@, None::<nat>),
        },
{
    c.alloc_obj(object)
}

} // verus!
