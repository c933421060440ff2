//! The collector: a bump-pointer heap, the collect-at-next-poll flag and the
//! safepoint table.
use vstd::prelude::*;

use crate::safepoints::{gen_safepoint_table, safepoint_table, FunctionInfo, PtrSlot, SafepointTable, StackMapError, StackMapRecord};

verus! {

/// Errors that the collector reports to its callers.
#[derive(Debug)]
pub enum GcErr {
    /// The heap has no room for the object, even after a collection.
    OOM(String),
    /// The stack-map section cannot be turned into a safepoint table.
    StackMap(StackMapError),
}

/// What a managed value must offer: the enumeration of the heap references it
/// holds. A value with no heap references offers none.
pub trait Scan {
    fn scan(&self) {
    }
}

/// The abstract state of a collector.
pub struct HeapModel {
    /// The heap's bytes; a heap address is an index into them.
    pub bytes: Seq<u8>,
    /// The bump pointer: the address of the next free byte.
    pub bump: nat,
    /// Whether a collection is requested at the next poll.
    pub collect_next: bool,
    /// The safepoint table, once installed.
    pub table: Option<Map<u64, Seq<PtrSlot>>>,
}

/// `bytes` with `obj` written from address `at` on.
pub open spec fn write_bytes(bytes: Seq<u8>, at: int, obj: Seq<u8>) -> Seq<u8> {
    Seq::new(bytes.len(), |i: int| if at <= i < at + obj.len() { obj[i - at] } else { bytes[i] })
}

/// Whether a block of `n` bytes can be reserved: its end must lie strictly
/// below the end of the heap, so the heap's last byte is never handed out.
pub open spec fn fits(m: HeapModel, n: nat) -> bool {
    m.bump + n < m.bytes.len()
}

/// One allocation of the bytes `obj`: the new state and the block's address,
/// or `None` when the heap is exhausted. A collection runs before the failing
/// retry; it frees nothing and clears the collection request.
pub open spec fn alloc_model(m: HeapModel, obj: Seq<u8>) -> (HeapModel, Option<nat>) {
    if fits(m, obj.len()) {
        (
            HeapModel {
                bytes: write_bytes(m.bytes, m.bump as int, obj),
                bump: (m.bump + obj.len()) as nat,
                collect_next: m.collect_next,
                table: m.table,
            },
            Some(m.bump),
        )
    } else {
        (HeapModel { bytes: m.bytes, bump: m.bump, collect_next: false, table: m.table }, None)
    }
}

/// A run of allocations, one after another from `m`: the final state and the
/// result of each.
pub open spec fn alloc_all(m: HeapModel, objs: Seq<Seq<u8>>) -> (HeapModel, Seq<Option<nat>>)
    decreases objs.len(),
{
    if objs.len() == 0 {
        (m, Seq::empty())
    } else {
        let prev = alloc_all(m, objs.drop_last());
        let step = alloc_model(prev.0, objs.last());
        (step.0, prev.1.push(step.1))
    }
}

/// The sum of the lengths of `objs`.
pub open spec fn total_len(objs: Seq<Seq<u8>>) -> nat
    decreases objs.len(),
{
    if objs.len() == 0 {
        0
    } else {
        total_len(objs.drop_last()) + objs.last().len()
    }
}

proof fn lemma_alloc_all_in_room(m: HeapModel, objs: Seq<Seq<u8>>)
    requires
        m.bump + total_len(objs) < m.bytes.len(),
    ensures
        alloc_all(m, objs).0.bump == m.bump + total_len(objs),
        alloc_all(m, objs).0.bytes.len() == m.bytes.len(),
        alloc_all(m, objs).1.len() == objs.len(),
        forall|i: int| 0 <= i < objs.len() ==> {
            let a = #[trigger] alloc_all(m, objs).1[i];
            &&& a is Some
            &&& a->Some_0 + objs[i].len() <= alloc_all(m, objs).0.bump
            &&& alloc_all(m, objs).0.bytes.subrange(a->Some_0 as int, a->Some_0 + objs[i].len() as int) == objs[i]
        },
    decreases objs.len(),
{
    if objs.len() > 0 {
        let init = objs.drop_last();
        lemma_alloc_all_in_room(m, init);
        let prev = alloc_all(m, init);
        let obj = objs.last();
        let cur = alloc_all(m, objs);
        assert(fits(prev.0, obj.len()));
        assert forall|i: int| 0 <= i < objs.len() implies {
            let a = #[trigger] cur.1[i];
            &&& a is Some
            &&& a->Some_0 + objs[i].len() <= cur.0.bump
            &&& cur.0.bytes.subrange(a->Some_0 as int, a->Some_0 + objs[i].len() as int) == objs[i]
        } by {
            let a = cur.1[i]->Some_0;
            if i < objs.len() - 1 {
                assert(cur.1[i] == prev.1[i]);
                assert(init[i] == objs[i]);
                assert(cur.0.bytes.subrange(a as int, a + objs[i].len() as int) =~= prev.0.bytes.subrange(a as int, a + objs[i].len() as int));
            } else {
                assert(cur.0.bytes.subrange(a as int, a + objs[i].len() as int) =~= obj);
            }
        }
    }
}

/// Bump allocation: when the sizes of a run of allocations add up to less
/// than the room left between the bump pointer and the heap's end, every
/// allocation succeeds, and each block reads back as exactly the bytes that
/// were allocated into it.
pub proof fn lemma_bump_allocation(m: HeapModel, objs: Seq<Seq<u8>>)
    requires
        m.bump + total_len(objs) < m.bytes.len(),
    ensures
        forall|i: int| 0 <= i < objs.len() ==> {
            let a = #[trigger] alloc_all(m, objs).1[i];
            &&& a is Some
            &&& alloc_all(m, objs).0.bytes.subrange(a->Some_0 as int, a->Some_0 + objs[i].len() as int) == objs[i]
        },
{
    lemma_alloc_all_in_room(m, objs);
}

/// `k` copies of the bytes `obj`.
pub open spec fn copies(obj: Seq<u8>, k: nat) -> Seq<Seq<u8>> {
    Seq::new(k, |_j: int| obj)
}

/// How many of `k` allocations of `s` bytes each succeed on an empty heap of
/// `h` bytes.
spec fn successes(s: nat, h: nat, k: nat) -> nat
    decreases k,
{
    if k == 0 {
        0
    } else {
        let c = successes(s, h, (k - 1) as nat);
        if (c + 1) * s < h { c + 1 } else { c }
    }
}

proof fn lemma_successes(s: nat, h: nat, k: nat)
    requires
        s > 0,
    ensures
        k * s < h ==> successes(s, h, k) == k,
        k * s >= h ==> (successes(s, h, k) + 1) * s >= h,
    decreases k,
{
    if k > 0 {
        lemma_successes(s, h, (k - 1) as nat);
        assert(((k - 1) as nat) * s + s == k * s) by (nonlinear_arith)
            requires
                k > 0,
        ;
    } else {
        assert(0 * s == 0) by (nonlinear_arith);
        assert((0nat + 1) * s == s) by (nonlinear_arith);
    }
}

proof fn lemma_alloc_run(m: HeapModel, obj: Seq<u8>, k: nat)
    requires
        m.bump == 0,
        obj.len() > 0,
    ensures
        alloc_all(m, copies(obj, k)).0.bump == successes(obj.len(), m.bytes.len(), k) * obj.len(),
        alloc_all(m, copies(obj, k)).0.bytes.len() == m.bytes.len(),
        alloc_all(m, copies(obj, k)).1.len() == k,
        forall|i: int| 0 <= i < k ==> (#[trigger] alloc_all(m, copies(obj, k)).1[i] is Some
            <==> (successes(obj.len(), m.bytes.len(), i as nat) + 1) * obj.len() < m.bytes.len()),
    decreases k,
{
    if k == 0 {
        assert(0 * obj.len() == 0) by (nonlinear_arith);
    } else {
        let objs = copies(obj, k);
        let init = copies(obj, (k - 1) as nat);
        assert(objs.drop_last() =~= init);
        lemma_alloc_run(m, obj, (k - 1) as nat);
        let c = successes(obj.len(), m.bytes.len(), (k - 1) as nat);
        assert(c * obj.len() + obj.len() == (c + 1) * obj.len()) by (nonlinear_arith);
        let prev = alloc_all(m, init);
        let cur = alloc_all(m, objs);
        assert forall|i: int| 0 <= i < k implies (#[trigger] cur.1[i] is Some
            <==> (successes(obj.len(), m.bytes.len(), i as nat) + 1) * obj.len() < m.bytes.len()) by {
            if i < k - 1 {
                assert(cur.1[i] == prev.1[i]);
            }
        }
    }
}

/// Exhaustion: on an empty heap of `H` bytes, allocating a value of `S > 0`
/// bytes again and again, the `i`-th allocation (counting from zero) succeeds
/// exactly when `(i + 1) * S < H`. So `(H - 1) / S` allocations succeed and
/// every one after them fails, the collection before each retry freeing
/// nothing.
pub proof fn lemma_oom_boundary(m: HeapModel, obj: Seq<u8>, k: nat)
    requires
        m.bump == 0,
        obj.len() > 0,
    ensures
        forall|i: int| 0 <= i < k ==> (#[trigger] alloc_all(m, copies(obj, k)).1[i] is Some
            <==> (i + 1) * obj.len() < m.bytes.len()),
{
    lemma_alloc_run(m, obj, k);
    let s = obj.len();
    let h = m.bytes.len();
    assert forall|i: int| 0 <= i < k implies (#[trigger] alloc_all(m, copies(obj, k)).1[i] is Some
        <==> (i + 1) * s < h) by {
        lemma_successes(s, h, i as nat);
        assert((i as nat) * s + s == (i + 1) * s) by (nonlinear_arith)
            requires
                i >= 0,
        ;
    }
}

/// The collector: owns the heap, the bump pointer, the collection request and
/// the safepoint table.
pub struct Collector {
    heap: Vec<u8>,
    hptr: usize,
    collect_next: bool,
    roots: Option<SafepointTable>,
}

impl View for Collector {
    type V = HeapModel;

    closed spec fn view(&self) -> HeapModel {
        HeapModel {
            bytes: self.heap@,
            bump: self.hptr as nat,
            collect_next: self.collect_next,
            table: match self.roots {
                Some(t) => Some(t@),
                None => None,
            },
        }
    }
}

impl Collector {
    /// The installed table records no register roots.
    pub closed spec fn table_wf(&self) -> bool {
        match self.roots {
            Some(t) => t.wf(),
            None => true,
        }
    }

    pub open spec fn wf(&self) -> bool {
        &&& self@.bump <= self@.bytes.len()
        &&& self.table_wf()
    }

    /// A collector with no heap and no safepoint table.
    pub fn new() -> (r: Self)
        ensures
            r.wf(),
            r@.bytes.len() == 0,
            r@.bump == 0,
            !r@.collect_next,
            r@.table is None,
    {
        Collector { heap: Vec::new(), hptr: 0, collect_next: false, roots: None }
    }

    /// Requests a collection at the next poll.
    pub fn collect_next(&mut self)
        requires
            old(self).wf(),
        ensures
            final(self).wf(),
            final(self)@ == (HeapModel { collect_next: true, ..old(self)@ }),
    {
        self.collect_next = true;
    }

    /// Whether a collection is requested.
    pub fn should_collect(&self) -> (r: bool)
        ensures
            r == self@.collect_next,
    {
        self.collect_next
    }

    /// Gives the collector a fresh heap of `size` bytes, all zero, with the
    /// bump pointer at its start.
    pub fn mk_heap(&mut self, size: usize)
        requires
            old(self).wf(),
        ensures
            final(self).wf(),
            final(self)@ == (HeapModel { bytes: Seq::new(size as nat, |_i: int| 0u8), bump: 0, ..old(self)@ }),
    {
        let mut heap: Vec<u8> = Vec::with_capacity(size);
        let mut k: usize = 0;
        while k < size
            invariant
                k <= size,
                heap@ =~= Seq::new(k as nat, |_i: int| 0u8),
            decreases size - k,
        {
            heap.push(0u8);
            k = k + 1;
        }
        self.heap = heap;
        self.hptr = 0;
        assert(self@.bytes =~= Seq::new(size as nat, |_i: int| 0u8));
    }

    /// Builds the safepoint table of a stack-map section and installs it. On
    /// an error the collector is left as it was.
    pub fn mk_root_table(&mut self, funcs: &Vec<FunctionInfo>, recs: &Vec<StackMapRecord>) -> (r: Result<(), StackMapError>)
        requires
            old(self).wf(),
        ensures
            final(self).wf(),
            match safepoint_table(funcs@, recs@) {
                Ok(t) => r is Ok && final(self)@ == (HeapModel { table: Some(t), ..old(self)@ }),
                Err(e) => r == Err::<(), StackMapError>(e) && final(self)@ == old(self)@,
            },
    {
        match gen_safepoint_table(funcs, recs) {
            Ok(t) => {
                self.roots = Some(t);
                Ok(())
            },
            Err(e) => Err(e),
        }
    }

    /// The installed safepoint table, if any.
    pub fn table(&self) -> (r: Option<&SafepointTable>)
        requires
            self.wf(),
        ensures
            match r {
                Some(t) => self@.table == Some(t@) && t.wf(),
                None => self@.table is None,
            },
    {
        match &self.roots {
            Some(t) => Some(t),
            None => None,
        }
    }

    /// Runs a collection. Tracing is not done yet, so every object is kept:
    /// the heap and the bump pointer stay as they are. The collection request
    /// is cleared.
    pub fn reclaim(&mut self)
        requires
            old(self).wf(),
        ensures
            final(self).wf(),
            final(self)@ == (HeapModel { collect_next: false, ..old(self)@ }),
    {
        self.collect_next = false;
    }

    /// Reserves `size` bytes at the bump pointer and returns their address.
    /// When the block's end would not lie strictly below the heap's end, it
    /// fails and nothing changes.
    fn reserve_block(&mut self, size: usize) -> (r: Result<usize, GcErr>)
        requires
            old(self).wf(),
        ensures
            final(self).wf(),
            match r {
                Ok(a) => fits(old(self)@, size as nat) && a == old(self)@.bump
                    && final(self)@ == (HeapModel { bump: (old(self)@.bump + size) as nat, ..old(self)@ }),
                Err(e) => !fits(old(self)@, size as nat) && e is OOM && final(self)@ == old(self)@,
            },
    {
        let hptr = self.hptr;
        if size < self.heap.len() - hptr {
            self.hptr = hptr + size;
            Ok(hptr)
        } else {
            Err(GcErr::OOM(String::from_str("No free space available")))
        }
    }

    /// Copies the bytes of a value into the heap and returns the address of
    /// the copy. When the heap has no room, a collection runs and the
    /// reservation is tried once more; if that fails too, the result is an
    /// out-of-memory error.
    pub fn alloc_obj(&mut self, object: &[u8]) -> (r: Result<usize, GcErr>)
        requires
            old(self).wf(),
        ensures
            final(self).wf(),
            r is Ok <==> fits(old(self)@, object@.len()),
            match r {
                Ok(a) => alloc_model(old(self)@, object@) == (final(self)@, Some(a as nat)),
                Err(e) => e is OOM && alloc_model(old(self)@, object@) == (final(self)@, None::<nat>),
            },
    {
        let size = object.len();
        let addr = match self.reserve_block(size) {
            Ok(a) => a,
            Err(_) => {
                self.reclaim();
                self.reserve_block(size)?
            },
        };
        let ghost before = self.heap@;
        let ghost mid = self@;
        let hlen = self.heap.len();
        let mut k: usize = 0;
        while k < size
            invariant
                k <= size,
                size == object@.len(),
                hlen == self.heap@.len(),
                addr + size < hlen,
                self@.bump == mid.bump,
                self@.collect_next == mid.collect_next,
                self@.table == mid.table,
                self.table_wf(),
                mid.bytes == before,
                self.heap@.len() == before.len(),
                forall|i: int| addr <= i < addr + k ==> self.heap@[i] == object@[i - addr],
                forall|i: int| 0 <= i < before.len() && !(addr <= i < addr + k) ==> self.heap@[i] == before[i],
            decreases size - k,
        {
            self.heap.set(addr + k, object[k]);
            k = k + 1;
        }
        assert(self.heap@ =~= write_bytes(before, addr as int, object@));
        Ok(addr)
    }

    /// The `len` bytes of the heap from address `addr` on.
    pub fn read_bytes(&self, addr: usize, len: usize) -> (r: Vec<u8>)
        requires
            addr + len <= self@.bytes.len(),
        ensures
            r@ == self@.bytes.subrange(addr as int, addr + len),
    {
        let mut out: Vec<u8> = Vec::with_capacity(len);
        let hlen = self.heap.len();
        let mut k: usize = 0;
        while k < len
            invariant
                k <= len,
                hlen == self.heap@.len(),
                addr + len <= hlen,
                out@ =~= self.heap@.subrange(addr as int, addr + k),
            decreases len - k,
        {
            out.push(self.heap[addr + k]);
            k = k + 1;
        }
        out
    }
}

} // verus!
