//! Decoding of stack-map records into per-safepoint root descriptions, and the
//! safepoint table keyed by return address.
use std::collections::HashMap;
use vstd::prelude::*;

verus! {

/// A call-site / safepoint location in the compiled program. Only ever used
/// as a lookup key.
#[derive(Clone, Copy, Debug, Hash, PartialEq, Eq, Structural)]
pub struct ReturnAddress(pub u64);

/// The kind of a stack-map location, as the code generator emits it.
#[derive(Clone, Copy, Debug, PartialEq, Eq, Structural)]
pub enum LocKind {
    /// The value lives in a register.
    Register,
    /// The value is the frame pointer plus an offset.
    Direct,
    /// The value lives in memory at the stack pointer plus an offset.
    Indirect,
    /// The value is a small constant held in the offset field.
    Constant,
    /// The value is a constant held in the record's constant pool.
    ConstIndex,
}

/// The offset field of a stack-map location.
#[derive(Clone, Copy, Debug, PartialEq, Eq, Structural)]
pub enum LocOffset {
    I32(i32),
    U32(u32),
}

/// One location of a stack-map record.
#[derive(Clone, Copy, Debug, PartialEq, Eq, Structural)]
pub struct Location {
    pub kind: LocKind,
    pub offset: LocOffset,
}

/// One stack-map record: the locations live at one safepoint.
#[derive(Clone, Debug)]
pub struct StackMapRecord {
    pub locs: Vec<Location>,
}

/// One function of the stack-map section: its address and how many of the
/// section's records (taken in order) belong to it.
#[derive(Clone, Copy, Debug, PartialEq, Eq, Structural)]
pub struct FunctionInfo {
    pub addr: u64,
    pub record_count: u64,
}

/// An offset in bytes from the stack pointer at the safepoint.
#[derive(Clone, Copy, Debug, PartialEq, Eq, Structural)]
pub struct SPO(pub i32);

/// Where one stack root lives at a safepoint, relative to the stack pointer.
#[derive(Clone, Copy, Debug, PartialEq, Eq, Structural)]
pub enum PtrSlot {
    /// The slot holds a pointer to the start of an object.
    Base(SPO),
    /// The second slot holds a pointer into the interior of the object whose
    /// base pointer is held in the first slot.
    Derived(SPO, SPO),
}

/// Why a stack-map record cannot be decoded.
#[derive(Clone, Copy, Debug, PartialEq, Eq, Structural)]
pub enum StackMapError {
    /// The record has fewer than the three leading header locations.
    MissingHeader,
    /// One of the first two locations is not a constant.
    HeaderNotConstant,
    /// The de-optimisation count is not an unsigned 32-bit constant.
    DeoptCountNotU32,
    /// The record ends before the de-optimisation locations do.
    TruncatedDeopts,
    /// An odd number of GC-pointer locations follows the de-optimisation ones.
    OddPointerCount,
    /// A base/derived pair of location kinds that cannot be scanned.
    UnsupportedLocations,
    /// A stack offset that is not a signed 32-bit value.
    OffsetNotSigned,
}

/// What a (base, derived) pair of locations contributes: `Ok(None)` when it is
/// skipped (both in registers), `Ok(Some(slot))` for a stack root.
pub open spec fn pair_slot_spec(base: Location, derived: Location) -> Result<Option<PtrSlot>, StackMapError> {
    if base.kind == LocKind::Register && derived.kind == LocKind::Register {
        Ok(None)
    } else if base.kind == LocKind::Indirect && derived.kind == LocKind::Indirect {
        match (base.offset, derived.offset) {
            (LocOffset::I32(b), LocOffset::I32(d)) => if b == d {
                Ok(Some(PtrSlot::Base(SPO(b))))
            } else {
                Ok(Some(PtrSlot::Derived(SPO(b), SPO(d))))
            },
            _ => Err(StackMapError::OffsetNotSigned),
        }
    } else {
        Err(StackMapError::UnsupportedLocations)
    }
}

/// Converts the offset of a stack-relative location to an offset from the
/// stack pointer.
pub fn as_sp_offset(offset: &LocOffset) -> (r: Result<SPO, StackMapError>)
    ensures
        match *offset {
            LocOffset::I32(o) => r == Ok::<SPO, StackMapError>(SPO(o)),
            _ => r == Err::<SPO, StackMapError>(StackMapError::OffsetNotSigned),
        },
{
    match offset {
        LocOffset::I32(o) => Ok(SPO(*o)),
        _ => Err(StackMapError::OffsetNotSigned),
    }
}

/// Classifies a (base, derived) pair of GC-pointer locations.
pub fn pair_slot(base: &Location, derived: &Location) -> (r: Result<Option<PtrSlot>, StackMapError>)
    ensures
        r == pair_slot_spec(*base, *derived),
{
    match (base.kind, derived.kind) {
        (LocKind::Register, LocKind::Register) => Ok(None),
        (LocKind::Indirect, LocKind::Indirect) => {
            let b = as_sp_offset(&base.offset)?;
            let d = as_sp_offset(&derived.offset)?;
            if b.0 == d.0 {
                Ok(Some(PtrSlot::Base(b)))
            } else {
                Ok(Some(PtrSlot::Derived(b, d)))
            }
        },
        _ => Err(StackMapError::UnsupportedLocations),
    }
}

/// Root locations at one safepoint.
#[derive(Clone, Debug)]
pub struct SafepointRoots {
    /// DWARF numbers of the registers that hold roots across the safepoint.
    /// Register roots are not reported yet, so this is always empty.
    registers: Vec<u16>,
    /// The roots that are reachable from the stack pointer.
    stack_offsets: Vec<PtrSlot>,
}

impl View for SafepointRoots {
    type V = Seq<PtrSlot>;

    closed spec fn view(&self) -> Seq<PtrSlot> {
        self.stack_offsets@
    }
}

impl SafepointRoots {
    /// No register roots are recorded.
    pub closed spec fn wf(&self) -> bool {
        self.registers@.len() == 0
    }

    /// The registers that hold roots (always none for now).
    pub fn registers(&self) -> (r: &Vec<u16>)
        requires
            self.wf(),
        ensures
            r@.len() == 0,
    {
        &self.registers
    }

    /// The stack roots, in the order of the record's location pairs.
    pub fn stack_offsets(&self) -> (r: &Vec<PtrSlot>)
        ensures
            r@ == self@,
    {
        &self.stack_offsets
    }
}

/// The slots that the first `k` (base, derived) pairs of `ptrs` give, or the
/// error of the first pair that cannot be decoded.
pub open spec fn decode_pairs(ptrs: Seq<Location>, k: nat) -> Result<Seq<PtrSlot>, StackMapError>
    decreases k,
{
    if k == 0 {
        Ok(Seq::empty())
    } else {
        match decode_pairs(ptrs, (k - 1) as nat) {
            Err(e) => Err(e),
            Ok(v) => match pair_slot_spec(ptrs[2 * k - 2], ptrs[2 * k - 1]) {
                Err(e) => Err(e),
                Ok(None) => Ok(v),
                Ok(Some(p)) => Ok(v.push(p)),
            },
        }
    }
}

/// The stack roots that a record's locations describe: two header constants,
/// then the de-optimisation count and that many locations, then (base,
/// derived) pairs of GC-pointer locations.
pub open spec fn decode_roots(locs: Seq<Location>) -> Result<Seq<PtrSlot>, StackMapError> {
    if locs.len() < 3 {
        Err(StackMapError::MissingHeader)
    } else if locs[0].kind != LocKind::Constant || locs[1].kind != LocKind::Constant {
        Err(StackMapError::HeaderNotConstant)
    } else {
        match locs[2].offset {
            LocOffset::U32(c) => {
                let start = 3 + c;
                if start > locs.len() {
                    Err(StackMapError::TruncatedDeopts)
                } else if (locs.len() - start) % 2 != 0 {
                    Err(StackMapError::OddPointerCount)
                } else {
                    let ptrs = locs.subrange(start as int, locs.len() as int);
                    decode_pairs(ptrs, (ptrs.len() / 2) as nat)
                }
            },
            _ => Err(StackMapError::DeoptCountNotU32),
        }
    }
}

/// Once a prefix of the pairs fails, every longer prefix fails the same way.
proof fn lemma_decode_pairs_error_sticks(ptrs: Seq<Location>, k: nat, n: nat)
    requires
        k <= n,
        decode_pairs(ptrs, k) is Err,
    ensures
        decode_pairs(ptrs, n) == decode_pairs(ptrs, k),
    decreases n - k,
{
    if k < n {
        lemma_decode_pairs_error_sticks(ptrs, k, (n - 1) as nat);
    }
}

/// Decodes one stack-map record into the roots it describes.
pub fn gen_safepoint_roots(stackmap: &StackMapRecord) -> (r: Result<SafepointRoots, StackMapError>)
    ensures
        match r {
            Ok(roots) => roots.wf() && decode_roots(stackmap.locs@) == Ok::<Seq<PtrSlot>, StackMapError>(roots@),
            Err(e) => decode_roots(stackmap.locs@) == Err::<Seq<PtrSlot>, StackMapError>(e),
        },
{
    let locs = &stackmap.locs;
    let len = locs.len();
    if len < 3 {
        return Err(StackMapError::MissingHeader);
    }
    if locs[0].kind != LocKind::Constant || locs[1].kind != LocKind::Constant {
        return Err(StackMapError::HeaderNotConstant);
    }
    let num_deopts: u32 = match locs[2].offset {
        LocOffset::U32(c) => c,
        _ => return Err(StackMapError::DeoptCountNotU32),
    };
    if num_deopts as usize > len - 3 {
        return Err(StackMapError::TruncatedDeopts);
    }
    let start: usize = 3 + num_deopts as usize;
    if (len - start) % 2 != 0 {
        return Err(StackMapError::OddPointerCount);
    }
    let npairs: usize = (len - start) / 2;
    let ghost ptrs = locs@.subrange(start as int, len as int);
    assert(decode_roots(locs@) == decode_pairs(ptrs, npairs as nat));
    let mut offsets: Vec<PtrSlot> = Vec::new();
    let mut i: usize = 0;
    while i < npairs
        invariant
            i <= npairs,
            npairs == ptrs.len() / 2,
            ptrs.len() % 2 == 0,
            start + ptrs.len() == len,
            len == locs@.len(),
            locs@ == stackmap.locs@,
            ptrs == locs@.subrange(start as int, len as int),
            decode_roots(locs@) == decode_pairs(ptrs, npairs as nat),
            decode_pairs(ptrs, i as nat) == Ok::<Seq<PtrSlot>, StackMapError>(offsets@),
        decreases npairs - i,
    {
        let base = &locs[start + 2 * i];
        let derived = &locs[start + 2 * i + 1];
        assert(ptrs[2 * i as int] == *base && ptrs[2 * i + 1] == *derived);
        match pair_slot(base, derived) {
            Err(e) => {
                proof {
                    assert(decode_pairs(ptrs, (i + 1) as nat) == Err::<Seq<PtrSlot>, StackMapError>(e));
                    lemma_decode_pairs_error_sticks(ptrs, (i + 1) as nat, npairs as nat);
                }
                return Err(e);
            },
            Ok(None) => {},
            Ok(Some(p)) => {
                offsets.push(p);
            },
        }
        i = i + 1;
    }
    Ok(SafepointRoots { registers: Vec::new(), stack_offsets: offsets })
}

/// The return address that each record of the section belongs to, in order:
/// the first functions' addresses, each repeated by its record count.
pub open spec fn record_keys(funcs: Seq<FunctionInfo>, i: int) -> Seq<u64>
    decreases i,
{
    if i <= 0 || i > funcs.len() {
        Seq::empty()
    } else {
        record_keys(funcs, i - 1) + Seq::new(funcs[i - 1].record_count as nat, |_j: int| funcs[i - 1].addr)
    }
}

/// The table that the first `n` records give, each stored under its key (a
/// later record of the same function replaces an earlier one), or the error
/// of the first record that cannot be decoded.
pub open spec fn table_of(keys: Seq<u64>, recs: Seq<StackMapRecord>, n: nat) -> Result<Map<u64, Seq<PtrSlot>>, StackMapError>
    decreases n,
{
    if n == 0 {
        Ok(Map::empty())
    } else {
        match table_of(keys, recs, (n - 1) as nat) {
            Err(e) => Err(e),
            Ok(m) => match decode_roots(recs[n - 1].locs@) {
                Err(e) => Err(e),
                Ok(slots) => Ok(m.insert(keys[n - 1], slots)),
            },
        }
    }
}

/// How many records are used: as many as the functions claim, at most as many
/// as the section holds.
pub open spec fn records_used(funcs: Seq<FunctionInfo>, recs: Seq<StackMapRecord>) -> nat {
    let k = record_keys(funcs, funcs.len() as int).len();
    if k < recs.len() { k } else { recs.len() }
}

/// The safepoint table of a stack-map section.
pub open spec fn safepoint_table(funcs: Seq<FunctionInfo>, recs: Seq<StackMapRecord>) -> Result<Map<u64, Seq<PtrSlot>>, StackMapError> {
    table_of(record_keys(funcs, funcs.len() as int), recs, records_used(funcs, recs))
}

/// The keys of the first functions are a prefix of the keys of all of them.
proof fn lemma_record_keys_prefix(funcs: Seq<FunctionInfo>, i: int, n: int, k: int)
    requires
        0 <= i <= n <= funcs.len(),
        0 <= k < record_keys(funcs, i).len(),
    ensures
        k < record_keys(funcs, n).len(),
        record_keys(funcs, n)[k] == record_keys(funcs, i)[k],
    decreases n - i,
{
    if i < n {
        lemma_record_keys_prefix(funcs, i, n - 1, k);
    }
}

/// Once a record fails, the table of any longer run of records fails the same way.
proof fn lemma_table_error_sticks(keys: Seq<u64>, recs: Seq<StackMapRecord>, k: nat, n: nat)
    requires
        k <= n,
        table_of(keys, recs, k) is Err,
    ensures
        table_of(keys, recs, n) == table_of(keys, recs, k),
    decreases n - k,
{
    if k < n {
        lemma_table_error_sticks(keys, recs, k, (n - 1) as nat);
    }
}

/// The addresses of the section's functions, in order.
pub open spec fn function_addrs(funcs: Seq<FunctionInfo>) -> Seq<u64> {
    funcs.map_values(|f: FunctionInfo| f.addr)
}

proof fn lemma_record_keys_are_function_addrs(funcs: Seq<FunctionInfo>, i: int)
    requires
        0 <= i <= funcs.len(),
    ensures
        forall|j: int| 0 <= j < record_keys(funcs, i).len() ==> function_addrs(funcs).contains(#[trigger] record_keys(funcs, i)[j]),
    decreases i,
{
    if i > 0 {
        lemma_record_keys_are_function_addrs(funcs, i - 1);
        let prev = record_keys(funcs, i - 1);
        assert forall|j: int| 0 <= j < record_keys(funcs, i).len() implies function_addrs(funcs).contains(
            #[trigger] record_keys(funcs, i)[j],
        ) by {
            if j < prev.len() {
                assert(record_keys(funcs, i)[j] == prev[j]);
            } else {
                assert(record_keys(funcs, i)[j] == function_addrs(funcs)[i - 1]);
            }
        }
    }
}

proof fn lemma_table_of_keys(keys: Seq<u64>, recs: Seq<StackMapRecord>, n: nat)
    requires
        n <= keys.len(),
        n <= recs.len(),
        table_of(keys, recs, n) is Ok,
    ensures
        table_of(keys, recs, n)->Ok_0.dom().finite(),
        forall|k: u64| #[trigger] table_of(keys, recs, n)->Ok_0.contains_key(k) ==> keys.subrange(0, n as int).contains(k),
        forall|j: int| 0 <= j < n ==> table_of(keys, recs, n)->Ok_0.contains_key(#[trigger] keys[j]),
    decreases n,
{
    if n > 0 {
        lemma_table_of_keys(keys, recs, (n - 1) as nat);
        let t = table_of(keys, recs, n)->Ok_0;
        assert forall|k: u64| #[trigger] t.contains_key(k) implies keys.subrange(0, n as int).contains(k) by {
            if k == keys[n - 1] {
                assert(keys.subrange(0, n as int)[n - 1] == k);
            } else {
                let j = choose|j: int| 0 <= j < n - 1 && #[trigger] keys.subrange(0, n - 1)[j] == k;
                assert(keys.subrange(0, n as int)[j] == k);
            }
        }
    }
}

/// Table keys: every return address in a built table is the address of one
/// of the section's functions, so the table has at most one entry per
/// function; and every function for which the section holds at least one
/// record has an entry.
pub proof fn lemma_table_keys(funcs: Seq<FunctionInfo>, recs: Seq<StackMapRecord>)
    requires
        safepoint_table(funcs, recs) is Ok,
    ensures
        forall|k: u64| #[trigger] safepoint_table(funcs, recs)->Ok_0.contains_key(k) ==> function_addrs(funcs).contains(k),
        safepoint_table(funcs, recs)->Ok_0.dom().len() <= funcs.len(),
        forall|f: int| 0 <= f < funcs.len() && funcs[f].record_count > 0 && record_keys(funcs, f).len() < recs.len()
            ==> safepoint_table(funcs, recs)->Ok_0.contains_key(#[trigger] funcs[f].addr),
{
    let keys = record_keys(funcs, funcs.len() as int);
    let n = records_used(funcs, recs);
    let t = safepoint_table(funcs, recs)->Ok_0;
    lemma_table_of_keys(keys, recs, n);
    lemma_record_keys_are_function_addrs(funcs, funcs.len() as int);
    assert forall|k: u64| #[trigger] t.contains_key(k) implies function_addrs(funcs).contains(k) by {
        let j = choose|j: int| 0 <= j < n && #[trigger] keys.subrange(0, n as int)[j] == k;
        assert(keys[j] == k);
    }
    let addrs = function_addrs(funcs);
    assert(t.dom().subset_of(addrs.to_set()));
    addrs.lemma_cardinality_of_set();
    vstd::set_lib::lemma_len_subset(t.dom(), addrs.to_set());
    assert forall|f: int| 0 <= f < funcs.len() && funcs[f].record_count > 0 && record_keys(funcs, f).len() < recs.len()
        implies t.contains_key(#[trigger] funcs[f].addr) by {
        let j = record_keys(funcs, f).len() as int;
        assert(record_keys(funcs, f + 1)[j] == funcs[f].addr);
        lemma_record_keys_prefix(funcs, f + 1, funcs.len() as int, j);
    }
}

/// Odd pointer counts: a record with a well-formed header but an odd number
/// of GC-pointer locations after its de-optimisation locations is rejected,
/// and a section that uses such a record yields no table.
pub proof fn lemma_odd_pointer_count_rejected(funcs: Seq<FunctionInfo>, recs: Seq<StackMapRecord>, n: int)
    requires
        0 <= n < records_used(funcs, recs),
        recs[n].locs@.len() >= 3,
        recs[n].locs@[0].kind == LocKind::Constant,
        recs[n].locs@[1].kind == LocKind::Constant,
        recs[n].locs@[2].offset is U32,
        3 + recs[n].locs@[2].offset->U32_0 <= recs[n].locs@.len(),
        (recs[n].locs@.len() - 3 - recs[n].locs@[2].offset->U32_0) % 2 == 1,
    ensures
        decode_roots(recs[n].locs@) == Err::<Seq<PtrSlot>, StackMapError>(StackMapError::OddPointerCount),
        safepoint_table(funcs, recs) is Err,
{
    let keys = record_keys(funcs, funcs.len() as int);
    assert(table_of(keys, recs, (n + 1) as nat) is Err) by {
        if table_of(keys, recs, n as nat) is Err {
            lemma_table_error_sticks(keys, recs, n as nat, (n + 1) as nat);
        }
    }
    lemma_table_error_sticks(keys, recs, (n + 1) as nat, records_used(funcs, recs));
}

/// Base and derived classification: two stack-relative locations with signed
/// offsets give one base slot when the offsets are equal, and a derived slot
/// carrying both offsets when they differ.
pub proof fn lemma_pair_classification(base: Location, derived: Location, b: i32, d: i32)
    requires
        base.kind == LocKind::Indirect,
        derived.kind == LocKind::Indirect,
        base.offset == LocOffset::I32(b),
        derived.offset == LocOffset::I32(d),
    ensures
        b == d ==> pair_slot_spec(base, derived) == Ok::<Option<PtrSlot>, StackMapError>(Some(PtrSlot::Base(SPO(b)))),
        b != d ==> pair_slot_spec(base, derived) == Ok::<Option<PtrSlot>, StackMapError>(
            Some(PtrSlot::Derived(SPO(b), SPO(d))),
        ),
{
}

/// Maps each safepoint's return address to the roots live there.
pub struct SafepointTable {
    map: HashMap<u64, SafepointRoots>,
}

impl View for SafepointTable {
    type V = Map<u64, Seq<PtrSlot>>;

    closed spec fn view(&self) -> Map<u64, Seq<PtrSlot>> {
        Map::new(|k: u64| self.map@.contains_key(k), |k: u64| self.map@[k]@)
    }
}

impl SafepointTable {
    /// Every entry records no register roots.
    pub closed spec fn wf(&self) -> bool {
        forall|k: u64| #[trigger] self.map@.contains_key(k) ==> self.map@[k].wf()
    }

    /// The roots recorded for a return address.
    pub fn get(&self, ra: ReturnAddress) -> (r: Option<&SafepointRoots>)
        requires
            self.wf(),
        ensures
            match r {
                Some(roots) => self@.contains_key(ra.0) && roots@ == self@[ra.0] && roots.wf(),
                None => !self@.contains_key(ra.0),
            },
    {
        broadcast use vstd::std_specs::hash::group_hash_axioms;
        self.map.get(&ra.0)
    }

    /// The number of return addresses in the table.
    pub fn len(&self) -> (r: usize)
        ensures
            r == self@.dom().len(),
    {
        broadcast use vstd::std_specs::hash::group_hash_axioms;
        assert(self@.dom() =~= self.map@.dom());
        self.map.len()
    }
}

/// Builds the safepoint table of a stack-map section from its functions and
/// its records. Each function owns the next `record_count` records; each
/// record is decoded and stored under its function's address.
pub fn gen_safepoint_table(funcs: &Vec<FunctionInfo>, recs: &Vec<StackMapRecord>) -> (r: Result<SafepointTable, StackMapError>)
    ensures
        match r {
            Ok(t) => t.wf() && safepoint_table(funcs@, recs@) == Ok::<Map<u64, Seq<PtrSlot>>, StackMapError>(t@),
            Err(e) => safepoint_table(funcs@, recs@) == Err::<Map<u64, Seq<PtrSlot>>, StackMapError>(e),
        },
{
    broadcast use vstd::std_specs::hash::group_hash_axioms;
    let ghost keys = record_keys(funcs@, funcs@.len() as int);
    let ghost used = records_used(funcs@, recs@);
    let mut table = SafepointTable { map: HashMap::new() };
    let mut cursor: usize = 0;
    let mut i: usize = 0;
    assert(table@ =~= Map::<u64, Seq<PtrSlot>>::empty());
    while i < funcs.len()
        invariant
            i <= funcs@.len(),
            keys == record_keys(funcs@, funcs@.len() as int),
            used == records_used(funcs@, recs@),
            cursor <= recs@.len(),
            cursor as int == if record_keys(funcs@, i as int).len() < recs@.len() {
                record_keys(funcs@, i as int).len() as int
            } else {
                recs@.len() as int
            },
            table.wf(),
            table_of(keys, recs@, cursor as nat) == Ok::<Map<u64, Seq<PtrSlot>>, StackMapError>(table@),
        decreases funcs@.len() - i,
    {
        let func = funcs[i];
        let mut j: u64 = 0;
        let ghost before = record_keys(funcs@, i as int).len();
        assert(record_keys(funcs@, i + 1) == record_keys(funcs@, i as int) + Seq::new(func.record_count as nat, |_j: int| func.addr));
        while j < func.record_count && cursor < recs.len()
            invariant
                i < funcs@.len(),
                func == funcs@[i as int],
                j <= func.record_count,
                before == record_keys(funcs@, i as int).len(),
                record_keys(funcs@, i + 1) == record_keys(funcs@, i as int) + Seq::new(func.record_count as nat, |_j: int| func.addr),
                keys == record_keys(funcs@, funcs@.len() as int),
                used == records_used(funcs@, recs@),
                cursor <= recs@.len(),
                cursor as int == if before + j < recs@.len() { before + j } else { recs@.len() as int },
                table.wf(),
                table_of(keys, recs@, cursor as nat) == Ok::<Map<u64, Seq<PtrSlot>>, StackMapError>(table@),
            decreases func.record_count - j,
        {
            proof {
                lemma_record_keys_prefix(funcs@, i + 1, funcs@.len() as int, cursor as int);
            }
            assert(keys[cursor as int] == func.addr);
            match gen_safepoint_roots(&recs[cursor]) {
                Err(e) => {
                    proof {
                        assert(table_of(keys, recs@, (cursor + 1) as nat) == Err::<Map<u64, Seq<PtrSlot>>, StackMapError>(e));
                        assert(cursor + 1 <= used) by {
                            lemma_record_keys_prefix(funcs@, i + 1, funcs@.len() as int, cursor as int);
                        }
                        lemma_table_error_sticks(keys, recs@, (cursor + 1) as nat, used);
                    }
                    return Err(e);
                },
                Ok(roots) => {
                    let ghost old_view = table@;
                    table.map.insert(func.addr, roots);
                    assert(table@ =~= old_view.insert(func.addr, roots@));
                    cursor = cursor + 1;
                },
            }
            j = j + 1;
        }
        i = i + 1;
    }
    proof {
        assert(cursor == used);
    }
    Ok(table)
}

/// One active frame of the mutator's stack at a safepoint: the return
/// address of its call and its stack pointer.
#[derive(Clone, Copy, Debug, PartialEq, Eq, Structural)]
pub struct Frame {
    pub ret: ReturnAddress,
    pub sp: u64,
}

/// A root resolved to the absolute addresses of the stack slots that hold it.
#[derive(Clone, Copy, Debug, PartialEq, Eq, Structural)]
pub enum RootSlot {
    /// The slot at this address holds a base pointer.
    Base(u64),
    /// The slots at these addresses hold a base pointer and a pointer into
    /// the same object, to be moved together.
    Derived(u64, u64),
}

/// The address of the slot at offset `o` from the stack pointer `sp`, when it
/// is a 64-bit address.
pub open spec fn slot_addr(sp: u64, o: SPO) -> Option<u64> {
    let a = sp as int + o.0 as int;
    if 0 <= a <= u64::MAX {
        Some(a as u64)
    } else {
        None
    }
}

pub open spec fn resolve_slot(sp: u64, slot: PtrSlot) -> Option<RootSlot> {
    match slot {
        PtrSlot::Base(o) => match slot_addr(sp, o) {
            Some(a) => Some(RootSlot::Base(a)),
            None => None,
        },
        PtrSlot::Derived(b, d) => match (slot_addr(sp, b), slot_addr(sp, d)) {
            (Some(x), Some(y)) => Some(RootSlot::Derived(x, y)),
            _ => None,
        },
    }
}

/// The first `k` slots resolved against `sp`, or `None` when one of them
/// lies outside the address space.
pub open spec fn resolve_slots(sp: u64, slots: Seq<PtrSlot>, k: nat) -> Option<Seq<RootSlot>>
    decreases k,
{
    if k == 0 {
        Some(Seq::empty())
    } else {
        match (resolve_slots(sp, slots, (k - 1) as nat), resolve_slot(sp, slots[k - 1])) {
            (Some(v), Some(r)) => Some(v.push(r)),
            _ => None,
        }
    }
}

/// The roots of one frame: none when its return address is not in the table
/// (a frame without safepoint records holds no roots).
pub open spec fn frame_roots(t: Map<u64, Seq<PtrSlot>>, f: Frame) -> Option<Seq<RootSlot>> {
    if t.contains_key(f.ret.0) {
        resolve_slots(f.sp, t[f.ret.0], t[f.ret.0].len())
    } else {
        Some(Seq::empty())
    }
}

/// The roots of the first `n` frames, frame by frame.
pub open spec fn resolve_frames(t: Map<u64, Seq<PtrSlot>>, frames: Seq<Frame>, n: nat) -> Option<Seq<RootSlot>>
    decreases n,
{
    if n == 0 {
        Some(Seq::empty())
    } else {
        match (resolve_frames(t, frames, (n - 1) as nat), frame_roots(t, frames[n - 1])) {
            (Some(v), Some(w)) => Some(v + w),
            _ => None,
        }
    }
}

proof fn lemma_resolve_slots_none_sticks(sp: u64, slots: Seq<PtrSlot>, k: nat, n: nat)
    requires
        k <= n,
        resolve_slots(sp, slots, k) is None,
    ensures
        resolve_slots(sp, slots, n) is None,
    decreases n - k,
{
    if k < n {
        lemma_resolve_slots_none_sticks(sp, slots, k, (n - 1) as nat);
    }
}

proof fn lemma_resolve_frames_none_sticks(t: Map<u64, Seq<PtrSlot>>, frames: Seq<Frame>, k: nat, n: nat)
    requires
        k <= n,
        resolve_frames(t, frames, k) is None,
    ensures
        resolve_frames(t, frames, n) is None,
    decreases n - k,
{
    if k < n {
        lemma_resolve_frames_none_sticks(t, frames, k, (n - 1) as nat);
    }
}

fn slot_address(sp: u64, o: SPO) -> (r: Option<u64>)
    ensures
        r == slot_addr(sp, o),
{
    if o.0 >= 0 {
        sp.checked_add(o.0 as u64)
    } else {
        let back: u64 = (-(o.0 as i64)) as u64;
        if sp >= back {
            Some(sp - back)
        } else {
            None
        }
    }
}

/// Resolves the roots of the given frames, in order, to the addresses of the
/// stack slots that hold them, looking each frame's return address up in the
/// table. Frames whose return address is not in the table hold no roots.
/// Fails when a slot would lie outside the 64-bit address space.
pub fn resolve_roots(table: &SafepointTable, frames: &Vec<Frame>) -> (r: Option<Vec<RootSlot>>)
    requires
        table.wf(),
    ensures
        match r {
            Some(v) => resolve_frames(table@, frames@, frames@.len()) == Some(v@),
            None => resolve_frames(table@, frames@, frames@.len()) is None,
        },
{
    let mut out: Vec<RootSlot> = Vec::new();
    let mut i: usize = 0;
    while i < frames.len()
        invariant
            i <= frames@.len(),
            table.wf(),
            resolve_frames(table@, frames@, i as nat) == Some(out@),
        decreases frames@.len() - i,
    {
        let f = frames[i];
        let ghost before = out@;
        match table.get(f.ret) {
            None => {
                assert(before + Seq::<RootSlot>::empty() =~= before);
            },
            Some(roots) => {
                let slots = roots.stack_offsets();
                let mut k: usize = 0;
                while k < slots.len()
                    invariant
                        k <= slots@.len(),
                        i < frames@.len(),
                        f == frames@[i as int],
                        table@.contains_key(f.ret.0),
                        slots@ == table@[f.ret.0],
                        resolve_frames(table@, frames@, i as nat) == Some(before),
                        resolve_slots(f.sp, slots@, k as nat) is Some,
                        out@ == before + resolve_slots(f.sp, slots@, k as nat)->Some_0,
                    decreases slots@.len() - k,
                {
                    let slot = slots[k];
                    let rs = match slot {
                        PtrSlot::Base(o) => match slot_address(f.sp, o) {
                            Some(a) => Some(RootSlot::Base(a)),
                            None => None,
                        },
                        PtrSlot::Derived(b, d) => match (slot_address(f.sp, b), slot_address(f.sp, d)) {
                            (Some(x), Some(y)) => Some(RootSlot::Derived(x, y)),
                            _ => None,
                        },
                    };
                    match rs {
                        None => {
                            proof {
                                lemma_resolve_slots_none_sticks(f.sp, slots@, (k + 1) as nat, slots@.len());
                                assert(resolve_frames(table@, frames@, (i + 1) as nat) is None);
                                lemma_resolve_frames_none_sticks(table@, frames@, (i + 1) as nat, frames@.len());
                            }
                            return None;
                        },
                        Some(x) => {
                            out.push(x);
                            assert(out@ =~= before + resolve_slots(f.sp, slots@, (k + 1) as nat)->Some_0);
                        },
                    }
                    k = k + 1;
                }
            },
        }
        i = i + 1;
    }
    Some(out)
}

} // verus!
