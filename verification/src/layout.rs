//! How a capacity is divided among the files of a slot-addressed store: payload,
//! slot owners, two copies of the allocator state, and the persistent index.

use vstd::arithmetic::div_mod::{lemma_fundamental_div_mod, lemma_fundamental_div_mod_converse};
use vstd::prelude::*;

use crate::error::{config_error, invalid_config, Error};
use crate::format::PAGE_SIZE;

verus! {

pub const OWNER_BYTES: u64 = 64;

pub const STATE_ENTRY_SIZE: usize = 24;

pub const STATE_HEADER_SIZE: usize = 64;

pub const STATE_CHECKSUM_SIZE: usize = 4;

pub const MINIMUM_UNITS: u32 = 5;

const INDEX_BYTES_PER_ENTRY: u64 = 76;

/// One steady-state copy, one compaction output, and one bounded write tail.
const INDEX_CAPACITY_COPIES: u64 = 3;

const INDEX_OVERHEAD_PER_ENTRY: u64 = 16;

/// Small indexes still create page-aligned log, manifest and table metadata.
const INDEX_MINIMUM_OVERHEAD: u64 = 0x2_0000;

const INDEX_MAXIMUM_OVERHEAD: u64 = 0x100_0000;

/// `n` rounded up to a whole number of pages.
pub open spec fn page_aligned(n: nat) -> nat {
    (n + 4095) / 4096 * 4096
}

/// The index overhead for a number of entries: 16 bytes each, within 128 KiB and
/// 16 MiB.
pub open spec fn index_overhead(entries: nat) -> nat {
    if entries * 16 < 0x2_0000 {
        0x2_0000
    } else if entries * 16 > 0x100_0000 {
        0x100_0000
    } else {
        entries * 16
    }
}

/// The bytes of index payload for a number of entries: three copies of 76 bytes
/// each, and the overhead.
pub open spec fn index_bytes(entries: nat) -> nat {
    entries * 228 + index_overhead(entries)
}

/// The capacity to set aside for the index.
pub open spec fn index_capacity(entries: nat) -> nat {
    page_aligned(index_bytes(entries))
}

/// The size of one copy of the allocator state: a header, one record per unit and
/// a checksum, in whole pages.
pub open spec fn state_copy_bytes(unit_count: nat) -> nat {
    page_aligned(24 * unit_count + 68)
}

/// The file sizes for a number of units.
#[derive(Debug, Clone, Copy, PartialEq, Eq, Structural)]
pub struct SlotPlan {
    pub usable_entries: u64,
    pub index_capacity_bytes: u64,
    pub data_file_size: u64,
    pub owner_file_size: u64,
    pub state_copy_size: usize,
    pub total_file_size: u64,
}

/// Which size does not fit its type.
#[derive(Debug, Clone, Copy, PartialEq, Eq, Structural)]
pub enum PlanFault {
    IndexOverhead,
    IndexCapacity,
    DataFile,
    OwnerFile,
    StateTable,
    Total,
}

/// The bytes of all files together.
pub open spec fn total_bytes(slot_size: nat, slots: nat, units: nat) -> nat {
    index_capacity((units * slots - slots) as nat) + units * slots * slot_size + units * slots * 64 + 2
        * state_copy_bytes(units)
}

/// The file sizes for `units` units of `slots` slots of `slot_size` bytes, or the
/// first size that overflows. One unit is held back as the reserve.
pub open spec fn plan(slot_size: nat, slots: nat, units: nat) -> Result<SlotPlan, PlanFault> {
    let usable = (units * slots - slots) as nat;
    if usable * 16 > u64::MAX {
        Err(PlanFault::IndexOverhead)
    } else if index_bytes(usable) + 4095 > u64::MAX {
        Err(PlanFault::IndexCapacity)
    } else if units * slots * slot_size > u64::MAX {
        Err(PlanFault::DataFile)
    } else if units * slots * 64 > u64::MAX {
        Err(PlanFault::OwnerFile)
    } else if 2 * state_copy_bytes(units) > usize::MAX {
        Err(PlanFault::StateTable)
    } else if total_bytes(slot_size, slots, units) > u64::MAX {
        Err(PlanFault::Total)
    } else {
        Ok(
            SlotPlan {
                usable_entries: usable as u64,
                index_capacity_bytes: index_capacity(usable) as u64,
                data_file_size: (units * slots * slot_size) as u64,
                owner_file_size: (units * slots * 64) as u64,
                state_copy_size: state_copy_bytes(units) as usize,
                total_file_size: total_bytes(slot_size, slots, units) as u64,
            },
        )
    }
}

/// `units` units can be planned, but take more than `capacity`.
pub open spec fn too_large(capacity: nat, slot_size: nat, slots: nat, units: nat) -> bool {
    plan(slot_size, slots, units) matches Ok(found) && found.total_file_size > capacity
}

/// The outcome of looking, from `maximum` units down to five, for the first number
/// of units that fits `capacity`. A size that overflows ends the search.
pub open spec fn fits(
    capacity: nat,
    slot_size: nat,
    slots: nat,
    maximum: nat,
    outcome: Result<(u32, SlotPlan), Option<PlanFault>>,
) -> bool {
    match outcome {
        Ok((units, found)) => {
            &&& 5 <= units <= maximum
            &&& plan(slot_size, slots, units as nat) == Ok::<SlotPlan, PlanFault>(found)
            &&& found.total_file_size <= capacity
            &&& forall|n: nat| units < n <= maximum ==> #[trigger] too_large(capacity, slot_size, slots, n)
        },
        Err(Some(fault)) => exists|units: nat|
            {
                &&& 5 <= units <= maximum
                &&& #[trigger] plan(slot_size, slots, units) == Err::<SlotPlan, PlanFault>(fault)
                &&& forall|n: nat| units < n <= maximum ==> #[trigger] too_large(capacity, slot_size, slots, n)
            },
        Err(None) => forall|n: nat|
            5 <= n <= maximum ==> #[trigger] too_large(capacity, slot_size, slots, n),
    }
}

proof fn lemma_page_aligned(n: nat)
    ensures
        n <= page_aligned(n) < n + 4096,
        page_aligned(n) % 4096 == 0,
{
}

/// The index capacity for a number of entries, in whole pages.
pub fn index_capacity_for_entries(entries: u64) -> (result: Result<u64, Error>)
    ensures
        match result {
            Ok(bytes) => entries * 16 <= u64::MAX && index_bytes(entries as nat) + 4095 <= u64::MAX && bytes
                == index_capacity(entries as nat),
            Err(error) => {
                ||| entries * 16 > u64::MAX && config_error(
                    error,
                    "fixed LSM index overhead overflows u64"@,
                )
                ||| entries * 16 <= u64::MAX && index_bytes(entries as nat) + 4095 > u64::MAX && config_error(
                    error,
                    "fixed LSM index capacity overflows u64"@,
                )
            },
        },
{
    match index_capacity_or_fault(entries) {
        Ok(bytes) => Ok(bytes),
        Err(PlanFault::IndexOverhead) => Err(invalid_config("fixed LSM index overhead overflows u64")),
        Err(_) => Err(invalid_config("fixed LSM index capacity overflows u64")),
    }
}

fn index_capacity_or_fault(entries: u64) -> (result: Result<u64, PlanFault>)
    ensures
        match result {
            Ok(bytes) => entries * 16 <= u64::MAX && index_bytes(entries as nat) + 4095 <= u64::MAX && bytes
                == index_capacity(entries as nat),
            Err(PlanFault::IndexOverhead) => entries * 16 > u64::MAX,
            Err(PlanFault::IndexCapacity) => entries * 16 <= u64::MAX && index_bytes(entries as nat) + 4095
                > u64::MAX,
            Err(_) => false,
        },
{
    let raw = match entries.checked_mul(INDEX_OVERHEAD_PER_ENTRY) {
        Some(bytes) => bytes,
        None => return Err(PlanFault::IndexOverhead),
    };
    let overhead = if raw < INDEX_MINIMUM_OVERHEAD {
        INDEX_MINIMUM_OVERHEAD
    } else if raw > INDEX_MAXIMUM_OVERHEAD {
        INDEX_MAXIMUM_OVERHEAD
    } else {
        raw
    };
    let one_copy = match entries.checked_mul(INDEX_BYTES_PER_ENTRY) {
        Some(bytes) => bytes,
        None => return Err(PlanFault::IndexCapacity),
    };
    let copies = match one_copy.checked_mul(INDEX_CAPACITY_COPIES) {
        Some(bytes) => bytes,
        None => return Err(PlanFault::IndexCapacity),
    };
    let payload = match copies.checked_add(overhead) {
        Some(bytes) => bytes,
        None => return Err(PlanFault::IndexCapacity),
    };
    match payload.checked_add(PAGE_SIZE as u64 - 1) {
        Some(bytes) => Ok(bytes / PAGE_SIZE as u64 * PAGE_SIZE as u64),
        None => Err(PlanFault::IndexCapacity),
    }
}

/// The size of one state copy, if two of them fit `usize`.
fn state_copy_size(units: u32) -> (size: Option<usize>)
    ensures
        match size {
            Some(size) => 2 * state_copy_bytes(units as nat) <= usize::MAX && size == state_copy_bytes(
                units as nat,
            ),
            None => 2 * state_copy_bytes(units as nat) > usize::MAX,
        },
{
    let bytes: u64 = units as u64 * STATE_ENTRY_SIZE as u64 + (STATE_HEADER_SIZE + STATE_CHECKSUM_SIZE) as u64;
    let rounded: u64 = (bytes + (PAGE_SIZE as u64 - 1)) / PAGE_SIZE as u64 * PAGE_SIZE as u64;
    if rounded > usize::MAX as u64 / 2 {
        return None;
    }
    Some(rounded as usize)
}

/// The file sizes for a number of units.
pub fn plan_units(slot_size: usize, slots: u32, units: u32) -> (result: Result<SlotPlan, PlanFault>)
    requires
        units > 0,
    ensures
        result == plan(slot_size as nat, slots as nat, units as nat),
{
    assert(slots <= units * slots <= 0xffff_ffff * 0xffff_ffff) by (nonlinear_arith)
        requires
            0 < units <= 0xffff_ffff,
            0 <= slots <= 0xffff_ffff,
    ;
    let physical = units as u64 * slots as u64;
    let usable_entries = physical - slots as u64;
    let index_capacity_bytes = match index_capacity_or_fault(usable_entries) {
        Ok(bytes) => bytes,
        Err(fault) => return Err(fault),
    };
    let data_file_size = match physical.checked_mul(slot_size as u64) {
        Some(bytes) => bytes,
        None => return Err(PlanFault::DataFile),
    };
    let owner_file_size = match physical.checked_mul(OWNER_BYTES) {
        Some(bytes) => bytes,
        None => return Err(PlanFault::OwnerFile),
    };
    let state_copy_size = match state_copy_size(units) {
        Some(size) => size,
        None => return Err(PlanFault::StateTable),
    };
    let with_data = match index_capacity_bytes.checked_add(data_file_size) {
        Some(bytes) => bytes,
        None => return Err(PlanFault::Total),
    };
    let with_owners = match with_data.checked_add(owner_file_size) {
        Some(bytes) => bytes,
        None => return Err(PlanFault::Total),
    };
    let total_file_size = match with_owners.checked_add((state_copy_size * 2) as u64) {
        Some(bytes) => bytes,
        None => return Err(PlanFault::Total),
    };
    Ok(
        SlotPlan {
            usable_entries,
            index_capacity_bytes,
            data_file_size,
            owner_file_size,
            state_copy_size,
            total_file_size,
        },
    )
}

/// The largest number of units, at most `maximum`, that fits `capacity`.
pub fn fit_units(capacity: u64, slot_size: usize, slots: u32, maximum: u32) -> (outcome: Result<
    (u32, SlotPlan),
    Option<PlanFault>,
>)
    ensures
        fits(capacity as nat, slot_size as nat, slots as nat, maximum as nat, outcome),
{
    let mut units = maximum;
    while units >= MINIMUM_UNITS
        invariant
            units <= maximum,
            forall|n: nat|
                units < n <= maximum ==> #[trigger] too_large(
                    capacity as nat,
                    slot_size as nat,
                    slots as nat,
                    n,
                ),
        decreases units,
    {
        match plan_units(slot_size, slots, units) {
            Ok(found) => {
                if found.total_file_size <= capacity {
                    return Ok((units, found));
                }
                assert(too_large(capacity as nat, slot_size as nat, slots as nat, units as nat));
            },
            Err(fault) => {
                assert(plan(slot_size as nat, slots as nat, units as nat) == Err::<SlotPlan, PlanFault>(fault));
                return Err(Some(fault));
            },
        }
        units = units - 1;
    }
    Err(None)
}

/// The index capacity covers the index payload and is a whole number of pages.
pub proof fn law_index_capacity_is_page_aligned(entries: nat)
    ensures
        index_capacity(entries) % 4096 == 0,
        index_capacity(entries) >= index_bytes(entries) >= entries * 228,
{
    lemma_page_aligned(index_bytes(entries));
}

/// More units never need less room, so the number that `fits` finds is the largest
/// that does.
pub proof fn law_total_bytes_grow_with_units(slot_size: nat, slots: nat, fewer: nat, more: nat)
    requires
        0 < fewer <= more,
    ensures
        total_bytes(slot_size, slots, fewer) <= total_bytes(slot_size, slots, more),
{
    assert(slots <= fewer * slots <= more * slots) by (nonlinear_arith)
        requires
            0 < fewer <= more,
    ;
    let a = fewer * slots;
    let b = more * slots;
    assert(a * slot_size <= b * slot_size) by (nonlinear_arith)
        requires
            a <= b,
    ;
    assert(index_capacity((a - slots) as nat) <= index_capacity((b - slots) as nat));
    assert(state_copy_bytes(fewer) <= state_copy_bytes(more));
}

/// A slot's number in the whole store.
pub open spec fn slot_number(slots: nat, unit: nat, slot: nat) -> nat {
    unit * slots + slot
}

/// The unit of a slot number, and the slot within it.
pub open spec fn slot_place(slots: nat, number: nat) -> (nat, nat) {
    (number / slots, number % slots)
}

/// Numbering slots and locating them undo each other.
pub proof fn law_slot_numbers_round_trip(slots: nat, unit: nat, slot: nat, number: nat)
    requires
        slots > 0,
        slot < slots,
    ensures
        slot_place(slots, slot_number(slots, unit, slot)) == (unit, slot),
        slot_number(slots, slot_place(slots, number).0, slot_place(slots, number).1) == number,
        slot_place(slots, number).1 < slots,
{
    let n = (unit * slots + slot) as int;
    let d = slots as int;
    lemma_fundamental_div_mod_converse(n, d, unit as int, slot as int);
    lemma_fundamental_div_mod(number as int, d);
    assert(d * (number as int / d) == (number as int / d) * d) by (nonlinear_arith);
}

/// A plan sets everything aside that its units need: the payload and the owner record of
/// every slot, two copies of the state of every unit, an index for every slot but those of
/// one unit, and nothing else.
pub proof fn law_a_plan_covers_every_slot(slot_size: nat, slots: nat, units: nat, found: SlotPlan)
    requires
        units > 0,
        plan(slot_size, slots, units) == Ok::<SlotPlan, PlanFault>(found),
    ensures
        found.usable_entries == (units - 1) * slots,
        found.data_file_size == units * slots * slot_size,
        found.owner_file_size == units * slots * 64,
        68 + 24 * units <= found.state_copy_size < 68 + 24 * units + 4096,
        found.state_copy_size % 4096 == 0,
        found.index_capacity_bytes % 4096 == 0,
        found.index_capacity_bytes >= 3 * 76 * found.usable_entries + 0x2_0000,
        found.index_capacity_bytes >= 3 * 76 * found.usable_entries + lesser_of(16 * found.usable_entries, 0x100_0000),
        found.index_capacity_bytes < 3 * 76 * found.usable_entries + 0x2_0000 + 4096 || found.index_capacity_bytes < 3
            * 76 * found.usable_entries + lesser_of(16 * found.usable_entries, 0x100_0000) + 4096,
        found.total_file_size == found.data_file_size + found.owner_file_size + found.index_capacity_bytes + 2
            * found.state_copy_size,
{
    assert(units * slots - slots == (units - 1) * slots) by (nonlinear_arith);
    assert((units - 1) * slots >= 0) by (nonlinear_arith)
        requires
            units >= 1,
            slots >= 0,
    ;
    let usable = ((units - 1) * slots) as nat;
    lemma_page_aligned(index_bytes(usable));
    lemma_page_aligned(24 * units + 68);
    assert(units * slots - slots == usable);
    assert(usable * 16 <= u64::MAX);
    assert(found.usable_entries == usable);
    assert(index_capacity(usable) <= index_bytes(usable) + 4095);
    assert(found.index_capacity_bytes == index_capacity(usable));
    assert(index_bytes(usable) == 228 * usable + index_overhead(usable));
}

/// The smaller of two numbers.
pub open spec fn lesser_of(a: int, b: int) -> int {
    if a < b {
        a
    } else {
        b
    }
}

/// The number of units that is found is the largest that fits: what it takes is within the
/// capacity, and one more unit would not be. Where none is found and nothing overflows, not
/// even five units fit.
pub proof fn law_the_largest_number_of_units_is_found(
    capacity: nat,
    slot_size: nat,
    slots: nat,
    maximum: nat,
    outcome: Result<(u32, SlotPlan), Option<PlanFault>>,
    other: nat,
)
    requires
        fits(capacity, slot_size, slots, maximum, outcome),
        5 <= other <= maximum,
    ensures
        match outcome {
            Ok((units, found)) => {
                &&& 5 <= units <= maximum
                &&& total_bytes(slot_size, slots, units as nat) <= capacity
                &&& found.total_file_size == total_bytes(slot_size, slots, units as nat)
                &&& other > units ==> total_bytes(slot_size, slots, other) > capacity
            },
            Err(None) => total_bytes(slot_size, slots, other) > capacity,
            Err(Some(_)) => true,
        },
{
    match outcome {
        Ok((units, found)) => {
            if other > units {
                assert(too_large(capacity, slot_size, slots, other));
            }
        },
        Err(None) => {
            assert(too_large(capacity, slot_size, slots, other));
        },
        Err(Some(_)) => {},
    }
}

} // verus!
