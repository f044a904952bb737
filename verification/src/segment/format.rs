//! Persistent records of the segment engine: the layout, the allocator state, slot
//! owners and entry locations.

use vstd::prelude::*;

use crate::checksum::{
    compute_crc32_iscsi, crc32_iscsi, ends_with_checksum, every_byte_counts, lemma_changed_byte, one_byte_apart,
};
use crate::error::{config_error, invalid_config, Error};
use crate::format::PAGE_SIZE;
use crate::layout::{
    fit_units, fits, law_a_plan_covers_every_slot, law_slot_numbers_round_trip,
    law_the_largest_number_of_units_is_found, plan, plan_units, slot_number, slot_place, total_bytes, PlanFault,
    STATE_CHECKSUM_SIZE, STATE_ENTRY_SIZE, STATE_HEADER_SIZE, SlotPlan,
};
use crate::model::{rank, CachePriority, KeyDigest};
use crate::segment::config::SegmentEngineConfig;
use crate::text::{decimal, push_decimal};
use crate::wire::{
    changed_only, copy_range, get_u32, get_u64, put_u32, put_u64, u32_at, u64_at, write_at, zero_range, zeroed,
};

verus! {

pub const OWNER_RECORD_SIZE: usize = 64;

pub const LOCATION_RECORD_SIZE: usize = 32;

pub const FORMAT_VERSION: u32 = 3;

const FORMAT_VERSION_BYTE: u8 = 3;

pub const NO_SEGMENT: u32 = 0xffff_ffff;

/// How a capacity is divided into segments, and the sizes of the files.
#[derive(Debug, Clone, Copy, PartialEq, Eq, Structural)]
pub struct SegmentLayout {
    pub slot_size: usize,
    pub segment_size: usize,
    pub slots_per_segment: u32,
    pub segment_count: u32,
    pub usable_entries: u64,
    pub index_capacity_bytes: u64,
    pub data_file_size: u64,
    pub owner_file_size: u64,
    pub state_copy_size: usize,
    pub total_file_size: u64,
}

/// Why a plan failed, in words.
pub open spec fn fault_text(fault: PlanFault) -> Seq<char> {
    match fault {
        PlanFault::IndexOverhead => "fixed LSM index overhead overflows u64"@,
        PlanFault::IndexCapacity => "fixed LSM index capacity overflows u64"@,
        PlanFault::DataFile => "segment data file size overflows u64"@,
        PlanFault::OwnerFile => "segment owner file size overflows u64"@,
        PlanFault::StateTable => "segment state table size overflows usize"@,
        PlanFault::Total => "segment engine file size overflows u64"@,
    }
}

fn fault_error(fault: PlanFault) -> (error: Error)
    ensures
        config_error(error, fault_text(fault)),
{
    match fault {
        PlanFault::IndexOverhead => invalid_config("fixed LSM index overhead overflows u64"),
        PlanFault::IndexCapacity => invalid_config("fixed LSM index capacity overflows u64"),
        PlanFault::DataFile => invalid_config("segment data file size overflows u64"),
        PlanFault::OwnerFile => invalid_config("segment owner file size overflows u64"),
        PlanFault::StateTable => invalid_config("segment state table size overflows usize"),
        PlanFault::Total => invalid_config("segment engine file size overflows u64"),
    }
}

/// A slot is a positive number of pages.
pub open spec fn slot_size_ok(slot_size: int) -> bool {
    slot_size >= 4096 && slot_size % 4096 == 0
}

/// A segment is a positive number of slots.
pub open spec fn segment_size_ok(segment_size: int, slot_size: int) -> bool {
    segment_size >= slot_size && segment_size % slot_size == 0
}

/// The most segments that the payload alone would allow.
pub open spec fn maximum_segments(config: SegmentEngineConfig) -> nat {
    let whole = config.capacity_bytes as nat / config.options.segment_size as nat;
    if whole > u32::MAX {
        u32::MAX as nat
    } else {
        whole
    }
}

/// The outcome of dividing a capacity into segments.
pub open spec fn creates(config: SegmentEngineConfig, result: Result<SegmentLayout, Error>) -> bool {
    let slot_size = config.slot_size as int;
    let segment_size = config.options.segment_size as int;
    if !slot_size_ok(slot_size) {
        result matches Err(error) && config_error(
            error,
            "segment slot_size must be a positive multiple of 4096 bytes"@,
        )
    } else if !segment_size_ok(segment_size, slot_size) {
        result matches Err(error) && config_error(
            error,
            "segment_size must be a positive multiple of slot_size ("@ + decimal(slot_size as nat) + ")"@,
        )
    } else if segment_size / slot_size > u32::MAX {
        result matches Err(error) && config_error(
            error,
            "segment contains more physical slots than u32 can represent"@,
        )
    } else {
        let slots = (segment_size / slot_size) as nat;
        let maximum = maximum_segments(config);
        match result {
            Ok(layout) => {
                &&& layout.slot_size == slot_size
                &&& layout.segment_size == segment_size
                &&& layout.slots_per_segment == slots
                &&& fits(
                    config.capacity_bytes as nat,
                    slot_size as nat,
                    slots,
                    maximum,
                    Ok((layout.segment_count, layout.sizes())),
                )
            },
            Err(error) => {
                ||| exists|fault: PlanFault|
                    config_error(error, #[trigger] fault_text(fault)) && fits(
                        config.capacity_bytes as nat,
                        slot_size as nat,
                        slots,
                        maximum,
                        Err(Some(fault)),
                    )
                ||| config_error(
                    error,
                    "segment engine capacity must fit at least five "@ + decimal(segment_size as nat)
                        + "-byte segments and their persistent index"@,
                ) && fits(config.capacity_bytes as nat, slot_size as nat, slots, maximum, Err(None))
            },
        }
    }
}

impl SegmentLayout {
    /// The planned file sizes.
    pub open spec fn sizes(self) -> SlotPlan {
        SlotPlan {
            usable_entries: self.usable_entries,
            index_capacity_bytes: self.index_capacity_bytes,
            data_file_size: self.data_file_size,
            owner_file_size: self.owner_file_size,
            state_copy_size: self.state_copy_size,
            total_file_size: self.total_file_size,
        }
    }

    /// The layout divides its segments into whole slots and has the file sizes that
    /// follow from its shape.
    pub open spec fn wf(self) -> bool {
        &&& slot_size_ok(self.slot_size as int)
        &&& self.slots_per_segment > 0
        &&& self.segment_count >= 5
        &&& self.segment_size == self.slot_size * self.slots_per_segment
        &&& plan(self.slot_size as nat, self.slots_per_segment as nat, self.segment_count as nat) == Ok::<
            SlotPlan,
            PlanFault,
        >(self.sizes())
    }

    /// One state copy has room for the records of all segments.
    pub open spec fn state_fits(self) -> bool {
        self.state_copy_size >= 68 + 24 * self.segment_count
    }

    /// Divides a capacity into as many segments as fit with their index.
    pub fn create(config: SegmentEngineConfig) -> (result: Result<SegmentLayout, Error>)
        ensures
            creates(config, result),
            result matches Ok(layout) ==> layout.wf() && layout.state_fits() && layout.total_file_size
                <= config.capacity_bytes,
    {
        let slot_size = config.slot_size;
        let segment_size = config.options.segment_size;
        if slot_size < PAGE_SIZE || slot_size % PAGE_SIZE != 0 {
            return Err(invalid_config("segment slot_size must be a positive multiple of 4096 bytes"));
        }
        if segment_size < slot_size || segment_size % slot_size != 0 {
            let mut text = "segment_size must be a positive multiple of slot_size (".to_owned();
            push_decimal(&mut text, slot_size as u64);
            text.append(")");
            return Err(Error::InvalidConfig(text));
        }
        let slots = segment_size / slot_size;
        if slots > 0xffff_ffff {
            return Err(invalid_config("segment contains more physical slots than u32 can represent"));
        }
        proof {
            vstd::arithmetic::div_mod::lemma_fundamental_div_mod(segment_size as int, slot_size as int);
            assert(slots >= 1) by (nonlinear_arith)
                requires
                    segment_size == slot_size * slots,
                    segment_size >= slot_size > 0,
            ;
        }
        let whole = config.capacity_bytes / segment_size as u64;
        let maximum = if whole > 0xffff_ffff {
            0xffff_ffffu32
        } else {
            whole as u32
        };
        let outcome = fit_units(config.capacity_bytes, slot_size, slots as u32, maximum);
        assert(maximum == maximum_segments(config));
        assert(fits(config.capacity_bytes as nat, slot_size as nat, slots as nat, maximum as nat, outcome));
        match outcome {
            Ok((segment_count, sizes)) => {
                let layout = SegmentLayout {
                    slot_size,
                    segment_size,
                    slots_per_segment: slots as u32,
                    segment_count,
                    usable_entries: sizes.usable_entries,
                    index_capacity_bytes: sizes.index_capacity_bytes,
                    data_file_size: sizes.data_file_size,
                    owner_file_size: sizes.owner_file_size,
                    state_copy_size: sizes.state_copy_size,
                    total_file_size: sizes.total_file_size,
                };
                assert(layout.sizes() == sizes);
                Ok(layout)
            },
            Err(Some(fault)) => Err(fault_error(fault)),
            Err(None) => {
                let mut text = "segment engine capacity must fit at least five ".to_owned();
                push_decimal(&mut text, segment_size as u64);
                text.append("-byte segments and their persistent index");
                Err(Error::InvalidConfig(text))
            },
        }
    }

    /// The number of a slot in the whole store.
    pub fn physical_slot(self, segment: u32, slot: u32) -> (number: Option<u64>)
        ensures
            number == (if segment < self.segment_count && slot < self.slots_per_segment {
                Some(slot_number(self.slots_per_segment as nat, segment as nat, slot as nat) as u64)
            } else {
                None
            }),
            number matches Some(found) ==> found == segment * self.slots_per_segment + slot,
    {
        if segment < self.segment_count && slot < self.slots_per_segment {
            assert(segment * self.slots_per_segment <= 0xffff_fffe * 0xffff_ffff) by (nonlinear_arith)
                requires
                    segment < self.segment_count <= 0xffff_ffff,
                    self.slots_per_segment <= 0xffff_ffff,
            ;
            Some(segment as u64 * self.slots_per_segment as u64 + slot as u64)
        } else {
            None
        }
    }

    /// The segment and slot of a slot number.
    pub fn segment_for_slot(self, physical_slot: u64) -> (place: Option<(u32, u32)>)
        requires
            self.slots_per_segment > 0,
        ensures
            match place {
                Some((segment, slot)) => slot_place(self.slots_per_segment as nat, physical_slot as nat) == (
                    segment as nat,
                    slot as nat,
                ) && segment < self.segment_count && slot < self.slots_per_segment && physical_slot == segment
                    * self.slots_per_segment + slot,
                None => slot_place(self.slots_per_segment as nat, physical_slot as nat).0 >= self.segment_count,
            },
    {
        let segment = physical_slot / self.slots_per_segment as u64;
        let slot = physical_slot % self.slots_per_segment as u64;
        proof {
            law_slot_numbers_round_trip(self.slots_per_segment as nat, 0, 0, physical_slot as nat);
        }
        if segment < self.segment_count as u64 {
            Some((segment as u32, slot as u32))
        } else {
            None
        }
    }

    /// `image` describes `layout`: it has the right magic, version, shape and length,
    /// and the files have the sizes that follow.
    pub open spec fn describes(
        image: Seq<u8>,
        data_file_size: u64,
        owner_file_size: u64,
        state_file_size: u64,
        layout: SegmentLayout,
    ) -> bool {
        &&& image.len() >= 64
        &&& has_state_magic(image)
        &&& u32_at(image, 8) == FORMAT_VERSION
        &&& u32_at(image, 12) == layout.segment_count
        &&& u32_at(image, 16) == layout.slots_per_segment
        &&& u32_at(image, 20) == layout.slot_size
        &&& u64_at(image, 56) == layout.segment_size
        &&& layout.wf()
        &&& data_file_size == layout.data_file_size
        &&& owner_file_size == layout.owner_file_size
        &&& state_file_size == 2 * layout.state_copy_size
        &&& image.len() == layout.state_copy_size
    }

    /// The layout that a state copy describes, if the files bear it out.
    pub fn discover(state_copy: &[u8], data_file_size: u64, owner_file_size: u64, state_file_size: u64) -> (found:
        Option<SegmentLayout>)
        ensures
            match found {
                Some(layout) => Self::describes(
                    state_copy@,
                    data_file_size,
                    owner_file_size,
                    state_file_size,
                    layout,
                ) && layout.state_fits(),
                None => forall|layout: SegmentLayout|
                    !(#[trigger] Self::describes(
                        state_copy@,
                        data_file_size,
                        owner_file_size,
                        state_file_size,
                        layout,
                    )),
            },
    {
        if state_copy.len() < STATE_HEADER_SIZE || !check_state_magic(state_copy) || get_u32(state_copy, 8)
            != FORMAT_VERSION {
            return None;
        }
        let segment_count = get_u32(state_copy, 12);
        let slots_per_segment = get_u32(state_copy, 16);
        let slot_size = get_u32(state_copy, 20);
        let segment_size = get_u64(state_copy, 56);
        if segment_count < 5 || slots_per_segment == 0 || slot_size < PAGE_SIZE as u32 || slot_size
            % PAGE_SIZE as u32 != 0 {
            return None;
        }
        assert(slot_size * slots_per_segment <= 0xffff_ffff * 0xffff_ffff) by (nonlinear_arith)
            requires
                slot_size <= 0xffff_ffff,
                slots_per_segment <= 0xffff_ffff,
        ;
        if segment_size != slot_size as u64 * slots_per_segment as u64 || segment_size > usize::MAX as u64 {
            return None;
        }
        let sizes = match plan_units(slot_size as usize, slots_per_segment, segment_count) {
            Ok(sizes) => sizes,
            Err(_) => return None,
        };
        if data_file_size != sizes.data_file_size || owner_file_size != sizes.owner_file_size || state_file_size
            != sizes.state_copy_size as u64 * 2 || state_copy.len() != sizes.state_copy_size {
            return None;
        }
        Some(
            SegmentLayout {
                slot_size: slot_size as usize,
                segment_size: segment_size as usize,
                slots_per_segment,
                segment_count,
                usable_entries: sizes.usable_entries,
                index_capacity_bytes: sizes.index_capacity_bytes,
                data_file_size: sizes.data_file_size,
                owner_file_size: sizes.owner_file_size,
                state_copy_size: sizes.state_copy_size,
                total_file_size: sizes.total_file_size,
            },
        )
    }
}

/// What a segment is used for.
#[derive(Debug, Clone, Copy, PartialEq, Eq, Structural)]
pub enum SegmentRole {
    Free,
    Reserve,
    Current,
    Sealed,
    ReclaimSource,
    ReclaimTarget,
}

/// The byte that stands for a role.
pub open spec fn role_byte(role: SegmentRole) -> int {
    match role {
        SegmentRole::Free => 0,
        SegmentRole::Reserve => 1,
        SegmentRole::Current => 2,
        SegmentRole::Sealed => 3,
        SegmentRole::ReclaimSource => 4,
        SegmentRole::ReclaimTarget => 5,
    }
}

impl SegmentRole {
    fn to_byte(self) -> (byte: u8)
        ensures
            byte == role_byte(self),
    {
        match self {
            SegmentRole::Free => 0,
            SegmentRole::Reserve => 1,
            SegmentRole::Current => 2,
            SegmentRole::Sealed => 3,
            SegmentRole::ReclaimSource => 4,
            SegmentRole::ReclaimTarget => 5,
        }
    }

    fn from_byte(value: u8) -> (role: Option<SegmentRole>)
        ensures
            match role {
                Some(role) => role_byte(role) == value,
                None => value > 5,
            },
    {
        match value {
            0 => Some(SegmentRole::Free),
            1 => Some(SegmentRole::Reserve),
            2 => Some(SegmentRole::Current),
            3 => Some(SegmentRole::Sealed),
            4 => Some(SegmentRole::ReclaimSource),
            5 => Some(SegmentRole::ReclaimTarget),
            _ => None,
        }
    }
}

/// What the allocator knows of one segment.
#[derive(Debug, Clone, Copy, PartialEq, Eq, Structural)]
pub struct SegmentState {
    pub generation: u32,
    pub used: u32,
    pub sequence: u64,
    pub priority: CachePriority,
    pub role: SegmentRole,
}

/// A segment that was never used.
pub open spec fn free_segment() -> SegmentState {
    SegmentState {
        generation: 1,
        used: 0,
        sequence: 0,
        priority: CachePriority::Low,
        role: SegmentRole::Free,
    }
}

impl SegmentState {
    fn free() -> (state: SegmentState)
        ensures
            state == free_segment(),
    {
        SegmentState {
            generation: 1,
            used: 0,
            sequence: 0,
            priority: CachePriority::Low,
            role: SegmentRole::Free,
        }
    }
}

/// The number of segments with a role.
pub open spec fn count_role(segments: Seq<SegmentState>, role: SegmentRole) -> nat
    decreases segments.len(),
{
    if segments.len() == 0 {
        0
    } else {
        count_role(segments.drop_last(), role) + if segments.last().role == role {
            1nat
        } else {
            0nat
        }
    }
}

/// Replacing one segment moves one unit of each count.
pub proof fn lemma_count_role_update(segments: Seq<SegmentState>, i: int, new: SegmentState, role: SegmentRole)
    requires
        0 <= i < segments.len(),
    ensures
        count_role(segments.update(i, new), role) + (if segments[i].role == role {
            1nat
        } else {
            0nat
        }) == count_role(segments, role) + (if new.role == role {
            1nat
        } else {
            0nat
        }),
    decreases segments.len(),
{
    if i == segments.len() - 1 {
        assert(segments.update(i, new).drop_last() =~= segments.drop_last());
    } else {
        assert(segments.update(i, new).drop_last() =~= segments.drop_last().update(i, new));
        lemma_count_role_update(segments.drop_last(), i, new, role);
    }
}

/// A count of zero means that no segment has the role.
pub proof fn lemma_count_role_zero(segments: Seq<SegmentState>, role: SegmentRole)
    ensures
        count_role(segments, role) == 0 <==> forall|i: int|
            0 <= i < segments.len() ==> (#[trigger] segments[i]).role != role,
    decreases segments.len(),
{
    if segments.len() > 0 {
        lemma_count_role_zero(segments.drop_last(), role);
        let rest = segments.drop_last();
        assert forall|i: int| 0 <= i < rest.len() implies rest[i] == segments[i] by {}
        if count_role(segments, role) == 0 {
            assert forall|i: int| 0 <= i < segments.len() implies (#[trigger] segments[i]).role != role by {
                if i < rest.len() {
                    assert(rest[i].role != role);
                }
            }
        } else if segments.last().role != role {
            let i = choose|i: int| 0 <= i < rest.len() && (#[trigger] rest[i]).role == role;
            assert(segments[i].role == role);
        } else {
            assert(segments[segments.len() - 1].role == role);
        }
    }
}

/// A fresh state has one reserve and otherwise free segments.
proof fn lemma_count_role_uniform(segments: Seq<SegmentState>, role: SegmentRole)
    requires
        forall|i: int| 0 <= i < segments.len() ==> (#[trigger] segments[i]).role == SegmentRole::Free,
        role != SegmentRole::Free,
    ensures
        count_role(segments, role) == 0,
{
    lemma_count_role_zero(segments, role);
}

/// The state of the segment allocator.
#[derive(Debug, PartialEq, Eq)]
pub struct AllocatorState {
    pub generation: u64,
    pub next_sequence: u64,
    pub current: [Option<u32>; 3],
    pub reserve: u32,
    pub segments: Vec<SegmentState>,
    pub active_page: u8,
}

/// `image` begins with the magic `SCSEGST1`.
pub open spec fn has_state_magic(image: Seq<u8>) -> bool {
    &&& image[0] == 0x53
    &&& image[1] == 0x43
    &&& image[2] == 0x53
    &&& image[3] == 0x45
    &&& image[4] == 0x47
    &&& image[5] == 0x53
    &&& image[6] == 0x54
    &&& image[7] == 0x31
}

fn check_state_magic(image: &[u8]) -> (found: bool)
    requires
        image@.len() >= 8,
    ensures
        found == has_state_magic(image@),
{
    image[0] == 0x53 && image[1] == 0x43 && image[2] == 0x53 && image[3] == 0x45 && image[4] == 0x47 && image[5]
        == 0x53 && image[6] == 0x54 && image[7] == 0x31
}

/// The number that stands for a current segment, or for none.
pub open spec fn pointer_word(pointer: Option<u32>) -> nat {
    match pointer {
        Some(segment) => segment as nat,
        None => NO_SEGMENT as nat,
    }
}

/// The header of a state image, for a layout.
pub open spec fn state_header_matches(image: Seq<u8>, layout: SegmentLayout) -> bool {
    &&& image.len() == layout.state_copy_size
    &&& has_state_magic(image)
    &&& u32_at(image, 8) == FORMAT_VERSION
    &&& u32_at(image, 12) == layout.segment_count
    &&& u32_at(image, 16) == layout.slots_per_segment
    &&& u32_at(image, 20) == layout.slot_size
    &&& u64_at(image, 56) == layout.segment_size
}

/// The last four bytes of a state image are the checksum of the rest.
pub open spec fn state_checksum_matches(image: Seq<u8>) -> bool {
    ends_with_checksum(image)
}

/// The record of one segment in a state image.
pub open spec fn segment_reads_as(image: Seq<u8>, i: int, state: SegmentState) -> bool {
    let at = 64 + 24 * i;
    &&& u32_at(image, at) == state.generation
    &&& u32_at(image, at + 4) == state.used
    &&& u64_at(image, at + 8) == state.sequence
    &&& image[at + 16] == rank(state.priority)
    &&& image[at + 17] == role_byte(state.role)
}

impl AllocatorState {
    /// The fields of a state image hold this state.
    pub open spec fn is_read_from(self, image: Seq<u8>, layout: SegmentLayout) -> bool {
        &&& u64_at(image, 24) == self.generation
        &&& u64_at(image, 32) == self.next_sequence
        &&& u32_at(image, 40) == pointer_word(self.current@[0])
        &&& u32_at(image, 44) == pointer_word(self.current@[1])
        &&& u32_at(image, 48) == pointer_word(self.current@[2])
        &&& self.current@[0] != Some(NO_SEGMENT)
        &&& self.current@[1] != Some(NO_SEGMENT)
        &&& self.current@[2] != Some(NO_SEGMENT)
        &&& u32_at(image, 52) == self.reserve
        &&& self.segments@.len() == layout.segment_count
        &&& forall|i: int|
            0 <= i < layout.segment_count ==> #[trigger] segment_reads_as(image, i, self.segments@[i])
    }

    /// `image` is the encoding of this state: header, fields and checksum, and zero
    /// bytes everywhere else.
    pub open spec fn is_encoded_as(self, image: Seq<u8>, layout: SegmentLayout) -> bool {
        &&& state_header_matches(image, layout)
        &&& self.is_read_from(image, layout)
        &&& state_checksum_matches(image)
        &&& forall|i: int|
            0 <= i < layout.segment_count ==> #[trigger] zero_range(image, 64 + 24 * i + 18, 64 + 24 * i + 24)
        &&& zero_range(image, 64 + 24 * layout.segment_count, image.len() - 4)
    }

    /// What is wrong with one segment.
    pub open spec fn segment_fault(self, layout: SegmentLayout, i: int) -> Option<Seq<char>> {
        let state = self.segments@[i];
        if state.generation == 0 || state.used > layout.slots_per_segment {
            Some("segment allocator entry is invalid"@)
        } else if state.role == SegmentRole::Current && self.current@[rank(state.priority)] != Some(i as u32) {
            Some("segment current pointer is inconsistent"@)
        } else {
            None
        }
    }

    /// What is wrong with the first faulty segment among the first `n`.
    pub open spec fn scan_fault(self, layout: SegmentLayout, n: nat) -> Option<Seq<char>>
        decreases n,
    {
        if n == 0 {
            None
        } else {
            match self.scan_fault(layout, (n - 1) as nat) {
                Some(text) => Some(text),
                None => self.segment_fault(layout, n - 1),
            }
        }
    }

    /// One reserve and no reclaim in progress.
    pub open spec fn is_normal(self) -> bool {
        &&& count_role(self.segments@, SegmentRole::Reserve) == 1
        &&& count_role(self.segments@, SegmentRole::ReclaimSource) == 0
        &&& count_role(self.segments@, SegmentRole::ReclaimTarget) == 0
    }

    /// One segment is being copied into the reserve.
    pub open spec fn is_reclaiming(self) -> bool {
        &&& count_role(self.segments@, SegmentRole::Reserve) == 0
        &&& count_role(self.segments@, SegmentRole::ReclaimSource) == 1
        &&& count_role(self.segments@, SegmentRole::ReclaimTarget) == 1
        &&& self.segments@[self.reserve as int].role == SegmentRole::ReclaimTarget
    }

    /// What is wrong with the current pointer of one priority.
    pub open spec fn pointer_fault(self, priority: int) -> Option<Seq<char>> {
        match self.current@[priority] {
            Some(segment) => if segment >= self.segments@.len() {
                Some("segment current pointer is out of range"@)
            } else if self.segments@[segment as int].role != SegmentRole::Current || rank(
                self.segments@[segment as int].priority,
            ) != priority {
                Some("segment current pointer has the wrong class"@)
            } else {
                None
            },
            None => None,
        }
    }

    /// What is wrong with the state, if anything.
    pub open spec fn fault(self, layout: SegmentLayout) -> Option<Seq<char>> {
        if self.generation == 0 || self.next_sequence == 0 {
            Some("segment allocator generations must be positive"@)
        } else if self.segments@.len() != layout.segment_count || self.reserve >= layout.segment_count {
            Some("segment allocator reserve is invalid"@)
        } else if self.scan_fault(layout, self.segments@.len()) is Some {
            self.scan_fault(layout, self.segments@.len())
        } else if !self.is_normal() && !self.is_reclaiming() {
            Some("segment allocator reserve or reclaim transaction is invalid"@)
        } else if self.is_normal() && self.segments@[self.reserve as int].role != SegmentRole::Reserve {
            Some("segment allocator reserve pointer is invalid"@)
        } else if self.pointer_fault(0) is Some {
            self.pointer_fault(0)
        } else if self.pointer_fault(1) is Some {
            self.pointer_fault(1)
        } else {
            self.pointer_fault(2)
        }
    }

    /// The state is consistent.
    pub open spec fn valid(self, layout: SegmentLayout) -> bool {
        self.fault(layout) is None
    }

    /// The state of an allocator that was never used.
    pub fn empty(layout: SegmentLayout) -> (state: AllocatorState)
        requires
            layout.segment_count > 0,
        ensures
            state.generation == 1,
            state.next_sequence == 1,
            state.current@ == seq![None::<u32>, None::<u32>, None::<u32>],
            state.reserve == 0,
            state.active_page == 0,
            state.segments@ == Seq::new(layout.segment_count as nat, |i: int| free_segment()).update(
                0,
                (SegmentState { role: SegmentRole::Reserve, ..free_segment() }),
            ),
            state.valid(layout),
    {
        let mut segments: Vec<SegmentState> = Vec::new();
        let mut i: u32 = 0;
        while i < layout.segment_count
            invariant
                i <= layout.segment_count,
                segments@ == Seq::new(i as nat, |k: int| free_segment()),
            decreases layout.segment_count - i,
        {
            segments.push(SegmentState::free());
            assert(segments@ =~= Seq::new((i + 1) as nat, |k: int| free_segment()));
            i = i + 1;
        }
        let ghost uniform = segments@;
        let reserve = SegmentState {
            generation: 1,
            used: 0,
            sequence: 0,
            priority: CachePriority::Low,
            role: SegmentRole::Reserve,
        };
        segments[0] = reserve;
        let state = AllocatorState {
            generation: 1,
            next_sequence: 1,
            current: [None, None, None],
            reserve: 0,
            segments,
            active_page: 0,
        };
        proof {
            assert(state.current@ =~= seq![None::<u32>, None::<u32>, None::<u32>]);
            lemma_count_role_uniform(uniform, SegmentRole::Reserve);
            lemma_count_role_uniform(uniform, SegmentRole::ReclaimSource);
            lemma_count_role_uniform(uniform, SegmentRole::ReclaimTarget);
            lemma_count_role_update(uniform, 0, reserve, SegmentRole::Reserve);
            lemma_count_role_update(uniform, 0, reserve, SegmentRole::ReclaimSource);
            lemma_count_role_update(uniform, 0, reserve, SegmentRole::ReclaimTarget);
            lemma_scan_clean(state, layout, state.segments@.len());
        }
        state
    }

    /// Checks that the state is consistent.
    pub fn validate(&self, layout: SegmentLayout) -> (result: Result<(), Error>)
        ensures
            match result {
                Ok(_) => self.valid(layout),
                Err(error) => self.fault(layout) matches Some(text) && config_error(error, text),
            },
    {
        if self.generation == 0 || self.next_sequence == 0 {
            return Err(invalid_config("segment allocator generations must be positive"));
        }
        if self.segments.len() as u64 != layout.segment_count as u64 || self.reserve >= layout.segment_count {
            return Err(invalid_config("segment allocator reserve is invalid"));
        }
        let mut reserves: usize = 0;
        let mut sources: usize = 0;
        let mut targets: usize = 0;
        let mut i: usize = 0;
        while i < self.segments.len()
            invariant
                i <= self.segments@.len(),
                self.segments@.len() == layout.segment_count,
                self.generation != 0,
                self.next_sequence != 0,
                self.reserve < layout.segment_count,
                self.scan_fault(layout, i as nat) is None,
                reserves == count_role(self.segments@.take(i as int), SegmentRole::Reserve),
                sources == count_role(self.segments@.take(i as int), SegmentRole::ReclaimSource),
                targets == count_role(self.segments@.take(i as int), SegmentRole::ReclaimTarget),
                reserves <= i,
                sources <= i,
                targets <= i,
            decreases self.segments@.len() - i,
        {
            let state = self.segments[i];
            assert(self.scan_fault(layout, (i + 1) as nat) == self.segment_fault(layout, i as int));
            if state.generation == 0 || state.used > layout.slots_per_segment {
                proof {
                    lemma_scan_fault_stays(*self, layout, (i + 1) as nat, self.segments@.len());
                }
                return Err(invalid_config("segment allocator entry is invalid"));
            }
            if state.role == SegmentRole::Current {
                let consistent = match self.current[state.priority.index()] {
                    Some(segment) => segment == i as u32,
                    None => false,
                };
                if !consistent {
                    proof {
                        lemma_scan_fault_stays(*self, layout, (i + 1) as nat, self.segments@.len());
                    }
                    return Err(invalid_config("segment current pointer is inconsistent"));
                }
            }
            assert(self.segments@.take(i + 1).drop_last() =~= self.segments@.take(i as int));
            assert(self.segments@.take(i + 1).last() == state);
            if state.role == SegmentRole::Reserve {
                reserves = reserves + 1;
            }
            if state.role == SegmentRole::ReclaimSource {
                sources = sources + 1;
            }
            if state.role == SegmentRole::ReclaimTarget {
                targets = targets + 1;
            }
            i = i + 1;
        }
        assert(self.segments@.take(i as int) =~= self.segments@);
        let reserve_role = self.segments[self.reserve as usize].role;
        let normal = reserves == 1 && sources == 0 && targets == 0;
        let reclaiming = reserves == 0 && sources == 1 && targets == 1 && reserve_role == SegmentRole::ReclaimTarget;
        if !normal && !reclaiming {
            return Err(invalid_config("segment allocator reserve or reclaim transaction is invalid"));
        }
        if normal && reserve_role != SegmentRole::Reserve {
            return Err(invalid_config("segment allocator reserve pointer is invalid"));
        }
        let mut priority: usize = 0;
        while priority < 3
            invariant
                priority <= 3,
                self.generation != 0,
                self.next_sequence != 0,
                self.segments@.len() == layout.segment_count,
                self.reserve < layout.segment_count,
                self.scan_fault(layout, self.segments@.len()) is None,
                self.is_normal() || self.is_reclaiming(),
                self.is_normal() ==> self.segments@[self.reserve as int].role == SegmentRole::Reserve,
                forall|p: int| 0 <= p < priority ==> self.pointer_fault(p) is None,
            decreases 3 - priority,
        {
            if let Some(segment) = self.current[priority] {
                if segment as usize >= self.segments.len() {
                    return Err(invalid_config("segment current pointer is out of range"));
                }
                let state = self.segments[segment as usize];
                if state.role != SegmentRole::Current || state.priority.index() != priority {
                    return Err(invalid_config("segment current pointer has the wrong class"));
                }
            }
            priority = priority + 1;
        }
        Ok(())
    }

    /// Encodes the state as one state copy, of which every changed byte is noticed.
    pub fn encode(&self, layout: SegmentLayout) -> (result: Result<Vec<u8>, Error>)
        requires
            layout.state_fits(),
        ensures
            match result {
                Ok(image) => self.valid(layout) && layout.slot_size <= u32::MAX && self.is_encoded_as(
                    image@,
                    layout,
                ) && Self::stands_alone(image@, layout),
                Err(error) => {
                    ||| self.fault(layout) matches Some(text) && config_error(error, text)
                    ||| self.valid(layout) && layout.slot_size > u32::MAX && config_error(
                        error,
                        "allocation slot size does not fit u32"@,
                    )
                },
            },
    {
        match self.validate(layout) {
            Ok(_) => {},
            Err(error) => return Err(error),
        }
        if layout.slot_size as u64 > 0xffff_ffff {
            return Err(invalid_config("allocation slot size does not fit u32"));
        }
        let mut image = zeroed(layout.state_copy_size);
        self.encode_header(&mut image, layout);
        self.encode_segments(&mut image, layout);
        let checksum_offset = layout.state_copy_size - STATE_CHECKSUM_SIZE;
        let prefix = copy_range(image.as_slice(), 0, checksum_offset);
        let checksum = compute_crc32_iscsi(prefix.as_slice());
        let ghost before = image@;
        put_u32(&mut image, checksum_offset, checksum);
        proof {
            assert(image@.subrange(0, image@.len() - 4) =~= before.subrange(0, before.len() - 4));
            lemma_state_prefix(*self, layout, before, image@);
            assert forall|i: int| 0 <= i < layout.segment_count implies #[trigger] zero_range(
                image@,
                64 + 24 * i + 18,
                64 + 24 * i + 24,
            ) by {
                assert(zero_range(before, 64 + 24 * i + 18, 64 + 24 * i + 24));
            }
            assert(prefix@ =~= image@.subrange(0, image@.len() - 4));
            Self::lemma_stands_alone(image@, layout);
        }
        Ok(image)
    }

    fn encode_header(&self, image: &mut Vec<u8>, layout: SegmentLayout)
        requires
            self.valid(layout),
            layout.state_fits(),
            layout.slot_size <= u32::MAX,
            old(image)@.len() == layout.state_copy_size,
            zero_range(old(image)@, 0, layout.state_copy_size as int),
        ensures
            state_header_matches(final(image)@, layout),
            changed_only(old(image)@, final(image)@, 0, 64),
            u64_at(final(image)@, 24) == self.generation,
            u64_at(final(image)@, 32) == self.next_sequence,
            u32_at(final(image)@, 40) == pointer_word(self.current@[0]),
            u32_at(final(image)@, 44) == pointer_word(self.current@[1]),
            u32_at(final(image)@, 48) == pointer_word(self.current@[2]),
            u32_at(final(image)@, 52) == self.reserve,
    {
        image[0] = 0x53;
        image[1] = 0x43;
        image[2] = 0x53;
        image[3] = 0x45;
        image[4] = 0x47;
        image[5] = 0x53;
        image[6] = 0x54;
        image[7] = 0x31;
        put_u32(image, 8, FORMAT_VERSION);
        put_u32(image, 12, layout.segment_count);
        put_u32(image, 16, layout.slots_per_segment);
        put_u32(image, 20, layout.slot_size as u32);
        put_u64(image, 24, self.generation);
        put_u64(image, 32, self.next_sequence);
        put_u32(image, 40, encode_pointer(self.current[0]));
        put_u32(image, 44, encode_pointer(self.current[1]));
        put_u32(image, 48, encode_pointer(self.current[2]));
        put_u32(image, 52, self.reserve);
        put_u64(image, 56, layout.segment_size as u64);
    }

    fn encode_segments(&self, image: &mut Vec<u8>, layout: SegmentLayout)
        requires
            self.segments@.len() == layout.segment_count,
            layout.state_fits(),
            old(image)@.len() == layout.state_copy_size,
            zero_range(old(image)@, 64, layout.state_copy_size as int),
        ensures
            changed_only(old(image)@, final(image)@, 64, 64 + 24 * layout.segment_count),
            forall|i: int|
                0 <= i < layout.segment_count ==> #[trigger] segment_reads_as(
                    final(image)@,
                    i,
                    self.segments@[i],
                ),
            forall|i: int|
                0 <= i < layout.segment_count ==> #[trigger] zero_range(
                    final(image)@,
                    64 + 24 * i + 18,
                    64 + 24 * i + 24,
                ),
    {
        let ghost original = image@;
        let mut i: usize = 0;
        while i < self.segments.len()
            invariant
                i <= self.segments@.len(),
                self.segments@.len() == layout.segment_count,
                layout.state_fits(),
                image@.len() == layout.state_copy_size,
                changed_only(original, image@, 64, 64 + 24 * i),
                zero_range(original, 64, layout.state_copy_size as int),
                forall|k: int| 0 <= k < i ==> #[trigger] segment_reads_as(image@, k, self.segments@[k]),
                forall|k: int|
                    0 <= k < i ==> #[trigger] zero_range(image@, 64 + 24 * k + 18, 64 + 24 * k + 24),
            decreases self.segments@.len() - i,
        {
            let ghost before = image@;
            let offset = STATE_HEADER_SIZE + i * STATE_ENTRY_SIZE;
            let state = self.segments[i];
            assert(zero_range(before, offset as int, offset + 24)) by {
                assert forall|b: int| offset <= b < offset + 24 implies #[trigger] before[b] == 0 by {
                    assert(original[b] == 0);
                }
            }
            put_u32(image, offset, state.generation);
            put_u32(image, offset + 4, state.used);
            put_u64(image, offset + 8, state.sequence);
            image[offset + 16] = state.priority.to_byte();
            image[offset + 17] = state.role.to_byte();
            assert(changed_only(before, image@, offset as int, offset + 18));
            assert(segment_reads_as(image@, i as int, state));
            proof {
                assert forall|k: int| 0 <= k < i implies #[trigger] segment_reads_as(
                    image@,
                    k,
                    self.segments@[k],
                ) by {
                    assert(segment_reads_as(before, k, self.segments@[k]));
                    lemma_segment_frame(before, image@, k, self.segments@[k], offset as int);
                }
                assert forall|k: int| 0 <= k < i + 1 implies #[trigger] zero_range(
                    image@,
                    64 + 24 * k + 18,
                    64 + 24 * k + 24,
                ) by {
                    if k < i {
                        assert(zero_range(before, 64 + 24 * k + 18, 64 + 24 * k + 24));
                    }
                }
            }
            i = i + 1;
        }
    }

    /// `image` can be decoded for `layout` as `state`.
    pub open spec fn decodes_as(image: Seq<u8>, layout: SegmentLayout, state: AllocatorState) -> bool {
        &&& state_header_matches(image, layout)
        &&& state_checksum_matches(image)
        &&& state.is_read_from(image, layout)
        &&& state.valid(layout)
    }

    /// No image that is one byte apart from this one can be decoded.
    pub open spec fn stands_alone(image: Seq<u8>, layout: SegmentLayout) -> bool {
        forall|other: Seq<u8>, state: AllocatorState|
            one_byte_apart(image, other) ==> !#[trigger] Self::decodes_as(other, layout, state)
    }

    proof fn lemma_stands_alone(image: Seq<u8>, layout: SegmentLayout)
        requires
            image.len() >= 4,
            state_checksum_matches(image),
            every_byte_counts(image.subrange(0, image.len() - 4)),
        ensures
            Self::stands_alone(image, layout),
    {
        assert forall|other: Seq<u8>, state: AllocatorState| one_byte_apart(image, other) implies !#[trigger] Self::decodes_as(
            other,
            layout,
            state,
        ) by {
            lemma_changed_byte(image, other);
        }
    }

    /// Decodes a state copy. Of a copy that can be decoded, none with one byte changed can.
    pub fn decode(input: &[u8], layout: SegmentLayout, active_page: u8) -> (decoded: Option<AllocatorState>)
        requires
            layout.state_fits(),
        ensures
            match decoded {
                Some(state) => Self::decodes_as(input@, layout, state) && state.active_page == active_page
                    && Self::stands_alone(input@, layout),
                None => forall|state: AllocatorState| !(#[trigger] Self::decodes_as(input@, layout, state)),
            },
    {
        if input.len() != layout.state_copy_size || !check_state_magic(input) {
            return None;
        }
        if get_u32(input, 8) != FORMAT_VERSION || get_u32(input, 12) != layout.segment_count || get_u32(input, 16)
            != layout.slots_per_segment || get_u32(input, 20) as u64 != layout.slot_size as u64 || get_u64(input, 56)
            != layout.segment_size as u64 {
            return None;
        }
        let checksum_offset = input.len() - STATE_CHECKSUM_SIZE;
        let prefix = copy_range(input, 0, checksum_offset);
        if compute_crc32_iscsi(prefix.as_slice()) != get_u32(input, checksum_offset) {
            return None;
        }
        proof {
            assert(prefix@ =~= input@.subrange(0, input@.len() - 4));
            Self::lemma_stands_alone(input@, layout);
        }
        let mut segments: Vec<SegmentState> = Vec::new();
        let mut i: usize = 0;
        while i < layout.segment_count as usize
            invariant
                i <= layout.segment_count,
                layout.state_fits(),
                input@.len() == layout.state_copy_size <= usize::MAX,
                segments@.len() == i,
                forall|k: int| 0 <= k < i ==> #[trigger] segment_reads_as(input@, k, segments@[k]),
            decreases layout.segment_count - i,
        {
            let offset = STATE_HEADER_SIZE + i * STATE_ENTRY_SIZE;
            let priority = match CachePriority::from_byte(input[offset + 16]) {
                Some(priority) => priority,
                None => {
                    proof {
                        assert forall|state: AllocatorState| !(#[trigger] Self::decodes_as(
                            input@,
                            layout,
                            state,
                        )) by {
                            if Self::decodes_as(input@, layout, state) {
                                assert(segment_reads_as(input@, i as int, state.segments@[i as int]));
                            }
                        }
                    }
                    return None;
                },
            };
            let role = match SegmentRole::from_byte(input[offset + 17]) {
                Some(role) => role,
                None => {
                    proof {
                        assert forall|state: AllocatorState| !(#[trigger] Self::decodes_as(
                            input@,
                            layout,
                            state,
                        )) by {
                            if Self::decodes_as(input@, layout, state) {
                                assert(segment_reads_as(input@, i as int, state.segments@[i as int]));
                            }
                        }
                    }
                    return None;
                },
            };
            let state = SegmentState {
                generation: get_u32(input, offset),
                used: get_u32(input, offset + 4),
                sequence: get_u64(input, offset + 8),
                priority,
                role,
            };
            let ghost before = segments@;
            segments.push(state);
            assert(segment_reads_as(input@, i as int, state));
            assert forall|k: int| 0 <= k < i + 1 implies #[trigger] segment_reads_as(
                input@,
                k,
                segments@[k],
            ) by {
                if k < i {
                    assert(segments@[k] == before[k]);
                }
            }
            i = i + 1;
        }
        let state = AllocatorState {
            generation: get_u64(input, 24),
            next_sequence: get_u64(input, 32),
            current: [
                decode_pointer(get_u32(input, 40)),
                decode_pointer(get_u32(input, 44)),
                decode_pointer(get_u32(input, 48)),
            ],
            reserve: get_u32(input, 52),
            segments,
            active_page,
        };
        assert(state.is_read_from(input@, layout));
        match state.validate(layout) {
            Ok(_) => Some(state),
            Err(_) => {
                proof {
                    assert forall|other: AllocatorState| !(#[trigger] Self::decodes_as(
                        input@,
                        layout,
                        other,
                    )) by {
                        if Self::decodes_as(input@, layout, other) {
                            lemma_read_is_unique(input@, layout, state, other);
                            lemma_fault_ignores_page(state, other, layout);
                        }
                    }
                }
                None
            },
        }
    }
}

fn encode_pointer(pointer: Option<u32>) -> (word: u32)
    ensures
        word == pointer_word(pointer),
{
    match pointer {
        Some(segment) => segment,
        None => NO_SEGMENT,
    }
}

fn decode_pointer(word: u32) -> (pointer: Option<u32>)
    ensures
        word == pointer_word(pointer),
        pointer != Some(NO_SEGMENT),
{
    if word == NO_SEGMENT {
        None
    } else {
        Some(word)
    }
}

/// A scan over clean segments finds nothing.
pub proof fn lemma_scan_clean(state: AllocatorState, layout: SegmentLayout, n: nat)
    requires
        forall|i: int| 0 <= i < n ==> (#[trigger] state.segment_fault(layout, i)) is None,
    ensures
        state.scan_fault(layout, n) is None,
    decreases n,
{
    if n > 0 {
        lemma_scan_clean(state, layout, (n - 1) as nat);
    }
}

/// A scan that finds nothing passed clean segments.
pub proof fn lemma_scan_is_clean(state: AllocatorState, layout: SegmentLayout, n: nat)
    requires
        state.scan_fault(layout, n) is None,
    ensures
        forall|i: int| 0 <= i < n ==> (#[trigger] state.segment_fault(layout, i)) is None,
    decreases n,
{
    if n > 0 {
        lemma_scan_is_clean(state, layout, (n - 1) as nat);
    }
}

proof fn lemma_scan_fault_stays(state: AllocatorState, layout: SegmentLayout, n: nat, m: nat)
    requires
        n <= m,
        state.scan_fault(layout, n) is Some,
    ensures
        state.scan_fault(layout, m) == state.scan_fault(layout, n),
    decreases m,
{
    if n < m {
        lemma_scan_fault_stays(state, layout, n, (m - 1) as nat);
    }
}

proof fn lemma_segment_frame(before: Seq<u8>, after: Seq<u8>, i: int, state: SegmentState, from: int)
    requires
        0 <= i,
        64 + 24 * i + 24 <= from,
        from + 24 <= before.len(),
        changed_only(before, after, from, from + 18),
        segment_reads_as(before, i, state),
    ensures
        segment_reads_as(after, i, state),
{
}

proof fn lemma_state_prefix(state: AllocatorState, layout: SegmentLayout, before: Seq<u8>, after: Seq<u8>)
    requires
        state.valid(layout),
        layout.state_fits(),
        before.len() == layout.state_copy_size,
        changed_only(before, after, before.len() - 4, before.len() as int),
        state_header_matches(before, layout),
        u64_at(before, 24) == state.generation,
        u64_at(before, 32) == state.next_sequence,
        u32_at(before, 40) == pointer_word(state.current@[0]),
        u32_at(before, 44) == pointer_word(state.current@[1]),
        u32_at(before, 48) == pointer_word(state.current@[2]),
        u32_at(before, 52) == state.reserve,
        forall|i: int|
            0 <= i < layout.segment_count ==> #[trigger] segment_reads_as(before, i, state.segments@[i]),
    ensures
        state_header_matches(after, layout),
        state.is_read_from(after, layout),
{
    assert(forall|p: int| 0 <= p < 3 ==> state.pointer_fault(p) is None);
    assert(state.pointer_fault(0) is None && state.pointer_fault(1) is None && state.pointer_fault(2) is None);
    assert forall|i: int| 0 <= i < layout.segment_count implies #[trigger] segment_reads_as(
        after,
        i,
        state.segments@[i],
    ) by {
        assert(segment_reads_as(before, i, state.segments@[i]));
    }
}

proof fn lemma_read_is_unique(image: Seq<u8>, layout: SegmentLayout, a: AllocatorState, b: AllocatorState)
    requires
        a.is_read_from(image, layout),
        b.is_read_from(image, layout),
    ensures
        a.generation == b.generation,
        a.next_sequence == b.next_sequence,
        a.current@ == b.current@,
        a.reserve == b.reserve,
        a.segments@ == b.segments@,
{
    assert forall|i: int| 0 <= i < a.segments@.len() implies a.segments@[i] == b.segments@[i] by {
        assert(segment_reads_as(image, i, a.segments@[i]));
        assert(segment_reads_as(image, i, b.segments@[i]));
    }
    assert(a.segments@ =~= b.segments@);
    assert(a.current@ =~= b.current@);
}

proof fn lemma_fault_ignores_page(a: AllocatorState, b: AllocatorState, layout: SegmentLayout)
    requires
        a.generation == b.generation,
        a.next_sequence == b.next_sequence,
        a.current@ == b.current@,
        a.reserve == b.reserve,
        a.segments@ == b.segments@,
    ensures
        a.fault(layout) == b.fault(layout),
{
    lemma_scan_ignores_page(a, b, layout, a.segments@.len());
    assert(a.pointer_fault(0) == b.pointer_fault(0));
    assert(a.pointer_fault(1) == b.pointer_fault(1));
    assert(a.pointer_fault(2) == b.pointer_fault(2));
}

proof fn lemma_scan_ignores_page(a: AllocatorState, b: AllocatorState, layout: SegmentLayout, n: nat)
    requires
        a.current@ == b.current@,
        a.segments@ == b.segments@,
    ensures
        a.scan_fault(layout, n) == b.scan_fault(layout, n),
    decreases n,
{
    if n > 0 {
        lemma_scan_ignores_page(a, b, layout, (n - 1) as nat);
        assert(a.segment_fault(layout, n - 1) == b.segment_fault(layout, n - 1));
    }
}

/// Decoding the encoding of a state gives that state back, whatever page it is
/// read from.
pub proof fn law_state_round_trip(
    image: Seq<u8>,
    layout: SegmentLayout,
    state: AllocatorState,
    decoded: AllocatorState,
)
    requires
        state.valid(layout),
        state.is_encoded_as(image, layout),
        AllocatorState::decodes_as(image, layout, decoded),
    ensures
        AllocatorState::decodes_as(image, layout, state),
        decoded.generation == state.generation,
        decoded.next_sequence == state.next_sequence,
        decoded.current@ == state.current@,
        decoded.reserve == state.reserve,
        decoded.segments@ == state.segments@,
{
    lemma_read_is_unique(image, layout, state, decoded);
}

/// What is decoded is a valid state, which can be encoded again.
pub proof fn law_decoded_states_are_valid(image: Seq<u8>, layout: SegmentLayout, state: AllocatorState)
    requires
        AllocatorState::decodes_as(image, layout, state),
    ensures
        state.valid(layout),
        state.fault(layout) is None,
        layout.slot_size <= u32::MAX,
{
}

/// An image whose checksum does not match its contents decodes to nothing.
pub proof fn law_corrupt_state_is_rejected(image: Seq<u8>, layout: SegmentLayout, state: AllocatorState)
    requires
        !state_checksum_matches(image),
    ensures
        !AllocatorState::decodes_as(image, layout, state),
{
}

/// The layout of a store is found again in its encoded state.
pub proof fn law_layout_is_discovered(
    image: Seq<u8>,
    layout: SegmentLayout,
    state: AllocatorState,
    other: SegmentLayout,
)
    requires
        layout.wf(),
        layout.state_fits(),
        state.is_encoded_as(image, layout),
    ensures
        SegmentLayout::describes(
            image,
            layout.data_file_size,
            layout.owner_file_size,
            (2 * layout.state_copy_size) as u64,
            layout,
        ),
        SegmentLayout::describes(
            image,
            layout.data_file_size,
            layout.owner_file_size,
            (2 * layout.state_copy_size) as u64,
            other,
        ) ==> other == layout,
{
}

/// Where an entry is stored.
#[derive(Debug, Clone, Copy, PartialEq, Eq, Structural)]
pub struct SegmentLocation {
    pub physical_slot: u64,
    pub segment_generation: u32,
    pub stored_len: u32,
    pub checksum: u32,
    pub priority: CachePriority,
}

/// A location record that holds `location`.
pub open spec fn location_reads_as(record: Seq<u8>, location: SegmentLocation) -> bool {
    &&& record.len() == 32
    &&& record[0] == 0x53
    &&& record[1] == 0x43
    &&& record[2] == 0x4c
    &&& record[3] == 0x4f
    &&& record[4] == 3
    &&& record[5] == rank(location.priority)
    &&& u64_at(record, 8) == location.physical_slot
    &&& u32_at(record, 16) == location.segment_generation
    &&& u32_at(record, 20) == location.stored_len
    &&& u32_at(record, 24) == location.checksum
    &&& u32_at(record, 28) == crc32_iscsi(record.subrange(0, 28))
}

impl SegmentLocation {
    /// Encodes the location as a record; the unused bytes are zero.
    pub fn encode(self) -> (record: Vec<u8>)
        ensures
            location_reads_as(record@, self),
            zero_range(record@, 6, 8),
    {
        let mut record = zeroed(LOCATION_RECORD_SIZE);
        record[0] = 0x53;
        record[1] = 0x43;
        record[2] = 0x4c;
        record[3] = 0x4f;
        record[4] = FORMAT_VERSION_BYTE;
        record[5] = self.priority.to_byte();
        put_u64(&mut record, 8, self.physical_slot);
        put_u32(&mut record, 16, self.segment_generation);
        put_u32(&mut record, 20, self.stored_len);
        put_u32(&mut record, 24, self.checksum);
        let prefix = copy_range(record.as_slice(), 0, 28);
        let ghost before = record@;
        put_u32(&mut record, 28, compute_crc32_iscsi(prefix.as_slice()));
        assert(record@.subrange(0, 28) =~= before.subrange(0, 28));
        record
    }

    /// Decodes a location record.
    pub fn decode(input: &[u8]) -> (location: Option<SegmentLocation>)
        ensures
            match location {
                Some(location) => location_reads_as(input@, location),
                None => forall|location: SegmentLocation| !(#[trigger] location_reads_as(input@, location)),
            },
    {
        if input.len() != LOCATION_RECORD_SIZE {
            return None;
        }
        if input[0] != 0x53 || input[1] != 0x43 || input[2] != 0x4c || input[3] != 0x4f || input[4]
            != FORMAT_VERSION_BYTE {
            return None;
        }
        let prefix = copy_range(input, 0, 28);
        if compute_crc32_iscsi(prefix.as_slice()) != get_u32(input, 28) {
            return None;
        }
        let priority = match CachePriority::from_byte(input[5]) {
            Some(priority) => priority,
            None => return None,
        };
        Some(
            SegmentLocation {
                physical_slot: get_u64(input, 8),
                segment_generation: get_u32(input, 16),
                stored_len: get_u32(input, 20),
                checksum: get_u32(input, 24),
                priority,
            },
        )
    }
}

/// A location record holds one location, so that decoding an encoding gives the
/// location back.
pub proof fn law_location_round_trip(record: Seq<u8>, encoded: SegmentLocation, decoded: SegmentLocation)
    requires
        location_reads_as(record, encoded),
        location_reads_as(record, decoded),
    ensures
        encoded == decoded,
{
}

/// Who owns a run of slots.
#[derive(Debug, Clone, Copy, PartialEq, Eq)]
pub struct OwnerRecord {
    pub key_digest: KeyDigest,
    pub segment_generation: u32,
    pub stored_len: u32,
    pub value_len: u32,
    pub checksum: u32,
    pub priority: CachePriority,
    pub sequence: u64,
}

/// An owner record that holds `owner`.
pub open spec fn owner_reads_as(record: Seq<u8>, owner: OwnerRecord) -> bool {
    &&& record.len() == 64
    &&& record[0] == 0x53
    &&& record[1] == 0x43
    &&& record[2] == 0x4f
    &&& record[3] == 0x57
    &&& record[4] == 3
    &&& record[5] == rank(owner.priority)
    &&& record.subrange(8, 32) == owner.key_digest@
    &&& u32_at(record, 32) == owner.segment_generation
    &&& u32_at(record, 36) == owner.stored_len
    &&& u32_at(record, 40) == owner.checksum
    &&& u64_at(record, 44) == owner.sequence
    &&& u32_at(record, 52) == owner.value_len
    &&& u32_at(record, 56) == crc32_iscsi(record.subrange(0, 56))
}

impl OwnerRecord {
    /// Encodes the owner as a record; the unused bytes are zero.
    pub fn encode(self) -> (record: Vec<u8>)
        ensures
            owner_reads_as(record@, self),
            zero_range(record@, 6, 8),
            zero_range(record@, 60, 64),
    {
        let mut record = zeroed(OWNER_RECORD_SIZE);
        record[0] = 0x53;
        record[1] = 0x43;
        record[2] = 0x4f;
        record[3] = 0x57;
        record[4] = FORMAT_VERSION_BYTE;
        record[5] = self.priority.to_byte();
        write_at(&mut record, 8, self.key_digest.as_bytes().as_slice());
        let ghost with_digest = record@;
        put_u32(&mut record, 32, self.segment_generation);
        put_u32(&mut record, 36, self.stored_len);
        put_u32(&mut record, 40, self.checksum);
        put_u64(&mut record, 44, self.sequence);
        put_u32(&mut record, 52, self.value_len);
        let prefix = copy_range(record.as_slice(), 0, 56);
        let ghost before = record@;
        put_u32(&mut record, 56, compute_crc32_iscsi(prefix.as_slice()));
        assert(record@.subrange(0, 56) =~= before.subrange(0, 56));
        assert(record@.subrange(8, 32) =~= with_digest.subrange(8, 32));
        record
    }

    /// Decodes an owner record.
    pub fn decode(input: &[u8]) -> (owner: Option<OwnerRecord>)
        ensures
            match owner {
                Some(owner) => owner_reads_as(input@, owner),
                None => forall|owner: OwnerRecord| !(#[trigger] owner_reads_as(input@, owner)),
            },
    {
        if input.len() != OWNER_RECORD_SIZE {
            return None;
        }
        if input[0] != 0x53 || input[1] != 0x43 || input[2] != 0x4f || input[3] != 0x57 || input[4]
            != FORMAT_VERSION_BYTE {
            return None;
        }
        let prefix = copy_range(input, 0, 56);
        if compute_crc32_iscsi(prefix.as_slice()) != get_u32(input, 56) {
            return None;
        }
        let priority = match CachePriority::from_byte(input[5]) {
            Some(priority) => priority,
            None => return None,
        };
        Some(
            OwnerRecord {
                key_digest: KeyDigest::from_slice(input, 8),
                segment_generation: get_u32(input, 32),
                stored_len: get_u32(input, 36),
                value_len: get_u32(input, 52),
                checksum: get_u32(input, 40),
                priority,
                sequence: get_u64(input, 44),
            },
        )
    }
}

/// An owner record holds one owner, so that decoding an encoding gives the owner
/// back.
pub proof fn law_owner_round_trip(record: Seq<u8>, encoded: OwnerRecord, decoded: OwnerRecord)
    requires
        owner_reads_as(record, encoded),
        owner_reads_as(record, decoded),
    ensures
        encoded.key_digest@ == decoded.key_digest@,
        encoded.segment_generation == decoded.segment_generation,
        encoded.stored_len == decoded.stored_len,
        encoded.value_len == decoded.value_len,
        encoded.checksum == decoded.checksum,
        encoded.priority == decoded.priority,
        encoded.sequence == decoded.sequence,
{
}

/// The capacity is used as far as it goes: what the layout takes is within it, a segment
/// more would not be, and every slot of its segments has its bytes in the data file.
pub proof fn law_the_largest_layout_is_created(config: SegmentEngineConfig, layout: SegmentLayout, more: nat)
    requires
        creates(config, Ok(layout)),
        layout.segment_count < more <= u32::MAX,
    ensures
        layout.segment_count >= 5,
        layout.segment_size == config.options.segment_size,
        layout.slot_size == config.slot_size,
        layout.slots_per_segment * layout.slot_size == layout.segment_size,
        layout.data_file_size == layout.segment_count * layout.slots_per_segment * layout.slot_size,
        layout.usable_entries == (layout.segment_count - 1) * layout.slots_per_segment,
        layout.total_file_size == layout.data_file_size + layout.owner_file_size + layout.index_capacity_bytes + 2
            * layout.state_copy_size,
        layout.total_file_size <= config.capacity_bytes,
        total_bytes(layout.slot_size as nat, layout.slots_per_segment as nat, more) > config.capacity_bytes,
{
    let slot = layout.slot_size as nat;
    let slots = layout.slots_per_segment as nat;
    let size = layout.segment_size as nat;
    let maximum = maximum_segments(config);
    let capacity = config.capacity_bytes as nat;
    vstd::arithmetic::div_mod::lemma_fundamental_div_mod(size as int, slot as int);
    assert(slots * slot == slot * slots) by (nonlinear_arith);
    law_a_plan_covers_every_slot(slot, slots, layout.segment_count as nat, layout.sizes());
    law_the_largest_number_of_units_is_found(
        capacity,
        slot,
        slots,
        maximum,
        Ok((layout.segment_count, layout.sizes())),
        layout.segment_count as nat,
    );
    if more <= maximum {
        law_the_largest_number_of_units_is_found(
            capacity,
            slot,
            slots,
            maximum,
            Ok((layout.segment_count, layout.sizes())),
            more,
        );
    } else {
        let whole = capacity as int / size as int;
        vstd::arithmetic::div_mod::lemma_fundamental_div_mod(capacity as int, size as int);
        let rest = capacity as int % size as int;
        assert(more >= whole + 1);
        assert(more * slots * slot > capacity) by (nonlinear_arith)
            requires
                more >= whole + 1,
                capacity == size * whole + rest,
                rest < size,
                size == slots * slot,
        ;
    }
}

} // verus!
