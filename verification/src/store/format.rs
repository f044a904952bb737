//! Persistent records of the extent store: the layout, the allocator state, slot
//! owners and entry locations.

use vstd::prelude::*;

use crate::checksum::{
    compute_crc32_iscsi, crc32_iscsi, ends_with_checksum, every_byte_counts, lemma_changed_byte, one_byte_apart,
};
use crate::error::{config_error, invalid_config, Error};
use crate::format::PAGE_SIZE;
use crate::layout::{
    fit_units, fits, law_a_plan_covers_every_slot, law_slot_numbers_round_trip,
    law_the_largest_number_of_units_is_found, plan, plan_units, slot_number, slot_place, total_bytes, PlanFault,
    STATE_CHECKSUM_SIZE, STATE_ENTRY_SIZE, STATE_HEADER_SIZE, SlotPlan,
};
use crate::model::{rank, CachePriority, KeyDigest};
use crate::store::config::ExtentStoreConfig;
use crate::text::{decimal, push_decimal};
use crate::wire::{
    changed_only, copy_range, get_u32, get_u64, put_u32, put_u64, u32_at, u64_at, write_at, zero_range, zeroed,
};

verus! {

pub const SLOT_OWNER_SIZE: usize = 64;

pub const LOCATION_RECORD_SIZE: usize = 32;

/// Identifies every persisted layout and encoding choice; a changed slot or extent
/// size, layout derivation or record encoding needs another number.
pub const EXTENT_FORMAT_VERSION: u32 = 3;

const FORMAT_VERSION_BYTE: u8 = 3;

pub const NO_EXTENT: u32 = 0xffff_ffff;

/// How a capacity is divided into extents, and the sizes of the files.
#[derive(Debug, Clone, Copy, PartialEq, Eq, Structural)]
pub struct StoreLayout {
    pub slot_size: usize,
    pub extent_size: usize,
    pub slots_per_extent: u32,
    pub extent_count: u32,
    pub max_entries: u64,
    pub index_capacity_bytes: u64,
    pub data_file_size: u64,
    pub slot_owner_file_size: u64,
    pub state_copy_size: usize,
    pub total_file_size: u64,
}

/// Why a plan failed, in words.
pub open spec fn fault_text(fault: PlanFault) -> Seq<char> {
    match fault {
        PlanFault::IndexOverhead => "fixed LSM index overhead overflows u64"@,
        PlanFault::IndexCapacity => "fixed LSM index capacity overflows u64"@,
        PlanFault::DataFile => "extent data file size overflows u64"@,
        PlanFault::OwnerFile => "extent owner file size overflows u64"@,
        PlanFault::StateTable => "extent state table size overflows usize"@,
        PlanFault::Total => "extent store file size overflows u64"@,
    }
}

fn fault_error(fault: PlanFault) -> (error: Error)
    ensures
        config_error(error, fault_text(fault)),
{
    match fault {
        PlanFault::IndexOverhead => invalid_config("fixed LSM index overhead overflows u64"),
        PlanFault::IndexCapacity => invalid_config("fixed LSM index capacity overflows u64"),
        PlanFault::DataFile => invalid_config("extent data file size overflows u64"),
        PlanFault::OwnerFile => invalid_config("extent owner file size overflows u64"),
        PlanFault::StateTable => invalid_config("extent state table size overflows usize"),
        PlanFault::Total => invalid_config("extent store file size overflows u64"),
    }
}

/// A slot is a positive number of pages.
pub open spec fn slot_size_ok(slot_size: int) -> bool {
    slot_size >= 4096 && slot_size % 4096 == 0
}

/// An extent is a positive number of slots.
pub open spec fn extent_size_ok(extent_size: int, slot_size: int) -> bool {
    extent_size >= slot_size && extent_size % slot_size == 0
}

/// The most extents that the payload alone would allow.
pub open spec fn maximum_extents(config: ExtentStoreConfig) -> nat {
    let whole = config.capacity_bytes as nat / config.options.extent_size as nat;
    if whole > u32::MAX {
        u32::MAX as nat
    } else {
        whole
    }
}

/// The outcome of dividing a capacity into extents.
pub open spec fn creates(config: ExtentStoreConfig, result: Result<StoreLayout, Error>) -> bool {
    let slot_size = config.slot_size as int;
    let extent_size = config.options.extent_size as int;
    if !slot_size_ok(slot_size) {
        result matches Err(error) && config_error(
            error,
            "extent slot_size must be a positive multiple of 4096 bytes"@,
        )
    } else if !extent_size_ok(extent_size, slot_size) {
        result matches Err(error) && config_error(
            error,
            "extent_size must be a positive multiple of slot_size ("@ + decimal(slot_size as nat) + ")"@,
        )
    } else if extent_size / slot_size > u32::MAX {
        result matches Err(error) && config_error(
            error,
            "extent contains more physical slots than u32 can represent"@,
        )
    } else {
        let slots = (extent_size / slot_size) as nat;
        let maximum = maximum_extents(config);
        match result {
            Ok(layout) => {
                &&& layout.slot_size == slot_size
                &&& layout.extent_size == extent_size
                &&& layout.slots_per_extent == slots
                &&& fits(
                    config.capacity_bytes as nat,
                    slot_size as nat,
                    slots,
                    maximum,
                    Ok((layout.extent_count, layout.sizes())),
                )
            },
            Err(error) => {
                ||| exists|fault: PlanFault|
                    config_error(error, #[trigger] fault_text(fault)) && fits(
                        config.capacity_bytes as nat,
                        slot_size as nat,
                        slots,
                        maximum,
                        Err(Some(fault)),
                    )
                ||| config_error(
                    error,
                    "extent store capacity must fit at least five "@ + decimal(extent_size as nat)
                        + "-byte extents and their persistent index"@,
                ) && fits(config.capacity_bytes as nat, slot_size as nat, slots, maximum, Err(None))
            },
        }
    }
}

impl StoreLayout {
    /// The planned file sizes.
    pub open spec fn sizes(self) -> SlotPlan {
        SlotPlan {
            usable_entries: self.max_entries,
            index_capacity_bytes: self.index_capacity_bytes,
            data_file_size: self.data_file_size,
            owner_file_size: self.slot_owner_file_size,
            state_copy_size: self.state_copy_size,
            total_file_size: self.total_file_size,
        }
    }

    /// The layout divides its extents into whole slots and has the file sizes that
    /// follow from its shape.
    pub open spec fn wf(self) -> bool {
        &&& slot_size_ok(self.slot_size as int)
        &&& self.slots_per_extent > 0
        &&& self.extent_count >= 5
        &&& self.extent_size == self.slot_size * self.slots_per_extent
        &&& plan(self.slot_size as nat, self.slots_per_extent as nat, self.extent_count as nat) == Ok::<
            SlotPlan,
            PlanFault,
        >(self.sizes())
    }

    /// One state copy has room for the records of all extents.
    pub open spec fn state_fits(self) -> bool {
        self.state_copy_size >= 68 + 24 * self.extent_count
    }

    /// Divides a capacity into as many extents as fit with their index.
    pub fn create(config: ExtentStoreConfig) -> (result: Result<StoreLayout, Error>)
        ensures
            creates(config, result),
            result matches Ok(layout) ==> layout.wf() && layout.state_fits() && layout.total_file_size
                <= config.capacity_bytes,
    {
        let slot_size = config.slot_size;
        let extent_size = config.options.extent_size;
        if slot_size < PAGE_SIZE || slot_size % PAGE_SIZE != 0 {
            return Err(invalid_config("extent slot_size must be a positive multiple of 4096 bytes"));
        }
        if extent_size < slot_size || extent_size % slot_size != 0 {
            let mut text = "extent_size must be a positive multiple of slot_size (".to_owned();
            push_decimal(&mut text, slot_size as u64);
            text.append(")");
            return Err(Error::InvalidConfig(text));
        }
        let slots = extent_size / slot_size;
        if slots > 0xffff_ffff {
            return Err(invalid_config("extent contains more physical slots than u32 can represent"));
        }
        proof {
            vstd::arithmetic::div_mod::lemma_fundamental_div_mod(extent_size as int, slot_size as int);
            assert(slots >= 1) by (nonlinear_arith)
                requires
                    extent_size == slot_size * slots,
                    extent_size >= slot_size > 0,
            ;
        }
        let whole = config.capacity_bytes / extent_size as u64;
        let maximum = if whole > 0xffff_ffff {
            0xffff_ffffu32
        } else {
            whole as u32
        };
        let outcome = fit_units(config.capacity_bytes, slot_size, slots as u32, maximum);
        assert(maximum == maximum_extents(config));
        assert(fits(config.capacity_bytes as nat, slot_size as nat, slots as nat, maximum as nat, outcome));
        match outcome {
            Ok((extent_count, sizes)) => {
                let layout = StoreLayout {
                    slot_size,
                    extent_size,
                    slots_per_extent: slots as u32,
                    extent_count,
                    max_entries: sizes.usable_entries,
                    index_capacity_bytes: sizes.index_capacity_bytes,
                    data_file_size: sizes.data_file_size,
                    slot_owner_file_size: sizes.owner_file_size,
                    state_copy_size: sizes.state_copy_size,
                    total_file_size: sizes.total_file_size,
                };
                assert(layout.sizes() == sizes);
                Ok(layout)
            },
            Err(Some(fault)) => Err(fault_error(fault)),
            Err(None) => {
                let mut text = "extent store capacity must fit at least five ".to_owned();
                push_decimal(&mut text, extent_size as u64);
                text.append("-byte extents and their persistent index");
                Err(Error::InvalidConfig(text))
            },
        }
    }

    /// The number of a slot in the whole store.
    pub fn slot_index(self, extent: u32, slot: u32) -> (number: Option<u64>)
        ensures
            number == (if extent < self.extent_count && slot < self.slots_per_extent {
                Some(slot_number(self.slots_per_extent as nat, extent as nat, slot as nat) as u64)
            } else {
                None
            }),
            number matches Some(found) ==> found == extent * self.slots_per_extent + slot,
    {
        if extent < self.extent_count && slot < self.slots_per_extent {
            assert(extent * self.slots_per_extent <= 0xffff_fffe * 0xffff_ffff) by (nonlinear_arith)
                requires
                    extent < self.extent_count <= 0xffff_ffff,
                    self.slots_per_extent <= 0xffff_ffff,
            ;
            Some(extent as u64 * self.slots_per_extent as u64 + slot as u64)
        } else {
            None
        }
    }

    /// The extent and slot of a slot number.
    pub fn locate_slot(self, slot_index: u64) -> (place: Option<(u32, u32)>)
        requires
            self.slots_per_extent > 0,
        ensures
            match place {
                Some((extent, slot)) => slot_place(self.slots_per_extent as nat, slot_index as nat) == (
                    extent as nat,
                    slot as nat,
                ) && extent < self.extent_count && slot < self.slots_per_extent && slot_index == extent
                    * self.slots_per_extent + slot,
                None => slot_place(self.slots_per_extent as nat, slot_index as nat).0 >= self.extent_count,
            },
    {
        let extent = slot_index / self.slots_per_extent as u64;
        let slot = slot_index % self.slots_per_extent as u64;
        proof {
            law_slot_numbers_round_trip(self.slots_per_extent as nat, 0, 0, slot_index as nat);
        }
        if extent < self.extent_count as u64 {
            Some((extent as u32, slot as u32))
        } else {
            None
        }
    }

    /// `image` describes `layout`: it has the right magic, version, shape and length,
    /// and the files have the sizes that follow.
    pub open spec fn describes(
        image: Seq<u8>,
        data_file_size: u64,
        slot_owner_file_size: u64,
        state_file_size: u64,
        layout: StoreLayout,
    ) -> bool {
        &&& image.len() >= 64
        &&& has_state_magic(image)
        &&& u32_at(image, 8) == EXTENT_FORMAT_VERSION
        &&& u32_at(image, 12) == layout.extent_count
        &&& u32_at(image, 16) == layout.slots_per_extent
        &&& u32_at(image, 20) == layout.slot_size
        &&& u64_at(image, 56) == layout.extent_size
        &&& layout.wf()
        &&& data_file_size == layout.data_file_size
        &&& slot_owner_file_size == layout.slot_owner_file_size
        &&& state_file_size == 2 * layout.state_copy_size
        &&& image.len() == layout.state_copy_size
    }

    /// The layout that a state copy describes, if the files bear it out.
    pub fn discover(state_copy: &[u8], data_file_size: u64, slot_owner_file_size: u64, state_file_size: u64) -> (found:
        Option<StoreLayout>)
        ensures
            match found {
                Some(layout) => Self::describes(
                    state_copy@,
                    data_file_size,
                    slot_owner_file_size,
                    state_file_size,
                    layout,
                ) && layout.state_fits(),
                None => forall|layout: StoreLayout|
                    !(#[trigger] Self::describes(
                        state_copy@,
                        data_file_size,
                        slot_owner_file_size,
                        state_file_size,
                        layout,
                    )),
            },
    {
        if state_copy.len() < STATE_HEADER_SIZE || !check_state_magic(state_copy) || get_u32(state_copy, 8)
            != EXTENT_FORMAT_VERSION {
            return None;
        }
        let extent_count = get_u32(state_copy, 12);
        let slots_per_extent = get_u32(state_copy, 16);
        let slot_size = get_u32(state_copy, 20);
        let extent_size = get_u64(state_copy, 56);
        if extent_count < 5 || slots_per_extent == 0 || slot_size < PAGE_SIZE as u32 || slot_size
            % PAGE_SIZE as u32 != 0 {
            return None;
        }
        assert(slot_size * slots_per_extent <= 0xffff_ffff * 0xffff_ffff) by (nonlinear_arith)
            requires
                slot_size <= 0xffff_ffff,
                slots_per_extent <= 0xffff_ffff,
        ;
        if extent_size != slot_size as u64 * slots_per_extent as u64 || extent_size > usize::MAX as u64 {
            return None;
        }
        let sizes = match plan_units(slot_size as usize, slots_per_extent, extent_count) {
            Ok(sizes) => sizes,
            Err(_) => return None,
        };
        if data_file_size != sizes.data_file_size || slot_owner_file_size != sizes.owner_file_size || state_file_size
            != sizes.state_copy_size as u64 * 2 || state_copy.len() != sizes.state_copy_size {
            return None;
        }
        Some(
            StoreLayout {
                slot_size: slot_size as usize,
                extent_size: extent_size as usize,
                slots_per_extent,
                extent_count,
                max_entries: sizes.usable_entries,
                index_capacity_bytes: sizes.index_capacity_bytes,
                data_file_size: sizes.data_file_size,
                slot_owner_file_size: sizes.owner_file_size,
                state_copy_size: sizes.state_copy_size,
                total_file_size: sizes.total_file_size,
            },
        )
    }
}

/// What an extent is used for.
#[derive(Debug, Clone, Copy, PartialEq, Eq, Structural)]
pub enum ExtentRole {
    Free,
    Reserve,
    Current,
    Sealed,
    ReclaimSource,
    ReclaimTarget,
}

/// The byte that stands for a role.
pub open spec fn role_byte(role: ExtentRole) -> int {
    match role {
        ExtentRole::Free => 0,
        ExtentRole::Reserve => 1,
        ExtentRole::Current => 2,
        ExtentRole::Sealed => 3,
        ExtentRole::ReclaimSource => 4,
        ExtentRole::ReclaimTarget => 5,
    }
}

impl ExtentRole {
    fn to_byte(self) -> (byte: u8)
        ensures
            byte == role_byte(self),
    {
        match self {
            ExtentRole::Free => 0,
            ExtentRole::Reserve => 1,
            ExtentRole::Current => 2,
            ExtentRole::Sealed => 3,
            ExtentRole::ReclaimSource => 4,
            ExtentRole::ReclaimTarget => 5,
        }
    }

    fn from_byte(value: u8) -> (role: Option<ExtentRole>)
        ensures
            match role {
                Some(role) => role_byte(role) == value,
                None => value > 5,
            },
    {
        match value {
            0 => Some(ExtentRole::Free),
            1 => Some(ExtentRole::Reserve),
            2 => Some(ExtentRole::Current),
            3 => Some(ExtentRole::Sealed),
            4 => Some(ExtentRole::ReclaimSource),
            5 => Some(ExtentRole::ReclaimTarget),
            _ => None,
        }
    }
}

/// What the allocator knows of one extent.
#[derive(Debug, Clone, Copy, PartialEq, Eq, Structural)]
pub struct ExtentState {
    pub generation: u32,
    pub used: u32,
    pub sequence: u64,
    pub priority: CachePriority,
    pub role: ExtentRole,
}

/// An extent that was never used.
pub open spec fn free_extent() -> ExtentState {
    ExtentState {
        generation: 1,
        used: 0,
        sequence: 0,
        priority: CachePriority::Low,
        role: ExtentRole::Free,
    }
}

impl ExtentState {
    fn free() -> (state: ExtentState)
        ensures
            state == free_extent(),
    {
        ExtentState {
            generation: 1,
            used: 0,
            sequence: 0,
            priority: CachePriority::Low,
            role: ExtentRole::Free,
        }
    }
}

/// The number of extents with a role.
pub open spec fn count_role(extents: Seq<ExtentState>, role: ExtentRole) -> nat
    decreases extents.len(),
{
    if extents.len() == 0 {
        0
    } else {
        count_role(extents.drop_last(), role) + if extents.last().role == role {
            1nat
        } else {
            0nat
        }
    }
}

/// Replacing one extent moves one unit of each count.
pub proof fn lemma_count_role_update(extents: Seq<ExtentState>, i: int, new: ExtentState, role: ExtentRole)
    requires
        0 <= i < extents.len(),
    ensures
        count_role(extents.update(i, new), role) + (if extents[i].role == role {
            1nat
        } else {
            0nat
        }) == count_role(extents, role) + (if new.role == role {
            1nat
        } else {
            0nat
        }),
    decreases extents.len(),
{
    if i == extents.len() - 1 {
        assert(extents.update(i, new).drop_last() =~= extents.drop_last());
    } else {
        assert(extents.update(i, new).drop_last() =~= extents.drop_last().update(i, new));
        lemma_count_role_update(extents.drop_last(), i, new, role);
    }
}

/// A count of zero means that no extent has the role.
pub proof fn lemma_count_role_zero(extents: Seq<ExtentState>, role: ExtentRole)
    ensures
        count_role(extents, role) == 0 <==> forall|i: int|
            0 <= i < extents.len() ==> (#[trigger] extents[i]).role != role,
    decreases extents.len(),
{
    if extents.len() > 0 {
        lemma_count_role_zero(extents.drop_last(), role);
        let rest = extents.drop_last();
        assert forall|i: int| 0 <= i < rest.len() implies rest[i] == extents[i] by {}
        if count_role(extents, role) == 0 {
            assert forall|i: int| 0 <= i < extents.len() implies (#[trigger] extents[i]).role != role by {
                if i < rest.len() {
                    assert(rest[i].role != role);
                }
            }
        } else if extents.last().role != role {
            let i = choose|i: int| 0 <= i < rest.len() && (#[trigger] rest[i]).role == role;
            assert(extents[i].role == role);
        } else {
            assert(extents[extents.len() - 1].role == role);
        }
    }
}

/// A fresh state has one reserve and otherwise free extents.
proof fn lemma_count_role_uniform(extents: Seq<ExtentState>, role: ExtentRole)
    requires
        forall|i: int| 0 <= i < extents.len() ==> (#[trigger] extents[i]).role == ExtentRole::Free,
        role != ExtentRole::Free,
    ensures
        count_role(extents, role) == 0,
{
    lemma_count_role_zero(extents, role);
}

/// The state of the extent allocator.
#[derive(Debug, PartialEq, Eq)]
pub struct ExtentPoolState {
    pub state_generation: u64,
    pub next_sequence: u64,
    pub current: [Option<u32>; 3],
    pub reserve: u32,
    pub extents: Vec<ExtentState>,
    pub active_page: u8,
}

/// `image` begins with the magic `SCSEGST1`.
pub open spec fn has_state_magic(image: Seq<u8>) -> bool {
    &&& image[0] == 0x53
    &&& image[1] == 0x43
    &&& image[2] == 0x53
    &&& image[3] == 0x45
    &&& image[4] == 0x47
    &&& image[5] == 0x53
    &&& image[6] == 0x54
    &&& image[7] == 0x31
}

fn check_state_magic(image: &[u8]) -> (found: bool)
    requires
        image@.len() >= 8,
    ensures
        found == has_state_magic(image@),
{
    image[0] == 0x53 && image[1] == 0x43 && image[2] == 0x53 && image[3] == 0x45 && image[4] == 0x47 && image[5]
        == 0x53 && image[6] == 0x54 && image[7] == 0x31
}

/// The number that stands for a current extent, or for none.
pub open spec fn pointer_word(pointer: Option<u32>) -> nat {
    match pointer {
        Some(extent) => extent as nat,
        None => NO_EXTENT as nat,
    }
}

/// The header of a state image, for a layout.
pub open spec fn state_header_matches(image: Seq<u8>, layout: StoreLayout) -> bool {
    &&& image.len() == layout.state_copy_size
    &&& has_state_magic(image)
    &&& u32_at(image, 8) == EXTENT_FORMAT_VERSION
    &&& u32_at(image, 12) == layout.extent_count
    &&& u32_at(image, 16) == layout.slots_per_extent
    &&& u32_at(image, 20) == layout.slot_size
    &&& u64_at(image, 56) == layout.extent_size
}

/// The last four bytes of a state image are the checksum of the rest.
pub open spec fn state_checksum_matches(image: Seq<u8>) -> bool {
    ends_with_checksum(image)
}

/// The record of one extent in a state image.
pub open spec fn extent_reads_as(image: Seq<u8>, i: int, state: ExtentState) -> bool {
    let at = 64 + 24 * i;
    &&& u32_at(image, at) == state.generation
    &&& u32_at(image, at + 4) == state.used
    &&& u64_at(image, at + 8) == state.sequence
    &&& image[at + 16] == rank(state.priority)
    &&& image[at + 17] == role_byte(state.role)
}

impl ExtentPoolState {
    /// The fields of a state image hold this state.
    pub open spec fn is_read_from(self, image: Seq<u8>, layout: StoreLayout) -> bool {
        &&& u64_at(image, 24) == self.state_generation
        &&& u64_at(image, 32) == self.next_sequence
        &&& u32_at(image, 40) == pointer_word(self.current@[0])
        &&& u32_at(image, 44) == pointer_word(self.current@[1])
        &&& u32_at(image, 48) == pointer_word(self.current@[2])
        &&& self.current@[0] != Some(NO_EXTENT)
        &&& self.current@[1] != Some(NO_EXTENT)
        &&& self.current@[2] != Some(NO_EXTENT)
        &&& u32_at(image, 52) == self.reserve
        &&& self.extents@.len() == layout.extent_count
        &&& forall|i: int|
            0 <= i < layout.extent_count ==> #[trigger] extent_reads_as(image, i, self.extents@[i])
    }

    /// `image` is the encoding of this state: header, fields and checksum, and zero
    /// bytes everywhere else.
    pub open spec fn is_encoded_as(self, image: Seq<u8>, layout: StoreLayout) -> bool {
        &&& state_header_matches(image, layout)
        &&& self.is_read_from(image, layout)
        &&& state_checksum_matches(image)
        &&& forall|i: int|
            0 <= i < layout.extent_count ==> #[trigger] zero_range(image, 64 + 24 * i + 18, 64 + 24 * i + 24)
        &&& zero_range(image, 64 + 24 * layout.extent_count, image.len() - 4)
    }

    /// What is wrong with one extent.
    pub open spec fn extent_fault(self, layout: StoreLayout, i: int) -> Option<Seq<char>> {
        let state = self.extents@[i];
        if state.generation == 0 || state.used > layout.slots_per_extent {
            Some("extent allocator entry is invalid"@)
        } else if state.role == ExtentRole::Current && self.current@[rank(state.priority)] != Some(i as u32) {
            Some("extent current pointer is inconsistent"@)
        } else {
            None
        }
    }

    /// What is wrong with the first faulty extent among the first `n`.
    pub open spec fn scan_fault(self, layout: StoreLayout, n: nat) -> Option<Seq<char>>
        decreases n,
    {
        if n == 0 {
            None
        } else {
            match self.scan_fault(layout, (n - 1) as nat) {
                Some(text) => Some(text),
                None => self.extent_fault(layout, n - 1),
            }
        }
    }

    /// One reserve and no reclaim in progress.
    pub open spec fn is_normal(self) -> bool {
        &&& count_role(self.extents@, ExtentRole::Reserve) == 1
        &&& count_role(self.extents@, ExtentRole::ReclaimSource) == 0
        &&& count_role(self.extents@, ExtentRole::ReclaimTarget) == 0
    }

    /// One extent is being copied into the reserve.
    pub open spec fn is_reclaiming(self) -> bool {
        &&& count_role(self.extents@, ExtentRole::Reserve) == 0
        &&& count_role(self.extents@, ExtentRole::ReclaimSource) == 1
        &&& count_role(self.extents@, ExtentRole::ReclaimTarget) == 1
        &&& self.extents@[self.reserve as int].role == ExtentRole::ReclaimTarget
    }

    /// What is wrong with the current pointer of one priority.
    pub open spec fn pointer_fault(self, priority: int) -> Option<Seq<char>> {
        match self.current@[priority] {
            Some(extent) => if extent >= self.extents@.len() {
                Some("extent current pointer is out of range"@)
            } else if self.extents@[extent as int].role != ExtentRole::Current || rank(
                self.extents@[extent as int].priority,
            ) != priority {
                Some("extent current pointer has the wrong class"@)
            } else {
                None
            },
            None => None,
        }
    }

    /// What is wrong with the state, if anything.
    pub open spec fn fault(self, layout: StoreLayout) -> Option<Seq<char>> {
        if self.state_generation == 0 || self.next_sequence == 0 {
            Some("extent allocator generations must be positive"@)
        } else if self.extents@.len() != layout.extent_count || self.reserve >= layout.extent_count {
            Some("extent allocator reserve is invalid"@)
        } else if self.scan_fault(layout, self.extents@.len()) is Some {
            self.scan_fault(layout, self.extents@.len())
        } else if !self.is_normal() && !self.is_reclaiming() {
            Some("extent allocator reserve or reclaim transaction is invalid"@)
        } else if self.is_normal() && self.extents@[self.reserve as int].role != ExtentRole::Reserve {
            Some("extent allocator reserve pointer is invalid"@)
        } else if self.pointer_fault(0) is Some {
            self.pointer_fault(0)
        } else if self.pointer_fault(1) is Some {
            self.pointer_fault(1)
        } else {
            self.pointer_fault(2)
        }
    }

    /// The state is consistent.
    pub open spec fn valid(self, layout: StoreLayout) -> bool {
        self.fault(layout) is None
    }

    /// The state of an allocator that was never used.
    pub fn empty(layout: StoreLayout) -> (state: ExtentPoolState)
        requires
            layout.extent_count > 0,
        ensures
            state.state_generation == 1,
            state.next_sequence == 1,
            state.current@ == seq![None::<u32>, None::<u32>, None::<u32>],
            state.reserve == 0,
            state.active_page == 0,
            state.extents@ == Seq::new(layout.extent_count as nat, |i: int| free_extent()).update(
                0,
                (ExtentState { role: ExtentRole::Reserve, ..free_extent() }),
            ),
            state.valid(layout),
    {
        let mut extents: Vec<ExtentState> = Vec::new();
        let mut i: u32 = 0;
        while i < layout.extent_count
            invariant
                i <= layout.extent_count,
                extents@ == Seq::new(i as nat, |k: int| free_extent()),
            decreases layout.extent_count - i,
        {
            extents.push(ExtentState::free());
            assert(extents@ =~= Seq::new((i + 1) as nat, |k: int| free_extent()));
            i = i + 1;
        }
        let ghost uniform = extents@;
        let reserve = ExtentState {
            generation: 1,
            used: 0,
            sequence: 0,
            priority: CachePriority::Low,
            role: ExtentRole::Reserve,
        };
        extents[0] = reserve;
        let state = ExtentPoolState {
            state_generation: 1,
            next_sequence: 1,
            current: [None, None, None],
            reserve: 0,
            extents,
            active_page: 0,
        };
        proof {
            assert(state.current@ =~= seq![None::<u32>, None::<u32>, None::<u32>]);
            lemma_count_role_uniform(uniform, ExtentRole::Reserve);
            lemma_count_role_uniform(uniform, ExtentRole::ReclaimSource);
            lemma_count_role_uniform(uniform, ExtentRole::ReclaimTarget);
            lemma_count_role_update(uniform, 0, reserve, ExtentRole::Reserve);
            lemma_count_role_update(uniform, 0, reserve, ExtentRole::ReclaimSource);
            lemma_count_role_update(uniform, 0, reserve, ExtentRole::ReclaimTarget);
            lemma_scan_clean(state, layout, state.extents@.len());
        }
        state
    }

    /// Checks that the state is consistent.
    pub fn validate(&self, layout: StoreLayout) -> (result: Result<(), Error>)
        ensures
            match result {
                Ok(_) => self.valid(layout),
                Err(error) => self.fault(layout) matches Some(text) && config_error(error, text),
            },
    {
        if self.state_generation == 0 || self.next_sequence == 0 {
            return Err(invalid_config("extent allocator generations must be positive"));
        }
        if self.extents.len() as u64 != layout.extent_count as u64 || self.reserve >= layout.extent_count {
            return Err(invalid_config("extent allocator reserve is invalid"));
        }
        let mut reserves: usize = 0;
        let mut sources: usize = 0;
        let mut targets: usize = 0;
        let mut i: usize = 0;
        while i < self.extents.len()
            invariant
                i <= self.extents@.len(),
                self.extents@.len() == layout.extent_count,
                self.state_generation != 0,
                self.next_sequence != 0,
                self.reserve < layout.extent_count,
                self.scan_fault(layout, i as nat) is None,
                reserves == count_role(self.extents@.take(i as int), ExtentRole::Reserve),
                sources == count_role(self.extents@.take(i as int), ExtentRole::ReclaimSource),
                targets == count_role(self.extents@.take(i as int), ExtentRole::ReclaimTarget),
                reserves <= i,
                sources <= i,
                targets <= i,
            decreases self.extents@.len() - i,
        {
            let state = self.extents[i];
            assert(self.scan_fault(layout, (i + 1) as nat) == self.extent_fault(layout, i as int));
            if state.generation == 0 || state.used > layout.slots_per_extent {
                proof {
                    lemma_scan_fault_stays(*self, layout, (i + 1) as nat, self.extents@.len());
                }
                return Err(invalid_config("extent allocator entry is invalid"));
            }
            if state.role == ExtentRole::Current {
                let consistent = match self.current[state.priority.index()] {
                    Some(extent) => extent == i as u32,
                    None => false,
                };
                if !consistent {
                    proof {
                        lemma_scan_fault_stays(*self, layout, (i + 1) as nat, self.extents@.len());
                    }
                    return Err(invalid_config("extent current pointer is inconsistent"));
                }
            }
            assert(self.extents@.take(i + 1).drop_last() =~= self.extents@.take(i as int));
            assert(self.extents@.take(i + 1).last() == state);
            if state.role == ExtentRole::Reserve {
                reserves = reserves + 1;
            }
            if state.role == ExtentRole::ReclaimSource {
                sources = sources + 1;
            }
            if state.role == ExtentRole::ReclaimTarget {
                targets = targets + 1;
            }
            i = i + 1;
        }
        assert(self.extents@.take(i as int) =~= self.extents@);
        let reserve_role = self.extents[self.reserve as usize].role;
        let normal = reserves == 1 && sources == 0 && targets == 0;
        let reclaiming = reserves == 0 && sources == 1 && targets == 1 && reserve_role == ExtentRole::ReclaimTarget;
        if !normal && !reclaiming {
            return Err(invalid_config("extent allocator reserve or reclaim transaction is invalid"));
        }
        if normal && reserve_role != ExtentRole::Reserve {
            return Err(invalid_config("extent allocator reserve pointer is invalid"));
        }
        let mut priority: usize = 0;
        while priority < 3
            invariant
                priority <= 3,
                self.state_generation != 0,
                self.next_sequence != 0,
                self.extents@.len() == layout.extent_count,
                self.reserve < layout.extent_count,
                self.scan_fault(layout, self.extents@.len()) is None,
                self.is_normal() || self.is_reclaiming(),
                self.is_normal() ==> self.extents@[self.reserve as int].role == ExtentRole::Reserve,
                forall|p: int| 0 <= p < priority ==> self.pointer_fault(p) is None,
            decreases 3 - priority,
        {
            if let Some(extent) = self.current[priority] {
                if extent as usize >= self.extents.len() {
                    return Err(invalid_config("extent current pointer is out of range"));
                }
                let state = self.extents[extent as usize];
                if state.role != ExtentRole::Current || state.priority.index() != priority {
                    return Err(invalid_config("extent current pointer has the wrong class"));
                }
            }
            priority = priority + 1;
        }
        Ok(())
    }

    /// Encodes the state as one state copy, of which every changed byte is noticed.
    pub fn encode(&self, layout: StoreLayout) -> (result: Result<Vec<u8>, Error>)
        requires
            layout.state_fits(),
        ensures
            match result {
                Ok(image) => self.valid(layout) && layout.slot_size <= u32::MAX && self.is_encoded_as(
                    image@,
                    layout,
                ) && Self::stands_alone(image@, layout),
                Err(error) => {
                    ||| self.fault(layout) matches Some(text) && config_error(error, text)
                    ||| self.valid(layout) && layout.slot_size > u32::MAX && config_error(
                        error,
                        "allocation slot size does not fit u32"@,
                    )
                },
            },
    {
        match self.validate(layout) {
            Ok(_) => {},
            Err(error) => return Err(error),
        }
        if layout.slot_size as u64 > 0xffff_ffff {
            return Err(invalid_config("allocation slot size does not fit u32"));
        }
        let mut image = zeroed(layout.state_copy_size);
        self.encode_header(&mut image, layout);
        self.encode_extents(&mut image, layout);
        let checksum_offset = layout.state_copy_size - STATE_CHECKSUM_SIZE;
        let prefix = copy_range(image.as_slice(), 0, checksum_offset);
        let checksum = compute_crc32_iscsi(prefix.as_slice());
        let ghost before = image@;
        put_u32(&mut image, checksum_offset, checksum);
        proof {
            assert(image@.subrange(0, image@.len() - 4) =~= before.subrange(0, before.len() - 4));
            lemma_state_prefix(*self, layout, before, image@);
            assert forall|i: int| 0 <= i < layout.extent_count implies #[trigger] zero_range(
                image@,
                64 + 24 * i + 18,
                64 + 24 * i + 24,
            ) by {
                assert(zero_range(before, 64 + 24 * i + 18, 64 + 24 * i + 24));
            }
            assert(prefix@ =~= image@.subrange(0, image@.len() - 4));
            Self::lemma_stands_alone(image@, layout);
        }
        Ok(image)
    }

    fn encode_header(&self, image: &mut Vec<u8>, layout: StoreLayout)
        requires
            self.valid(layout),
            layout.state_fits(),
            layout.slot_size <= u32::MAX,
            old(image)@.len() == layout.state_copy_size,
            zero_range(old(image)@, 0, layout.state_copy_size as int),
        ensures
            state_header_matches(final(image)@, layout),
            changed_only(old(image)@, final(image)@, 0, 64),
            u64_at(final(image)@, 24) == self.state_generation,
            u64_at(final(image)@, 32) == self.next_sequence,
            u32_at(final(image)@, 40) == pointer_word(self.current@[0]),
            u32_at(final(image)@, 44) == pointer_word(self.current@[1]),
            u32_at(final(image)@, 48) == pointer_word(self.current@[2]),
            u32_at(final(image)@, 52) == self.reserve,
    {
        image[0] = 0x53;
        image[1] = 0x43;
        image[2] = 0x53;
        image[3] = 0x45;
        image[4] = 0x47;
        image[5] = 0x53;
        image[6] = 0x54;
        image[7] = 0x31;
        put_u32(image, 8, EXTENT_FORMAT_VERSION);
        put_u32(image, 12, layout.extent_count);
        put_u32(image, 16, layout.slots_per_extent);
        put_u32(image, 20, layout.slot_size as u32);
        put_u64(image, 24, self.state_generation);
        put_u64(image, 32, self.next_sequence);
        put_u32(image, 40, encode_pointer(self.current[0]));
        put_u32(image, 44, encode_pointer(self.current[1]));
        put_u32(image, 48, encode_pointer(self.current[2]));
        put_u32(image, 52, self.reserve);
        put_u64(image, 56, layout.extent_size as u64);
    }

    fn encode_extents(&self, image: &mut Vec<u8>, layout: StoreLayout)
        requires
            self.extents@.len() == layout.extent_count,
            layout.state_fits(),
            old(image)@.len() == layout.state_copy_size,
            zero_range(old(image)@, 64, layout.state_copy_size as int),
        ensures
            changed_only(old(image)@, final(image)@, 64, 64 + 24 * layout.extent_count),
            forall|i: int|
                0 <= i < layout.extent_count ==> #[trigger] extent_reads_as(
                    final(image)@,
                    i,
                    self.extents@[i],
                ),
            forall|i: int|
                0 <= i < layout.extent_count ==> #[trigger] zero_range(
                    final(image)@,
                    64 + 24 * i + 18,
                    64 + 24 * i + 24,
                ),
    {
        let ghost original = image@;
        let mut i: usize = 0;
        while i < self.extents.len()
            invariant
                i <= self.extents@.len(),
                self.extents@.len() == layout.extent_count,
                layout.state_fits(),
                image@.len() == layout.state_copy_size,
                changed_only(original, image@, 64, 64 + 24 * i),
                zero_range(original, 64, layout.state_copy_size as int),
                forall|k: int| 0 <= k < i ==> #[trigger] extent_reads_as(image@, k, self.extents@[k]),
                forall|k: int|
                    0 <= k < i ==> #[trigger] zero_range(image@, 64 + 24 * k + 18, 64 + 24 * k + 24),
            decreases self.extents@.len() - i,
        {
            let ghost before = image@;
            let offset = STATE_HEADER_SIZE + i * STATE_ENTRY_SIZE;
            let state = self.extents[i];
            assert(zero_range(before, offset as int, offset + 24)) by {
                assert forall|b: int| offset <= b < offset + 24 implies #[trigger] before[b] == 0 by {
                    assert(original[b] == 0);
                }
            }
            put_u32(image, offset, state.generation);
            put_u32(image, offset + 4, state.used);
            put_u64(image, offset + 8, state.sequence);
            image[offset + 16] = state.priority.to_byte();
            image[offset + 17] = state.role.to_byte();
            assert(changed_only(before, image@, offset as int, offset + 18));
            assert(extent_reads_as(image@, i as int, state));
            proof {
                assert forall|k: int| 0 <= k < i implies #[trigger] extent_reads_as(
                    image@,
                    k,
                    self.extents@[k],
                ) by {
                    assert(extent_reads_as(before, k, self.extents@[k]));
                    lemma_extent_frame(before, image@, k, self.extents@[k], offset as int);
                }
                assert forall|k: int| 0 <= k < i + 1 implies #[trigger] zero_range(
                    image@,
                    64 + 24 * k + 18,
                    64 + 24 * k + 24,
                ) by {
                    if k < i {
                        assert(zero_range(before, 64 + 24 * k + 18, 64 + 24 * k + 24));
                    }
                }
            }
            i = i + 1;
        }
    }

    /// `image` can be decoded for `layout` as `state`.
    pub open spec fn decodes_as(image: Seq<u8>, layout: StoreLayout, state: ExtentPoolState) -> bool {
        &&& state_header_matches(image, layout)
        &&& state_checksum_matches(image)
        &&& state.is_read_from(image, layout)
        &&& state.valid(layout)
    }

    /// No image that is one byte apart from this one can be decoded.
    pub open spec fn stands_alone(image: Seq<u8>, layout: StoreLayout) -> bool {
        forall|other: Seq<u8>, state: ExtentPoolState|
            one_byte_apart(image, other) ==> !#[trigger] Self::decodes_as(other, layout, state)
    }

    proof fn lemma_stands_alone(image: Seq<u8>, layout: StoreLayout)
        requires
            image.len() >= 4,
            state_checksum_matches(image),
            every_byte_counts(image.subrange(0, image.len() - 4)),
        ensures
            Self::stands_alone(image, layout),
    {
        assert forall|other: Seq<u8>, state: ExtentPoolState| one_byte_apart(image, other) implies !#[trigger] Self::decodes_as(
            other,
            layout,
            state,
        ) by {
            lemma_changed_byte(image, other);
        }
    }

    /// Decodes a state copy. Of a copy that can be decoded, none with one byte changed can.
    pub fn decode(input: &[u8], layout: StoreLayout, active_page: u8) -> (decoded: Option<ExtentPoolState>)
        requires
            layout.state_fits(),
        ensures
            match decoded {
                Some(state) => Self::decodes_as(input@, layout, state) && state.active_page == active_page
                    && Self::stands_alone(input@, layout),
                None => forall|state: ExtentPoolState| !(#[trigger] Self::decodes_as(input@, layout, state)),
            },
    {
        if input.len() != layout.state_copy_size || !check_state_magic(input) {
            return None;
        }
        if get_u32(input, 8) != EXTENT_FORMAT_VERSION || get_u32(input, 12) != layout.extent_count || get_u32(input, 16)
            != layout.slots_per_extent || get_u32(input, 20) as u64 != layout.slot_size as u64 || get_u64(input, 56)
            != layout.extent_size as u64 {
            return None;
        }
        let checksum_offset = input.len() - STATE_CHECKSUM_SIZE;
        let prefix = copy_range(input, 0, checksum_offset);
        if compute_crc32_iscsi(prefix.as_slice()) != get_u32(input, checksum_offset) {
            return None;
        }
        proof {
            assert(prefix@ =~= input@.subrange(0, input@.len() - 4));
            Self::lemma_stands_alone(input@, layout);
        }
        let mut extents: Vec<ExtentState> = Vec::new();
        let mut i: usize = 0;
        while i < layout.extent_count as usize
            invariant
                i <= layout.extent_count,
                layout.state_fits(),
                input@.len() == layout.state_copy_size <= usize::MAX,
                extents@.len() == i,
                forall|k: int| 0 <= k < i ==> #[trigger] extent_reads_as(input@, k, extents@[k]),
            decreases layout.extent_count - i,
        {
            let offset = STATE_HEADER_SIZE + i * STATE_ENTRY_SIZE;
            let priority = match CachePriority::from_byte(input[offset + 16]) {
                Some(priority) => priority,
                None => {
                    proof {
                        assert forall|state: ExtentPoolState| !(#[trigger] Self::decodes_as(
                            input@,
                            layout,
                            state,
                        )) by {
                            if Self::decodes_as(input@, layout, state) {
                                assert(extent_reads_as(input@, i as int, state.extents@[i as int]));
                            }
                        }
                    }
                    return None;
                },
            };
            let role = match ExtentRole::from_byte(input[offset + 17]) {
                Some(role) => role,
                None => {
                    proof {
                        assert forall|state: ExtentPoolState| !(#[trigger] Self::decodes_as(
                            input@,
                            layout,
                            state,
                        )) by {
                            if Self::decodes_as(input@, layout, state) {
                                assert(extent_reads_as(input@, i as int, state.extents@[i as int]));
                            }
                        }
                    }
                    return None;
                },
            };
            let state = ExtentState {
                generation: get_u32(input, offset),
                used: get_u32(input, offset + 4),
                sequence: get_u64(input, offset + 8),
                priority,
                role,
            };
            let ghost before = extents@;
            extents.push(state);
            assert(extent_reads_as(input@, i as int, state));
            assert forall|k: int| 0 <= k < i + 1 implies #[trigger] extent_reads_as(
                input@,
                k,
                extents@[k],
            ) by {
                if k < i {
                    assert(extents@[k] == before[k]);
                }
            }
            i = i + 1;
        }
        let state = ExtentPoolState {
            state_generation: get_u64(input, 24),
            next_sequence: get_u64(input, 32),
            current: [
                decode_pointer(get_u32(input, 40)),
                decode_pointer(get_u32(input, 44)),
                decode_pointer(get_u32(input, 48)),
            ],
            reserve: get_u32(input, 52),
            extents,
            active_page,
        };
        assert(state.is_read_from(input@, layout));
        match state.validate(layout) {
            Ok(_) => Some(state),
            Err(_) => {
                proof {
                    assert forall|other: ExtentPoolState| !(#[trigger] Self::decodes_as(
                        input@,
                        layout,
                        other,
                    )) by {
                        if Self::decodes_as(input@, layout, other) {
                            lemma_read_is_unique(input@, layout, state, other);
                            lemma_fault_ignores_page(state, other, layout);
                        }
                    }
                }
                None
            },
        }
    }
}

fn encode_pointer(pointer: Option<u32>) -> (word: u32)
    ensures
        word == pointer_word(pointer),
{
    match pointer {
        Some(extent) => extent,
        None => NO_EXTENT,
    }
}

fn decode_pointer(word: u32) -> (pointer: Option<u32>)
    ensures
        word == pointer_word(pointer),
        pointer != Some(NO_EXTENT),
{
    if word == NO_EXTENT {
        None
    } else {
        Some(word)
    }
}

/// A scan over clean extents finds nothing.
pub proof fn lemma_scan_clean(state: ExtentPoolState, layout: StoreLayout, n: nat)
    requires
        forall|i: int| 0 <= i < n ==> (#[trigger] state.extent_fault(layout, i)) is None,
    ensures
        state.scan_fault(layout, n) is None,
    decreases n,
{
    if n > 0 {
        lemma_scan_clean(state, layout, (n - 1) as nat);
    }
}

/// A scan that finds nothing passed clean extents.
pub proof fn lemma_scan_is_clean(state: ExtentPoolState, layout: StoreLayout, n: nat)
    requires
        state.scan_fault(layout, n) is None,
    ensures
        forall|i: int| 0 <= i < n ==> (#[trigger] state.extent_fault(layout, i)) is None,
    decreases n,
{
    if n > 0 {
        lemma_scan_is_clean(state, layout, (n - 1) as nat);
    }
}

proof fn lemma_scan_fault_stays(state: ExtentPoolState, layout: StoreLayout, n: nat, m: nat)
    requires
        n <= m,
        state.scan_fault(layout, n) is Some,
    ensures
        state.scan_fault(layout, m) == state.scan_fault(layout, n),
    decreases m,
{
    if n < m {
        lemma_scan_fault_stays(state, layout, n, (m - 1) as nat);
    }
}

proof fn lemma_extent_frame(before: Seq<u8>, after: Seq<u8>, i: int, state: ExtentState, from: int)
    requires
        0 <= i,
        64 + 24 * i + 24 <= from,
        from + 24 <= before.len(),
        changed_only(before, after, from, from + 18),
        extent_reads_as(before, i, state),
    ensures
        extent_reads_as(after, i, state),
{
}

proof fn lemma_state_prefix(state: ExtentPoolState, layout: StoreLayout, before: Seq<u8>, after: Seq<u8>)
    requires
        state.valid(layout),
        layout.state_fits(),
        before.len() == layout.state_copy_size,
        changed_only(before, after, before.len() - 4, before.len() as int),
        state_header_matches(before, layout),
        u64_at(before, 24) == state.state_generation,
        u64_at(before, 32) == state.next_sequence,
        u32_at(before, 40) == pointer_word(state.current@[0]),
        u32_at(before, 44) == pointer_word(state.current@[1]),
        u32_at(before, 48) == pointer_word(state.current@[2]),
        u32_at(before, 52) == state.reserve,
        forall|i: int|
            0 <= i < layout.extent_count ==> #[trigger] extent_reads_as(before, i, state.extents@[i]),
    ensures
        state_header_matches(after, layout),
        state.is_read_from(after, layout),
{
    assert(forall|p: int| 0 <= p < 3 ==> state.pointer_fault(p) is None);
    assert(state.pointer_fault(0) is None && state.pointer_fault(1) is None && state.pointer_fault(2) is None);
    assert forall|i: int| 0 <= i < layout.extent_count implies #[trigger] extent_reads_as(
        after,
        i,
        state.extents@[i],
    ) by {
        assert(extent_reads_as(before, i, state.extents@[i]));
    }
}

proof fn lemma_read_is_unique(image: Seq<u8>, layout: StoreLayout, a: ExtentPoolState, b: ExtentPoolState)
    requires
        a.is_read_from(image, layout),
        b.is_read_from(image, layout),
    ensures
        a.state_generation == b.state_generation,
        a.next_sequence == b.next_sequence,
        a.current@ == b.current@,
        a.reserve == b.reserve,
        a.extents@ == b.extents@,
{
    assert forall|i: int| 0 <= i < a.extents@.len() implies a.extents@[i] == b.extents@[i] by {
        assert(extent_reads_as(image, i, a.extents@[i]));
        assert(extent_reads_as(image, i, b.extents@[i]));
    }
    assert(a.extents@ =~= b.extents@);
    assert(a.current@ =~= b.current@);
}

proof fn lemma_fault_ignores_page(a: ExtentPoolState, b: ExtentPoolState, layout: StoreLayout)
    requires
        a.state_generation == b.state_generation,
        a.next_sequence == b.next_sequence,
        a.current@ == b.current@,
        a.reserve == b.reserve,
        a.extents@ == b.extents@,
    ensures
        a.fault(layout) == b.fault(layout),
{
    lemma_scan_ignores_page(a, b, layout, a.extents@.len());
    assert(a.pointer_fault(0) == b.pointer_fault(0));
    assert(a.pointer_fault(1) == b.pointer_fault(1));
    assert(a.pointer_fault(2) == b.pointer_fault(2));
}

proof fn lemma_scan_ignores_page(a: ExtentPoolState, b: ExtentPoolState, layout: StoreLayout, n: nat)
    requires
        a.current@ == b.current@,
        a.extents@ == b.extents@,
    ensures
        a.scan_fault(layout, n) == b.scan_fault(layout, n),
    decreases n,
{
    if n > 0 {
        lemma_scan_ignores_page(a, b, layout, (n - 1) as nat);
        assert(a.extent_fault(layout, n - 1) == b.extent_fault(layout, n - 1));
    }
}

/// Decoding the encoding of a state gives that state back, whatever page it is
/// read from.
pub proof fn law_state_round_trip(
    image: Seq<u8>,
    layout: StoreLayout,
    state: ExtentPoolState,
    decoded: ExtentPoolState,
)
    requires
        state.valid(layout),
        state.is_encoded_as(image, layout),
        ExtentPoolState::decodes_as(image, layout, decoded),
    ensures
        ExtentPoolState::decodes_as(image, layout, state),
        decoded.state_generation == state.state_generation,
        decoded.next_sequence == state.next_sequence,
        decoded.current@ == state.current@,
        decoded.reserve == state.reserve,
        decoded.extents@ == state.extents@,
{
    lemma_read_is_unique(image, layout, state, decoded);
}

/// What is decoded is a valid state, which can be encoded again.
pub proof fn law_decoded_states_are_valid(image: Seq<u8>, layout: StoreLayout, state: ExtentPoolState)
    requires
        ExtentPoolState::decodes_as(image, layout, state),
    ensures
        state.valid(layout),
        state.fault(layout) is None,
        layout.slot_size <= u32::MAX,
{
}

/// An image whose checksum does not match its contents decodes to nothing.
pub proof fn law_corrupt_state_is_rejected(image: Seq<u8>, layout: StoreLayout, state: ExtentPoolState)
    requires
        !state_checksum_matches(image),
    ensures
        !ExtentPoolState::decodes_as(image, layout, state),
{
}

/// The layout of a store is found again in its encoded state.
pub proof fn law_layout_is_discovered(
    image: Seq<u8>,
    layout: StoreLayout,
    state: ExtentPoolState,
    other: StoreLayout,
)
    requires
        layout.wf(),
        layout.state_fits(),
        state.is_encoded_as(image, layout),
    ensures
        StoreLayout::describes(
            image,
            layout.data_file_size,
            layout.slot_owner_file_size,
            (2 * layout.state_copy_size) as u64,
            layout,
        ),
        StoreLayout::describes(
            image,
            layout.data_file_size,
            layout.slot_owner_file_size,
            (2 * layout.state_copy_size) as u64,
            other,
        ) ==> other == layout,
{
}

/// Where an entry is stored.
#[derive(Debug, Clone, Copy, PartialEq, Eq, Structural)]
pub struct EntryLocation {
    pub first_slot: u64,
    pub extent_generation: u32,
    pub stored_len: u32,
    pub checksum: u32,
    pub priority: CachePriority,
}

/// A location record that holds `location`.
pub open spec fn location_reads_as(record: Seq<u8>, location: EntryLocation) -> bool {
    &&& record.len() == 32
    &&& record[0] == 0x53
    &&& record[1] == 0x43
    &&& record[2] == 0x4c
    &&& record[3] == 0x4f
    &&& record[4] == 3
    &&& record[5] == rank(location.priority)
    &&& u64_at(record, 8) == location.first_slot
    &&& u32_at(record, 16) == location.extent_generation
    &&& u32_at(record, 20) == location.stored_len
    &&& u32_at(record, 24) == location.checksum
    &&& u32_at(record, 28) == crc32_iscsi(record.subrange(0, 28))
}

impl EntryLocation {
    /// Encodes the location as a record; the unused bytes are zero.
    pub fn encode(self) -> (record: Vec<u8>)
        ensures
            location_reads_as(record@, self),
            zero_range(record@, 6, 8),
    {
        let mut record = zeroed(LOCATION_RECORD_SIZE);
        record[0] = 0x53;
        record[1] = 0x43;
        record[2] = 0x4c;
        record[3] = 0x4f;
        record[4] = FORMAT_VERSION_BYTE;
        record[5] = self.priority.to_byte();
        put_u64(&mut record, 8, self.first_slot);
        put_u32(&mut record, 16, self.extent_generation);
        put_u32(&mut record, 20, self.stored_len);
        put_u32(&mut record, 24, self.checksum);
        let prefix = copy_range(record.as_slice(), 0, 28);
        let ghost before = record@;
        put_u32(&mut record, 28, compute_crc32_iscsi(prefix.as_slice()));
        assert(record@.subrange(0, 28) =~= before.subrange(0, 28));
        record
    }

    /// Decodes a location record.
    pub fn decode(input: &[u8]) -> (location: Option<EntryLocation>)
        ensures
            match location {
                Some(location) => location_reads_as(input@, location),
                None => forall|location: EntryLocation| !(#[trigger] location_reads_as(input@, location)),
            },
    {
        if input.len() != LOCATION_RECORD_SIZE {
            return None;
        }
        if input[0] != 0x53 || input[1] != 0x43 || input[2] != 0x4c || input[3] != 0x4f || input[4]
            != FORMAT_VERSION_BYTE {
            return None;
        }
        let prefix = copy_range(input, 0, 28);
        if compute_crc32_iscsi(prefix.as_slice()) != get_u32(input, 28) {
            return None;
        }
        let priority = match CachePriority::from_byte(input[5]) {
            Some(priority) => priority,
            None => return None,
        };
        Some(
            EntryLocation {
                first_slot: get_u64(input, 8),
                extent_generation: get_u32(input, 16),
                stored_len: get_u32(input, 20),
                checksum: get_u32(input, 24),
                priority,
            },
        )
    }
}

/// A location record holds one location, so that decoding an encoding gives the
/// location back.
pub proof fn law_location_round_trip(record: Seq<u8>, encoded: EntryLocation, decoded: EntryLocation)
    requires
        location_reads_as(record, encoded),
        location_reads_as(record, decoded),
    ensures
        encoded == decoded,
{
}

/// Who owns a run of slots.
#[derive(Debug, Clone, Copy, PartialEq, Eq)]
pub struct SlotOwner {
    pub key_digest: KeyDigest,
    pub extent_generation: u32,
    pub stored_len: u32,
    pub value_len: u32,
    pub checksum: u32,
    pub priority: CachePriority,
    pub sequence: u64,
}

/// An owner record that holds `owner`.
pub open spec fn owner_reads_as(record: Seq<u8>, owner: SlotOwner) -> bool {
    &&& record.len() == 64
    &&& record[0] == 0x53
    &&& record[1] == 0x43
    &&& record[2] == 0x4f
    &&& record[3] == 0x57
    &&& record[4] == 3
    &&& record[5] == rank(owner.priority)
    &&& record.subrange(8, 32) == owner.key_digest@
    &&& u32_at(record, 32) == owner.extent_generation
    &&& u32_at(record, 36) == owner.stored_len
    &&& u32_at(record, 40) == owner.checksum
    &&& u64_at(record, 44) == owner.sequence
    &&& u32_at(record, 52) == owner.value_len
    &&& u32_at(record, 56) == crc32_iscsi(record.subrange(0, 56))
}

impl SlotOwner {
    /// Encodes the owner as a record; the unused bytes are zero.
    pub fn encode(self) -> (record: Vec<u8>)
        ensures
            owner_reads_as(record@, self),
            zero_range(record@, 6, 8),
            zero_range(record@, 60, 64),
    {
        let mut record = zeroed(SLOT_OWNER_SIZE);
        record[0] = 0x53;
        record[1] = 0x43;
        record[2] = 0x4f;
        record[3] = 0x57;
        record[4] = FORMAT_VERSION_BYTE;
        record[5] = self.priority.to_byte();
        write_at(&mut record, 8, self.key_digest.as_bytes().as_slice());
        let ghost with_digest = record@;
        put_u32(&mut record, 32, self.extent_generation);
        put_u32(&mut record, 36, self.stored_len);
        put_u32(&mut record, 40, self.checksum);
        put_u64(&mut record, 44, self.sequence);
        put_u32(&mut record, 52, self.value_len);
        let prefix = copy_range(record.as_slice(), 0, 56);
        let ghost before = record@;
        put_u32(&mut record, 56, compute_crc32_iscsi(prefix.as_slice()));
        assert(record@.subrange(0, 56) =~= before.subrange(0, 56));
        assert(record@.subrange(8, 32) =~= with_digest.subrange(8, 32));
        record
    }

    /// Decodes an owner record.
    pub fn decode(input: &[u8]) -> (owner: Option<SlotOwner>)
        ensures
            match owner {
                Some(owner) => owner_reads_as(input@, owner),
                None => forall|owner: SlotOwner| !(#[trigger] owner_reads_as(input@, owner)),
            },
    {
        if input.len() != SLOT_OWNER_SIZE {
            return None;
        }
        if input[0] != 0x53 || input[1] != 0x43 || input[2] != 0x4f || input[3] != 0x57 || input[4]
            != FORMAT_VERSION_BYTE {
            return None;
        }
        let prefix = copy_range(input, 0, 56);
        if compute_crc32_iscsi(prefix.as_slice()) != get_u32(input, 56) {
            return None;
        }
        let priority = match CachePriority::from_byte(input[5]) {
            Some(priority) => priority,
            None => return None,
        };
        Some(
            SlotOwner {
                key_digest: KeyDigest::from_slice(input, 8),
                extent_generation: get_u32(input, 32),
                stored_len: get_u32(input, 36),
                value_len: get_u32(input, 52),
                checksum: get_u32(input, 40),
                priority,
                sequence: get_u64(input, 44),
            },
        )
    }
}

/// An owner record holds one owner, so that decoding an encoding gives the owner
/// back.
pub proof fn law_owner_round_trip(record: Seq<u8>, encoded: SlotOwner, decoded: SlotOwner)
    requires
        owner_reads_as(record, encoded),
        owner_reads_as(record, decoded),
    ensures
        encoded.key_digest@ == decoded.key_digest@,
        encoded.extent_generation == decoded.extent_generation,
        encoded.stored_len == decoded.stored_len,
        encoded.value_len == decoded.value_len,
        encoded.checksum == decoded.checksum,
        encoded.priority == decoded.priority,
        encoded.sequence == decoded.sequence,
{
}

/// The capacity is used as far as it goes: what the layout takes is within it, an extent
/// more would not be, and every slot of its extents has its bytes in the data file.
pub proof fn law_the_largest_layout_is_created(config: ExtentStoreConfig, layout: StoreLayout, more: nat)
    requires
        creates(config, Ok(layout)),
        layout.extent_count < more <= u32::MAX,
    ensures
        layout.extent_count >= 5,
        layout.extent_size == config.options.extent_size,
        layout.slot_size == config.slot_size,
        layout.slots_per_extent * layout.slot_size == layout.extent_size,
        layout.data_file_size == layout.extent_count * layout.slots_per_extent * layout.slot_size,
        layout.max_entries == (layout.extent_count - 1) * layout.slots_per_extent,
        layout.total_file_size == layout.data_file_size + layout.slot_owner_file_size + layout.index_capacity_bytes + 2
            * layout.state_copy_size,
        layout.total_file_size <= config.capacity_bytes,
        total_bytes(layout.slot_size as nat, layout.slots_per_extent as nat, more) > config.capacity_bytes,
{
    let slot = layout.slot_size as nat;
    let slots = layout.slots_per_extent as nat;
    let size = layout.extent_size as nat;
    let maximum = maximum_extents(config);
    let capacity = config.capacity_bytes as nat;
    vstd::arithmetic::div_mod::lemma_fundamental_div_mod(size as int, slot as int);
    assert(slots * slot == slot * slots) by (nonlinear_arith);
    law_a_plan_covers_every_slot(slot, slots, layout.extent_count as nat, layout.sizes());
    law_the_largest_number_of_units_is_found(
        capacity,
        slot,
        slots,
        maximum,
        Ok((layout.extent_count, layout.sizes())),
        layout.extent_count as nat,
    );
    if more <= maximum {
        law_the_largest_number_of_units_is_found(
            capacity,
            slot,
            slots,
            maximum,
            Ok((layout.extent_count, layout.sizes())),
            more,
        );
    } else {
        let whole = capacity as int / size as int;
        vstd::arithmetic::div_mod::lemma_fundamental_div_mod(capacity as int, size as int);
        let rest = capacity as int % size as int;
        assert(more >= whole + 1);
        assert(more * slots * slot > capacity) by (nonlinear_arith)
            requires
                more >= whole + 1,
                capacity == size * whole + rest,
                rest < size,
                size == slots * slot,
        ;
    }
}

} // verus!
