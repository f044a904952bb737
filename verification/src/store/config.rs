//! Configuration of the extent store.

use vstd::prelude::*;

use crate::format::DEFAULT_SLOT_SIZE;

verus! {

pub const DEFAULT_EXTENT_SIZE: usize = 0x400_0000;

pub const DEFAULT_HIGH_PRIORITY_CAPACITY_PERCENT: u8 = 10;

pub const DEFAULT_NORMAL_PRIORITY_CAPACITY_PERCENT: u8 = 70;

/// One read takes a value of a mebibyte with its envelope, aligned to pages.
pub const DEFAULT_READ_RUN_SIZE: usize = 0x20_0000;

pub const DEFAULT_WRITE_RUN_SIZE: usize = 0x10_0000;

pub const DEFAULT_INDEX_WRITE_BUFFER_SIZE: usize = 0x400_0000;

pub const DEFAULT_INDEX_CACHE_SIZE: usize = 0x4000_0000;

pub const DEFAULT_IO_READ_PRIORITY_NANOS: u128 = 2_000_000;

/// The shares of the usable extents that high and normal entries keep against
/// entries of lower priority.
#[derive(Debug, Clone, Copy, PartialEq, Eq, Structural)]
pub struct PriorityCapacityFloors {
    high_percent: u8,
    normal_percent: u8,
}

/// `percent` of `extents`, rounded up.
pub open spec fn share(extents: nat, percent: nat) -> nat {
    (extents * percent + 99) / 100
}

/// The floors used where nothing else is asked for.
pub closed spec fn default_floors() -> PriorityCapacityFloors {
    PriorityCapacityFloors {
        high_percent: DEFAULT_HIGH_PRIORITY_CAPACITY_PERCENT,
        normal_percent: DEFAULT_NORMAL_PRIORITY_CAPACITY_PERCENT,
    }
}

impl PriorityCapacityFloors {
    pub closed spec fn high(self) -> u8 {
        self.high_percent
    }

    pub closed spec fn normal(self) -> u8 {
        self.normal_percent
    }

    /// The extents kept for each priority, from low to high.
    pub open spec fn floors(self, usable_extents: nat) -> Seq<nat> {
        seq![0nat, share(usable_extents, self.normal() as nat), share(usable_extents, self.high() as nat)]
    }

    /// Floors of the given percentages.
    pub fn new(high_percent: u8, normal_percent: u8) -> (floors: PriorityCapacityFloors)
        ensures
            floors.high() == high_percent,
            floors.normal() == normal_percent,
    {
        PriorityCapacityFloors { high_percent, normal_percent }
    }

    /// The percentage kept for high entries.
    pub fn high_percent(self) -> (percent: u8)
        ensures
            percent == self.high(),
    {
        self.high_percent
    }

    /// The percentage kept for normal entries.
    pub fn normal_percent(self) -> (percent: u8)
        ensures
            percent == self.normal(),
    {
        self.normal_percent
    }

    /// The extents kept for each priority, rounded up to whole extents.
    pub fn extent_floors(self, usable_extents: u32) -> (floors: [u32; 3])
        requires
            share(usable_extents as nat, self.normal() as nat) <= u32::MAX,
            share(usable_extents as nat, self.high() as nat) <= u32::MAX,
        ensures
            forall|i: int| 0 <= i < 3 ==> floors@[i] == self.floors(usable_extents as nat)[i],
    {
        [0, floor_of(usable_extents, self.normal_percent), floor_of(usable_extents, self.high_percent)]
    }
}

fn floor_of(usable_extents: u32, percent: u8) -> (extents: u32)
    requires
        share(usable_extents as nat, percent as nat) <= u32::MAX,
    ensures
        extents == share(usable_extents as nat, percent as nat),
{
    assert(usable_extents * percent <= 0xffff_ffff * 0xff) by (nonlinear_arith)
        requires
            usable_extents <= 0xffff_ffff,
            percent <= 0xff,
    ;
    if percent == 0 {
        assert(usable_extents * percent == 0) by (nonlinear_arith)
            requires
                percent == 0,
        ;
        0
    } else {
        ((usable_extents as u64 * percent as u64 + 99) / 100) as u32
    }
}

/// A floor of at most the whole never exceeds the extents there are, and a floor
/// above zero keeps at least one of them.
pub proof fn law_floor_is_within_the_extents(extents: nat, percent: nat)
    requires
        percent <= 100,
    ensures
        share(extents, percent) <= extents,
        extents > 0 && percent > 0 ==> share(extents, percent) > 0,
        share(extents, percent) * 100 >= extents * percent,
{
    assert(extents * percent <= extents * 100) by (nonlinear_arith)
        requires
            percent <= 100,
    ;
    if extents > 0 && percent > 0 {
        assert(extents * percent >= 1) by (nonlinear_arith)
            requires
                extents > 0,
                percent > 0,
        ;
    }
}

impl Default for PriorityCapacityFloors {
    fn default() -> (floors: PriorityCapacityFloors)
        ensures
            floors == default_floors(),
            floors.high() == DEFAULT_HIGH_PRIORITY_CAPACITY_PERCENT,
            floors.normal() == DEFAULT_NORMAL_PRIORITY_CAPACITY_PERCENT,
    {
        PriorityCapacityFloors::new(
            DEFAULT_HIGH_PRIORITY_CAPACITY_PERCENT,
            DEFAULT_NORMAL_PRIORITY_CAPACITY_PERCENT,
        )
    }
}

/// Tuning of the extent store.
#[derive(Debug, Clone, Copy, PartialEq, Eq, Structural)]
pub struct ExtentStoreOptions {
    pub extent_size: usize,
    pub write_concurrency: usize,
    /// How long a write lets reads go first, in nanoseconds.
    pub io_read_priority_nanos: u128,
    pub read_run_size: usize,
    pub write_run_size: usize,
    pub index_write_buffer_size: usize,
    pub index_cache_size: usize,
    pub checkpoint_changes: usize,
    pub hot_frequency: u8,
    pub low_hot_frequency: u8,
    pub priority_capacity_floors: PriorityCapacityFloors,
    pub direct_io: bool,
}

/// The tuning used where nothing else is asked for.
pub open spec fn default_options() -> ExtentStoreOptions {
    ExtentStoreOptions {
        extent_size: DEFAULT_EXTENT_SIZE,
        write_concurrency: 1,
        io_read_priority_nanos: DEFAULT_IO_READ_PRIORITY_NANOS,
        read_run_size: DEFAULT_READ_RUN_SIZE,
        write_run_size: DEFAULT_WRITE_RUN_SIZE,
        index_write_buffer_size: DEFAULT_INDEX_WRITE_BUFFER_SIZE,
        index_cache_size: DEFAULT_INDEX_CACHE_SIZE,
        checkpoint_changes: 4096,
        hot_frequency: 2,
        low_hot_frequency: 2,
        priority_capacity_floors: default_floors(),
        direct_io: false,
    }
}

impl Default for ExtentStoreOptions {
    fn default() -> (options: ExtentStoreOptions)
        ensures
            options == default_options(),
    {
        ExtentStoreOptions {
            extent_size: DEFAULT_EXTENT_SIZE,
            write_concurrency: 1,
            io_read_priority_nanos: DEFAULT_IO_READ_PRIORITY_NANOS,
            read_run_size: DEFAULT_READ_RUN_SIZE,
            write_run_size: DEFAULT_WRITE_RUN_SIZE,
            index_write_buffer_size: DEFAULT_INDEX_WRITE_BUFFER_SIZE,
            index_cache_size: DEFAULT_INDEX_CACHE_SIZE,
            checkpoint_changes: 4096,
            hot_frequency: 2,
            low_hot_frequency: 2,
            priority_capacity_floors: PriorityCapacityFloors::default(),
            direct_io: false,
        }
    }
}

impl ExtentStoreOptions {
    /// The same tuning with another `extent_size`.
    pub fn with_extent_size(self, extent_size: usize) -> (options: ExtentStoreOptions)
        ensures
            options == (ExtentStoreOptions { extent_size, ..self }),
    {
        ExtentStoreOptions { extent_size, ..self }
    }

    /// The same tuning with another `read_run_size`.
    pub fn with_read_run_size(self, size: usize) -> (options: ExtentStoreOptions)
        ensures
            options == (ExtentStoreOptions { read_run_size: size, ..self }),
    {
        ExtentStoreOptions { read_run_size: size, ..self }
    }

    /// The same tuning with another `index_write_buffer_size`.
    pub fn with_index_write_buffer_size(self, size: usize) -> (options: ExtentStoreOptions)
        ensures
            options == (ExtentStoreOptions { index_write_buffer_size: size, ..self }),
    {
        ExtentStoreOptions { index_write_buffer_size: size, ..self }
    }

    /// The same tuning with another `index_cache_size`.
    pub fn with_index_cache_size(self, size: usize) -> (options: ExtentStoreOptions)
        ensures
            options == (ExtentStoreOptions { index_cache_size: size, ..self }),
    {
        ExtentStoreOptions { index_cache_size: size, ..self }
    }

    /// The same tuning with another `checkpoint_changes`.
    pub fn with_checkpoint_changes(self, changes: usize) -> (options: ExtentStoreOptions)
        ensures
            options == (ExtentStoreOptions { checkpoint_changes: changes, ..self }),
    {
        ExtentStoreOptions { checkpoint_changes: changes, ..self }
    }

    /// The same tuning with another `hot_frequency`.
    pub fn with_hot_frequency(self, frequency: u8) -> (options: ExtentStoreOptions)
        ensures
            options == (ExtentStoreOptions { hot_frequency: frequency, ..self }),
    {
        ExtentStoreOptions { hot_frequency: frequency, ..self }
    }

    /// The same tuning with another `low_hot_frequency`.
    pub fn with_low_hot_frequency(self, frequency: u8) -> (options: ExtentStoreOptions)
        ensures
            options == (ExtentStoreOptions { low_hot_frequency: frequency, ..self }),
    {
        ExtentStoreOptions { low_hot_frequency: frequency, ..self }
    }

    /// The same tuning with another `direct_io`.
    pub fn with_direct_io(self, direct_io: bool) -> (options: ExtentStoreOptions)
        ensures
            options == (ExtentStoreOptions { direct_io, ..self }),
    {
        ExtentStoreOptions { direct_io, ..self }
    }

    /// The same tuning with other capacity floors.
    pub fn with_priority_capacity_floors(self, high_percent: u8, normal_percent: u8) -> (options: ExtentStoreOptions)
        ensures
            options.priority_capacity_floors.high() == high_percent,
            options.priority_capacity_floors.normal() == normal_percent,
            options == (ExtentStoreOptions { priority_capacity_floors: options.priority_capacity_floors, ..self }),
    {
        ExtentStoreOptions { priority_capacity_floors: PriorityCapacityFloors::new(high_percent, normal_percent), ..self }
    }
}

/// Capacity, slot size and tuning of the extent store.
#[derive(Debug, Clone, Copy, PartialEq, Eq, Structural)]
pub struct ExtentStoreConfig {
    pub capacity_bytes: u64,
    pub slot_size: usize,
    pub options: ExtentStoreOptions,
}

impl ExtentStoreConfig {
    /// A configuration with the default slot size and tuning.
    pub fn new(capacity_bytes: u64) -> (config: ExtentStoreConfig)
        ensures
            config == (ExtentStoreConfig { capacity_bytes, slot_size: DEFAULT_SLOT_SIZE, options: default_options() }),
    {
        ExtentStoreConfig { capacity_bytes, slot_size: DEFAULT_SLOT_SIZE, options: ExtentStoreOptions::default() }
    }

    /// The same configuration with another slot size.
    pub fn with_slot_size(self, slot_size: usize) -> (config: ExtentStoreConfig)
        ensures
            config == (ExtentStoreConfig { slot_size, ..self }),
    {
        ExtentStoreConfig { slot_size, ..self }
    }

    /// The same configuration with other tuning.
    pub fn with_options(self, options: ExtentStoreOptions) -> (config: ExtentStoreConfig)
        ensures
            config == (ExtentStoreConfig { options, ..self }),
    {
        ExtentStoreConfig { options, ..self }
    }
}

/// A floor is the least number of extents that makes up the share: one less would be too
/// few.
pub proof fn law_floor_is_the_least_that_keeps_the_share(extents: nat, percent: nat)
    ensures
        share(extents, percent) * 100 >= extents * percent,
        share(extents, percent) > 0 ==> (share(extents, percent) - 1) * 100 < extents * percent,
        share(extents, 0) == 0,
        share(extents, 100) == extents,
{
    assert(extents * 0 == 0) by (nonlinear_arith);
}

/// Low entries keep nothing, normal and high ones their shares.
pub proof fn law_each_priority_keeps_its_share(floors: PriorityCapacityFloors, extents: nat)
    ensures
        floors.floors(extents).len() == 3,
        floors.floors(extents)[0] == 0,
        floors.floors(extents)[1] * 100 >= extents * floors.normal(),
        floors.floors(extents)[2] * 100 >= extents * floors.high(),
        floors.floors(extents)[1] > 0 ==> (floors.floors(extents)[1] - 1) * 100 < extents * floors.normal(),
        floors.floors(extents)[2] > 0 ==> (floors.floors(extents)[2] - 1) * 100 < extents * floors.high(),
{
    law_floor_is_the_least_that_keeps_the_share(extents, floors.normal() as nat);
    law_floor_is_the_least_that_keeps_the_share(extents, floors.high() as nat);
}

} // verus!
