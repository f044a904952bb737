//! A count-min sketch of recent access frequencies, with counters that age by epochs.

use vstd::prelude::*;

verus! {

pub const MAX_COUNT: u8 = 15;

const SAMPLES_PER_COUNTER: u64 = 10;

/// The count in a stored counter as of an epoch: it is halved for each epoch that has
/// passed since it was stored, and gone after eight.
pub open spec fn count_at(stored: u64, epoch: u64) -> nat {
    let count = stored as nat % 256;
    let age = epoch - stored as nat / 256;
    if age <= 0 {
        count
    } else if age == 1 {
        count / 2
    } else if age == 2 {
        count / 4
    } else if age == 3 {
        count / 8
    } else if age == 4 {
        count / 16
    } else if age == 5 {
        count / 32
    } else if age == 6 {
        count / 64
    } else if age == 7 {
        count / 128
    } else {
        0
    }
}

/// The stored form of a count in an epoch: the low 56 bits of the epoch, and the count.
pub open spec fn stored_count(epoch: u64, count: u8) -> u64 {
    ((epoch as nat % 0x100_0000_0000_0000) * 256 + count) as u64
}

/// One step of the mixing function that spreads a hash over the counters.
pub open spec fn mixed(value: u64) -> u64 {
    let a = value.wrapping_add(0x9e37_79b9_7f4a_7c15);
    let b = (a ^ (a >> 30)).wrapping_mul(0xbf58_476d_1ce4_e5b9);
    let c = (b ^ (b >> 27)).wrapping_mul(0x94d0_49bb_1331_11eb);
    c ^ (c >> 31)
}

/// `value` mixed `n` times.
pub open spec fn mixed_times(value: u64, n: nat) -> u64
    decreases n,
{
    if n == 0 {
        value
    } else {
        mixed(mixed_times(value, (n - 1) as nat))
    }
}

/// The `k`th of the four counters of a hash, among a power of two of them.
pub open spec fn counter_of(hash: u64, k: nat, counters: usize) -> int {
    (mixed_times(hash, k + 1) as usize & (counters - 1) as usize) as int
}

/// A counter after one more access in an epoch.
pub open spec fn raised(stored: u64, epoch: u64) -> u64 {
    let count = count_at(stored, epoch) + 1;
    stored_count(epoch, if count > 15 {
        15
    } else {
        count as u8
    })
}

/// The counters after one more access to a hash in an epoch: its first `k` counters are
/// raised, one after the other.
pub open spec fn counters_raised(counters: Seq<u64>, epoch: u64, hash: u64, k: nat) -> Seq<u64>
    decreases k,
{
    if k == 0 {
        counters
    } else {
        let before = counters_raised(counters, epoch, hash, (k - 1) as nat);
        let at = counter_of(hash, (k - 1) as nat, counters.len() as usize);
        before.update(at, raised(before[at], epoch))
    }
}

/// The epoch once one more access is counted.
pub open spec fn epoch_after(samples: u64, window: u64, epoch: u64) -> u64 {
    if (samples + 1) % (window as int) == 0 {
        epoch.wrapping_add(1)
    } else {
        epoch
    }
}

/// The least of two counts.
pub open spec fn lesser(a: nat, b: nat) -> nat {
    if a < b {
        a
    } else {
        b
    }
}

/// The least count among the first `k` counters of a hash.
pub open spec fn least_count(counters: Seq<u64>, epoch: u64, hash: u64, k: nat) -> nat
    decreases k,
{
    let this = count_at(counters[counter_of(hash, (k - 1) as nat, counters.len() as usize)], epoch);
    if k <= 1 {
        this
    } else {
        lesser(least_count(counters, epoch, hash, (k - 1) as nat), this)
    }
}

/// The count in a stored counter as of an epoch.
pub fn decode(stored: u64, current_epoch: u64) -> (count: u8)
    ensures
        count == count_at(stored, current_epoch),
{
    assert(stored >> 8 == stored / 256) by (bit_vector);
    assert(stored as u8 == stored % 256) by (bit_vector);
    let stored_epoch = stored >> 8;
    let count = stored as u8;
    let age = current_epoch.saturating_sub(stored_epoch);
    if age >= 8 {
        0
    } else {
        assert(age == 0 ==> count >> age == count) by (bit_vector);
        assert(age == 1 ==> count >> age == count / 2) by (bit_vector);
        assert(age == 2 ==> count >> age == count / 4) by (bit_vector);
        assert(age == 3 ==> count >> age == count / 8) by (bit_vector);
        assert(age == 4 ==> count >> age == count / 16) by (bit_vector);
        assert(age == 5 ==> count >> age == count / 32) by (bit_vector);
        assert(age == 6 ==> count >> age == count / 64) by (bit_vector);
        assert(age == 7 ==> count >> age == count / 128) by (bit_vector);
        count >> age
    }
}

/// The stored form of a count in an epoch.
pub fn encode(epoch: u64, count: u8) -> (stored: u64)
    ensures
        stored == stored_count(epoch, count),
{
    assert((epoch << 8) | (count as u64) == (epoch % 0x100_0000_0000_0000) * 256 + count) by (bit_vector);
    (epoch << 8) | count as u64
}

fn splitmix64(value: u64) -> (result: u64)
    ensures
        result == mixed(value),
{
    let a = value.wrapping_add(0x9e37_79b9_7f4a_7c15);
    let b = (a ^ (a >> 30)).wrapping_mul(0xbf58_476d_1ce4_e5b9);
    let c = (b ^ (b >> 27)).wrapping_mul(0x94d0_49bb_1331_11eb);
    c ^ (c >> 31)
}

/// A power of two.
pub open spec fn power_of_two(n: nat) -> bool
    decreases n,
{
    n == 1 || n > 1 && n % 2 == 0 && power_of_two(n / 2)
}

/// A sketch of recent access frequencies.
#[derive(Debug)]
pub struct FrequencySketch {
    pub counters: Vec<u64>,
    pub samples: u64,
    pub epoch: u64,
    pub sample_window: u64,
}

proof fn lemma_masked(x: usize, mask: usize)
    ensures
        x & mask <= mask,
{
    assert(x & mask <= mask) by (bit_vector);
}

impl FrequencySketch {
    /// There are counters, and the window that goes with their number.
    pub open spec fn wf(self) -> bool {
        &&& self.counters@.len() > 0
        &&& self.sample_window == self.counters@.len() * 10
        &&& forall|i: int| 0 <= i < self.counters@.len() ==> (#[trigger] self.counters@[i]) as nat % 256 <= 15
    }

    /// A sketch with a power of two of counters.
    pub fn new(counters: usize) -> (sketch: FrequencySketch)
        requires
            power_of_two(counters as nat),
            counters * 10 <= u64::MAX,
        ensures
            sketch.wf(),
            sketch.counters@ == Seq::new(counters as nat, |i: int| 0u64),
            sketch.samples == 0,
            sketch.epoch == 0,
    {
        let counts = vec![0u64; counters];
        assert(counts@ =~= Seq::new(counters as nat, |i: int| 0u64));
        FrequencySketch {
            counters: counts,
            samples: 0,
            epoch: 0,
            sample_window: counters as u64 * SAMPLES_PER_COUNTER,
        }
    }

    /// Counts one access. Each time the window is full, an epoch begins.
    pub fn record(&mut self, hash: u64)
        requires
            old(self).wf(),
            old(self).samples < u64::MAX,
        ensures
            final(self).wf(),
            final(self).samples == old(self).samples + 1,
            final(self).epoch == epoch_after(old(self).samples, old(self).sample_window, old(self).epoch),
            final(self).sample_window == old(self).sample_window,
            final(self).counters@ == counters_raised(old(self).counters@, final(self).epoch, hash, 4),
    {
        let ghost before = self.counters@;
        self.samples = self.samples + 1;
        if self.samples % self.sample_window == 0 {
            self.epoch = self.epoch.wrapping_add(1);
        }
        let epoch = self.epoch;
        let n = self.counters.len();
        let mut state = hash;
        let mut k: usize = 0;
        while k < 4
            invariant
                k <= 4,
                self.wf(),
                self.epoch == epoch,
                self.samples == old(self).samples + 1,
                self.sample_window == old(self).sample_window,
                n == before.len(),
                self.counters@.len() == n,
                state == mixed_times(hash, k as nat),
                self.counters@ == counters_raised(before, epoch, hash, k as nat),
            decreases 4 - k,
        {
            state = splitmix64(state);
            let at = state as usize & (n - 1);
            proof {
                lemma_masked(state as usize, (n - 1) as usize);
            }
            let count = decode(self.counters[at], epoch);
            let next = if count >= MAX_COUNT {
                MAX_COUNT
            } else {
                count + 1
            };
            let ghost now = self.counters@;
            self.counters[at] = encode(epoch, next);
            proof {
                assert(self.counters@ =~= counters_raised(before, epoch, hash, (k + 1) as nat));
                assert(stored_count(epoch, next) as nat % 256 == next);
                assert forall|i: int| 0 <= i < self.counters@.len() implies (
                #[trigger] self.counters@[i]) as nat % 256 <= 15 by {
                    assert(now[i] as nat % 256 <= 15);
                }
            }
            k = k + 1;
        }
    }

    /// The least of the counts of a hash as of now.
    pub fn estimate(&self, hash: u64) -> (count: u8)
        requires
            self.wf(),
        ensures
            count == least_count(self.counters@, self.epoch, hash, 4),
            count <= MAX_COUNT,
    {
        let n = self.counters.len();
        let mut state = splitmix64(hash);
        proof {
            reveal_with_fuel(mixed_times, 2);
            lemma_masked(state as usize, (n - 1) as usize);
        }
        let mut least = decode(self.counters[state as usize & (n - 1)], self.epoch);
        let mut k: usize = 1;
        while k < 4
            invariant
                1 <= k <= 4,
                self.wf(),
                n == self.counters@.len(),
                state == mixed_times(hash, k as nat),
                least == least_count(self.counters@, self.epoch, hash, k as nat),
                least <= MAX_COUNT,
            decreases 4 - k,
        {
            state = splitmix64(state);
            proof {
                lemma_masked(state as usize, (n - 1) as usize);
            }
            let count = decode(self.counters[state as usize & (n - 1)], self.epoch);
            if count < least {
                least = count;
            }
            k = k + 1;
        }
        least
    }

    /// The number of counters.
    pub fn counters(&self) -> (count: usize)
        ensures
            count == self.counters@.len(),
    {
        self.counters.len()
    }

    /// The number of accesses in an epoch.
    pub fn sample_window(&self) -> (window: u64)
        ensures
            window == self.sample_window,
    {
        self.sample_window
    }
}

/// A stored count reads as itself in its own epoch.
pub proof fn law_count_round_trip(epoch: u64, count: u8)
    requires
        epoch < 0x100_0000_0000_0000,
    ensures
        count_at(stored_count(epoch, count), epoch) == count,
{
}

/// Each epoch that passes halves a count.
pub proof fn law_counts_are_halved_each_epoch(stored: u64, epoch: u64)
    requires
        stored as nat / 256 <= epoch < u64::MAX,
    ensures
        count_at(stored, (epoch + 1) as u64) == count_at(stored, epoch) / 2,
{
}

/// One more access raises a counter by one, up to the largest count.
pub proof fn lemma_raised(stored: u64, epoch: u64)
    requires
        epoch < 0x100_0000_0000_0000,
        stored as nat % 256 <= 15,
    ensures
        count_at(raised(stored, epoch), epoch) == lesser(count_at(stored, epoch) + 1, 15),
        count_at(raised(stored, epoch), epoch) >= count_at(stored, epoch),
        raised(stored, epoch) as nat % 256 <= 15,
{
    let count = count_at(stored, epoch) + 1;
    let held: u8 = if count > 15 {
        15
    } else {
        count as u8
    };
    law_count_round_trip(epoch, held);
}

proof fn lemma_counters_only_grow(counters: Seq<u64>, epoch: u64, hash: u64, k: nat, i: int)
    requires
        0 < counters.len() <= usize::MAX,
        epoch < 0x100_0000_0000_0000,
        forall|j: int| 0 <= j < counters.len() ==> (#[trigger] counters[j]) as nat % 256 <= 15,
        0 <= i < counters.len(),
    ensures
        counters_raised(counters, epoch, hash, k).len() == counters.len(),
        forall|j: int|
            0 <= j < counters.len() ==> (#[trigger] counters_raised(counters, epoch, hash, k)[j]) as nat % 256 <= 15,
        count_at(counters_raised(counters, epoch, hash, k)[i], epoch) >= count_at(counters[i], epoch),
    decreases k,
{
    if k > 0 {
        lemma_counters_only_grow(counters, epoch, hash, (k - 1) as nat, i);
        let before = counters_raised(counters, epoch, hash, (k - 1) as nat);
        let at = counter_of(hash, (k - 1) as nat, counters.len() as usize);
        lemma_masked(mixed_times(hash, k) as usize, (counters.len() - 1) as usize);
        lemma_raised(before[at], epoch);
    }
}

proof fn lemma_own_counter_grows(counters: Seq<u64>, epoch: u64, hash: u64, k: nat, own: nat)
    requires
        0 < counters.len() <= usize::MAX,
        epoch < 0x100_0000_0000_0000,
        forall|j: int| 0 <= j < counters.len() ==> (#[trigger] counters[j]) as nat % 256 <= 15,
        own < k,
    ensures
        ({
            let at = counter_of(hash, own, counters.len() as usize);
            &&& 0 <= at < counters.len()
            &&& count_at(counters_raised(counters, epoch, hash, k)[at], epoch) >= lesser(
                count_at(counters[at], epoch) + 1,
                15,
            )
        }),
    decreases k,
{
    let at = counter_of(hash, own, counters.len() as usize);
    lemma_masked(mixed_times(hash, own + 1) as usize, (counters.len() - 1) as usize);
    lemma_counters_only_grow(counters, epoch, hash, (k - 1) as nat, at);
    let before = counters_raised(counters, epoch, hash, (k - 1) as nat);
    let last = counter_of(hash, (k - 1) as nat, counters.len() as usize);
    lemma_masked(mixed_times(hash, k) as usize, (counters.len() - 1) as usize);
    lemma_raised(before[last], epoch);
    if own < k - 1 {
        lemma_own_counter_grows(counters, epoch, hash, (k - 1) as nat, own);
    }
}

proof fn lemma_least_is_least(counters: Seq<u64>, epoch: u64, hash: u64, k: nat, bound: nat)
    requires
        k >= 1,
        forall|j: nat|
            j < k ==> count_at(
                counters[#[trigger] counter_of(hash, j, counters.len() as usize)],
                epoch,
            ) >= bound,
    ensures
        least_count(counters, epoch, hash, k) >= bound,
    decreases k,
{
    assert(count_at(counters[counter_of(hash, (k - 1) as nat, counters.len() as usize)], epoch) >= bound);
    if k > 1 {
        lemma_least_is_least(counters, epoch, hash, (k - 1) as nat, bound);
    }
}

proof fn lemma_least_is_below(counters: Seq<u64>, epoch: u64, hash: u64, k: nat, j: nat)
    requires
        j < k,
    ensures
        least_count(counters, epoch, hash, k) <= count_at(
            counters[counter_of(hash, j, counters.len() as usize)],
            epoch,
        ),
    decreases k,
{
    if j < k - 1 {
        lemma_least_is_below(counters, epoch, hash, (k - 1) as nat, j);
    }
}

/// An access raises the estimate of its hash by at least one, up to the largest count, and
/// lowers the estimate of none.
pub proof fn law_an_access_raises_the_estimate(counters: Seq<u64>, epoch: u64, hash: u64, other: u64)
    requires
        0 < counters.len() <= usize::MAX,
        epoch < 0x100_0000_0000_0000,
        forall|j: int| 0 <= j < counters.len() ==> (#[trigger] counters[j]) as nat % 256 <= 15,
    ensures
        least_count(counters_raised(counters, epoch, hash, 4), epoch, hash, 4) >= lesser(
            least_count(counters, epoch, hash, 4) + 1,
            15,
        ),
        least_count(counters_raised(counters, epoch, hash, 4), epoch, other, 4) >= least_count(
            counters,
            epoch,
            other,
            4,
        ),
{
    let after = counters_raised(counters, epoch, hash, 4);
    lemma_counters_only_grow(counters, epoch, hash, 4, 0);
    let least = least_count(counters, epoch, hash, 4);
    assert forall|j: nat| j < 4 implies count_at(
        after[#[trigger] counter_of(hash, j, after.len() as usize)],
        epoch,
    ) >= lesser(least + 1, 15) by {
        lemma_own_counter_grows(counters, epoch, hash, 4, j);
        lemma_least_is_below(counters, epoch, hash, 4, j);
    }
    lemma_least_is_least(after, epoch, hash, 4, lesser(least + 1, 15));
    let other_least = least_count(counters, epoch, other, 4);
    assert forall|j: nat| j < 4 implies count_at(
        after[#[trigger] counter_of(other, j, after.len() as usize)],
        epoch,
    ) >= other_least by {
        lemma_masked(mixed_times(other, j + 1) as usize, (counters.len() - 1) as usize);
        lemma_counters_only_grow(counters, epoch, hash, 4, counter_of(other, j, counters.len() as usize));
        lemma_least_is_below(counters, epoch, other, 4, j);
    }
    lemma_least_is_least(after, epoch, other, 4, other_least);
}

/// An epoch lasts exactly one window of accesses: the epoch is the number of whole windows
/// that were counted.
pub proof fn law_an_epoch_lasts_one_window(samples: u64, window: u64, epoch: u64)
    requires
        window > 0,
        epoch == samples / window,
        samples < u64::MAX,
    ensures
        epoch_after(samples, window, epoch) == (samples + 1) / (window as int),
{
    let w = window as int;
    let s = samples as int;
    vstd::arithmetic::div_mod::lemma_fundamental_div_mod(s, w);
    vstd::arithmetic::div_mod::lemma_fundamental_div_mod(s + 1, w);
    let q = s / w;
    let r = s % w;
    if r + 1 == w {
        assert(s + 1 == w * (q + 1)) by (nonlinear_arith)
            requires
                s == w * q + r,
                r + 1 == w,
        ;
        vstd::arithmetic::div_mod::lemma_fundamental_div_mod_converse(s + 1, w, q + 1, 0);
        assert(q < u64::MAX) by (nonlinear_arith)
            requires
                s == w * q + r,
                w >= 1,
                r >= 0,
                s < u64::MAX,
                q >= 0,
        ;
    } else {
        assert(s + 1 == q * w + (r + 1)) by (nonlinear_arith)
            requires
                s == w * q + r,
        ;
        vstd::arithmetic::div_mod::lemma_fundamental_div_mod_converse(s + 1, w, q, r + 1);
    }
}

/// An access touches no counter but the four of its hash, and raises none beyond the
/// largest count.
pub proof fn law_an_access_touches_only_its_counters(counters: Seq<u64>, epoch: u64, hash: u64, k: nat, i: int)
    requires
        0 < counters.len() <= usize::MAX,
        0 <= i < counters.len(),
        forall|j: nat| j < k ==> #[trigger] counter_of(hash, j, counters.len() as usize) != i,
    ensures
        counters_raised(counters, epoch, hash, k).len() == counters.len(),
        counters_raised(counters, epoch, hash, k)[i] == counters[i],
    decreases k,
{
    if k > 0 {
        law_an_access_touches_only_its_counters(counters, epoch, hash, (k - 1) as nat, i);
        assert(counter_of(hash, (k - 1) as nat, counters.len() as usize) != i);
        lemma_masked(mixed_times(hash, k) as usize, (counters.len() - 1) as usize);
    }
}

/// A single access raises a counter by no more than one for each time that it is among the
/// four of the hash.
pub proof fn law_an_access_raises_a_counter_by_its_share(counters: Seq<u64>, epoch: u64, hash: u64, k: nat, i: int)
    requires
        0 < counters.len() <= usize::MAX,
        epoch < 0x100_0000_0000_0000,
        forall|j: int| 0 <= j < counters.len() ==> (#[trigger] counters[j]) as nat % 256 <= 15,
        0 <= i < counters.len(),
    ensures
        count_at(counters_raised(counters, epoch, hash, k)[i], epoch) <= count_at(counters[i], epoch) + k,
    decreases k,
{
    if k > 0 {
        let m = (k - 1) as nat;
        law_an_access_raises_a_counter_by_its_share(counters, epoch, hash, m, i);
        lemma_counters_only_grow(counters, epoch, hash, m, i);
        let before = counters_raised(counters, epoch, hash, m);
        let at = counter_of(hash, m, counters.len() as usize);
        lemma_masked(mixed_times(hash, k) as usize, (counters.len() - 1) as usize);
        lemma_raised(before[at], epoch);
    }
}

/// The estimate is the least of the four counts: none of them is less, and one of them is
/// that.
pub proof fn law_the_estimate_is_the_least_count(counters: Seq<u64>, epoch: u64, hash: u64, j: nat)
    requires
        j < 4,
    ensures
        least_count(counters, epoch, hash, 4) <= count_at(
            counters[counter_of(hash, j, counters.len() as usize)],
            epoch,
        ),
        exists|i: nat|
            i < 4 && least_count(counters, epoch, hash, 4) == count_at(
                counters[#[trigger] counter_of(hash, i, counters.len() as usize)],
                epoch,
            ),
{
    lemma_least_is_below(counters, epoch, hash, 4, j);
    lemma_least_is_reached(counters, epoch, hash, 4);
}

proof fn lemma_least_is_reached(counters: Seq<u64>, epoch: u64, hash: u64, k: nat)
    requires
        k >= 1,
    ensures
        exists|i: nat|
            i < k && least_count(counters, epoch, hash, k) == count_at(
                counters[#[trigger] counter_of(hash, i, counters.len() as usize)],
                epoch,
            ),
    decreases k,
{
    let last = (k - 1) as nat;
    let n = counters.len() as usize;
    if k == 1 || least_count(counters, epoch, hash, last) >= count_at(counters[counter_of(hash, last, n)], epoch) {
        assert(least_count(counters, epoch, hash, k) == count_at(counters[counter_of(hash, last, n)], epoch));
    } else {
        lemma_least_is_reached(counters, epoch, hash, last);
        let i = choose|i: nat|
            i < last && least_count(counters, epoch, hash, last) == count_at(
                counters[#[trigger] counter_of(hash, i, n)],
                epoch,
            );
        assert(least_count(counters, epoch, hash, k) == count_at(counters[counter_of(hash, i, n)], epoch));
    }
}

} // verus!
