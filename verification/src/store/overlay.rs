//! A map from key digests to index mutations, held in ascending order of the digests.

use vstd::prelude::*;

use crate::model::KeyDigest;
use crate::store::pool::PackedLocation;
use crate::wire::{get_u64, lemma_u64_at_injective, u64_at};

verus! {

/// What the index is to hold for a key: a location, or nothing.
#[derive(Debug, Clone, Copy, PartialEq, Eq, Structural)]
pub struct Mutation {
    pub location: Option<PackedLocation>,
}

impl Mutation {
    /// The key is at `location`.
    pub fn insert(location: PackedLocation) -> (mutation: Mutation)
        ensures
            mutation == (Mutation { location: Some(location) }),
    {
        Mutation { location: Some(location) }
    }

    /// The key is gone.
    pub fn remove() -> (mutation: Mutation)
        ensures
            mutation == (Mutation { location: None }),
    {
        Mutation { location: None }
    }
}

/// Digest `a` comes before digest `b`.
pub open spec fn comes_before(a: Seq<u8>, b: Seq<u8>) -> bool {
    u64_at(a, 0) < u64_at(b, 0) || u64_at(a, 0) == u64_at(b, 0) && (u64_at(a, 8) < u64_at(b, 8) || u64_at(a, 8)
        == u64_at(b, 8) && u64_at(a, 16) < u64_at(b, 16))
}

proof fn lemma_neither_before(a: Seq<u8>, b: Seq<u8>)
    requires
        a.len() == 24,
        b.len() == 24,
        !comes_before(a, b),
        !comes_before(b, a),
    ensures
        a == b,
{
    lemma_u64_at_injective(a, b, 0);
    lemma_u64_at_injective(a, b, 8);
    lemma_u64_at_injective(a, b, 16);
    assert(a =~= b);
}

fn is_before(a: &KeyDigest, b: &KeyDigest) -> (before: bool)
    ensures
        before == comes_before(a@, b@),
{
    let x = a.bytes.as_slice();
    let y = b.bytes.as_slice();
    let x0 = get_u64(x, 0);
    let y0 = get_u64(y, 0);
    if x0 != y0 {
        return x0 < y0;
    }
    let x1 = get_u64(x, 8);
    let y1 = get_u64(y, 8);
    if x1 != y1 {
        return x1 < y1;
    }
    get_u64(x, 16) < get_u64(y, 16)
}

/// Mutations by key digest.
#[derive(Debug)]
pub struct Overlay {
    entries: Vec<(KeyDigest, Mutation)>,
}

/// Entry `i` is that of `key`.
pub open spec fn is_entry(entries: Seq<(KeyDigest, Mutation)>, key: Seq<u8>, i: int) -> bool {
    0 <= i < entries.len() && entries[i].0@ == key
}

/// Some entry is that of `key`.
pub open spec fn has_entry(entries: Seq<(KeyDigest, Mutation)>, key: Seq<u8>) -> bool {
    exists|i: int| #[trigger] is_entry(entries, key, i)
}

/// The map that the entries stand for.
pub open spec fn entry_map(entries: Seq<(KeyDigest, Mutation)>) -> Map<Seq<u8>, Mutation> {
    Map::new(
        |key: Seq<u8>| has_entry(entries, key),
        |key: Seq<u8>| entries[choose|i: int| #[trigger] is_entry(entries, key, i)].1,
    )
}

/// The entries are in strictly ascending order of their digests.
pub open spec fn ascending(entries: Seq<(KeyDigest, Mutation)>) -> bool {
    forall|i: int, j: int|
        0 <= i < j < entries.len() ==> comes_before((#[trigger] entries[i]).0@, (#[trigger] entries[j]).0@)
}

impl View for Overlay {
    type V = Map<Seq<u8>, Mutation>;

    closed spec fn view(&self) -> Map<Seq<u8>, Mutation> {
        entry_map(self.entries@)
    }
}

/// Each entry is found under its key.
pub proof fn lemma_entry(entries: Seq<(KeyDigest, Mutation)>, i: int)
    requires
        ascending(entries),
        0 <= i < entries.len(),
    ensures
        entry_map(entries).contains_key(entries[i].0@),
        entry_map(entries)[entries[i].0@] == entries[i].1,
{
    let key = entries[i].0@;
    assert(is_entry(entries, key, i));
    let j = choose|j: int| #[trigger] is_entry(entries, key, j);
    assert(j == i) by {
        if j < i {
            assert(comes_before(entries[j].0@, entries[i].0@));
        } else if i < j {
            assert(comes_before(entries[i].0@, entries[j].0@));
        }
    }
}

impl Overlay {
    /// Each key has one entry.
    #[verifier::type_invariant]
    spec fn sorted(self) -> bool {
        ascending(self.entries@)
    }

    /// The number of entries.
    pub closed spec fn count(self) -> nat {
        self.entries@.len()
    }

    /// The entries, in ascending order.
    pub closed spec fn list(self) -> Seq<(KeyDigest, Mutation)> {
        self.entries@
    }

    /// No mutations.
    pub fn new() -> (overlay: Overlay)
        ensures
            overlay@ == Map::<Seq<u8>, Mutation>::empty(),
            overlay.count() == 0,
    {
        let overlay = Overlay { entries: Vec::new() };
        assert(overlay@ =~= Map::<Seq<u8>, Mutation>::empty()) by {
            assert forall|key: Seq<u8>| !(#[trigger] overlay@.contains_key(key)) by {
                assert(!has_entry(overlay.entries@, key));
            }
        }
        overlay
    }

    /// The number of mutations.
    pub fn len(&self) -> (len: usize)
        ensures
            len == self.count(),
    {
        self.entries.len()
    }

    /// Whether there are no mutations.
    pub fn is_empty(&self) -> (empty: bool)
        ensures
            empty == (self.count() == 0),
            empty == (self@ == Map::<Seq<u8>, Mutation>::empty()),
    {
        proof {
            use_type_invariant(self);
            if self.entries@.len() == 0 {
                assert(self@ =~= Map::<Seq<u8>, Mutation>::empty()) by {
                    assert forall|key: Seq<u8>| !(#[trigger] self@.contains_key(key)) by {
                        assert(!has_entry(self.entries@, key));
                    }
                }
            } else {
                lemma_entry(self.entries@, 0);
            }
        }
        self.entries.len() == 0
    }

    /// The place of the first entry that does not come before `key`.
    fn position(&self, key: &KeyDigest) -> (at: usize)
        ensures
            at <= self.entries@.len(),
            forall|i: int| 0 <= i < at ==> comes_before((#[trigger] self.entries@[i]).0@, key@),
            forall|i: int| at <= i < self.entries@.len() ==> !comes_before((#[trigger] self.entries@[i]).0@, key@),
    {
        proof {
            use_type_invariant(self);
        }
        let mut low: usize = 0;
        let mut high: usize = self.entries.len();
        while low < high
            invariant
                low <= high <= self.entries@.len(),
                ascending(self.entries@),
                forall|i: int| 0 <= i < low ==> comes_before((#[trigger] self.entries@[i]).0@, key@),
                forall|i: int|
                    high <= i < self.entries@.len() ==> !comes_before((#[trigger] self.entries@[i]).0@, key@),
            decreases high - low,
        {
            let middle = low + (high - low) / 2;
            if is_before(&self.entries[middle].0, key) {
                assert forall|i: int| 0 <= i < middle + 1 implies comes_before(
                    (#[trigger] self.entries@[i]).0@,
                    key@,
                ) by {
                    if i < middle {
                        assert(comes_before(self.entries@[i].0@, self.entries@[middle as int].0@));
                    }
                }
                low = middle + 1;
            } else {
                assert forall|i: int| middle <= i < self.entries@.len() implies !comes_before(
                    (#[trigger] self.entries@[i]).0@,
                    key@,
                ) by {
                    if middle < i {
                        assert(comes_before(self.entries@[middle as int].0@, self.entries@[i].0@));
                    }
                }
                high = middle;
            }
        }
        low
    }

    /// The mutation of a key.
    pub fn get(&self, key: &KeyDigest) -> (mutation: Option<Mutation>)
        ensures
            mutation == (if self@.contains_key(key@) {
                Some(self@[key@])
            } else {
                None
            }),
    {
        proof {
            use_type_invariant(self);
        }
        let at = self.position(key);
        if at < self.entries.len() && self.entries[at].0.same(key) {
            proof {
                lemma_entry(self.entries@, at as int);
            }
            return Some(self.entries[at].1);
        }
        proof {
            if has_entry(self.entries@, key@) {
                let i = choose|i: int| #[trigger] is_entry(self.entries@, key@, i);
                assert(!comes_before(key@, key@));
                if i > at {
                    assert(comes_before(self.entries@[at as int].0@, self.entries@[i].0@));
                    assert(!comes_before(self.entries@[at as int].0@, key@));
                }
                assert(i == at);
            }
        }
        None
    }

    /// Sets the mutation of a key.
    pub fn set(&mut self, key: KeyDigest, mutation: Mutation)
        ensures
            final(self)@ == old(self)@.insert(key@, mutation),
            final(self).count() == old(self).count() + (if old(self)@.contains_key(key@) {
                0nat
            } else {
                1nat
            }),
    {
        proof {
            use_type_invariant(&*self);
        }
        let ghost before = self.entries@;
        let at = self.position(&key);
        if at < self.entries.len() && self.entries[at].0.same(&key) {
            let mut entries: Vec<(KeyDigest, Mutation)> = Vec::new();
            std::mem::swap(&mut entries, &mut self.entries);
            entries[at] = (key, mutation);
            proof {
                let after = before.update(at as int, (key, mutation));
                lemma_entry(before, at as int);
                lemma_set(before, after, at as int, key, mutation);
            }
            std::mem::swap(&mut entries, &mut self.entries);
        } else {
            let mut entries: Vec<(KeyDigest, Mutation)> = Vec::new();
            std::mem::swap(&mut entries, &mut self.entries);
            proof {
                if has_entry(before, key@) {
                    let i = choose|i: int| #[trigger] is_entry(before, key@, i);
                    if i > at {
                        assert(comes_before(before[at as int].0@, before[i].0@));
                    }
                }
                if at < before.len() && !comes_before(key@, before[at as int].0@) {
                    lemma_neither_before(key@, before[at as int].0@);
                }
                lemma_insert(before, at as int, key, mutation);
            }
            entries.insert(at, (key, mutation));
            std::mem::swap(&mut entries, &mut self.entries);
        }
    }

    /// All entries, in ascending order.
    pub fn to_vec(&self) -> (entries: Vec<(KeyDigest, Mutation)>)
        ensures
            entries@ == self.list(),
            entries@.len() == self.count(),
            ascending(entries@),
            self@ == entry_map(entries@),
    {
        proof {
            use_type_invariant(self);
        }
        let mut entries: Vec<(KeyDigest, Mutation)> = Vec::new();
        let mut i: usize = 0;
        while i < self.entries.len()
            invariant
                i <= self.entries@.len(),
                entries@ == self.entries@.take(i as int),
            decreases self.entries@.len() - i,
        {
            entries.push(self.entries[i]);
            i = i + 1;
            assert(entries@ =~= self.entries@.take(i as int));
        }
        assert(entries@ =~= self.entries@);
        entries
    }

    /// The entry at a place of the list.
    pub fn entry(&self, at: usize) -> (entry: (KeyDigest, Mutation))
        requires
            at < self.count(),
        ensures
            entry == self.list()[at as int],
            self@.contains_key(entry.0@),
            self@[entry.0@] == entry.1,
    {
        proof {
            use_type_invariant(self);
            lemma_entry(self.entries@, at as int);
        }
        self.entries[at]
    }

    /// Every key of the map is in the list.
    pub proof fn lemma_list(&self, key: Seq<u8>)
        requires
            self@.contains_key(key),
        ensures
            self.list().len() == self.count(),
            exists|i: int| 0 <= i < self.list().len() && (#[trigger] self.list()[i]).0@ == key,
    {
        let i = choose|i: int| #[trigger] is_entry(self.entries@, key, i);
        assert(self.list()[i].0@ == key);
    }

    /// Takes over the mutations of `older` for the keys that have none here.
    pub fn fill_from(&mut self, older: &Overlay)
        ensures
            final(self)@ == older@.union_prefer_right(old(self)@),
    {
        let ghost mine = self@;
        let mut i: usize = 0;
        while i < older.len()
            invariant
                i <= older.count(),
                older.list().len() == older.count(),
                forall|key: Seq<u8>| #[trigger] mine.contains_key(key) ==> self@.contains_key(key) && self@[key]
                    == mine[key],
                forall|key: Seq<u8>| #[trigger]
                    self@.contains_key(key) && !mine.contains_key(key) ==> older@.contains_key(key) && self@[key]
                        == older@[key],
                forall|k: int| 0 <= k < i ==> self@.contains_key((#[trigger] older.list()[k]).0@),
            decreases older.count() - i,
        {
            let (key, mutation) = older.entry(i);
            if self.get(&key).is_none() {
                self.set(key, mutation);
            }
            i = i + 1;
        }
        proof {
            assert forall|key: Seq<u8>| older@.contains_key(key) implies self@.contains_key(key) by {
                older.lemma_list(key);
                let k = choose|k: int| 0 <= k < older.list().len() && (#[trigger] older.list()[k]).0@ == key;
            }
            assert(self@ =~= older@.union_prefer_right(mine));
        }
    }
}

proof fn lemma_set(
    before: Seq<(KeyDigest, Mutation)>,
    after: Seq<(KeyDigest, Mutation)>,
    at: int,
    key: KeyDigest,
    mutation: Mutation,
)
    requires
        ascending(before),
        0 <= at < before.len(),
        before[at].0@ == key@,
        after == before.update(at, (key, mutation)),
    ensures
        ascending(after),
        entry_map(after) == entry_map(before).insert(key@, mutation),
{
    assert forall|i: int, j: int| 0 <= i < j < after.len() implies comes_before(
        (#[trigger] after[i]).0@,
        (#[trigger] after[j]).0@,
    ) by {
        assert(comes_before(before[i].0@, before[j].0@));
    }
    assert forall|k: Seq<u8>| has_entry(after, k) == has_entry(before, k) by {
        if has_entry(after, k) {
            let i = choose|i: int| #[trigger] is_entry(after, k, i);
            assert(is_entry(before, k, i));
        }
        if has_entry(before, k) {
            let i = choose|i: int| #[trigger] is_entry(before, k, i);
            assert(is_entry(after, k, i));
        }
    }
    assert(is_entry(before, key@, at));
    assert forall|k: Seq<u8>| has_entry(after, k) implies entry_map(after)[k] == entry_map(before).insert(
        key@,
        mutation,
    )[k] by {
        let i = choose|i: int| #[trigger] is_entry(after, k, i);
        lemma_entry(after, i);
        lemma_entry(before, i);
        if i != at {
            if i < at {
                assert(comes_before(before[i].0@, before[at].0@));
            } else {
                assert(comes_before(before[at].0@, before[i].0@));
            }
        }
    }
    assert(entry_map(after) =~= entry_map(before).insert(key@, mutation));
}

proof fn lemma_insert(before: Seq<(KeyDigest, Mutation)>, at: int, key: KeyDigest, mutation: Mutation)
    requires
        ascending(before),
        0 <= at <= before.len(),
        !has_entry(before, key@),
        forall|i: int| 0 <= i < at ==> comes_before((#[trigger] before[i]).0@, key@),
        at < before.len() ==> comes_before(key@, before[at].0@),
    ensures
        ascending(before.insert(at, (key, mutation))),
        entry_map(before.insert(at, (key, mutation))) == entry_map(before).insert(key@, mutation),
{
    let after = before.insert(at, (key, mutation));
    assert forall|i: int| at <= i < before.len() implies comes_before(key@, (#[trigger] before[i]).0@) by {
        if at < i {
            assert(comes_before(before[at].0@, before[i].0@));
        }
    }
    assert forall|i: int, j: int| 0 <= i < j < after.len() implies comes_before(
        (#[trigger] after[i]).0@,
        (#[trigger] after[j]).0@,
    ) by {
        let x = if i < at {
            i
        } else {
            i - 1
        };
        let y = if j < at {
            j
        } else {
            j - 1
        };
        if i != at && j != at {
            assert(comes_before(before[x].0@, before[y].0@));
        } else if i == at {
            assert(comes_before(key@, before[y].0@));
        } else {
            assert(comes_before(before[x].0@, key@));
        }
    }
    assert forall|k: Seq<u8>| has_entry(after, k) == (has_entry(before, k) || k == key@) by {
        if has_entry(after, k) {
            let i = choose|i: int| #[trigger] is_entry(after, k, i);
            if i < at {
                assert(is_entry(before, k, i));
            } else if i > at {
                assert(is_entry(before, k, i - 1));
            }
        }
        if has_entry(before, k) {
            let i = choose|i: int| #[trigger] is_entry(before, k, i);
            if i < at {
                assert(is_entry(after, k, i));
            } else {
                assert(is_entry(after, k, i + 1));
            }
        }
        assert(is_entry(after, key@, at));
    }
    assert forall|k: Seq<u8>| has_entry(after, k) implies entry_map(after)[k] == entry_map(before).insert(
        key@,
        mutation,
    )[k] by {
        let i = choose|i: int| #[trigger] is_entry(after, k, i);
        lemma_entry(after, i);
        if i < at {
            assert(is_entry(before, k, i));
            lemma_entry(before, i);
        } else if i > at {
            assert(is_entry(before, k, i - 1));
            lemma_entry(before, i - 1);
        }
    }
    assert(entry_map(after) =~= entry_map(before).insert(key@, mutation));
}

impl Clone for Overlay {
    fn clone(&self) -> (copy: Overlay)
        ensures
            copy@ == self@,
            copy.list() == self.list(),
            copy.count() == self.count(),
    {
        proof {
            use_type_invariant(self);
        }
        let mut entries: Vec<(KeyDigest, Mutation)> = Vec::new();
        let mut i: usize = 0;
        while i < self.entries.len()
            invariant
                i <= self.entries@.len(),
                entries@ == self.entries@.take(i as int),
            decreases self.entries@.len() - i,
        {
            entries.push(self.entries[i]);
            assert(entries@ =~= self.entries@.take(i + 1));
            i = i + 1;
        }
        assert(entries@ =~= self.entries@);
        Overlay { entries }
    }
}

} // verus!
