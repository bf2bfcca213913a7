//! Lookup tables over concurrent hash maps: keys are found through a
//! [`DashMap`], values lie in insertion slots that can be walked in order.

use dashmap::DashMap;
use vstd::prelude::*;

verus! {

/// The concurrent hash map of the `dashmap` crate.
#[verifier::external_type_specification]
#[verifier::external_body]
#[verifier::reject_recursive_types(K)]
#[verifier::reject_recursive_types(V)]
#[verifier::reject_recursive_types(S)]
pub struct ExDashMap<K, V, S>(DashMap<K, V, S>);

/// Contents of a map from numbers to slots.
pub uninterp spec fn slots_of(m: DashMap<u128, usize>) -> Map<u128, usize>;

/// Contents of a map from names to slots.
pub uninterp spec fn named_slots_of(m: DashMap<String, usize>) -> Map<Seq<char>, usize>;

/// `DashMap::new` gives a map without entries.
#[verifier::external_body]
fn slots_new() -> (m: DashMap<u128, usize>)
    ensures
        (slots_of(m) == Map::<u128, usize>::empty()),
{
    DashMap::new()
}

/// `DashMap::get` finds the value of a key, where the map holds the key. The
/// value is copied out, so that no guard on the map outlives the call.
#[verifier::external_body]
fn slots_get(m: &DashMap<u128, usize>, key: u128) -> (slot: Option<usize>)
    ensures
        slot == (if slots_of(*m).contains_key(key) { Some(slots_of(*m)[key]) } else { None }),
{
    m.get(&key).map(|r| *r.value())
}

/// `DashMap::insert` maps a key to a value and keeps every other entry.
#[verifier::external_body]
fn slots_insert(m: &mut DashMap<u128, usize>, key: u128, slot: usize)
    ensures
        slots_of(*final(m)) == slots_of(*old(m)).insert(key, slot),
{
    m.insert(key, slot);
}

/// `DashMap::remove` drops the entry of a key and keeps every other entry.
#[verifier::external_body]
fn slots_remove(m: &mut DashMap<u128, usize>, key: u128)
    ensures
        slots_of(*final(m)) == slots_of(*old(m)).remove(key),
{
    m.remove(&key);
}

/// `DashMap::new` gives a map without entries.
#[verifier::external_body]
fn named_slots_new() -> (m: DashMap<String, usize>)
    ensures
        (named_slots_of(m) == Map::<Seq<char>, usize>::empty()),
{
    DashMap::new()
}

/// `DashMap::get` finds the value of a string key, where the map holds a key
/// with the same characters. The value is copied out, so that no guard on the
/// map outlives the call.
#[verifier::external_body]
fn named_slots_get(m: &DashMap<String, usize>, key: &str) -> (slot: Option<usize>)
    ensures
        slot == (if named_slots_of(*m).contains_key(key@) {
            Some(named_slots_of(*m)[key@])
        } else {
            None
        }),
{
    m.get(key).map(|r| *r.value())
}

/// `DashMap::insert` maps a string key to a value and keeps every other entry.
#[verifier::external_body]
fn named_slots_insert(m: &mut DashMap<String, usize>, key: String, slot: usize)
    ensures
        named_slots_of(*final(m)) == named_slots_of(*old(m)).insert(key@, slot),
{
    m.insert(key, slot);
}

/// A table from numbers to values.
pub struct Table<V> {
    index: DashMap<u128, usize>,
    keys: Vec<u128>,
    values: Vec<V>,
}

impl<V> Table<V> {
    /// Every key has one slot, and every slot one key.
    pub closed spec fn wf(&self) -> bool {
        let slots = slots_of(self.index);
        &&& self.keys@.len() == self.values@.len()
        &&& forall|i: int|
            0 <= i < self.keys@.len() ==> slots.contains_key(#[trigger] self.keys@[i])
                && slots[self.keys@[i]] == i
        &&& forall|k: u128| #[trigger]
            slots.contains_key(k) ==> slots[k] < self.keys@.len() && self.keys@[slots[k] as int]
                == k
    }

    /// The keys, in slot order.
    pub closed spec fn order(&self) -> Seq<u128> {
        self.keys@
    }

    /// The value of each key.
    pub closed spec fn entries(&self) -> Map<u128, V> {
        Map::new(
            |k: u128| slots_of(self.index).contains_key(k),
            |k: u128| self.values@[slots_of(self.index)[k] as int],
        )
    }

    /// The slots hold every key once.
    pub proof fn lemma_order(&self)
        requires
            self.wf(),
        ensures
            self.order().no_duplicates(),
            self.order().len() == self.entries().dom().len(),
            self.entries().dom().finite(),
            forall|k: u128| #[trigger]
                self.entries().contains_key(k) <==> self.order().contains(k),
            forall|i: int|
                0 <= i < self.order().len() ==> self.entries().contains_key(
                    #[trigger] self.order()[i],
                ),
    {
        assert forall|i: int, j: int|
            0 <= i < self.keys@.len() && 0 <= j < self.keys@.len() && i
                != j implies self.keys@[i] != self.keys@[j] by {
            assert(slots_of(self.index)[self.keys@[i]] == i);
            assert(slots_of(self.index)[self.keys@[j]] == j);
        }
        assert forall|k: u128| #[trigger] self.entries().contains_key(k) implies self.order()
            .contains(k) by {
            assert(self.keys@[slots_of(self.index)[k] as int] == k);
        }
        self.keys@.unique_seq_to_set();
        assert(self.entries().dom() =~= self.keys@.to_set());
    }

    /// The slots fit the address space.
    pub proof fn lemma_order_bound(&self)
        ensures
            self.order().len() <= usize::MAX,
    {
        assert(self.keys.len() == self.keys@.len());
    }

    /// A table without entries.
    pub fn new() -> (t: Table<V>)
        ensures
            t.wf(),
            t.entries() == Map::<u128, V>::empty(),
            t.order().len() == 0,
    {
        let t = Table { index: slots_new(), keys: Vec::new(), values: Vec::new() };
        assert(t.entries() =~= Map::<u128, V>::empty());
        t
    }

    /// Number of entries.
    pub fn len(&self) -> (n: usize)
        requires
            self.wf(),
        ensures
            n == self.order().len(),
            n == self.entries().dom().len(),
    {
        proof {
            self.lemma_order();
        }
        self.keys.len()
    }

    /// The value of `key`.
    pub fn get(&self, key: u128) -> (v: Option<&V>)
        requires
            self.wf(),
        ensures
            match v {
                Some(v) => self.entries().contains_key(key) && *v == self.entries()[key],
                None => !self.entries().contains_key(key),
            },
    {
        match slots_get(&self.index, key) {
            Some(slot) => Some(&self.values[slot]),
            None => None,
        }
    }

    /// Whether the table holds `key`.
    pub fn contains_key(&self, key: u128) -> (r: bool)
        requires
            self.wf(),
        ensures
            r == self.entries().contains_key(key),
    {
        self.get(key).is_some()
    }

    /// The key in slot `i`.
    pub fn key_at(&self, i: usize) -> (k: u128)
        requires
            self.wf(),
            i < self.order().len(),
        ensures
            k == self.order()[i as int],
            self.entries().contains_key(k),
    {
        self.keys[i]
    }

    /// The value in slot `i`.
    pub fn value_at(&self, i: usize) -> (v: &V)
        requires
            self.wf(),
            i < self.order().len(),
        ensures
            self.entries().contains_key(self.order()[i as int]),
            *v == self.entries()[self.order()[i as int]],
    {
        assert(slots_of(self.index)[self.keys@[i as int]] == i);
        &self.values[i]
    }

    /// Map `key` to `value`, in place of what it had.
    pub fn insert(&mut self, key: u128, value: V)
        requires
            old(self).wf(),
        ensures
            final(self).wf(),
            final(self).entries() == old(self).entries().insert(key, value),
            final(self).order() == (if old(self).entries().contains_key(key) {
                old(self).order()
            } else {
                old(self).order().push(key)
            }),
    {
        let ghost before = *self;
        match slots_get(&self.index, key) {
            Some(slot) => {
                self.values[slot] = value;
                proof {
                    assert forall|k: u128| before.entries().contains_key(k) && k
                        != key implies self.entries()[k] == before.entries()[k] by {
                        assert(before.keys@[slots_of(before.index)[k] as int] == k);
                    }
                }
            },
            None => {
                let slot: usize = self.keys.len();
                self.keys.push(key);
                self.values.push(value);
                slots_insert(&mut self.index, key, slot);
            },
        }
        assert(self.entries() =~= before.entries().insert(key, value));
    }

    /// The value of `key`, to be changed in place.
    pub fn get_mut(&mut self, key: u128) -> (v: Option<&mut V>)
        requires
            old(self).wf(),
        ensures
            match v {
                Some(v) => {
                    &&& old(self).entries().contains_key(key)
                    &&& *v == old(self).entries()[key]
                    &&& final(self).wf()
                    &&& final(self).order() == old(self).order()
                    &&& final(self).entries() == old(self).entries().insert(key, *final(v))
                },
                None => !old(self).entries().contains_key(key) && *final(self) == *old(self),
            },
    {
        match slots_get(&self.index, key) {
            Some(slot) => Some(&mut self.values[slot]),
            None => None,
        }
    }

    /// Drop the entry of `key`.
    pub fn remove(&mut self, key: u128)
        requires
            old(self).wf(),
        ensures
            final(self).wf(),
            final(self).entries() == old(self).entries().remove(key),
    {
        let ghost before = *self;
        match slots_get(&self.index, key) {
            Some(slot) => {
                let last: usize = self.keys.len() - 1;
                self.keys.swap_remove(slot);
                self.values.swap_remove(slot);
                slots_remove(&mut self.index, key);
                proof {
                    let slots = slots_of(before.index);
                    assert(before.keys@[slot as int] == key);
                    assert(slots[before.keys@[last as int]] == last);
                }
                if slot != last {
                    let moved: u128 = self.keys[slot];
                    slots_insert(&mut self.index, moved, slot);
                }
                proof {
                    let old_slots = slots_of(before.index);
                    let slots = slots_of(self.index);
                    assert forall|k: u128| #[trigger] slots.contains_key(k) implies slots[k]
                        < self.keys@.len() && self.keys@[slots[k] as int] == k by {
                        assert(old_slots.contains_key(k));
                        assert(before.keys@[old_slots[k] as int] == k);
                    }
                    assert forall|i: int| 0 <= i < self.keys@.len() implies slots.contains_key(
                        #[trigger] self.keys@[i],
                    ) && slots[self.keys@[i]] == i by {
                        if i != slot {
                            assert(self.keys@[i] == before.keys@[i]);
                            assert(old_slots[before.keys@[i]] == i);
                        }
                    }
                    assert forall|k: u128| #[trigger] slots.contains_key(k)
                        == before.entries().remove(key).contains_key(k) by {}
                    assert forall|k: u128| #[trigger] slots.contains_key(k) implies self.entries(
                    )[k] == before.entries()[k] by {
                        assert(before.keys@[old_slots[k] as int] == k);
                    }
                }
            },
            None => {},
        }
        assert(self.entries() =~= before.entries().remove(key));
    }

    /// Drop every entry.
    pub fn clear(&mut self)
        ensures
            final(self).wf(),
            final(self).entries() == Map::<u128, V>::empty(),
            final(self).order().len() == 0,
    {
        *self = Table::new();
    }
}

/// A table from names to values.
pub struct NameTable<V> {
    index: DashMap<String, usize>,
    names: Vec<String>,
    values: Vec<V>,
}

impl<V> NameTable<V> {
    /// Every name has one slot, and every slot one name.
    pub closed spec fn wf(&self) -> bool {
        let slots = named_slots_of(self.index);
        &&& self.names@.len() == self.values@.len()
        &&& forall|i: int|
            0 <= i < self.names@.len() ==> slots.contains_key((#[trigger] self.names@[i])@)
                && slots[self.names@[i]@] == i
        &&& forall|k: Seq<char>| #[trigger]
            slots.contains_key(k) ==> slots[k] < self.names@.len()
                && self.names@[slots[k] as int]@ == k
    }

    /// The names, in slot order.
    pub closed spec fn order(&self) -> Seq<Seq<char>> {
        self.names@.map_values(|s: String| s@)
    }

    /// The value of each name.
    pub closed spec fn entries(&self) -> Map<Seq<char>, V> {
        Map::new(
            |k: Seq<char>| named_slots_of(self.index).contains_key(k),
            |k: Seq<char>| self.values@[named_slots_of(self.index)[k] as int],
        )
    }

    /// The slots hold every name once.
    pub proof fn lemma_order(&self)
        requires
            self.wf(),
        ensures
            self.order().no_duplicates(),
            self.entries().dom().finite(),
            forall|k: Seq<char>| #[trigger]
                self.entries().contains_key(k) <==> self.order().contains(k),
            forall|i: int|
                0 <= i < self.order().len() ==> self.entries().contains_key(
                    #[trigger] self.order()[i],
                ),
    {
        assert forall|i: int, j: int|
            0 <= i < self.names@.len() && 0 <= j < self.names@.len() && i
                != j implies self.order()[i] != self.order()[j] by {
            assert(named_slots_of(self.index)[self.names@[i]@] == i);
            assert(named_slots_of(self.index)[self.names@[j]@] == j);
        }
        assert forall|k: Seq<char>| #[trigger] self.entries().contains_key(k) implies self.order()
            .contains(k) by {
            let i = named_slots_of(self.index)[k] as int;
            assert(self.names@[i]@ == k);
            assert(self.order()[i] == k);
        }
        assert forall|k: Seq<char>| self.order().contains(k) implies #[trigger] self.entries()
            .contains_key(k) by {
            let i = choose|i: int| 0 <= i < self.order().len() && self.order()[i] == k;
            assert(named_slots_of(self.index).contains_key(self.names@[i]@));
        }
        assert forall|i: int| 0 <= i < self.order().len() implies self.entries().contains_key(
            #[trigger] self.order()[i],
        ) by {
            assert(named_slots_of(self.index).contains_key(self.names@[i]@));
        }
        assert(self.entries().dom() =~= self.order().to_set());
    }

    /// A table without entries.
    pub fn new() -> (t: NameTable<V>)
        ensures
            t.wf(),
            t.entries() == Map::<Seq<char>, V>::empty(),
            t.order().len() == 0,
    {
        let t = NameTable { index: named_slots_new(), names: Vec::new(), values: Vec::new() };
        assert(t.entries() =~= Map::<Seq<char>, V>::empty());
        t
    }

    /// Number of entries.
    pub fn len(&self) -> (n: usize)
        ensures
            n == self.order().len(),
    {
        self.names.len()
    }

    /// The value of `name`.
    pub fn get(&self, name: &str) -> (v: Option<&V>)
        requires
            self.wf(),
        ensures
            match v {
                Some(v) => self.entries().contains_key(name@) && *v == self.entries()[name@],
                None => !self.entries().contains_key(name@),
            },
    {
        match named_slots_get(&self.index, name) {
            Some(slot) => Some(&self.values[slot]),
            None => None,
        }
    }

    /// The name in slot `i`.
    pub fn name_at(&self, i: usize) -> (name: &str)
        requires
            self.wf(),
            i < self.order().len(),
        ensures
            name@ == self.order()[i as int],
            self.entries().contains_key(name@),
    {
        assert(named_slots_of(self.index).contains_key(self.names@[i as int]@));
        self.names[i].as_str()
    }

    /// The value in slot `i`.
    pub fn value_at(&self, i: usize) -> (v: &V)
        requires
            self.wf(),
            i < self.order().len(),
        ensures
            self.entries().contains_key(self.order()[i as int]),
            *v == self.entries()[self.order()[i as int]],
    {
        assert(named_slots_of(self.index)[self.names@[i as int]@] == i);
        &self.values[i]
    }

    /// Map `name` to `value`, in place of what it had.
    pub fn insert(&mut self, name: &str, value: V)
        requires
            old(self).wf(),
        ensures
            final(self).wf(),
            final(self).entries() == old(self).entries().insert(name@, value),
            final(self).order() == (if old(self).entries().contains_key(name@) {
                old(self).order()
            } else {
                old(self).order().push(name@)
            }),
    {
        let ghost before = *self;
        match named_slots_get(&self.index, name) {
            Some(slot) => {
                self.values[slot] = value;
                proof {
                    assert forall|k: Seq<char>| before.entries().contains_key(k) && k
                        != name@ implies self.entries()[k] == before.entries()[k] by {
                        assert(before.names@[named_slots_of(before.index)[k] as int]@ == k);
                    }
                }
            },
            None => {
                let slot: usize = self.names.len();
                self.names.push(name.to_owned());
                self.values.push(value);
                named_slots_insert(&mut self.index, name.to_owned(), slot);
                assert(self.order() =~= before.order().push(name@));
            },
        }
        assert(self.entries() =~= before.entries().insert(name@, value));
    }

    /// The value of `name`, to be changed in place.
    pub fn get_mut(&mut self, name: &str) -> (v: Option<&mut V>)
        requires
            old(self).wf(),
        ensures
            match v {
                Some(v) => {
                    &&& old(self).entries().contains_key(name@)
                    &&& *v == old(self).entries()[name@]
                    &&& final(self).wf()
                    &&& final(self).order() == old(self).order()
                    &&& final(self).entries() == old(self).entries().insert(name@, *final(v))
                },
                None => !old(self).entries().contains_key(name@) && *final(self) == *old(self),
            },
    {
        match named_slots_get(&self.index, name) {
            Some(slot) => Some(&mut self.values[slot]),
            None => None,
        }
    }

    /// Drop every entry.
    pub fn clear(&mut self)
        ensures
            final(self).wf(),
            final(self).entries() == Map::<Seq<char>, V>::empty(),
            final(self).order().len() == 0,
    {
        *self = NameTable::new();
    }
}

} // verus!
