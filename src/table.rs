use crate::chain::{chain_count, chain_distinct, chain_entries, chain_keys, KeyValue};
use crate::key::HashKey;
use vstd::prelude::*;

verus! {

/// The number of slots of a table made by `HashMap::new`.
pub const DEFAULT_MAX_SIZE: usize = 256;

/// A hash table with a fixed number of slots; each slot holds nothing or
/// the head of a chain of the entries whose keys hash to it.
#[derive(Debug)]
pub struct HashMap<K, V> {
    curr_size: usize,
    array: Vec<Option<KeyValue<K, V>>>,
}

/// The slot of a key in a table of `n` slots.
pub open spec fn slot_index<K: HashKey>(k: K::V, n: int) -> int {
    K::spec_hash(k) as int % n
}

/// Slot `i` of a table of `n` slots holds a chain without repeated keys,
/// all of which hash to `i`.
pub open spec fn slot_ok<K: HashKey, V>(s: Option<KeyValue<K, V>>, i: int, n: int) -> bool {
    &&& chain_distinct(s)
    &&& forall|k: K::V| #[trigger] chain_entries(s).contains_key(k) ==> slot_index::<K>(k, n) == i
}

/// The number of entries over all slots.
pub open spec fn total_len<K: HashKey, V>(s: Seq<Option<KeyValue<K, V>>>) -> nat
    decreases s.len(),
{
    if s.len() == 0 {
        0
    } else {
        total_len(s.drop_last()) + chain_count(s.last())
    }
}

/// The chains of the occupied slots, in slot order.
pub open spec fn occupied_chains<K, V>(s: Seq<Option<KeyValue<K, V>>>) -> Seq<KeyValue<K, V>>
    decreases s.len(),
{
    if s.len() == 0 {
        Seq::empty()
    } else {
        let rest = occupied_chains(s.drop_last());
        match s.last() {
            Some(kv) => rest.push(kv),
            None => rest,
        }
    }
}

/// Where every slot is empty, no slot is occupied.
pub proof fn lemma_occupied_none<K, V>(s: Seq<Option<KeyValue<K, V>>>)
    requires
        forall|i: int| 0 <= i < s.len() ==> #[trigger] s[i] is None,
    ensures
        occupied_chains(s) == Seq::<KeyValue<K, V>>::empty(),
    decreases s.len(),
{
    if s.len() > 0 {
        lemma_occupied_none(s.drop_last());
    }
}

proof fn lemma_total_len_update<K: HashKey, V>(
    s: Seq<Option<KeyValue<K, V>>>,
    i: int,
    x: Option<KeyValue<K, V>>,
)
    requires
        0 <= i < s.len(),
    ensures
        total_len(s.update(i, x)) + chain_count(s[i]) == total_len(s) + chain_count(x),
        chain_count(s[i]) <= total_len(s),
    decreases s.len(),
{
    let t = s.update(i, x);
    if i == s.len() - 1 {
        assert(t.drop_last() =~= s.drop_last());
    } else {
        assert(t.drop_last() =~= s.drop_last().update(i, x));
        lemma_total_len_update(s.drop_last(), i, x);
    }
}

proof fn lemma_total_len_empty<K: HashKey, V>(s: Seq<Option<KeyValue<K, V>>>)
    requires
        forall|i: int| 0 <= i < s.len() ==> s[i] is None,
    ensures
        total_len(s) == 0,
    decreases s.len(),
{
    if s.len() > 0 {
        lemma_total_len_empty(s.drop_last());
    }
}

/// The keys held over all slots.
pub open spec fn all_keys<K: HashKey, V>(s: Seq<Option<KeyValue<K, V>>>) -> Set<K::V>
    decreases s.len(),
{
    if s.len() == 0 {
        Set::empty()
    } else {
        all_keys(s.drop_last()).union(chain_entries(s.last()).dom())
    }
}

proof fn lemma_all_keys<K: HashKey, V>(s: Seq<Option<KeyValue<K, V>>>, n: int)
    requires
        n > 0,
        forall|i: int| 0 <= i < s.len() ==> #[trigger] slot_ok(s[i], i, n),
    ensures
        all_keys(s).finite(),
        all_keys(s).len() == total_len(s),
        forall|k: K::V| #[trigger]
            all_keys(s).contains(k) <==> (0 <= slot_index::<K>(k, n) < s.len()
                && chain_entries(s[slot_index::<K>(k, n)]).contains_key(k)),
    decreases s.len(),
{
    if s.len() == 0 {
        assert(all_keys(s) =~= Set::<K::V>::empty());
    } else {
        let t = s.drop_last();
        let last = s.last();
        assert forall|i: int| 0 <= i < t.len() implies #[trigger] slot_ok(t[i], i, n) by {
            assert(slot_ok(s[i], i, n));
        }
        lemma_all_keys(t, n);
        assert(slot_ok(s[s.len() - 1], s.len() - 1, n));
        match last {
            Some(kv) => kv.lemma_chain_len(),
            None => assert(chain_entries(last).dom() =~= Set::<K::V>::empty()),
        }
        assert(all_keys(t).disjoint(chain_entries(last).dom()));
        vstd::set_lib::lemma_set_disjoint_lens(all_keys(t), chain_entries(last).dom());
        assert forall|k: K::V|
            0 <= slot_index::<K>(k, n) < s.len() && chain_entries(
                s[slot_index::<K>(k, n)],
            ).contains_key(k) implies #[trigger] all_keys(s).contains(k) by {
            if slot_index::<K>(k, n) < s.len() - 1 {
                assert(s[slot_index::<K>(k, n)] == t[slot_index::<K>(k, n)]);
            }
        }
    }
}

impl<K: HashKey, V> View for HashMap<K, V> {
    type V = Map<K::V, V>;

    /// The table as a map from key views to values: a key's entry is looked
    /// up in the chain of its own slot.
    closed spec fn view(&self) -> Map<K::V, V> {
        Map::new(
            |k: K::V| self.slot_map(k).contains_key(k),
            |k: K::V| self.slot_map(k)[k],
        )
    }
}

impl<K: HashKey, V> HashMap<K, V> {
    /// The entries of the slot that key `k` hashes to.
    pub closed spec fn slot_map(self, k: K::V) -> Map<K::V, V> {
        chain_entries(self.array@[slot_index::<K>(k, self.array@.len() as int)])
    }

    /// The slots, each empty or holding the head of a chain.
    pub closed spec fn slots(self) -> Seq<Option<KeyValue<K, V>>> {
        self.array@
    }

    /// The number of slots.
    pub closed spec fn capacity(self) -> nat {
        self.array@.len()
    }

    /// The number of entries, as the table counts them.
    pub closed spec fn spec_len(self) -> nat {
        self.curr_size as nat
    }

    /// The invariant of a table: at least one slot, every chain in its right
    /// slot without repeated keys, and the count equal to the number of entries.
    pub closed spec fn well_formed(self) -> bool {
        &&& self.array@.len() > 0
        &&& forall|i: int| 0 <= i < self.array@.len() ==> #[trigger] slot_ok(self.array@[i], i, self.array@.len() as int)
        &&& self.curr_size == total_len(self.array@)
    }

    /// The count of a well-formed table is the number of its keys.
    pub proof fn lemma_len(self)
        requires
            self.well_formed(),
        ensures
            self@.dom().finite(),
            self@.len() == self.spec_len(),
    {
        let n = self.array@.len() as int;
        lemma_all_keys(self.array@, n);
        assert(self@.dom() =~= all_keys(self.array@));
    }

    /// A well-formed table whose view is empty holds no chain in any slot.
    pub proof fn lemma_empty_view(self)
        requires
            self.well_formed(),
            self@ == Map::<K::V, V>::empty(),
        ensures
            forall|i: int| 0 <= i < self.capacity() ==> #[trigger] self.slots()[i] is None,
            occupied_chains(self.slots()) == Seq::<KeyValue<K, V>>::empty(),
    {
        let n = self.array@.len() as int;
        assert forall|i: int| 0 <= i < self.capacity() implies #[trigger] self.slots()[i] is None by {
            if self.array@[i] is Some {
                let kv = self.array@[i]->0;
                assert(slot_ok(self.array@[i], i, n));
                kv.lemma_head_in_entries();
                assert(chain_entries(self.array@[i]).contains_key(kv.key_view()));
                assert(slot_index::<K>(kv.key_view(), n) == i);
                assert(self.slot_map(kv.key_view()) == kv.entries());
                assert(self@.contains_key(kv.key_view()));
            }
        }
        lemma_occupied_none(self.array@);
    }

    /// An empty table of `capacity` slots.
    pub fn with_capacity(capacity: usize) -> (r: Self)
        requires
            capacity > 0,
        ensures
            r.well_formed(),
            r@ == Map::<K::V, V>::empty(),
            r.capacity() == capacity,
            r@.len() == 0,
            forall|i: int| 0 <= i < r.capacity() ==> #[trigger] r.slots()[i] is None,
            occupied_chains(r.slots()) == Seq::<KeyValue<K, V>>::empty(),
    {
        let r = HashMap { curr_size: 0, array: empty_slots(capacity) };
        proof {
            lemma_total_len_empty(r.array@);
            lemma_occupied_none(r.array@);
        }
        assert(r@ =~= Map::<K::V, V>::empty());
        r
    }

    /// An empty table of `DEFAULT_MAX_SIZE` slots.
    pub fn new() -> (r: Self)
        ensures
            r.well_formed(),
            r@ == Map::<K::V, V>::empty(),
            r.capacity() == DEFAULT_MAX_SIZE,
            r@.len() == 0,
            forall|i: int| 0 <= i < r.capacity() ==> #[trigger] r.slots()[i] is None,
            occupied_chains(r.slots()) == Seq::<KeyValue<K, V>>::empty(),
    {
        Self::with_capacity(DEFAULT_MAX_SIZE)
    }

    /// The number of entries.
    pub fn len(&self) -> (r: usize)
        requires
            self.well_formed(),
        ensures
            r == self@.len(),
    {
        proof {
            self.lemma_len();
        }
        self.curr_size
    }

    /// Starts a chain in the empty slot `position` with one entry.
    fn insert_new_value(&mut self, key: K, value: V, position: usize)
        requires
            old(self).well_formed(),
            old(self).spec_len() < usize::MAX,
            position as int == slot_index::<K>(key@, old(self).array@.len() as int),
            old(self).array@[position as int] is None,
        ensures
            final(self).well_formed(),
            final(self).capacity() == old(self).capacity(),
            final(self)@ == old(self)@.insert(key@, value),
            final(self).spec_len() == old(self).spec_len() + 1,
            forall|j: int|
                0 <= j < old(self).capacity() && j != position as int ==> final(self).slots()[j]
                    == old(self).slots()[j],
            final(self).slots()[position as int] is Some,
            final(self).slots()[position as int]->0.entries() == map![key@ => value],
            final(self).slots()[position as int]->0.chain_len() == 1,
            final(self).slots()[position as int]->0.keys() == seq![key@],
    {
        let ghost n = self.array@.len() as int;
        let new_entry = KeyValue::new(key, value);
        self.array.set(position, Some(new_entry));
        proof {
            lemma_total_len_update(old(self).array@, position as int, Some(new_entry));
            assert(self.array@ == old(self).array@.update(position as int, Some(new_entry)));
            assert forall|i: int| 0 <= i < n implies #[trigger] slot_ok(self.array@[i], i, n) by {
                if i == position as int {
                    assert(forall|k: K::V| #[trigger] chain_entries(self.array@[i]).contains_key(k) ==> k == key@);
                }
            }
        }
        self.curr_size = self.curr_size + 1;
        assert(self@ =~= old(self)@.insert(key@, value));
    }

    /// Walks the chain in the occupied slot `position`: updates the entry of
    /// `key` in place, or appends a new one at the tail.
    fn update_or_link_new_val(&mut self, key: K, value: V, position: usize) -> (r: Option<V>)
        requires
            old(self).well_formed(),
            old(self).spec_len() < usize::MAX,
            position as int == slot_index::<K>(key@, old(self).array@.len() as int),
            old(self).array@[position as int] is Some,
        ensures
            final(self).well_formed(),
            final(self).capacity() == old(self).capacity(),
            final(self)@ == old(self)@.insert(key@, value),
            r == (if old(self)@.contains_key(key@) {
                Some(old(self)@[key@])
            } else {
                None::<V>
            }),
            final(self).spec_len() == old(self).spec_len() + (if old(self)@.contains_key(key@) {
                0int
            } else {
                1int
            }),
            forall|j: int|
                0 <= j < old(self).capacity() && j != position as int ==> final(self).slots()[j]
                    == old(self).slots()[j],
            final(self).slots()[position as int] is Some,
            final(self).slots()[position as int]->0.keys() == (if old(self)@.contains_key(key@) {
                old(self).slots()[position as int]->0.keys()
            } else {
                old(self).slots()[position as int]->0.keys().push(key@)
            }),
    {
        let ghost n = self.array@.len() as int;
        let ghost p = position as int;
        let mut slot: Option<KeyValue<K, V>> = None;
        self.array.set_and_swap(position, &mut slot);
        assert(slot_ok(old(self).array@[p], p, n));
        let mut current_kv = slot.unwrap();
        let r = current_kv.insert_or_update(key, value);
        self.array.set(position, Some(current_kv));
        proof {
            lemma_total_len_update(old(self).array@, p, Some(current_kv));
            assert(self.array@ == old(self).array@.update(p, Some(current_kv)));
            assert(old(self).slot_map(key@) == old(self).array@[p]->0.entries());
            assert forall|i: int| 0 <= i < n implies #[trigger] slot_ok(self.array@[i], i, n) by {
                if i == p {
                    assert forall|k: K::V| #[trigger] chain_entries(self.array@[i]).contains_key(k) implies slot_index::<K>(k, n) == i by {
                        if k != key@ {
                            assert(chain_entries(old(self).array@[p]).contains_key(k));
                        } else {
                            assert(slot_index::<K>(key@, n) == p);
                        }
                    }
                }
            }
        }
        if r.is_none() {
            self.curr_size = self.curr_size + 1;
        }
        assert(self@ =~= old(self)@.insert(key@, value));
        r
    }

    /// Inserts `value` under `key`. Returns the value that `key` had, if it
    /// had one; the table then holds the same number of entries, and one
    /// more otherwise.
    pub fn insert(&mut self, key: K, value: V) -> (r: Option<V>)
        requires
            old(self).well_formed(),
            old(self)@.len() < usize::MAX,
        ensures
            final(self).well_formed(),
            final(self).capacity() == old(self).capacity(),
            final(self)@ == old(self)@.insert(key@, value),
            r == (if old(self)@.contains_key(key@) {
                Some(old(self)@[key@])
            } else {
                None::<V>
            }),
            final(self)@.len() == old(self)@.len() + (if old(self)@.contains_key(key@) {
                0int
            } else {
                1int
            }),
            forall|j: int|
                0 <= j < old(self).capacity() && j != slot_index::<K>(key@, old(self).capacity() as int)
                    ==> final(self).slots()[j] == old(self).slots()[j],
            chain_keys(final(self).slots()[slot_index::<K>(key@, old(self).capacity() as int)]) == (if old(
                self,
            )@.contains_key(key@) {
                chain_keys(old(self).slots()[slot_index::<K>(key@, old(self).capacity() as int)])
            } else {
                chain_keys(old(self).slots()[slot_index::<K>(key@, old(self).capacity() as int)]).push(
                    key@,
                )
            }),
    {
        proof {
            old(self).lemma_len();
        }
        let position = self.slot_of(&key);
        let r = if self.array[position].is_some() {
            self.update_or_link_new_val(key, value, position)
        } else {
            assert(!old(self)@.contains_key(key@));
            self.insert_new_value(key, value, position);
            None
        };
        proof {
            self.lemma_len();
        }
        r
    }

    /// The value stored under `key`, if any; found by walking the chain of
    /// its slot up to the first entry with an equal key.
    pub fn get(&self, key: &K) -> (r: Option<&V>)
        requires
            self.well_formed(),
        ensures
            match r {
                Some(v) => self@.contains_key(key@) && *v == self@[key@],
                None => !self@.contains_key(key@),
            },
    {
        let position = self.slot_of(key);
        match &self.array[position] {
            Some(kv) => kv.find(key),
            None => None,
        }
    }

    /// Removes the entry of `key`, if there is one, re-linking its chain
    /// around it, and returns its value; the table then holds one entry
    /// fewer, and is unchanged otherwise.
    pub fn remove(&mut self, key: &K) -> (r: Option<V>)
        requires
            old(self).well_formed(),
        ensures
            final(self).well_formed(),
            final(self).capacity() == old(self).capacity(),
            final(self)@ == old(self)@.remove(key@),
            r == (if old(self)@.contains_key(key@) {
                Some(old(self)@[key@])
            } else {
                None::<V>
            }),
            final(self)@.len() + (if old(self)@.contains_key(key@) {
                1int
            } else {
                0int
            }) == old(self)@.len(),
            forall|j: int|
                0 <= j < old(self).capacity() && j != slot_index::<K>(key@, old(self).capacity() as int)
                    ==> final(self).slots()[j] == old(self).slots()[j],
            old(self)@.contains_key(key@) ==> exists|i: int|
                0 <= i < chain_keys(old(self).slots()[slot_index::<K>(key@, old(self).capacity() as int)]).len()
                    && chain_keys(old(self).slots()[slot_index::<K>(key@, old(self).capacity() as int)])[i] == key@
                    && chain_keys(final(self).slots()[slot_index::<K>(key@, old(self).capacity() as int)])
                    == chain_keys(old(self).slots()[slot_index::<K>(key@, old(self).capacity() as int)]).remove(i),
            !old(self)@.contains_key(key@) ==> chain_keys(final(self).slots()[slot_index::<K>(key@, old(self).capacity() as int)])
                == chain_keys(old(self).slots()[slot_index::<K>(key@, old(self).capacity() as int)]),
    {
        proof {
            old(self).lemma_len();
        }
        let position = self.slot_of(key);
        let ghost n = self.array@.len() as int;
        let ghost p = position as int;
        let mut slot: Option<KeyValue<K, V>> = None;
        self.array.set_and_swap(position, &mut slot);
        assert(slot_ok(old(self).array@[p], p, n));
        match slot {
            None => {
                assert(self.array@ =~= old(self).array@);
                assert(!old(self)@.contains_key(key@));
                assert(self@ =~= old(self)@.remove(key@));
                None
            },
            Some(kv) => {
                let ghost head = kv;
                let (rest, r) = kv.unlink(key);
                let ghost rest_g = rest;
                self.array.set(position, rest);
                proof {
                    lemma_total_len_update(old(self).array@, p, rest_g);
                    assert(old(self).array@[p] == Some(head));
                    assert(old(self).slot_map(key@) == head.entries());
                    assert(old(self)@.contains_key(key@) == head.entries().contains_key(key@));
                    assert(p == slot_index::<K>(key@, old(self).capacity() as int));
                    if head.entries().contains_key(key@) {
                        let i = choose|i: int|
                            0 <= i < head.keys().len() && head.keys()[i] == key@ && chain_keys(rest_g)
                                == head.keys().remove(i);
                        assert(chain_keys(self.array@[p]) == chain_keys(old(self).array@[p]).remove(i));
                        assert(self.slots()[p] == self.array@[p]);
                        assert(0 <= i < chain_keys(old(self).slots()[p]).len()
                            && chain_keys(old(self).slots()[p])[i] == key@
                            && chain_keys(self.slots()[p]) == chain_keys(old(self).slots()[p]).remove(i));
                    }
                    assert(self.array@ == old(self).array@.update(p, rest_g));
                    assert forall|i: int| 0 <= i < n implies #[trigger] slot_ok(self.array@[i], i, n) by {
                        if i == p {
                            assert forall|k: K::V| #[trigger] chain_entries(self.array@[i]).contains_key(k) implies slot_index::<K>(k, n) == i by {
                                assert(chain_entries(old(self).array@[p]).contains_key(k));
                            }
                        }
                    }
                }
                if r.is_some() {
                    self.curr_size = self.curr_size - 1;
                }
                assert(self@ =~= old(self)@.remove(key@));
                proof {
                    self.lemma_len();
                }
                r
            },
        }
    }

    /// Discards every entry; the number of slots stays.
    pub fn clear(&mut self)
        requires
            old(self).well_formed(),
        ensures
            final(self).well_formed(),
            final(self).capacity() == old(self).capacity(),
            final(self)@ == Map::<K::V, V>::empty(),
            final(self)@.len() == 0,
            forall|i: int| 0 <= i < final(self).capacity() ==> #[trigger] final(self).slots()[i] is None,
            occupied_chains(final(self).slots()) == Seq::<KeyValue<K, V>>::empty(),
    {
        self.array = empty_slots(self.array.len());
        self.curr_size = 0;
        proof {
            lemma_total_len_empty(self.array@);
            lemma_occupied_none(self.array@);
        }
        assert(self@ =~= Map::<K::V, V>::empty());
    }

    /// The chains of the occupied slots, in slot order, skipping empty
    /// slots: what a diagnostic rendering of the table shows.
    pub fn occupied(&self) -> (r: Vec<&KeyValue<K, V>>)
        ensures
            r@.len() == occupied_chains(self.slots()).len(),
            forall|j: int| 0 <= j < r@.len() ==> *r@[j] == occupied_chains(self.slots())[j],
    {
        let mut r: Vec<&KeyValue<K, V>> = Vec::new();
        let mut i: usize = 0;
        while i < self.array.len()
            invariant
                i <= self.array@.len(),
                r@.len() == occupied_chains(self.array@.take(i as int)).len(),
                forall|j: int|
                    0 <= j < r@.len() ==> *r@[j] == occupied_chains(self.array@.take(i as int))[j],
            decreases self.array@.len() - i,
        {
            assert(self.array@.take(i as int + 1).drop_last() =~= self.array@.take(i as int));
            match &self.array[i] {
                Some(kv) => r.push(kv),
                None => {},
            }
            i = i + 1;
        }
        assert(self.array@.take(self.array@.len() as int) =~= self.array@);
        r
    }

    /// The slot of `key`: its hash modulo the number of slots.
    fn slot_of(&self, key: &K) -> (r: usize)
        requires
            self.well_formed(),
        ensures
            r as int == slot_index::<K>(key@, self.array@.len() as int),
            r < self.array@.len(),
    {
        let hash = key.key_hash();
        (hash % (self.array.len() as u64)) as usize
    }
}

/// A sequence of `n` empty slots.
fn empty_slots<K, V>(n: usize) -> (r: Vec<Option<KeyValue<K, V>>>)
    ensures
        r@.len() == n,
        forall|i: int| 0 <= i < n ==> r@[i] is None,
{
    let mut v: Vec<Option<KeyValue<K, V>>> = Vec::with_capacity(n);
    let mut i: usize = 0;
    while i < n
        invariant
            i <= n,
            v@.len() == i,
            forall|j: int| 0 <= j < i ==> v@[j] is None,
        decreases n - i,
    {
        v.push(None);
        i = i + 1;
    }
    v
}

} // verus!
