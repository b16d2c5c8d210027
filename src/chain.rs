use crate::key::HashKey;
use vstd::prelude::*;

verus! {

/// One entry of a collision chain: a key, its value, and the rest of the
/// chain, which this entry owns.
#[derive(Debug)]
pub struct KeyValue<K, V> {
    key: K,
    value: V,
    next: Option<Box<KeyValue<K, V>>>,
}

/// The entries of a chain that may be empty.
pub open spec fn chain_entries<K: HashKey, V>(c: Option<KeyValue<K, V>>) -> Map<K::V, V> {
    match c {
        Some(kv) => kv.entries(),
        None => Map::empty(),
    }
}

/// The number of entries of a chain that may be empty.
pub open spec fn chain_count<K: HashKey, V>(c: Option<KeyValue<K, V>>) -> nat {
    match c {
        Some(kv) => kv.chain_len(),
        None => 0,
    }
}

/// The keys of a chain that may be empty, from head to tail.
pub open spec fn chain_keys<K: HashKey, V>(c: Option<KeyValue<K, V>>) -> Seq<K::V> {
    match c {
        Some(kv) => kv.keys(),
        None => Seq::empty(),
    }
}

/// A chain that may be empty holds no key twice.
pub open spec fn chain_distinct<K: HashKey, V>(c: Option<KeyValue<K, V>>) -> bool {
    match c {
        Some(kv) => kv.distinct(),
        None => true,
    }
}

impl<K: HashKey, V> KeyValue<K, V> {
    /// The key of this entry, as seen by contracts.
    pub closed spec fn key_view(self) -> K::V {
        self.key@
    }

    /// The entries of the chain that starts here, keyed by key view. Where a
    /// key occurred twice the earlier entry would win; `distinct` rules that out.
    pub closed spec fn entries(self) -> Map<K::V, V>
        decreases self, 1nat,
    {
        self.rest_entries().insert(self.key@, self.value)
    }

    /// The entries of the chain after this entry.
    pub closed spec fn rest_entries(self) -> Map<K::V, V>
        decreases self, 0nat,
    {
        match self.next {
            Some(b) => b.entries(),
            None => Map::empty(),
        }
    }

    /// The number of entries in the chain that starts here.
    pub closed spec fn chain_len(self) -> nat
        decreases self,
    {
        match self.next {
            Some(b) => 1 + b.chain_len(),
            None => 1,
        }
    }

    /// The keys of the chain that starts here, from head to tail.
    pub closed spec fn keys(self) -> Seq<K::V>
        decreases self,
    {
        match self.next {
            Some(b) => seq![self.key@] + b.keys(),
            None => seq![self.key@],
        }
    }

    /// No key occurs twice in the chain that starts here.
    pub closed spec fn distinct(self) -> bool
        decreases self,
    {
        match self.next {
            Some(b) => !b.entries().contains_key(self.key@) && b.distinct(),
            None => true,
        }
    }

    /// A chain without repeated keys has exactly as many keys as entries.
    pub proof fn lemma_chain_len(self)
        requires
            self.distinct(),
        ensures
            self.entries().dom().finite(),
            self.entries().dom().len() == self.chain_len(),
        decreases self,
    {
        match self.next {
            Some(b) => {
                b.lemma_chain_len();
            },
            None => {
                assert(self.rest_entries().dom() =~= Set::<K::V>::empty());
            },
        }
    }

    /// The head's key is among the chain's entries.
    pub proof fn lemma_head_in_entries(self)
        ensures
            self.entries().contains_key(self.key_view()),
    {
    }

    /// A chain of one entry.
    pub fn new(key: K, value: V) -> (r: Self)
        ensures
            r.key_view() == key@,
            r.entries() == Map::<K::V, V>::empty().insert(key@, value),
            r.chain_len() == 1,
            r.keys() == seq![key@],
            r.distinct(),
    {
        KeyValue { key, value, next: None }
    }

    /// Walks the chain that starts here and returns the value of the first
    /// entry whose key equals `key`.
    pub fn find(&self, key: &K) -> (r: Option<&V>)
        ensures
            match r {
                Some(v) => self.entries().contains_key(key@) && *v == self.entries()[key@],
                None => !self.entries().contains_key(key@),
            },
    {
        let mut kv: &KeyValue<K, V> = self;
        loop
            invariant
                self.entries().contains_key(key@) == kv.entries().contains_key(key@),
                self.entries().contains_key(key@) ==> self.entries()[key@] == kv.entries()[key@],
            decreases kv.chain_len(),
        {
            if kv.key.key_eq(key) {
                return Some(&kv.value);
            }
            match &kv.next {
                Some(node) => {
                    kv = node;
                },
                None => {
                    return None;
                },
            }
        }
    }

    /// Walks the chain that starts here: the first entry whose key equals
    /// `key` gets `value` and its old value is returned; where none does, a
    /// new entry is appended at the tail.
    pub fn insert_or_update(&mut self, key: K, value: V) -> (r: Option<V>)
        requires
            old(self).distinct(),
        ensures
            final(self).distinct(),
            final(self).key_view() == old(self).key_view(),
            final(self).entries() == old(self).entries().insert(key@, value),
            r == (if old(self).entries().contains_key(key@) {
                Some(old(self).entries()[key@])
            } else {
                None::<V>
            }),
            final(self).chain_len() == old(self).chain_len() + (if old(self).entries().contains_key(key@) {
                0int
            } else {
                1int
            }),
            final(self).keys() == (if old(self).entries().contains_key(key@) {
                old(self).keys()
            } else {
                old(self).keys().push(key@)
            }),
        decreases old(self).chain_len(),
    {
        if self.key.key_eq(&key) {
            let mut v = value;
            std::mem::swap(&mut self.value, &mut v);
            proof {
                let rest = self.rest_entries();
                assert(self.entries() =~= rest.insert(key@, value));
                assert(old(self).entries().insert(key@, value) =~= rest.insert(key@, value));
            }
            return Some(v);
        }
        let mut rest: Option<Box<KeyValue<K, V>>> = None;
        std::mem::swap(&mut rest, &mut self.next);
        match rest {
            None => {
                self.next = Some(Box::new(KeyValue::new(key, value)));
                assert(self.entries() =~= old(self).entries().insert(key@, value));
                assert(self.keys() =~= old(self).keys().push(key@));
                None
            },
            Some(mut node) => {
                let ghost before = *node;
                let r = node.insert_or_update(key, value);
                self.next = Some(node);
                assert(self.entries() =~= old(self).entries().insert(key@, value));
                assert(old(self).entries().contains_key(key@) == before.entries().contains_key(key@));
                assert(old(self).keys() == seq![self.key@] + before.keys());
                assert(self.keys() == seq![self.key@] + node.keys());
                proof {
                    if !before.entries().contains_key(key@) {
                        assert(self.keys() =~= old(self).keys().push(key@));
                    }
                }
                r
            },
        }
    }

    /// Unlinks from the chain after this entry the first entry whose key
    /// equals `key`, joining its predecessor to its successor, and returns
    /// its value.
    pub fn remove_after(&mut self, key: &K) -> (r: Option<V>)
        requires
            old(self).distinct(),
            key@ != old(self).key_view(),
        ensures
            final(self).distinct(),
            final(self).key_view() == old(self).key_view(),
            final(self).entries() == old(self).entries().remove(key@),
            r == (if old(self).entries().contains_key(key@) {
                Some(old(self).entries()[key@])
            } else {
                None::<V>
            }),
            final(self).chain_len() + (if old(self).entries().contains_key(key@) {
                1int
            } else {
                0int
            }) == old(self).chain_len(),
            old(self).entries().contains_key(key@) ==> exists|i: int|
                0 < i < old(self).keys().len() && old(self).keys()[i] == key@ && final(self).keys()
                    == old(self).keys().remove(i),
            !old(self).entries().contains_key(key@) ==> final(self).keys() == old(self).keys(),
        decreases old(self).chain_len(),
    {
        let mut rest: Option<Box<KeyValue<K, V>>> = None;
        std::mem::swap(&mut rest, &mut self.next);
        match rest {
            None => {
                assert(self.next is None && old(self).next is None);
                assert(self.chain_len() == 1 && old(self).chain_len() == 1);
                assert(!old(self).entries().contains_key(key@));
                assert(self.entries() =~= old(self).entries().remove(key@));
                assert(self.keys() == old(self).keys());
                None
            },
            Some(mut node) => {
                if node.key.key_eq(key) {
                    let ghost n = *node;
                    assert(old(self).next == Some(node));
                    assert(n.distinct());
                    assert(!n.rest_entries().contains_key(key@));
                    let KeyValue { key: _, value, next } = *node;
                    self.next = next;
                    assert(n.chain_len() == self.chain_len());
                    assert(self.entries() =~= old(self).entries().remove(key@));
                    assert(old(self).keys() == seq![self.key@] + n.keys());
                    assert(self.keys() =~= old(self).keys().remove(1));
                    Some(value)
                } else {
                    let ghost before = *node;
                    let r = node.remove_after(key);
                    self.next = Some(node);
                    assert(self.entries() =~= old(self).entries().remove(key@));
                    assert(old(self).entries().contains_key(key@) == before.entries().contains_key(key@));
                    assert(old(self).keys() == seq![self.key@] + before.keys());
                    assert(self.keys() == seq![self.key@] + node.keys());
                    proof {
                        if before.entries().contains_key(key@) {
                            let i = choose|i: int|
                                0 < i < before.keys().len() && before.keys()[i] == key@
                                    && node.keys() == before.keys().remove(i);
                            assert(self.keys() =~= old(self).keys().remove(i + 1));
                        } else {
                            assert(self.keys() =~= old(self).keys());
                        }
                    }
                    r
                }
            },
        }
    }

    /// Removes from the chain that starts here the entry whose key equals
    /// `key`, if any. Returns what is left of the chain (nothing where the
    /// removed entry stood alone) and the removed value.
    pub fn unlink(self, key: &K) -> (r: (Option<Self>, Option<V>))
        requires
            self.distinct(),
        ensures
            chain_distinct(r.0),
            chain_entries(r.0) == self.entries().remove(key@),
            r.1 == (if self.entries().contains_key(key@) {
                Some(self.entries()[key@])
            } else {
                None::<V>
            }),
            chain_count(r.0) + (if self.entries().contains_key(key@) {
                1int
            } else {
                0int
            }) == self.chain_len(),
            self.entries().contains_key(key@) ==> exists|i: int|
                0 <= i < self.keys().len() && self.keys()[i] == key@ && chain_keys(r.0)
                    == self.keys().remove(i),
            !self.entries().contains_key(key@) ==> chain_keys(r.0) == self.keys(),
    {
        if self.key.key_eq(key) {
            let ghost this = self;
            let KeyValue { key: _, value, next } = self;
            let rest = match next {
                Some(node) => Some(*node),
                None => None,
            };
            assert(chain_entries(rest) =~= this.entries().remove(key@));
            assert(chain_keys(rest) =~= this.keys().remove(0));
            (rest, Some(value))
        } else {
            let mut kv = self;
            let r = kv.remove_after(key);
            (Some(kv), r)
        }
    }
}

} // verus!
