//! Properties of sequences of operations, stated over the view that the
//! operations' own contracts speak of.
use crate::key::HashKey;
use crate::chain::chain_keys;
use crate::table::{slot_index, HashMap};
use vstd::prelude::*;

verus! {

/// Once `v` has been inserted under `k`, looking `k` up finds `v`.
pub proof fn law_insert_then_get<K: HashKey, V>(
    before: HashMap<K, V>,
    after: HashMap<K, V>,
    k: K::V,
    v: V,
)
    requires
        after@ == before@.insert(k, v),
    ensures
        after@.contains_key(k),
        after@[k] == v,
{
}

/// Inserting `v1` and then `v2` under the same key: the second insertion
/// hands back `v1`, leaves the count as it was, and `k` then maps to `v2`.
pub proof fn law_insert_twice<K: HashKey, V>(
    m0: HashMap<K, V>,
    m1: HashMap<K, V>,
    m2: HashMap<K, V>,
    k: K::V,
    v1: V,
    v2: V,
)
    requires
        m1@ == m0@.insert(k, v1),
        m2@ == m1@.insert(k, v2),
    ensures
        m1@.contains_key(k),
        m1@[k] == v1,
        m2@.len() == m1@.len(),
        m2@[k] == v2,
        m2@ == m0@.insert(k, v2),
{
    assert(m2@ =~= m0@.insert(k, v2));
    assert(m2@.dom() =~= m1@.dom());
}

/// Removing a present key: the key is gone, the count drops by one, and
/// every other key keeps its value.
pub proof fn law_remove_present<K: HashKey, V>(
    before: HashMap<K, V>,
    after: HashMap<K, V>,
    k: K::V,
)
    requires
        before.well_formed(),
        before@.contains_key(k),
        after@ == before@.remove(k),
    ensures
        !after@.contains_key(k),
        after@.len() + 1 == before@.len(),
        forall|j: K::V|
            j != k && #[trigger] before@.contains_key(j) ==> after@.contains_key(j) && after@[j]
                == before@[j],
{
    before.lemma_len();
}

/// Removing an absent key changes neither the entries nor the count.
pub proof fn law_remove_absent<K: HashKey, V>(
    before: HashMap<K, V>,
    after: HashMap<K, V>,
    k: K::V,
)
    requires
        !before@.contains_key(k),
        after@ == before@.remove(k),
    ensures
        after@ == before@,
        after@.len() == before@.len(),
{
    assert(after@ =~= before@);
}

/// Two distinct keys that share a slot: after both are inserted each is
/// found with its own value, and removing either leaves the other in place.
pub proof fn law_collision<K: HashKey, V>(
    m0: HashMap<K, V>,
    m1: HashMap<K, V>,
    m2: HashMap<K, V>,
    without1: HashMap<K, V>,
    without2: HashMap<K, V>,
    k1: K::V,
    k2: K::V,
    v1: V,
    v2: V,
)
    requires
        k1 != k2,
        slot_index::<K>(k1, m0.capacity() as int) == slot_index::<K>(k2, m0.capacity() as int),
        m1@ == m0@.insert(k1, v1),
        m2@ == m1@.insert(k2, v2),
        without1@ == m2@.remove(k1),
        without2@ == m2@.remove(k2),
    ensures
        m2@.contains_key(k1) && m2@[k1] == v1,
        m2@.contains_key(k2) && m2@[k2] == v2,
        !without1@.contains_key(k1),
        without1@.contains_key(k2) && without1@[k2] == v2,
        !without2@.contains_key(k2),
        without2@.contains_key(k1) && without2@[k1] == v1,
{
}

/// Two new keys that share a slot are appended to its chain in the order of
/// their insertion, behind the keys that were already there.
pub proof fn law_collision_order<K: HashKey, V>(
    m0: HashMap<K, V>,
    m1: HashMap<K, V>,
    m2: HashMap<K, V>,
    k1: K::V,
    k2: K::V,
    v1: V,
)
    requires
        k1 != k2,
        m1.capacity() == m0.capacity(),
        slot_index::<K>(k1, m0.capacity() as int) == slot_index::<K>(k2, m0.capacity() as int),
        !m0@.contains_key(k1),
        !m0@.contains_key(k2),
        m1@ == m0@.insert(k1, v1),
        chain_keys(m1.slots()[slot_index::<K>(k1, m0.capacity() as int)]) == chain_keys(
            m0.slots()[slot_index::<K>(k1, m0.capacity() as int)],
        ).push(k1),
        chain_keys(m2.slots()[slot_index::<K>(k2, m1.capacity() as int)]) == (if m1@.contains_key(k2) {
            chain_keys(m1.slots()[slot_index::<K>(k2, m1.capacity() as int)])
        } else {
            chain_keys(m1.slots()[slot_index::<K>(k2, m1.capacity() as int)]).push(k2)
        }),
    ensures
        chain_keys(m2.slots()[slot_index::<K>(k1, m0.capacity() as int)]) == chain_keys(
            m0.slots()[slot_index::<K>(k1, m0.capacity() as int)],
        ) + seq![k1, k2],
{
    let s = slot_index::<K>(k1, m0.capacity() as int);
    assert(!m1@.contains_key(k2));
    assert(chain_keys(m2.slots()[s]) =~= chain_keys(m0.slots()[s]) + seq![k1, k2]);
}

/// After clearing, no key is found and the count is zero.
pub proof fn law_clear<K: HashKey, V>(before: HashMap<K, V>, after: HashMap<K, V>)
    requires
        after@ == Map::<K::V, V>::empty(),
    ensures
        forall|k: K::V| #[trigger] before@.contains_key(k) ==> !after@.contains_key(k),
        after@.len() == 0,
{
}

} // verus!
