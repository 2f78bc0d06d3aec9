//! A bijective key-to-atom interner: keys are exchanged once for small dense
//! integer handles ("atoms"), and the atoms then index the associated values
//! directly, skipping any further key hashing or comparison.

pub mod slot_store;

use std::collections::HashMap;
use std::collections::hash_map::RandomState;
use std::hash::{BuildHasher, Hash};

use vstd::prelude::*;
use vstd::std_specs::hash::{builds_valid_hashers, obeys_key_model};

use crate::slot_store::SlotStore;

verus! {

/// The standard hash-map model: keys hash deterministically and agree with
/// `==`, and the builder hands out consistent hashers. Primitive key types and
/// `RandomState` satisfy it by vstd's axioms.
pub open spec fn valid_hashing<K, S>() -> bool {
    obeys_key_model::<K>() && builds_valid_hashers::<S>()
}

/// Relies on std's `HashMap::with_hasher`: it creates an empty map that uses
/// the given hash builder.
#[verifier::external_body]
fn hash_map_with_hasher<K, V, S>(hash_builder: S) -> (result: HashMap<K, V, S>)
    ensures
        result@.dom() == Set::<K>::empty(),
{
    HashMap::with_hasher(hash_builder)
}

/// A map from keys to values in which every present key also carries a dense
/// integer handle, its "atom": keys and occupied slots stay in one-to-one
/// correspondence, and an atom indexes its value in constant time.
#[derive(Debug)]
#[verifier::reject_recursive_types(K)]
#[verifier::reject_recursive_types(S)]
pub struct AtomizedHashMap<K, T, S = RandomState> {
    values: SlotStore<T>,
    atomizer: HashMap<K, usize, S>,
}

/// What `insert_replace` did: either the key was fresh and was atomized, or it
/// was already present and only its value was overwritten. Both variants carry
/// the key's atom.
pub enum InsertReplaceResult {
    Inserted(usize),
    Replaced(usize),
}

impl InsertReplaceResult {
    /// The atom carried by either variant.
    pub open spec fn spec_atom(self) -> usize {
        match self {
            InsertReplaceResult::Inserted(atom) => atom,
            InsertReplaceResult::Replaced(atom) => atom,
        }
    }

    /// Extracts the atom, whichever of the two cases occurred.
    pub fn atom(self) -> (result: usize)
        ensures
            result == self.spec_atom(),
    {
        match self {
            InsertReplaceResult::Inserted(atom) => atom,
            InsertReplaceResult::Replaced(atom) => atom,
        }
    }
}

impl<K, T, S> AtomizedHashMap<K, T, S> {
    /// The current key-to-atom assignment.
    pub closed spec fn atom_map(self) -> Map<K, usize> {
        self.atomizer@
    }

    /// The slot store's contents: `Some` where occupied, `None` where free.
    pub closed spec fn slots(self) -> Seq<Option<T>> {
        self.values.slots()
    }

    /// The smallest atom never yet issued; storage grows only past this mark.
    pub open spec fn high_water(self) -> nat {
        self.slots().len()
    }

    /// The value stored under `atom`: `None` for a freed, never-issued or
    /// out-of-range atom.
    pub open spec fn slot(self, atom: int) -> Option<T> {
        if 0 <= atom < self.slots().len() {
            self.slots()[atom]
        } else {
            None
        }
    }

    pub open spec fn occupied(self, atom: int) -> bool {
        self.slot(atom) is Some
    }

    /// The set of atoms currently assigned to keys.
    pub open spec fn occupied_atoms(self) -> Set<int> {
        Set::new(|atom: int| self.occupied(atom))
    }

    /// The number of atomized keys, which `len` returns.
    pub closed spec fn spec_len(self) -> nat {
        self.values.spec_len()
    }

    pub open spec fn contains_key(self, key: K) -> bool {
        self.atom_map().contains_key(key)
    }

    /// The invariant every operation preserves: the key-to-atom assignment is
    /// a bijection between the present keys and the occupied slots.
    pub closed spec fn wf(self) -> bool {
        &&& self.values.wf()
        &&& self.atomizer@.dom().finite()
        &&& self.atomizer@.dom().len() == self.values.spec_len()
        &&& forall|k: K| #[trigger]
            self.atomizer@.contains_key(k) ==> self.values.occupied(self.atomizer@[k] as int)
        &&& forall|k1: K, k2: K|
            #![trigger self.atomizer@[k1], self.atomizer@[k2]]
            self.atomizer@.contains_key(k1) && self.atomizer@.contains_key(k2)
                && self.atomizer@[k1] == self.atomizer@[k2] ==> k1 == k2
        &&& forall|atom: int| #[trigger]
            self.values.occupied(atom) ==> exists|k: K| #[trigger]
                self.atomizer@.contains_key(k) && self.atomizer@[k] == atom
    }

    /// A fresh key was atomized: `key` now maps to `atom`, a slot that was
    /// empty and now holds `value`; nothing else changed, and the slot lies
    /// below the old high-water mark whenever a freed slot was available.
    pub open spec fn inserted_new(pre: Self, post: Self, key: K, value: T, atom: usize) -> bool {
        &&& !pre.contains_key(key)
        &&& pre.slot(atom as int) is None
        &&& post.atom_map() == pre.atom_map().insert(key, atom)
        &&& post.slots() == (if atom < pre.high_water() {
            pre.slots().update(atom as int, Some(value))
        } else {
            pre.slots().push(Some(value))
        })
        &&& if pre.spec_len() < pre.high_water() {
            atom < pre.high_water() && post.high_water() == pre.high_water()
        } else {
            atom == pre.high_water() && post.high_water() == pre.high_water() + 1
        }
        &&& post.spec_len() == pre.spec_len() + 1
    }

    /// An atomized key's value was overwritten in place: same key, same atom,
    /// new value; nothing else changed.
    pub open spec fn replaced_value(pre: Self, post: Self, key: K, value: T, atom: usize) -> bool {
        &&& pre.contains_key(key)
        &&& atom == pre.atom_map()[key]
        &&& post.atom_map() == pre.atom_map()
        &&& post.slots() == pre.slots().update(atom as int, Some(value))
        &&& post.spec_len() == pre.spec_len()
    }

    /// A key was removed: its mapping is gone, its slot is empty again, and
    /// nothing else changed.
    pub open spec fn removed_key(pre: Self, post: Self, key: K, value: T) -> bool {
        &&& pre.contains_key(key)
        &&& pre.slot(pre.atom_map()[key] as int) == Some(value)
        &&& post.atom_map() == pre.atom_map().remove(key)
        &&& post.slots() == pre.slots().update(pre.atom_map()[key] as int, None)
        &&& post.spec_len() + 1 == pre.spec_len()
    }

    /// Nothing observable changed.
    pub open spec fn unchanged(pre: Self, post: Self) -> bool {
        &&& post.atom_map() == pre.atom_map()
        &&& post.slots() == pre.slots()
        &&& post.spec_len() == pre.spec_len()
    }

    /// Bijection invariant: `len()` equals the number of atomized keys and
    /// the number of occupied slots alike.
    pub proof fn lemma_len_is_bijection_size(self)
        requires
            self.wf(),
        ensures
            self.spec_len() == self.atom_map().dom().len(),
            self.occupied_atoms().finite(),
            self.spec_len() == self.occupied_atoms().len(),
    {
        self.values.lemma_len_is_occupied_count();
        assert(self.occupied_atoms() =~= self.values.occupied_atoms());
    }

    /// Never more keys than slots ever allocated: `len()` stays at or below
    /// the high-water mark.
    pub proof fn lemma_len_le_high_water(self)
        requires
            self.wf(),
        ensures
            self.spec_len() <= self.high_water(),
    {
        self.values.lemma_len_le_high_water();
    }

    /// Round-trip: after a fresh insert of `key` with `value` was given
    /// `atom`, the key atomizes to `atom` and the atom resolves to `value`.
    pub proof fn lemma_insert_round_trip(pre: Self, post: Self, key: K, value: T, atom: usize)
        requires
            Self::inserted_new(pre, post, key, value, atom),
        ensures
            post.contains_key(key),
            post.atom_map()[key] == atom,
            post.slot(atom as int) == Some(value),
    {
    }

    /// Conflict preserves state: once `key` was atomized to `atom` holding
    /// `value`, an operation bound to change nothing — as a conflicting
    /// `insert` is — leaves the key on that atom and the value in place.
    pub proof fn lemma_conflict_preserves_state(
        pre: Self,
        mid: Self,
        post: Self,
        key: K,
        value: T,
        atom: usize,
    )
        requires
            Self::inserted_new(pre, mid, key, value, atom),
            Self::unchanged(mid, post),
        ensures
            post.contains_key(key),
            post.atom_map()[key] == atom,
            post.slot(atom as int) == Some(value),
    {
        Self::lemma_insert_round_trip(pre, mid, key, value, atom);
    }

    /// Replace overwrites: replacing the value of a key atomized to `atom`
    /// reports that same atom and leaves the new value in its slot.
    pub proof fn lemma_replace_overwrites(
        pre: Self,
        mid: Self,
        post: Self,
        key: K,
        first: T,
        second: T,
        atom: usize,
        replaced_atom: usize,
    )
        requires
            Self::inserted_new(pre, mid, key, first, atom),
            Self::replaced_value(mid, post, key, second, replaced_atom),
        ensures
            replaced_atom == atom,
            post.contains_key(key),
            post.atom_map()[key] == atom,
            post.slot(atom as int) == Some(second),
    {
    }

    /// Removal invalidates by key and by atom: after removing `key`, the key
    /// no longer atomizes and its former atom's slot is empty, while the
    /// removed value is exactly what that slot held.
    pub proof fn lemma_remove_invalidates(pre: Self, post: Self, key: K, value: T)
        requires
            Self::removed_key(pre, post, key, value),
        ensures
            !post.contains_key(key),
            post.slot(pre.atom_map()[key] as int) is None,
            pre.slot(pre.atom_map()[key] as int) == Some(value),
    {
    }

    /// Slot reuse before growth: while a freed slot exists — fewer keys than
    /// the high-water mark — a fresh insert reuses one instead of growing, so
    /// repeated insertion into freed slots never moves the mark.
    pub proof fn lemma_reuse_before_growth(pre: Self, post: Self, key: K, value: T, atom: usize)
        requires
            Self::inserted_new(pre, post, key, value, atom),
            pre.spec_len() < pre.high_water(),
        ensures
            atom < pre.high_water(),
            post.high_water() == pre.high_water(),
    {
    }

    /// Slot reuse at any length: a run of fresh inserts that fits into the
    /// freed capacity — as inserting N keys after removing N does — never
    /// moves the high-water mark, and every atom it hands out lies below it.
    pub proof fn lemma_refill_stays_below_high_water(
        states: Seq<Self>,
        keys: Seq<K>,
        values: Seq<T>,
        atoms: Seq<usize>,
    )
        requires
            states.len() == keys.len() + 1,
            values.len() == keys.len(),
            atoms.len() == keys.len(),
            forall|i: int|
                0 <= i < keys.len() ==> Self::inserted_new(
                    states[i],
                    states[i + 1],
                    keys[i],
                    values[i],
                    #[trigger] atoms[i],
                ),
            states[0].spec_len() + keys.len() <= states[0].high_water(),
        ensures
            states.last().high_water() == states[0].high_water(),
            forall|i: int| 0 <= i < atoms.len() ==> (#[trigger] atoms[i]) < states[0].high_water(),
        decreases keys.len(),
    {
        if keys.len() > 0 {
            Self::lemma_reuse_before_growth(states[0], states[1], keys[0], values[0], atoms[0]);
            let rest_states = states.subrange(1, states.len() as int);
            let rest_keys = keys.subrange(1, keys.len() as int);
            let rest_values = values.subrange(1, values.len() as int);
            let rest_atoms = atoms.subrange(1, atoms.len() as int);
            assert(forall|i: int|
                0 <= i < rest_keys.len() ==> Self::inserted_new(
                    rest_states[i],
                    rest_states[i + 1],
                    rest_keys[i],
                    rest_values[i],
                    #[trigger] rest_atoms[i],
                ));
            Self::lemma_refill_stays_below_high_water(
                rest_states,
                rest_keys,
                rest_values,
                rest_atoms,
            );
            assert(forall|i: int|
                1 <= i < atoms.len() ==> (#[trigger] atoms[i]) == rest_atoms[i - 1]);
        }
    }

    /// Distinct keys never share an atom.
    pub proof fn lemma_atoms_unique(self, key1: K, key2: K)
        requires
            self.wf(),
            self.contains_key(key1),
            self.contains_key(key2),
            key1 != key2,
        ensures
            self.atom_map()[key1] != self.atom_map()[key2],
    {
    }

    /// Every atomized key's atom addresses an occupied slot below the
    /// high-water mark: no atom held by a key is simultaneously free.
    pub proof fn lemma_key_atom_occupied(self, key: K)
        requires
            self.wf(),
            self.contains_key(key),
        ensures
            self.occupied(self.atom_map()[key] as int),
            self.atom_map()[key] < self.high_water(),
    {
    }
}

impl<K, T> AtomizedHashMap<K, T, RandomState> {
    /// An empty map with the default hashing strategy.
    pub fn new() -> (result: Self)
        ensures
            result.wf(),
            result.atom_map() == Map::<K, usize>::empty(),
            result.slots() == Seq::<Option<T>>::empty(),
            result.spec_len() == 0,
    {
        Self::default()
    }
}

impl<K: Eq + Hash, T, S: BuildHasher> AtomizedHashMap<K, T, S> {
    /// An empty map with a caller-supplied hashing strategy.
    pub fn with_hasher(hash_builder: S) -> (result: Self)
        ensures
            result.wf(),
            result.atom_map() == Map::<K, usize>::empty(),
            result.slots() == Seq::<Option<T>>::empty(),
            result.spec_len() == 0,
    {
        let atomizer = hash_map_with_hasher(hash_builder);
        let result = AtomizedHashMap { values: SlotStore::new(), atomizer };
        proof {
            assert(result.atomizer@ =~= Map::<K, usize>::empty());
        }
        result
    }

    /// Atomizes a fresh key, storing `value` under the new atom; a key already
    /// present is left untouched and signalled as `Err` carrying its atom.
    pub fn insert(&mut self, non_atomized_key: K, value: T) -> (result: Result<usize, usize>)
        requires
            old(self).wf(),
            valid_hashing::<K, S>(),
        ensures
            final(self).wf(),
            match result {
                Ok(atom) => Self::inserted_new(
                    *old(self),
                    *final(self),
                    non_atomized_key,
                    value,
                    atom,
                ),
                Err(atom) => old(self).contains_key(non_atomized_key)
                    && atom == old(self).atom_map()[non_atomized_key]
                    && Self::unchanged(*old(self), *final(self)),
            },
    {
        match self.atomize_key(&non_atomized_key) {
            Some(previously_inserted) => Err(previously_inserted),
            None => {
                let atom = self.values.allocate(value);
                self.atomizer.insert(non_atomized_key, atom);
                proof {
                    self.lemma_wf_after_insert(*old(self), non_atomized_key, atom);
                }
                Ok(atom)
            }
        }
    }

    /// Atomizes a fresh key like `insert`, but overwrites the value of a key
    /// already present; the result tells which happened and carries the atom.
    pub fn insert_replace(&mut self, non_atomized_key: K, value: T) -> (result: InsertReplaceResult)
        requires
            old(self).wf(),
            valid_hashing::<K, S>(),
        ensures
            final(self).wf(),
            match result {
                InsertReplaceResult::Inserted(atom) => Self::inserted_new(
                    *old(self),
                    *final(self),
                    non_atomized_key,
                    value,
                    atom,
                ),
                InsertReplaceResult::Replaced(atom) => Self::replaced_value(
                    *old(self),
                    *final(self),
                    non_atomized_key,
                    value,
                    atom,
                ),
            },
    {
        match self.atomize_key(&non_atomized_key) {
            Some(atom) => {
                self.values.overwrite(atom, value);
                InsertReplaceResult::Replaced(atom)
            }
            None => {
                let atom = self.values.allocate(value);
                self.atomizer.insert(non_atomized_key, atom);
                proof {
                    self.lemma_wf_after_insert(*old(self), non_atomized_key, atom);
                }
                InsertReplaceResult::Inserted(atom)
            }
        }
    }

    /// Removes an atomized key, frees its slot for reuse and hands the stored
    /// value back; a key never atomized yields `None`.
    pub fn remove(&mut self, non_atomized_key: &K) -> (result: Option<T>)
        requires
            old(self).wf(),
            valid_hashing::<K, S>(),
        ensures
            final(self).wf(),
            match result {
                Some(value) => Self::removed_key(
                    *old(self),
                    *final(self),
                    *non_atomized_key,
                    value,
                ),
                None => !old(self).contains_key(*non_atomized_key) && Self::unchanged(
                    *old(self),
                    *final(self),
                ),
            },
    {
        match self.atomizer.remove(non_atomized_key) {
            Some(atom) => {
                let value = self.values.release(atom);
                proof {
                    self.lemma_wf_after_remove(*old(self), *non_atomized_key, atom);
                }
                Some(value)
            }
            None => {
                proof {
                    assert(self.atomizer@ =~= old(self).atomizer@);
                }
                None
            }
        }
    }

    /// Looks the key's atom up without mutating anything; `None` for a key not
    /// currently atomized.
    pub fn atomize_key(&self, non_atomized_key: &K) -> (result: Option<usize>)
        requires
            valid_hashing::<K, S>(),
        ensures
            result == (if self.atom_map().contains_key(*non_atomized_key) {
                Some(self.atom_map()[*non_atomized_key])
            } else {
                None::<usize>
            }),
    {
        match self.atomizer.get(non_atomized_key) {
            Some(atom) => Some(*atom),
            None => None,
        }
    }

    /// Borrows the value stored under `atom`, bypassing the atomizer entirely;
    /// `None` for any atom not currently assigned, however stale.
    pub fn get(&self, atom: usize) -> (result: Option<&T>)
        ensures
            match result {
                Some(value) => self.slot(atom as int) == Some(*value),
                None => self.slot(atom as int) is None,
            },
    {
        self.values.get(atom)
    }

    /// Mutably borrows the value stored under `atom`; `None` for any atom not
    /// currently assigned. Only the borrowed value can change, never which
    /// keys or atoms are present.
    pub fn get_mut(&mut self, atom: usize) -> (result: Option<&mut T>)
        ensures
            final(self).atom_map() == old(self).atom_map(),
            final(self).spec_len() == old(self).spec_len(),
            final(self).high_water() == old(self).high_water(),
            old(self).wf() ==> final(self).wf(),
            result is None ==> old(self).slot(atom as int) is None
                && final(self).slots() == old(self).slots(),
            result is Some ==> old(self).slot(atom as int) == Some(*result.unwrap())
                && final(self).slots() == old(self).slots().update(
                    atom as int,
                    Some(*final(result.unwrap())),
                ),
    {
        self.values.get_mut(atom)
    }

    /// The number of atomized keys, equal to the number of occupied slots.
    pub fn len(&self) -> (result: usize)
        ensures
            result == self.spec_len(),
    {
        self.values.len()
    }

    pub fn is_empty(&self) -> (result: bool)
        ensures
            result == (self.spec_len() == 0),
    {
        self.values.is_empty()
    }

    proof fn lemma_wf_after_insert(self, pre: Self, key: K, atom: usize)
        requires
            pre.wf(),
            !pre.contains_key(key),
            !pre.values.occupied(atom as int),
            self.atomizer@ == pre.atomizer@.insert(key, atom),
            self.values.wf(),
            self.values.spec_len() == pre.values.spec_len() + 1,
            self.values.slot(atom as int) is Some,
            forall|a: int| a != atom ==> self.values.slot(a) == pre.values.slot(a),
        ensures
            self.wf(),
    {
        broadcast use vstd::set::axiom_set_insert_len;

        assert(self.atomizer@.dom() =~= pre.atomizer@.dom().insert(key));
        assert forall|k: K| #[trigger]
            self.atomizer@.contains_key(k) implies self.values.occupied(
            self.atomizer@[k] as int,
        ) by {
            if k != key {
                assert(pre.atomizer@.contains_key(k));
                assert(pre.values.occupied(pre.atomizer@[k] as int));
            }
        }
        assert forall|k1: K, k2: K|
            #![trigger self.atomizer@[k1], self.atomizer@[k2]]
            self.atomizer@.contains_key(k1) && self.atomizer@.contains_key(k2)
                && self.atomizer@[k1] == self.atomizer@[k2] implies k1 == k2 by {
            if k1 != key && k2 != key {
                assert(pre.atomizer@.contains_key(k1) && pre.atomizer@.contains_key(k2));
            } else if k1 == key && k2 != key {
                assert(pre.values.occupied(pre.atomizer@[k2] as int));
            } else if k1 != key && k2 == key {
                assert(pre.values.occupied(pre.atomizer@[k1] as int));
            }
        }
        assert forall|a: int| #[trigger] self.values.occupied(a) implies exists|k: K| #[trigger]
            self.atomizer@.contains_key(k) && self.atomizer@[k] == a by {
            if a == atom {
                assert(self.atomizer@.contains_key(key) && self.atomizer@[key] == a);
            } else {
                assert(pre.values.occupied(a));
                let k = choose|k: K| #[trigger]
                    pre.atomizer@.contains_key(k) && pre.atomizer@[k] == a;
                assert(self.atomizer@.contains_key(k) && self.atomizer@[k] == a);
            }
        }
    }

    proof fn lemma_wf_after_remove(self, pre: Self, key: K, atom: usize)
        requires
            pre.wf(),
            pre.contains_key(key),
            atom == pre.atomizer@[key],
            self.atomizer@ == pre.atomizer@.remove(key),
            self.values.wf(),
            self.values.spec_len() + 1 == pre.values.spec_len(),
            self.values.slot(atom as int) is None,
            forall|a: int| a != atom ==> self.values.slot(a) == pre.values.slot(a),
        ensures
            self.wf(),
    {
        broadcast use vstd::set::axiom_set_remove_len;

        assert(self.atomizer@.dom() =~= pre.atomizer@.dom().remove(key));
        assert forall|k: K| #[trigger]
            self.atomizer@.contains_key(k) implies self.values.occupied(
            self.atomizer@[k] as int,
        ) by {
            assert(pre.atomizer@.contains_key(k));
            assert(pre.values.occupied(pre.atomizer@[k] as int));
            assert(pre.atomizer@[k] != atom);
        }
        assert forall|a: int| #[trigger] self.values.occupied(a) implies exists|k: K| #[trigger]
            self.atomizer@.contains_key(k) && self.atomizer@[k] == a by {
            assert(a != atom);
            assert(pre.values.occupied(a));
            let k = choose|k: K| #[trigger] pre.atomizer@.contains_key(k) && pre.atomizer@[k] == a;
            assert(k != key);
            assert(self.atomizer@.contains_key(k) && self.atomizer@[k] == a);
        }
    }
}

impl<K, T, S: Default> Default for AtomizedHashMap<K, T, S> {
    /// An empty map with the default hashing strategy.
    fn default() -> (result: Self)
        ensures
            result.wf(),
            result.atom_map() == Map::<K, usize>::empty(),
            result.slots() == Seq::<Option<T>>::empty(),
            result.spec_len() == 0,
    {
        AtomizedHashMap { values: SlotStore::new(), atomizer: HashMap::default() }
    }
}

} // verus!
