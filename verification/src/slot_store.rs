use vstd::prelude::*;

verus! {

/// A dense, reusable slot allocator.
///
/// Values are stored under small integer handles ("atoms"). A freed handle is
/// remembered on a free list and handed out again before the storage grows, so
/// the high-water mark — the smallest atom never yet allocated — only moves
/// when no freed slot is available.
#[derive(Debug)]
pub struct SlotStore<T> {
    entries: Vec<Option<T>>,
    free: Vec<usize>,
    count: usize,
}

impl<T> SlotStore<T> {
    /// All slots up to the high-water mark: `Some` where occupied, `None` where free.
    pub closed spec fn slots(self) -> Seq<Option<T>> {
        self.entries@
    }

    /// The smallest atom never yet allocated; storage grows only past this mark.
    pub open spec fn high_water(self) -> nat {
        self.slots().len()
    }

    /// What is stored under `atom`: `None` for a freed, never-allocated or
    /// out-of-range atom.
    pub open spec fn slot(self, atom: int) -> Option<T> {
        if 0 <= atom < self.slots().len() {
            self.slots()[atom]
        } else {
            None
        }
    }

    pub open spec fn occupied(self, atom: int) -> bool {
        self.slot(atom) is Some
    }

    /// The set of currently occupied atoms.
    pub open spec fn occupied_atoms(self) -> Set<int> {
        Set::new(|atom: int| self.occupied(atom))
    }

    /// The number of occupied slots, which `len` returns.
    pub closed spec fn spec_len(self) -> nat {
        self.count as nat
    }

    /// Internal consistency: the free list holds exactly the unoccupied slots
    /// below the high-water mark, each once, and `count` counts the rest.
    pub closed spec fn wf(self) -> bool {
        &&& self.count + self.free@.len() == self.entries@.len()
        &&& forall|i: int|
            0 <= i < self.free@.len() ==> (#[trigger] self.free@[i]) < self.entries@.len()
                && self.entries@[self.free@[i] as int] is None
        &&& forall|i: int, j: int|
            #![trigger self.free@[i], self.free@[j]]
            0 <= i < j < self.free@.len() ==> self.free@[i] != self.free@[j]
        &&& forall|atom: int|
            0 <= atom < self.entries@.len() && (#[trigger] self.entries@[atom]) is None
                ==> self.free@.contains(atom as usize)
    }

    pub fn new() -> (result: Self)
        ensures
            result.wf(),
            result.slots() == Seq::<Option<T>>::empty(),
            result.spec_len() == 0,
            result.high_water() == 0,
    {
        SlotStore { entries: Vec::new(), free: Vec::new(), count: 0 }
    }

    /// Stores `value` in a freed slot if one exists, otherwise in a fresh slot
    /// at the high-water mark, and returns the slot's atom.
    pub fn allocate(&mut self, value: T) -> (atom: usize)
        requires
            old(self).wf(),
        ensures
            final(self).wf(),
            old(self).slot(atom as int) is None,
            final(self).slot(atom as int) == Some(value),
            forall|a: int| a != atom ==> final(self).slot(a) == old(self).slot(a),
            final(self).slots() == (if atom < old(self).high_water() {
                old(self).slots().update(atom as int, Some(value))
            } else {
                old(self).slots().push(Some(value))
            }),
            final(self).spec_len() == old(self).spec_len() + 1,
            if old(self).spec_len() < old(self).high_water() {
                atom < old(self).high_water() && final(self).high_water() == old(self).high_water()
            } else {
                atom == old(self).high_water() && final(self).high_water() == old(self).high_water()
                    + 1
            },
    {
        match self.free.pop() {
            Some(atom) => {
                proof {
                    let last: int = old(self).free@.len() - 1;
                    assert(old(self).free@[last] == atom);
                    assert(forall|i: int|
                        0 <= i < last ==> (#[trigger] self.free@[i]) == old(self).free@[i]);
                }
                self.entries[atom] = Some(value);
                proof {
                    vstd::std_specs::vec::axiom_spec_len(&self.entries);
                }
                self.count = self.count + 1;
                proof {
                    assert forall|a: int|
                        0 <= a < self.entries@.len() && (#[trigger] self.entries@[a]) is None
                        implies self.free@.contains(a as usize) by {
                        assert(old(self).entries@[a] is None);
                        let i = choose|i: int|
                            0 <= i < old(self).free@.len() && old(self).free@[i] == a as usize;
                        assert(i < old(self).free@.len() - 1);
                        assert(self.free@[i] == a as usize);
                    }
                    assert(final(self).slots() =~= old(self).slots().update(
                        atom as int,
                        Some(value),
                    ));
                }
                atom
            }
            None => {
                let atom = self.entries.len();
                self.entries.push(Some(value));
                proof {
                    vstd::std_specs::vec::axiom_spec_len(&self.entries);
                }
                self.count = self.count + 1;
                proof {
                    assert forall|a: int|
                        0 <= a < self.entries@.len() && (#[trigger] self.entries@[a]) is None
                        implies self.free@.contains(a as usize) by {
                        assert(a < old(self).entries@.len());
                        assert(old(self).entries@[a] is None);
                    }
                }
                atom
            }
        }
    }

    /// Overwrites the value of an occupied slot in place.
    pub fn overwrite(&mut self, atom: usize, value: T)
        requires
            old(self).wf(),
            old(self).occupied(atom as int),
        ensures
            final(self).wf(),
            final(self).slots() == old(self).slots().update(atom as int, Some(value)),
            forall|a: int| a != atom ==> final(self).slot(a) == old(self).slot(a),
            forall|a: int| final(self).occupied(a) == old(self).occupied(a),
            final(self).slot(atom as int) == Some(value),
            final(self).spec_len() == old(self).spec_len(),
    {
        self.entries[atom] = Some(value);
        proof {
            assert forall|a: int|
                0 <= a < self.entries@.len() && (#[trigger] self.entries@[a]) is None
                implies self.free@.contains(a as usize) by {
                assert(old(self).entries@[a] is None);
            }
        }
    }

    /// Empties the occupied slot `atom`, marks it free for reuse, and returns
    /// its value.
    pub fn release(&mut self, atom: usize) -> (value: T)
        requires
            old(self).wf(),
            old(self).occupied(atom as int),
        ensures
            final(self).wf(),
            old(self).slot(atom as int) == Some(value),
            final(self).slot(atom as int) is None,
            forall|a: int| a != atom ==> final(self).slot(a) == old(self).slot(a),
            final(self).slots() == old(self).slots().update(atom as int, None),
            old(self).spec_len() == final(self).spec_len() + 1,
            final(self).high_water() == old(self).high_water(),
    {
        proof {
            old(self).lemma_len_is_occupied_count();
            assert(old(self).occupied_atoms().contains(atom as int));
            vstd::set::axiom_set_remove_len(old(self).occupied_atoms(), atom as int);
        }
        let taken = self.entries[atom].take();
        self.free.push(atom);
        self.count = self.count - 1;
        proof {
            assert(self.free@ == old(self).free@.push(atom));
            assert forall|i: int|
                0 <= i < self.free@.len() implies (#[trigger] self.free@[i])
                < self.entries@.len() && self.entries@[self.free@[i] as int] is None by {
                if i < self.free@.len() - 1 {
                    assert(self.free@[i] == old(self).free@[i]);
                    assert(old(self).entries@[old(self).free@[i] as int] is None);
                }
            }
            assert forall|i: int, j: int|
                #![trigger self.free@[i], self.free@[j]]
                0 <= i < j < self.free@.len() implies self.free@[i] != self.free@[j] by {
                if j == self.free@.len() - 1 {
                    assert(old(self).entries@[old(self).free@[i] as int] is None);
                }
            }
            assert forall|a: int|
                0 <= a < self.entries@.len() && (#[trigger] self.entries@[a]) is None
                implies self.free@.contains(a as usize) by {
                if a == atom {
                    assert(self.free@[self.free@.len() - 1] == atom);
                } else {
                    assert(old(self).entries@[a] is None);
                    let i = choose|i: int|
                        0 <= i < old(self).free@.len() && old(self).free@[i] == a as usize;
                    assert(self.free@[i] == a as usize);
                }
            }
        }
        taken.unwrap()
    }

    /// Borrows the value of an occupied slot; `None` for any other atom.
    pub fn get(&self, atom: usize) -> (result: Option<&T>)
        ensures
            match result {
                Some(value) => self.slot(atom as int) == Some(*value),
                None => self.slot(atom as int) is None,
            },
    {
        if atom < self.entries.len() {
            match &self.entries[atom] {
                Some(value) => Some(value),
                None => None,
            }
        } else {
            None
        }
    }

    /// Mutably borrows the value of an occupied slot; `None` for any other
    /// atom. Only the borrowed value can change, never which slots are
    /// occupied.
    pub fn get_mut(&mut self, atom: usize) -> (result: Option<&mut T>)
        ensures
            final(self).spec_len() == old(self).spec_len(),
            final(self).high_water() == old(self).high_water(),
            old(self).wf() ==> final(self).wf(),
            forall|a: int| final(self).occupied(a) == old(self).occupied(a),
            result is None ==> old(self).slot(atom as int) is None
                && final(self).slots() == old(self).slots(),
            result is Some ==> old(self).slot(atom as int) == Some(*result.unwrap())
                && final(self).slots() == old(self).slots().update(
                    atom as int,
                    Some(*final(result.unwrap())),
                ),
    {
        if atom < self.entries.len() {
            let present = self.entries[atom].is_some();
            if present {
                self.entries[atom].as_mut()
            } else {
                None
            }
        } else {
            None
        }
    }

    /// The number of occupied slots equals what `len` reports: free and
    /// occupied partition the slots below the high-water mark.
    pub proof fn lemma_len_is_occupied_count(self)
        requires
            self.wf(),
        ensures
            self.occupied_atoms().finite(),
            self.occupied_atoms().len() == self.spec_len(),
    {
        broadcast use vstd::seq_lib::seq_to_set_is_finite;

        vstd::std_specs::vec::axiom_spec_len(&self.entries);
        vstd::std_specs::vec::axiom_spec_len(&self.free);
        let n = self.entries@.len() as int;
        assert(n <= usize::MAX);
        let range = vstd::set_lib::set_int_range(0, n);
        let free_ints = self.free@.map_values(|u: usize| u as int);
        assert(free_ints.no_duplicates()) by {
            assert forall|i: int, j: int|
                0 <= i < free_ints.len() && 0 <= j < free_ints.len() && i != j
                implies free_ints[i] != free_ints[j] by {
                assert(self.free@[i] != self.free@[j]);
            }
        }
        free_ints.unique_seq_to_set();
        let fset = free_ints.to_set();
        vstd::set_lib::lemma_int_range(0, n);
        assert(fset.subset_of(range)) by {
            assert forall|a: int| fset.contains(a) implies range.contains(a) by {
                let i = choose|i: int| 0 <= i < free_ints.len() && free_ints[i] == a;
                assert(self.free@[i] < n);
            }
        }
        vstd::set_lib::lemma_len_subset(fset, range);
        assert(self.occupied_atoms().disjoint(fset)) by {
            assert forall|a: int| fset.contains(a) implies !self.occupied_atoms().contains(a) by {
                let i = choose|i: int| 0 <= i < free_ints.len() && free_ints[i] == a;
                assert(self.entries@[self.free@[i] as int] is None);
            }
        }
        assert(self.occupied_atoms() + fset =~= range) by {
            assert forall|a: int| range.contains(a)
                implies (self.occupied_atoms() + fset).contains(a) by {
                if self.entries@[a] is None {
                    assert(self.free@.contains(a as usize));
                    let i = choose|i: int| 0 <= i < self.free@.len() && self.free@[i] == a as usize;
                    assert(free_ints[i] == a);
                    assert(free_ints.contains(a));
                }
            }
            assert forall|a: int| fset.contains(a) implies range.contains(a) by {
                let i = choose|i: int| 0 <= i < free_ints.len() && free_ints[i] == a;
                assert(self.free@[i] < n);
            }
        }
        vstd::set_lib::lemma_len_subset(self.occupied_atoms(), range);
        vstd::set_lib::lemma_set_disjoint_lens(self.occupied_atoms(), fset);
    }

    /// No more slots are occupied than have ever been allocated.
    pub proof fn lemma_len_le_high_water(self)
        requires
            self.wf(),
        ensures
            self.spec_len() <= self.high_water(),
    {
    }

    pub fn len(&self) -> (result: usize)
        ensures
            result == self.spec_len(),
    {
        self.count
    }

    pub fn is_empty(&self) -> (result: bool)
        ensures
            result == (self.spec_len() == 0),
    {
        self.count == 0
    }
}

} // verus!
