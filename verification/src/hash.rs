//! A small fixed-capacity table of target identifiers with linear probing.

use vstd::prelude::*;

verus! {

/// Why a key could not be added.
#[derive(Clone, Copy, Debug, PartialEq, Eq, Structural)]
pub enum HashError {
    /// Every slot is taken.
    Full,
}

impl HashError {
    /// The error in words.
    pub fn message(&self) -> (m: &'static str)
        ensures
            m@ == "hash full"@,
    {
        "hash full"
    }
}

/// The slot that is probed in step `k` of a search that begins at `start`: the
/// slots are visited one after the other, and after the last comes the first.
pub open spec fn probe(start: int, k: int, capacity: int) -> int {
    if start + k < capacity {
        start + k
    } else {
        start + k - capacity
    }
}

/// Step `k` is the first step of the search from `start` that finds a free slot.
/// A slot is free while its key is 0.
pub open spec fn is_first_free(keys: Seq<usize>, start: int, k: int) -> bool {
    &&& 0 <= k < keys.len()
    &&& keys[probe(start, k, keys.len() as int)] == 0
    &&& forall|j: int| 0 <= j < k ==> #[trigger] keys[probe(start, j, keys.len() as int)] != 0
}

/// No slot is free.
pub open spec fn is_full(keys: Seq<usize>) -> bool {
    forall|i: int| 0 <= i < keys.len() ==> keys[i] != 0
}

/// What a table holds, slot by slot.
pub struct HashView {
    /// The key of each slot.
    pub keys: Seq<usize>,
    /// The score bits of each slot.
    pub values: Seq<u32>,
}

/// A very simple hash set that uses linear probing to handle collisions. Every
/// slot has a key and, beside it, room for the bits of a score. The key 0 marks a
/// free slot, so the keys that are added should be greater than 0.
#[derive(Debug)]
pub struct Hash {
    key: Vec<usize>,
    value: Vec<u32>,
    capacity: usize,
}

impl Clone for Hash {
    fn clone(&self) -> (copy: Self)
        ensures
            copy@ == self@,
    {
        proof {
            use_type_invariant(self);
        }
        let key = self.key.clone();
        let value = self.value.clone();
        assert(key@ =~= self.key@);
        assert(value@ =~= self.value@);
        Hash { key, value, capacity: self.capacity }
    }
}

impl Hash {
    #[verifier::type_invariant]
    spec fn well_formed(self) -> bool {
        self.key.len() == self.capacity && self.value.len() == self.capacity
    }

    /// The keys and the score bits, slot by slot.
    pub closed spec fn view(&self) -> HashView {
        HashView { keys: self.key@, values: self.value@ }
    }

    /// A table of `capacity` free slots, each with the bits of the score zero.
    pub fn new(capacity: usize) -> (hash: Hash)
        ensures
            hash@.keys == Seq::new(capacity as nat, |i: int| 0usize),
            hash@.values == Seq::new(capacity as nat, |i: int| 0u32),
    {
        let key: Vec<usize> = vec![0; capacity];
        let value: Vec<u32> = vec![0; capacity];
        assert(key@ =~= Seq::new(capacity as nat, |i: int| 0usize));
        assert(value@ =~= Seq::new(capacity as nat, |i: int| 0u32));
        Hash { key, value, capacity }
    }

    /// The number of slots.
    pub fn capacity(&self) -> (n: usize)
        ensures
            n == self@.keys.len(),
            n == self@.values.len(),
    {
        proof {
            use_type_invariant(self);
        }
        self.capacity
    }

    /// The keys, slot by slot.
    pub fn keys(&self) -> (keys: &Vec<usize>)
        ensures
            keys@ == self@.keys,
    {
        &self.key
    }

    /// The score bits, slot by slot.
    pub fn values(&self) -> (values: &Vec<u32>)
        ensures
            values@ == self@.values,
    {
        &self.value
    }

    /// Adds `target` to the set and gives the slot that holds it.
    ///
    /// The search begins at slot `target % capacity`. Where that slot holds
    /// `target` already, nothing changes. Otherwise `target` is written to the
    /// first free slot that the search finds, and where there is none the table is
    /// full.
    pub fn add(&mut self, target: usize) -> (r: Result<usize, HashError>)
        requires
            old(self)@.keys.len() > 0,
        ensures
            final(self)@.values == old(self)@.values,
            final(self)@.keys.len() == old(self)@.keys.len(),
            ({
                let keys = old(self)@.keys;
                let start = target as int % keys.len() as int;
                if keys[start] == target {
                    r == Ok::<usize, HashError>(start as usize) && final(self)@.keys == keys
                } else if is_full(keys) {
                    r == Err::<usize, HashError>(HashError::Full) && final(self)@.keys == keys
                } else {
                    r matches Ok(slot) && exists|k: int| #[trigger]
                        is_first_free(keys, start, k) && slot == probe(
                            start,
                            k,
                            keys.len() as int,
                        ) && final(self)@.keys == keys.update(slot as int, target)
                }
            }),
    {
        proof {
            use_type_invariant(&*self);
        }
        let start = target % self.capacity;
        if self.key[start] == target {
            return Ok(start);
        }
        let ghost keys = self.key@;
        let ghost capacity = self.capacity as int;
        let mut probed = start;
        let ghost mut k: int = 0;
        // Find the next empty slot (this is the linear probing bit).
        loop
            invariant
                capacity == self.capacity,
                keys == self.key@,
                keys == old(self)@.keys,
                keys.len() == capacity,
                self.value@ == old(self)@.values,
                self.value.len() == capacity,
                0 <= start < capacity,
                start == target as int % capacity,
                keys[start as int] != target,
                0 <= k < capacity,
                probed == probe(start as int, k, capacity),
                forall|j: int| 0 <= j < k ==> #[trigger] keys[probe(start as int, j, capacity)] != 0,
            decreases capacity - k,
        {
            if self.key[probed] == 0 {
                let mut taken = Hash { key: Vec::new(), value: Vec::new(), capacity: 0 };
                core::mem::swap(self, &mut taken);
                let mut key = taken.key;
                key.set(probed, target);
                *self = Hash { key, value: taken.value, capacity: taken.capacity };
                proof {
                    assert(is_first_free(keys, start as int, k));
                    assert(!is_full(keys));
                }
                return Ok(probed);
            }
            probed += 1;
            // We've reached the end of the hash, so go back to the beginning
            if probed >= self.capacity {
                probed = 0;
            }
            proof {
                k = k + 1;
            }
            // We've wrapped around to the start w/o finding a slot
            if probed == start {
                proof {
                    assert(k == capacity);
                    assert forall|i: int| 0 <= i < keys.len() implies keys[i] != 0 by {
                        let j = if i >= start { i - start } else { i + capacity - start };
                        assert(probe(start as int, j, capacity) == i);
                    }
                }
                return Err(HashError::Full);
            }
        }
    }
}

} // verus!
