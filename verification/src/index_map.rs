//! A map with the key stored as part of the value.

use crate::tzif::LeapSecondRecord;
use vstd::prelude::*;
use vstd::std_specs::cmp::PartialEqSpec;

verus! {

broadcast use vstd::std_specs::vec::axiom_spec_len;

/// The main index type to implement for each type to be stored in an
/// [`IndexMap`].
pub trait Index {
    /// The type of the key.
    type Key: PartialEqSpec + Eq;

    /// The key stored in the object, as the contracts see it.
    spec fn spec_key(&self) -> Self::Key;

    /// The index function which returns a reference to the key stored in the
    /// object.
    fn index(&self) -> (r: &Self::Key)
        ensures
            *r == self.spec_key(),
    ;
}

/// Leap-second records are naturally keyed by the time they occur at.
impl Index for LeapSecondRecord {
    type Key = i64;

    open spec fn spec_key(&self) -> i64 {
        self.occurrence
    }

    fn index(&self) -> (r: &i64) {
        &self.occurrence
    }
}

/// The main IndexMap data-structure type.
///
/// The underlying items are held in insertion order; a key occurs at most
/// once, and inserting an already-present key keeps the stored item.
pub struct IndexMap<V> {
    items: Vec<V>,
}

impl<V> View for IndexMap<V> {
    type V = Seq<V>;

    closed spec fn view(&self) -> Seq<V> {
        self.items@
    }
}

impl<V> IndexMap<V> {
    /// Creates a new instance of an [`IndexMap`].
    pub fn new() -> (r: IndexMap<V>)
        ensures
            r@ == Seq::<V>::empty(),
    {
        IndexMap { items: Vec::new() }
    }

    /// Creates a new instance of an [`IndexMap`] with a given capacity.
    pub fn with_capacity(capacity: usize) -> (r: IndexMap<V>)
        ensures
            r@ == Seq::<V>::empty(),
    {
        IndexMap { items: Vec::with_capacity(capacity) }
    }
}

impl<V: Index> IndexMap<V> {
    /// True when some stored value carries the given key.
    pub open spec fn spec_contains_key(self, k: V::Key) -> bool {
        exists|i: int| 0 <= i < self@.len() && (#[trigger] self@[i]).spec_key().eq_spec(&k)
    }

    /// Inserts a new item in this [`IndexMap`]. When an item with an equal
    /// key is already stored, the map keeps that item and drops `value`.
    pub fn insert(&mut self, value: V)
        ensures
            <V::Key as PartialEqSpec>::obeys_eq_spec() ==> final(self)@ == if old(
                self,
            ).spec_contains_key(value.spec_key()) {
                old(self)@
            } else {
                old(self)@.push(value)
            },
            final(self)@ == old(self)@ || final(self)@ == old(self)@.push(value),
    {
        let mut found = false;
        let mut i: usize = 0;
        while i < self.items.len()
            invariant
                self == old(self),
                0 <= i <= self.items.len(),
                <V::Key as PartialEqSpec>::obeys_eq_spec() ==> (found <==> exists|j: int|
                    0 <= j < i && (#[trigger] self@[j]).spec_key().eq_spec(&value.spec_key())),
            decreases self.items.len() - i,
        {
            let eq = self.items[i].index() == value.index();
            proof {
                if <V::Key as PartialEqSpec>::obeys_eq_spec() {
                    assert(eq == self@[i as int].spec_key().eq_spec(&value.spec_key()));
                }
            }
            if eq {
                found = true;
            }
            i = i + 1;
        }
        if !found {
            self.items.push(value);
        }
    }

    /// Gets an element stored in this [`IndexMap`] from its key, or `None`
    /// when no stored element carries it.
    pub fn get(&self, key: &V::Key) -> (r: Option<&V>)
        ensures
            <V::Key as PartialEqSpec>::obeys_eq_spec() ==> match r {
                Some(v) => self.spec_contains_key(*key) && exists|i: int|
                    0 <= i < self@.len() && *v == (#[trigger] self@[i])
                        && self@[i].spec_key().eq_spec(key),
                None => !self.spec_contains_key(*key),
            },
    {
        let mut i: usize = 0;
        while i < self.items.len()
            invariant
                0 <= i <= self.items.len(),
                <V::Key as PartialEqSpec>::obeys_eq_spec() ==> forall|j: int|
                    0 <= j < i ==> !(#[trigger] self@[j]).spec_key().eq_spec(key),
            decreases self.items.len() - i,
        {
            let eq = self.items[i].index() == key;
            proof {
                if <V::Key as PartialEqSpec>::obeys_eq_spec() {
                    assert(eq == self@[i as int].spec_key().eq_spec(key));
                }
            }
            if eq {
                return Some(&self.items[i]);
            }
            i = i + 1;
        }
        None
    }
}

} // verus!
