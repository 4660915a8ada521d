//! A process's handle table: handles are drawn from a xorshift generator
//! seeded with a fixed value, so they look random but repeat from run to
//! run; a handle is never zero and never given twice while in use.

use vstd::prelude::*;
use std::collections::BTreeMap;
use xorshift::{Rng, SeedableRng, Xorshift128};
use crate::types::Handle;

verus! {

broadcast use vstd::std_specs::btree::group_btree_axioms;

#[verifier::external_type_specification]
#[verifier::external_body]
pub struct ExXorshift128(Xorshift128);

/// `xorshift::Xorshift128::from_seed` with the two seed words. Nothing is
/// stated of the generator's state, which the crate keeps private.
#[verifier::external_body]
fn xorshift_from_seed(s0: u64, s1: u64) -> (r: Xorshift128) {
    let seed = [s0, s1];
    SeedableRng::from_seed(&seed[..])
}

/// `xorshift::Rng::next_u32` on a `Xorshift128`: the low half of the next
/// 64-bit output. Nothing is stated of the value.
#[verifier::external_body]
fn xorshift_next_u32(rng: &mut Xorshift128) -> (r: u32) {
    rng.next_u32()
}

/// A value that can name an entry of a handle table.
pub trait ObjectHandle: Sized {
    fn from_value(value: u32) -> Option<Self>;

    fn raw(&self) -> u32;
}

impl ObjectHandle for Handle {
    fn from_value(value: u32) -> (r: Option<Handle>)
        ensures
            r == Handle::spec_from(value),
    {
        Handle::from_raw(value)
    }

    fn raw(&self) -> (r: u32)
        ensures
            r == self.spec_raw(),
    {
        Handle::raw(self)
    }
}

/// A table from handles to values.
pub struct ObjectTable<T> {
    objects: BTreeMap<u32, T>,
    xorshift: Xorshift128,
}

impl<T> View for ObjectTable<T> {
    type V = Map<u32, T>;

    closed spec fn view(&self) -> Map<u32, T> {
        self.objects@
    }
}

/// The set of all non-zero handle values.
pub open spec fn nonzero_handles() -> Set<u32> {
    Set::new(|k: u32| 1 <= k < u32::MAX).insert(u32::MAX)
}

proof fn lemma_free_handle_exists(dom: Set<u32>)
    requires
        dom.finite(),
        dom.len() < u32::MAX,
    ensures
        exists|k: u32| k != 0 && !dom.contains(k),
{
    if forall|k: u32| k != 0 ==> dom.contains(k) {
        <u32 as vstd::set_lib::FiniteRange>::range_properties(1, u32::MAX);
        let s = nonzero_handles();
        assert(!Set::new(|k: u32| 1 <= k < u32::MAX).contains(u32::MAX));
        assert(s.len() == u32::MAX);
        assert(s.subset_of(dom));
        vstd::set_lib::lemma_len_subset(s, dom);
    }
}

impl<T> ObjectTable<T> {
    /// A table holds finitely many handles.
    pub proof fn lemma_finite(&self)
        ensures
            self@.dom().finite(),
    {
    }

    /// An empty table whose generator starts from a fixed seed.
    pub fn new() -> (r: ObjectTable<T>)
        ensures
            r@ == Map::<u32, T>::empty(),
    {
        ObjectTable { objects: BTreeMap::new(), xorshift: xorshift_from_seed(1234, 5678) }
    }

    /// Stores a value under a new handle: non-zero and not in use.
    pub fn insert(&mut self, value: T) -> (h: Handle)
        requires
            old(self)@.dom().len() < u32::MAX,
        ensures
            h.spec_raw() != 0,
            !old(self)@.dom().contains(h.spec_raw()),
            final(self)@ == old(self)@.insert(h.spec_raw(), value),
    {
        proof {
            lemma_free_handle_exists(self.objects@.dom());
        }
        let mut attempts: u64 = 0;
        while attempts < u64::MAX
            invariant
                self@ == old(self)@,
                exists|k: u32| k != 0 && !old(self)@.dom().contains(k),
            decreases u64::MAX - attempts,
        {
            let candidate = xorshift_next_u32(&mut self.xorshift);
            match Handle::from_raw(candidate) {
                Some(handle) => {
                    if !self.objects.contains_key(&candidate) {
                        self.objects.insert(candidate, value);
                        return handle;
                    }
                },
                None => {},
            }
            attempts = attempts + 1;
        }
        // The generator has produced only handles in use for 2^64 draws:
        // take the smallest free handle instead.
        let mut k: u32 = 1;
        loop
            invariant
                self@ == old(self)@,
                1 <= k,
                exists|j: u32| j != 0 && !old(self)@.dom().contains(j),
                forall|j: u32| 1 <= j < k ==> self@.dom().contains(j),
            decreases u32::MAX - k,
        {
            if !self.objects.contains_key(&k) {
                let handle = Handle::from_raw(k).unwrap();
                self.objects.insert(k, value);
                return handle;
            }
            if k == u32::MAX {
                proof {
                    let j = choose|j: u32| j != 0 && !self@.dom().contains(j);
                    assert(j <= k);
                    assert(false);
                }
                let handle = Handle::from_raw(k).unwrap();
                return handle;
            }
            k = k + 1;
        }
    }

    /// The value stored under a handle.
    pub fn lookup(&self, handle: &Handle) -> (r: Option<&T>)
        ensures
            r matches Some(v) ==> self@.dom().contains(handle.spec_raw()) && *v == self@[handle.spec_raw()],
            r is None ==> !self@.dom().contains(handle.spec_raw()),
    {
        self.objects.get(&handle.raw())
    }

    /// Removes a handle and gives back its value.
    pub fn remove(&mut self, handle: &Handle) -> (r: Option<T>)
        ensures
            r matches Some(v) ==> old(self)@.dom().contains(handle.spec_raw()) && v == old(self)@[handle.spec_raw()],
            r is None ==> !old(self)@.dom().contains(handle.spec_raw()),
            final(self)@ == old(self)@.remove(handle.spec_raw()),
    {
        self.objects.remove(&handle.raw())
    }

    /// The number of handles in use.
    pub fn len(&self) -> (r: usize)
        ensures
            r == self@.dom().len(),
    {
        self.objects.len()
    }
}

/// A value stored under a handle is found under it, until the handle is
/// removed; removing it finds nothing more.
pub proof fn law_insert_lookup_remove<T>(m: Map<u32, T>, h: u32, v: T)
    ensures
        m.insert(h, v).dom().contains(h),
        m.insert(h, v)[h] == v,
        !m.insert(h, v).remove(h).dom().contains(h),
{
}

} // verus!
