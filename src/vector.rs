//! An index-addressable sequence kept in a `KeyStore`: position `i` lives under
//! the store key `namespace ++ le(i)`.
use vstd::prelude::*;

use core::marker::PhantomData;

use crate::bytes::{concat_bytes, lemma_u64_le_round_trip, opt_bytes, u64_le_bytes, u64_to_le};
use crate::store::{unchanged_outside, KeyStore};

verus! {

/// The store key of position `i` of the sequence kept under `ns`.
pub open spec fn slot_key(ns: Seq<u8>, i: int) -> Seq<u8> {
    ns + u64_le_bytes(i as u64)
}

/// A namespace is a prefix of every key formed by extending it.
pub proof fn lemma_prefix_of_concat(ns: Seq<u8>, x: Seq<u8>)
    ensures
        ns.is_prefix_of(ns + x),
{
    assert((ns + x).subrange(0, ns.len() as int) =~= ns);
}

/// Keys formed from one namespace are equal only with equal suffixes.
pub proof fn lemma_concat_injective(ns: Seq<u8>, x: Seq<u8>, y: Seq<u8>)
    ensures
        ns + x == ns + y ==> x == y,
{
    if ns + x == ns + y {
        assert((ns + x).subrange(ns.len() as int, (ns + x).len() as int) =~= x);
        assert((ns + y).subrange(ns.len() as int, (ns + y).len() as int) =~= y);
    }
}

/// Distinct positions of one sequence have distinct store keys.
pub proof fn lemma_slot_injective(ns: Seq<u8>, i: int, j: int)
    requires
        0 <= i <= u64::MAX,
        0 <= j <= u64::MAX,
    ensures
        slot_key(ns, i) == slot_key(ns, j) ==> i == j,
{
    lemma_concat_injective(ns, u64_le_bytes(i as u64), u64_le_bytes(j as u64));
    lemma_u64_le_round_trip(i as u64);
    lemma_u64_le_round_trip(j as u64);
}

/// An ordered sequence of byte strings kept in a store under one namespace.
/// `T` is the type whose encodings the sequence holds.
pub struct Vector<T> {
    prefix: Vec<u8>,
    len: u64,
    marker: PhantomData<T>,
}

impl<T> Vector<T> {
    /// The namespace under which the elements are stored.
    pub closed spec fn namespace(&self) -> Seq<u8> {
        self.prefix@
    }

    /// The number of elements.
    pub closed spec fn length(&self) -> nat {
        self.len as nat
    }

    /// The store key of position `i`.
    pub open spec fn slot(&self, i: int) -> Seq<u8> {
        slot_key(self.namespace(), i)
    }

    /// Every position below the length is present in `st`.
    pub open spec fn wf_in(&self, st: Map<Seq<u8>, Seq<u8>>) -> bool {
        &&& self.length() <= u64::MAX
        &&& forall|i: int| 0 <= i < self.length() ==> st.contains_key(#[trigger] self.slot(i))
    }

    /// The elements, in order, as `st` holds them.
    pub open spec fn view_in(&self, st: Map<Seq<u8>, Seq<u8>>) -> Seq<Seq<u8>> {
        Seq::new(self.length(), |i: int| st[self.slot(i)])
    }

    /// An empty sequence kept under `prefix`. Touches no store.
    pub fn new(prefix: Vec<u8>) -> (r: Self)
        ensures
            r.namespace() == prefix@,
            r.length() == 0,
    {
        Vector { prefix, len: 0, marker: PhantomData }
    }

    /// The number of elements.
    pub fn len(&self) -> (r: u64)
        ensures
            r == self.length(),
    {
        self.len
    }

    fn slot_of(&self, index: u64) -> (r: Vec<u8>)
        ensures
            r@ == self.slot(index as int),
    {
        let pos = u64_to_le(index);
        concat_bytes(self.prefix.as_slice(), pos.as_slice())
    }

    /// The element at `index`, or `None` past the end.
    pub fn get_raw(&self, store: &KeyStore, index: u64) -> (r: Option<Vec<u8>>)
        requires
            store.wf(),
            self.wf_in(store@),
        ensures
            opt_bytes(r) == if index < self.length() {
                Some(self.view_in(store@)[index as int])
            } else {
                None::<Seq<u8>>
            },
    {
        if index < self.len {
            let key = self.slot_of(index);
            assert(store@.contains_key(self.slot(index as int)));
            Some(store.read_present(key.as_slice()))
        } else {
            None
        }
    }

    /// Appends `value` at the end.
    pub fn push_raw(&mut self, store: &mut KeyStore, value: &[u8])
        requires
            old(store).wf(),
            old(self).length() < u64::MAX,
        ensures
            final(store).wf(),
            final(self).namespace() == old(self).namespace(),
            final(self).length() == old(self).length() + 1,
            final(store)@ == old(store)@.insert(old(self).slot(old(self).length() as int), value@),
    {
        let key = self.slot_of(self.len);
        store.write(key.as_slice(), value);
        self.len = self.len + 1;
    }

    /// Overwrites the element at `index` with `value`; returns the element it held.
    pub fn replace_raw(&self, store: &mut KeyStore, index: u64, value: &[u8]) -> (r: Vec<u8>)
        requires
            old(store).wf(),
            self.wf_in(old(store)@),
            index < self.length(),
        ensures
            final(store).wf(),
            r@ == self.view_in(old(store)@)[index as int],
            final(store)@ == old(store)@.insert(self.slot(index as int), value@),
    {
        let key = self.slot_of(index);
        assert(store@.contains_key(self.slot(index as int)));
        let prev = store.read_present(key.as_slice());
        store.write(key.as_slice(), value);
        prev
    }

    /// Removes the element at `index` and returns it. The last element moves
    /// into its place, unless `index` was the last position.
    pub fn swap_remove_raw(&mut self, store: &mut KeyStore, index: u64) -> (r: Vec<u8>)
        requires
            old(store).wf(),
            old(self).wf_in(old(store)@),
            index < old(self).length(),
        ensures
            final(store).wf(),
            final(self).namespace() == old(self).namespace(),
            final(self).length() == old(self).length() - 1,
            r@ == old(self).view_in(old(store)@)[index as int],
            final(store)@ == if index == old(self).length() - 1 {
                old(store)@.remove(old(self).slot(index as int))
            } else {
                old(store)@.insert(
                    old(self).slot(index as int),
                    old(store)@[old(self).slot(old(self).length() - 1)],
                ).remove(old(self).slot(old(self).length() - 1))
            },
    {
        let last = self.len - 1;
        let key = self.slot_of(index);
        assert(store@.contains_key(self.slot(index as int)));
        let prev = store.read_present(key.as_slice());
        if index == last {
            store.remove(key.as_slice());
        } else {
            let last_key = self.slot_of(last);
            assert(store@.contains_key(self.slot(last as int)));
            let moved = store.read_present(last_key.as_slice());
            store.write(key.as_slice(), moved.as_slice());
            store.remove(last_key.as_slice());
        }
        self.len = last;
        prev
    }

    /// Removes every element, one store key at a time.
    pub fn clear(&mut self, store: &mut KeyStore)
        requires
            old(store).wf(),
            old(self).length() <= u64::MAX,
        ensures
            final(store).wf(),
            final(self).namespace() == old(self).namespace(),
            final(self).length() == 0,
            unchanged_outside(old(store)@, final(store)@, old(self).namespace()),
            old(self).length() == 0 ==> final(store)@ == old(store)@,
            forall|k: Seq<u8>|
                #[trigger] final(store)@.contains_key(k) ==> old(store)@.contains_key(k)
                    && final(store)@[k] == old(store)@[k],
            forall|i: int|
                0 <= i < old(self).length() ==> !final(store)@.contains_key(
                    #[trigger] old(self).slot(i),
                ),
    {
        let ghost st0 = store@;
        let mut i: u64 = 0;
        while i < self.len
            invariant
                store.wf(),
                i <= self.len,
                i == 0 ==> store@ == st0,
                self.namespace() == old(self).namespace(),
                self.length() == old(self).length(),
                unchanged_outside(st0, store@, self.namespace()),
                forall|k: Seq<u8>|
                    #[trigger] store@.contains_key(k) ==> st0.contains_key(k) && store@[k]
                        == st0[k],
                forall|j: int| 0 <= j < i ==> !store@.contains_key(#[trigger] self.slot(j)),
            decreases self.len - i,
        {
            let key = self.slot_of(i);
            store.remove(key.as_slice());
            proof {
                lemma_prefix_of_concat(self.namespace(), u64_le_bytes(i as u64));
                assert forall|j: int| 0 <= j < i + 1 implies !store@.contains_key(
                    #[trigger] self.slot(j),
                ) by {
                    lemma_slot_injective(self.namespace(), j, i as int);
                }
            }
            i = i + 1;
        }
        self.len = 0;
    }

    /// The elements in order, read from the store as it is now.
    pub fn iter_raw(&self, store: &KeyStore) -> (r: Vec<Vec<u8>>)
        requires
            store.wf(),
            self.wf_in(store@),
        ensures
            r@.len() == self.length(),
            forall|i: int| 0 <= i < r@.len() ==> (#[trigger] r@[i])@ == self.view_in(store@)[i],
    {
        let mut out: Vec<Vec<u8>> = Vec::new();
        let mut i: u64 = 0;
        while i < self.len
            invariant
                store.wf(),
                self.wf_in(store@),
                i <= self.length(),
                out@.len() == i,
                forall|j: int| 0 <= j < i ==> (#[trigger] out@[j])@ == self.view_in(store@)[j],
            decreases self.len - i,
        {
            let key = self.slot_of(i);
            assert(store@.contains_key(self.slot(i as int)));
            out.push(store.read_present(key.as_slice()));
            i = i + 1;
        }
        out
    }
}

} // verus!
