//! `UnorderedMap`: a map kept in a `KeyStore` as two parallel vectors (keys and
//! values) plus one index entry per key that holds the key's position.
use vstd::prelude::*;

use crate::codec::StorageCodec;
use crate::bytes::{
    bytes_equal, concat_bytes, lemma_u64_le_round_trip, opt_bytes, u64_from_le, u64_le_bytes,
    u64_read_le, u64_to_le,
};
use crate::entries::{
    has_key, insert_entry, key_pos, lemma_key_pos_unique, lookup, remove_entry, swap_remove_at,
    unique_keys, Entries,
};
use crate::store::{lookup_key, unchanged_outside, KeyStore};
use crate::vector::{lemma_prefix_of_concat, lemma_slot_injective, Vector};

verus! {

/// Tag byte of the index namespace.
pub const INDEX_TAG: u8 = 105;

/// Tag byte of the keys vector's namespace.
pub const KEYS_TAG: u8 = 107;

/// Tag byte of the values vector's namespace.
pub const VALUES_TAG: u8 = 118;

/// Keys formed under distinct tags of one identifier differ.
pub proof fn lemma_tags_distinct(id: Seq<u8>, a: u8, b: u8, x: Seq<u8>, y: Seq<u8>)
    requires
        a != b,
    ensures
        id.push(a) + x != id.push(b) + y,
{
    assert((id.push(a) + x)[id.len() as int] == a);
    assert((id.push(b) + y)[id.len() as int] == b);
}

/// A key under a tagged namespace lies under the identifier too.
pub proof fn lemma_tagged_prefix(id: Seq<u8>, t: u8, k: Seq<u8>)
    ensures
        id.push(t).is_prefix_of(k) ==> id.is_prefix_of(k),
{
    if id.push(t).is_prefix_of(k) {
        assert(k.subrange(0, id.len() as int) =~= id.push(t).subrange(0, id.len() as int));
        assert(id.push(t).subrange(0, id.len() as int) =~= id);
    }
}

/// Two prefixes of one sequence: the shorter is a prefix of the longer.
pub proof fn lemma_prefixes_comparable(a: Seq<u8>, b: Seq<u8>, k: Seq<u8>)
    requires
        a.is_prefix_of(k),
        b.is_prefix_of(k),
    ensures
        a.is_prefix_of(b) || b.is_prefix_of(a),
{
    if a.len() <= b.len() {
        assert(b.subrange(0, a.len() as int) =~= k.subrange(0, a.len() as int));
    } else {
        assert(a.subrange(0, b.len() as int) =~= k.subrange(0, b.len() as int));
    }
}

/// A map from raw keys to raw values, kept in a store under one identifier.
/// `K` and `V` are the types whose encodings it holds.
pub struct UnorderedMap<K, V> {
    key_index_prefix: Vec<u8>,
    keys: Vector<K>,
    values: Vector<V>,
}

impl<K, V> UnorderedMap<K, V> {
    /// The namespace of the index entries: the identifier followed by `INDEX_TAG`.
    pub closed spec fn index_prefix(&self) -> Seq<u8> {
        self.key_index_prefix@
    }

    /// The keys vector.
    pub closed spec fn keys_vec(&self) -> Vector<K> {
        self.keys
    }

    /// The values vector.
    pub closed spec fn values_vec(&self) -> Vector<V> {
        self.values
    }

    /// The identifier the map was created with.
    pub open spec fn id(&self) -> Seq<u8> {
        self.index_prefix().drop_last()
    }

    /// The store key of the index entry for raw key `rk`.
    pub open spec fn index_key(&self, rk: Seq<u8>) -> Seq<u8> {
        self.index_prefix() + rk
    }

    /// The number of entries.
    pub open spec fn size(&self) -> nat {
        self.keys_vec().length()
    }

    /// The raw key at position `i`, as `st` holds it.
    pub open spec fn key_at(&self, st: Map<Seq<u8>, Seq<u8>>, i: int) -> Seq<u8> {
        st[self.keys_vec().slot(i)]
    }

    /// The raw value at position `i`, as `st` holds it.
    pub open spec fn value_at(&self, st: Map<Seq<u8>, Seq<u8>>, i: int) -> Seq<u8> {
        st[self.values_vec().slot(i)]
    }

    /// The entries, in storage order, as `st` holds them.
    pub open spec fn view_in(&self, st: Map<Seq<u8>, Seq<u8>>) -> Entries {
        Seq::new(self.size(), |i: int| (self.key_at(st, i), self.value_at(st, i)))
    }

    /// `st` holds no index entry of this map.
    pub open spec fn fresh_in(&self, st: Map<Seq<u8>, Seq<u8>>) -> bool {
        forall|rk: Seq<u8>| !st.contains_key(#[trigger] self.index_key(rk))
    }

    /// The map's three parts agree in `st`: both vectors have the same length,
    /// and the index entries are a bijection between the stored keys and their
    /// positions.
    pub open spec fn wf_in(&self, st: Map<Seq<u8>, Seq<u8>>) -> bool {
        &&& self.index_prefix().len() >= 1
        &&& self.index_prefix() == self.id().push(INDEX_TAG)
        &&& self.keys_vec().namespace() == self.id().push(KEYS_TAG)
        &&& self.values_vec().namespace() == self.id().push(VALUES_TAG)
        &&& self.keys_vec().length() == self.values_vec().length()
        &&& self.keys_vec().wf_in(st)
        &&& self.values_vec().wf_in(st)
        &&& forall|i: int|
            0 <= i < self.size() ==> st.contains_key(self.index_key(#[trigger] self.key_at(st, i)))
                && st[self.index_key(self.key_at(st, i))] == u64_le_bytes(i as u64)
        &&& forall|rk: Seq<u8>|
            #[trigger] st.contains_key(self.index_key(rk)) ==> {
                let p = u64_from_le(st[self.index_key(rk)]);
                &&& st[self.index_key(rk)].len() == 8
                &&& p < self.size()
                &&& self.key_at(st, p as int) == rk
            }
    }

    /// The store keys of the map's three parts never collide.
    pub proof fn lemma_parts_disjoint(&self, st: Map<Seq<u8>, Seq<u8>>, rk: Seq<u8>, i: int, j: int)
        requires
            self.wf_in(st),
        ensures
            self.index_key(rk) != self.keys_vec().slot(i),
            self.index_key(rk) != self.values_vec().slot(j),
            self.keys_vec().slot(i) != self.values_vec().slot(j),
            self.id().is_prefix_of(self.index_key(rk)),
            self.id().is_prefix_of(self.keys_vec().slot(i)),
            self.id().is_prefix_of(self.values_vec().slot(j)),
            !self.index_prefix().is_prefix_of(self.keys_vec().slot(i)),
            !self.index_prefix().is_prefix_of(self.values_vec().slot(j)),
    {
        let id = self.id();
        lemma_tags_distinct(id, INDEX_TAG, KEYS_TAG, rk, u64_le_bytes(i as u64));
        lemma_tags_distinct(id, INDEX_TAG, VALUES_TAG, rk, u64_le_bytes(j as u64));
        lemma_tags_distinct(id, KEYS_TAG, VALUES_TAG, u64_le_bytes(i as u64), u64_le_bytes(j as u64));
        lemma_prefix_of_concat(id.push(INDEX_TAG), rk);
        lemma_prefix_of_concat(id.push(KEYS_TAG), u64_le_bytes(i as u64));
        lemma_prefix_of_concat(id.push(VALUES_TAG), u64_le_bytes(j as u64));
        lemma_tagged_prefix(id, INDEX_TAG, self.index_key(rk));
        lemma_tagged_prefix(id, KEYS_TAG, self.keys_vec().slot(i));
        lemma_tagged_prefix(id, VALUES_TAG, self.values_vec().slot(j));
        assert(self.keys_vec().slot(i)[id.len() as int] == KEYS_TAG);
        assert(self.values_vec().slot(j)[id.len() as int] == VALUES_TAG);
        assert(self.index_prefix()[id.len() as int] == INDEX_TAG);
    }

    /// Changes confined to a namespace `ns` disjoint from the map's identifier
    /// (neither is a prefix of the other) leave the map well formed and its
    /// entries unchanged.
    pub proof fn lemma_frame(
        &self,
        st: Map<Seq<u8>, Seq<u8>>,
        st2: Map<Seq<u8>, Seq<u8>>,
        ns: Seq<u8>,
    )
        requires
            self.wf_in(st),
            unchanged_outside(st, st2, ns),
            !ns.is_prefix_of(self.id()),
            !self.id().is_prefix_of(ns),
        ensures
            self.wf_in(st2),
            self.view_in(st2) == self.view_in(st),
    {
        assert forall|k: Seq<u8>| self.id().is_prefix_of(k) implies #[trigger] lookup_key(st2, k)
            == lookup_key(st, k) by {
            if ns.is_prefix_of(k) {
                lemma_prefixes_comparable(ns, self.id(), k);
            }
        }
        assert forall|i: int| 0 <= i < self.size() implies #[trigger] self.key_at(st2, i)
            == self.key_at(st, i) && self.value_at(st2, i) == self.value_at(st, i) && st2.contains_key(
            self.keys_vec().slot(i),
        ) && st2.contains_key(self.values_vec().slot(i)) && st2.contains_key(
            self.index_key(self.key_at(st, i)),
        ) && st2[self.index_key(self.key_at(st, i))] == st[self.index_key(self.key_at(st, i))] by {
            self.lemma_parts_disjoint(st, self.key_at(st, i), i, i);
            assert(lookup_key(st2, self.keys_vec().slot(i)) == lookup_key(st, self.keys_vec().slot(i)));
            assert(lookup_key(st2, self.values_vec().slot(i)) == lookup_key(
                st,
                self.values_vec().slot(i),
            ));
            assert(lookup_key(st2, self.index_key(self.key_at(st, i))) == lookup_key(
                st,
                self.index_key(self.key_at(st, i)),
            ));
        }
        assert forall|i: int| 0 <= i < self.size() implies st2.contains_key(
            #[trigger] self.keys_vec().slot(i),
        ) by {
            assert(self.key_at(st2, i) == self.key_at(st, i));
        }
        assert forall|i: int| 0 <= i < self.size() implies st2.contains_key(
            #[trigger] self.values_vec().slot(i),
        ) by {
            assert(self.key_at(st2, i) == self.key_at(st, i));
        }
        assert forall|rk: Seq<u8>| #[trigger] st2.contains_key(self.index_key(rk)) implies ({
            let p = u64_from_le(st2[self.index_key(rk)]);
            &&& st2[self.index_key(rk)].len() == 8
            &&& p < self.size()
            &&& self.key_at(st2, p as int) == rk
        }) by {
            self.lemma_parts_disjoint(st, rk, 0, 0);
            assert(lookup_key(st2, self.index_key(rk)) == lookup_key(st, self.index_key(rk)));
            let p = u64_from_le(st[self.index_key(rk)]);
            assert(self.key_at(st2, p as int) == self.key_at(st, p as int));
        }
        assert(self.view_in(st2) =~= self.view_in(st));
    }

    /// In a well-formed map no key is stored twice, and a key has an index
    /// entry exactly when it is stored, at the position that entry holds.
    pub proof fn lemma_index_agrees(&self, st: Map<Seq<u8>, Seq<u8>>, rk: Seq<u8>)
        requires
            self.wf_in(st),
        ensures
            unique_keys(self.view_in(st)),
            has_key(self.view_in(st), rk) == st.contains_key(self.index_key(rk)),
            st.contains_key(self.index_key(rk)) ==> key_pos(self.view_in(st), rk) == u64_from_le(
                st[self.index_key(rk)],
            ),
    {
        let s = self.view_in(st);
        assert forall|i: int, j: int|
            0 <= i < s.len() && 0 <= j < s.len() && #[trigger] s[i].0 == #[trigger] s[j].0 implies i
            == j by {
            assert(self.key_at(st, i) == self.key_at(st, j));
            lemma_u64_le_round_trip(i as u64);
            lemma_u64_le_round_trip(j as u64);
        }
        if has_key(s, rk) {
            let i = choose|i: int| 0 <= i < s.len() && #[trigger] s[i].0 == rk;
            assert(self.key_at(st, i) == rk);
        }
        if st.contains_key(self.index_key(rk)) {
            let p = u64_from_le(st[self.index_key(rk)]) as int;
            assert(s[p].0 == rk);
            lemma_key_pos_unique(s, rk, p);
        }
    }

    /// A map with no entries under identifier `id`. Touches no store: it is
    /// well formed in every store that holds no index entry under `id`.
    pub fn new(id: Vec<u8>) -> (r: Self)
        ensures
            r.id() == id@,
            r.index_prefix() == id@.push(INDEX_TAG),
            r.keys_vec().namespace() == id@.push(KEYS_TAG),
            r.values_vec().namespace() == id@.push(VALUES_TAG),
            r.size() == 0,
            forall|st: Map<Seq<u8>, Seq<u8>>| #[trigger] r.wf_in(st) == r.fresh_in(st),
    {
        let key_index_prefix = concat_bytes(id.as_slice(), &[INDEX_TAG]);
        let index_key_id = concat_bytes(id.as_slice(), &[KEYS_TAG]);
        let index_value_id = concat_bytes(id.as_slice(), &[VALUES_TAG]);
        let r = UnorderedMap {
            key_index_prefix,
            keys: Vector::new(index_key_id),
            values: Vector::new(index_value_id),
        };
        assert(r.index_prefix() =~= id@.push(INDEX_TAG));
        assert(r.id() =~= id@);
        assert(r.keys_vec().namespace() =~= id@.push(KEYS_TAG));
        assert(r.values_vec().namespace() =~= id@.push(VALUES_TAG));
        r
    }

    /// The number of entries.
    pub fn len(&self, store: &KeyStore) -> (r: u64)
        requires
            self.wf_in(store@),
        ensures
            r == self.size(),
            r == self.view_in(store@).len(),
    {
        self.keys.len()
    }

    fn raw_key_to_index_lookup(&self, raw_key: &[u8]) -> (r: Vec<u8>)
        ensures
            r@ == self.index_key(raw_key@),
    {
        concat_bytes(self.key_index_prefix.as_slice(), raw_key)
    }

    /// The position of raw key `key_raw`, if it is stored.
    fn get_index_raw(&self, store: &KeyStore, key_raw: &[u8]) -> (r: Option<u64>)
        requires
            store.wf(),
            self.wf_in(store@),
        ensures
            r is Some == has_key(self.view_in(store@), key_raw@),
            r matches Some(p) ==> p < self.size() && p == key_pos(self.view_in(store@), key_raw@),
    {
        let index_lookup = self.raw_key_to_index_lookup(key_raw);
        proof {
            self.lemma_index_agrees(store@, key_raw@);
        }
        match store.read(index_lookup.as_slice()) {
            Some(raw_index) => Some(u64_read_le(raw_index.as_slice())),
            None => None,
        }
    }

    /// The raw value stored with raw key `key_raw`, if any.
    pub fn get_raw(&self, store: &KeyStore, key_raw: &[u8]) -> (r: Option<Vec<u8>>)
        requires
            store.wf(),
            self.wf_in(store@),
        ensures
            opt_bytes(r) == lookup(self.view_in(store@), key_raw@),
    {
        match self.get_index_raw(store, key_raw) {
            Some(index) => {
                let v = self.values.get_raw(store, index);
                v
            },
            None => None,
        }
    }

    /// Stores `value_raw` with raw key `key_raw`. An existing entry keeps its
    /// position and gets the new value; a new key is appended. Returns the
    /// value that was replaced, if any.
    pub fn insert_raw(&mut self, store: &mut KeyStore, key_raw: &[u8], value_raw: &[u8]) -> (r:
        Option<Vec<u8>>)
        requires
            old(store).wf(),
            old(self).wf_in(old(store)@),
            old(self).size() < u64::MAX,
        ensures
            final(store).wf(),
            final(self).wf_in(final(store)@),
            final(self).id() == old(self).id(),
            opt_bytes(r) == lookup(old(self).view_in(old(store)@), key_raw@),
            final(self).view_in(final(store)@) == insert_entry(
                old(self).view_in(old(store)@),
                key_raw@,
                value_raw@,
            ),
            unchanged_outside(old(store)@, final(store)@, old(self).id()),
    {
        let ghost st0 = store@;
        let ghost s0 = self.view_in(st0);
        let ghost m0 = *self;
        let index_lookup = self.raw_key_to_index_lookup(key_raw);
        proof {
            self.lemma_index_agrees(st0, key_raw@);
        }
        match store.read(index_lookup.as_slice()) {
            Some(index_raw) => {
                let index = u64_read_le(index_raw.as_slice());
                let prev = self.values.replace_raw(store, index, value_raw);
                proof {
                    let st = store@;
                    let vk = self.values_vec().slot(index as int);
                    assert forall|i: int| 0 <= i < self.size() implies #[trigger] self.key_at(st, i)
                        == self.key_at(st0, i) by {
                        m0.lemma_parts_disjoint(st0, key_raw@, i, index as int);
                    }
                    assert forall|rk: Seq<u8>| #[trigger]
                        st.contains_key(self.index_key(rk)) implies st0.contains_key(
                        self.index_key(rk),
                    ) && st[self.index_key(rk)] == st0[self.index_key(rk)] by {
                        m0.lemma_parts_disjoint(st0, rk, 0, index as int);
                        let p = u64_from_le(st0[self.index_key(rk)]);
                        assert(self.key_at(st, p as int) == self.key_at(st0, p as int));
                    }
                    assert(self.keys_vec().wf_in(st));
                    assert(self.values_vec().wf_in(st));
                    assert forall|i: int| 0 <= i < self.size() implies st.contains_key(
                        self.index_key(#[trigger] self.key_at(st, i)),
                    ) && st[self.index_key(self.key_at(st, i))] == u64_le_bytes(i as u64) by {
                        m0.lemma_parts_disjoint(st0, self.key_at(st, i), i, index as int);
                        m0.lemma_parts_disjoint(st0, self.key_at(st, i), 0, index as int);
                    }
                    assert forall|i: int| 0 <= i < self.size() implies #[trigger] self.value_at(st, i)
                        == if i == index {
                        value_raw@
                    } else {
                        self.value_at(st0, i)
                    } by {
                        lemma_slot_injective(self.values_vec().namespace(), i, index as int);
                    }
                    assert(self.view_in(st) =~= s0.update(index as int, (key_raw@, value_raw@)));
                    assert forall|k: Seq<u8>| !m0.id().is_prefix_of(k) implies #[trigger] lookup_key(
                        st0,
                        k,
                    ) == lookup_key(st, k) by {
                        m0.lemma_parts_disjoint(st0, key_raw@, 0, index as int);
                    }
                }
                Some(prev)
            },
            None => {
                let next_index = self.keys.len();
                let next_index_raw = u64_to_le(next_index);
                store.write(index_lookup.as_slice(), next_index_raw.as_slice());
                self.keys.push_raw(store, key_raw);
                self.values.push_raw(store, value_raw);
                proof {
                    let st = store@;
                    let n = next_index as int;
                    lemma_u64_le_round_trip(next_index);
                    assert forall|i: int| 0 <= i < n implies #[trigger] self.key_at(st, i)
                        == m0.key_at(st0, i) && self.value_at(st, i) == m0.value_at(st0, i) by {
                        m0.lemma_parts_disjoint(st0, key_raw@, i, n);
                        m0.lemma_parts_disjoint(st0, key_raw@, n, i);
                        lemma_slot_injective(self.keys_vec().namespace(), i, n);
                        lemma_slot_injective(self.values_vec().namespace(), i, n);
                    }
                    assert(self.key_at(st, n) == key_raw@) by {
                        m0.lemma_parts_disjoint(st0, key_raw@, n, n);
                    }
                    assert(self.value_at(st, n) == value_raw@);
                    assert forall|i: int| 0 <= i < self.size() implies st.contains_key(
                        #[trigger] self.keys_vec().slot(i),
                    ) && st.contains_key(self.values_vec().slot(i)) by {
                        if i < n {
                            assert(st0.contains_key(m0.keys_vec().slot(i)));
                            assert(st0.contains_key(m0.values_vec().slot(i)));
                        }
                    }
                    assert forall|i: int| 0 <= i < self.size() implies st.contains_key(
                        #[trigger] self.values_vec().slot(i),
                    ) by {
                        assert(st.contains_key(self.keys_vec().slot(i)));
                    }
                    assert(self.keys_vec().wf_in(st));
                    assert(self.values_vec().wf_in(st));
                    assert(self.view_in(st) =~= s0.push((key_raw@, value_raw@)));
                    assert forall|i: int| 0 <= i < self.size() implies st.contains_key(
                        self.index_key(#[trigger] self.key_at(st, i)),
                    ) && st[self.index_key(self.key_at(st, i))] == u64_le_bytes(i as u64) by {
                        let k = self.key_at(st, i);
                        m0.lemma_parts_disjoint(st0, k, n, n);
                        if i < n {
                            assert(m0.key_at(st0, i) == k);
                            if k == key_raw@ {
                                assert(s0[i].0 == key_raw@);
                            }
                        }
                    }
                    assert forall|rk: Seq<u8>| #[trigger]
                        st.contains_key(self.index_key(rk)) implies ({
                        let p = u64_from_le(st[self.index_key(rk)]);
                        &&& st[self.index_key(rk)].len() == 8
                        &&& p < self.size()
                        &&& self.key_at(st, p as int) == rk
                    }) by {
                        m0.lemma_parts_disjoint(st0, rk, n, n);
                        if rk != key_raw@ {
                            crate::vector::lemma_concat_injective(self.index_prefix(), rk, key_raw@);
                            assert(st0.contains_key(self.index_key(rk)));
                        }
                    }
                    assert forall|k: Seq<u8>| !m0.id().is_prefix_of(k) implies #[trigger] lookup_key(
                        st0,
                        k,
                    ) == lookup_key(st, k) by {
                        m0.lemma_parts_disjoint(st0, key_raw@, n, n);
                    }
                }
                None
            },
        }
    }

    /// Removes the entry with raw key `key_raw`, returning its value. The last
    /// entry moves into the freed position (swap-removal), so the order of the
    /// remaining entries changes when the removed one was not last.
    pub fn remove_raw(&mut self, store: &mut KeyStore, key_raw: &[u8]) -> (r: Option<Vec<u8>>)
        requires
            old(store).wf(),
            old(self).wf_in(old(store)@),
        ensures
            final(store).wf(),
            final(self).wf_in(final(store)@),
            final(self).id() == old(self).id(),
            opt_bytes(r) == lookup(old(self).view_in(old(store)@), key_raw@),
            final(self).view_in(final(store)@) == remove_entry(
                old(self).view_in(old(store)@),
                key_raw@,
            ),
            unchanged_outside(old(store)@, final(store)@, old(self).id()),
    {
        let ghost st0 = store@;
        let ghost s0 = self.view_in(st0);
        let ghost m0 = *self;
        let index_lookup = self.raw_key_to_index_lookup(key_raw);
        proof {
            self.lemma_index_agrees(st0, key_raw@);
        }
        match store.read(index_lookup.as_slice()) {
            Some(index_raw) => {
                let ghost p = u64_from_le(index_raw@) as int;
                let ghost last = s0.len() - 1;
                proof {
                    assert(s0[p].0 == key_raw@);
                    lemma_key_pos_unique(s0, key_raw@, p);
                    assert(st0.contains_key(self.index_key(m0.key_at(st0, p))));
                    assert(index_raw@ == u64_le_bytes(p as u64));
                }
                let n = self.keys.len();
                if n == 1 {
                    store.remove(index_lookup.as_slice());
                } else {
                    let last_key_raw = match self.keys.get_raw(store, n - 1) {
                        Some(x) => x,
                        None => Vec::new(),
                    };
                    store.remove(index_lookup.as_slice());
                    if !bytes_equal(last_key_raw.as_slice(), key_raw) {
                        let last_lookup_key = self.raw_key_to_index_lookup(last_key_raw.as_slice());
                        store.write(last_lookup_key.as_slice(), index_raw.as_slice());
                    }
                }
                let ghost st1 = store@;
                let ghost lk = s0[last].0;
                proof {
                    lemma_u64_le_round_trip(p as u64);
                    // The index now maps the last key to `p` (unless it was the removed
                    // one) and no longer holds the removed key.
                    assert forall|rk: Seq<u8>| #[trigger]
                        lookup_key(st1, self.index_key(rk)) == if rk == key_raw@ {
                        None
                    } else if rk == lk {
                        Some(u64_le_bytes(p as u64))
                    } else {
                        lookup_key(st0, self.index_key(rk))
                    } by {
                        crate::vector::lemma_concat_injective(self.index_prefix(), rk, key_raw@);
                        crate::vector::lemma_concat_injective(self.index_prefix(), rk, lk);
                    }
                    assert forall|k: Seq<u8>|
                        !self.index_prefix().is_prefix_of(k) implies #[trigger] lookup_key(st1, k)
                        == lookup_key(st0, k) by {
                        lemma_prefix_of_concat(self.index_prefix(), key_raw@);
                        lemma_prefix_of_concat(self.index_prefix(), lk);
                    }
                }
                proof {
                    assert forall|i: int| 0 <= i < m0.size() implies st1.contains_key(
                        #[trigger] m0.keys_vec().slot(i),
                    ) && st1.contains_key(m0.values_vec().slot(i)) by {
                        m0.lemma_parts_disjoint(st0, key_raw@, i, i);
                        assert(lookup_key(st1, m0.keys_vec().slot(i)) == lookup_key(
                            st0,
                            m0.keys_vec().slot(i),
                        ));
                        assert(lookup_key(st1, m0.values_vec().slot(i)) == lookup_key(
                            st0,
                            m0.values_vec().slot(i),
                        ));
                        assert(st0.contains_key(m0.values_vec().slot(i)));
                    }
                    assert forall|i: int| 0 <= i < m0.size() implies st1.contains_key(
                        #[trigger] m0.values_vec().slot(i),
                    ) by {
                        assert(st1.contains_key(m0.keys_vec().slot(i)));
                    }
                }
                let index = u64_read_le(index_raw.as_slice());
                self.keys.swap_remove_raw(store, index);
                let ghost st2 = store@;
                proof {
                    assert forall|i: int| 0 <= i < m0.size() implies st2.contains_key(
                        #[trigger] m0.values_vec().slot(i),
                    ) by {
                        m0.lemma_parts_disjoint(st0, key_raw@, p, i);
                        m0.lemma_parts_disjoint(st0, key_raw@, s0.len() - 1, i);
                    }
                }
                let prev = self.values.swap_remove_raw(store, index);
                proof {
                    let st = store@;
                    let l = last;
                    assert forall|i: int| 0 <= i < l implies #[trigger] lookup_key(
                        st2,
                        m0.keys_vec().slot(i),
                    ) == (if i == p {
                        lookup_key(st1, m0.keys_vec().slot(l))
                    } else {
                        lookup_key(st1, m0.keys_vec().slot(i))
                    }) by {
                        lemma_slot_injective(self.keys_vec().namespace(), i, l);
                        lemma_slot_injective(self.keys_vec().namespace(), i, p);
                    }
                    assert forall|i: int| 0 <= i < l implies #[trigger] lookup_key(
                        st,
                        m0.values_vec().slot(i),
                    ) == (if i == p {
                        lookup_key(st2, m0.values_vec().slot(l))
                    } else {
                        lookup_key(st2, m0.values_vec().slot(i))
                    }) by {
                        lemma_slot_injective(self.values_vec().namespace(), i, l);
                        lemma_slot_injective(self.values_vec().namespace(), i, p);
                    }
                    assert forall|i: int, j: int| 0 <= i <= l && 0 <= j <= l implies #[trigger] lookup_key(
                        st,
                        m0.keys_vec().slot(i),
                    ) == lookup_key(st2, m0.keys_vec().slot(i)) && #[trigger] lookup_key(
                        st2,
                        m0.values_vec().slot(j),
                    ) == lookup_key(st1, m0.values_vec().slot(j)) by {
                        m0.lemma_parts_disjoint(st0, key_raw@, i, p);
                        m0.lemma_parts_disjoint(st0, key_raw@, i, l);
                        m0.lemma_parts_disjoint(st0, key_raw@, p, j);
                        m0.lemma_parts_disjoint(st0, key_raw@, l, j);
                    }
                    assert forall|i: int| 0 <= i < l implies #[trigger] self.key_at(st, i) == (if i
                        == p {
                        lk
                    } else {
                        m0.key_at(st0, i)
                    }) && self.value_at(st, i) == (if i == p {
                        s0[l].1
                    } else {
                        m0.value_at(st0, i)
                    }) && st.contains_key(self.keys_vec().slot(i)) && st.contains_key(
                        self.values_vec().slot(i),
                    ) by {
                        m0.lemma_parts_disjoint(st0, key_raw@, i, l);
                        m0.lemma_parts_disjoint(st0, key_raw@, l, i);
                        m0.lemma_parts_disjoint(st0, key_raw@, i, i);
                        m0.lemma_parts_disjoint(st0, key_raw@, l, l);
                        m0.lemma_parts_disjoint(st0, lk, i, i);
                        m0.lemma_parts_disjoint(st0, lk, l, l);
                        lemma_slot_injective(self.keys_vec().namespace(), i, l);
                        lemma_slot_injective(self.values_vec().namespace(), i, l);
                        assert(lookup_key(st1, m0.keys_vec().slot(i)) == lookup_key(
                            st0,
                            m0.keys_vec().slot(i),
                        ));
                        assert(lookup_key(st1, m0.keys_vec().slot(l)) == lookup_key(
                            st0,
                            m0.keys_vec().slot(l),
                        ));
                        assert(lookup_key(st1, m0.values_vec().slot(i)) == lookup_key(
                            st0,
                            m0.values_vec().slot(i),
                        ));
                        assert(lookup_key(st1, m0.values_vec().slot(l)) == lookup_key(
                            st0,
                            m0.values_vec().slot(l),
                        ));
                        assert(st0.contains_key(m0.keys_vec().slot(i)));
                        assert(st0.contains_key(m0.values_vec().slot(i)));
                        assert(st0.contains_key(m0.keys_vec().slot(l)));
                        assert(st0.contains_key(m0.values_vec().slot(l)));
                        assert(lookup_key(st, m0.keys_vec().slot(i)) == lookup_key(
                            st2,
                            m0.keys_vec().slot(i),
                        ));
                        assert(lookup_key(st, m0.values_vec().slot(i)) == lookup_key(
                            st2,
                            m0.values_vec().slot(i),
                        ) || i == p);
                        assert(lookup_key(st2, m0.values_vec().slot(i)) == lookup_key(
                            st1,
                            m0.values_vec().slot(i),
                        ));
                        assert(lookup_key(st2, m0.values_vec().slot(l)) == lookup_key(
                            st1,
                            m0.values_vec().slot(l),
                        ));
                        assert(self.keys_vec().slot(i) == m0.keys_vec().slot(i));
                        assert(self.values_vec().slot(i) == m0.values_vec().slot(i));
                    }
                    assert(self.view_in(st) =~= swap_remove_at(s0, p));
                    m0.lemma_parts_disjoint(st0, key_raw@, p, p);
                    m0.lemma_parts_disjoint(st0, key_raw@, l, p);
                    assert(lookup_key(st1, m0.values_vec().slot(p)) == lookup_key(
                        st0,
                        m0.values_vec().slot(p),
                    ));
                    assert(st0.contains_key(m0.values_vec().slot(p)));
                    assert(prev@ == s0[p].1);
                    assert forall|i: int| 0 <= i < self.size() implies st.contains_key(
                        #[trigger] self.keys_vec().slot(i),
                    ) && st.contains_key(self.values_vec().slot(i)) by {
                        assert(self.key_at(st, i) == self.key_at(st, i));
                    }
                    assert forall|i: int| 0 <= i < self.size() implies st.contains_key(
                        #[trigger] self.values_vec().slot(i),
                    ) by {
                        assert(self.key_at(st, i) == self.key_at(st, i));
                    }
                    assert(self.keys_vec().wf_in(st));
                    assert(self.values_vec().wf_in(st));
                    // Index entries are untouched by the vector operations.
                    assert forall|rk: Seq<u8>| #[trigger]
                        lookup_key(st, self.index_key(rk)) == lookup_key(st1, self.index_key(rk)) by {
                        m0.lemma_parts_disjoint(st0, rk, p, p);
                        m0.lemma_parts_disjoint(st0, rk, l, l);
                    }
                    assert forall|i: int| 0 <= i < self.size() implies st.contains_key(
                        self.index_key(#[trigger] self.key_at(st, i)),
                    ) && st[self.index_key(self.key_at(st, i))] == u64_le_bytes(i as u64) by {
                        let k = self.key_at(st, i);
                        assert(lookup_key(st, self.index_key(k)) == lookup_key(st1, self.index_key(k)));
                        if i == p {
                            assert(s0[p].0 != s0[l].0);
                        } else {
                            assert(s0[i].0 != s0[p].0);
                            assert(s0[i].0 != s0[l].0);
                            assert(st0.contains_key(self.index_key(m0.key_at(st0, i))));
                        }
                    }
                    assert forall|rk: Seq<u8>| #[trigger]
                        st.contains_key(self.index_key(rk)) implies ({
                        let q = u64_from_le(st[self.index_key(rk)]);
                        &&& st[self.index_key(rk)].len() == 8
                        &&& q < self.size()
                        &&& self.key_at(st, q as int) == rk
                    }) by {
                        assert(lookup_key(st, self.index_key(rk)) == lookup_key(
                            st1,
                            self.index_key(rk),
                        ));
                        assert(rk != key_raw@);
                        if rk == lk {
                            assert(s0[p].0 != s0[l].0);
                            assert(p < l);
                            assert(self.key_at(st, p) == lk);
                        } else {
                            assert(self.index_key(rk) == m0.index_key(rk));
                            assert(st0.contains_key(m0.index_key(rk)));
                            let q = u64_from_le(st0[m0.index_key(rk)]) as int;
                            assert(m0.key_at(st0, q) == rk);
                            assert(s0[q].0 == rk);
                            assert(q != p && q != l);
                            assert(self.key_at(st, q) == m0.key_at(st0, q));
                        }
                    }
                    assert forall|k: Seq<u8>| !m0.id().is_prefix_of(k) implies #[trigger] lookup_key(
                        st0,
                        k,
                    ) == lookup_key(st, k) by {
                        m0.lemma_parts_disjoint(st0, key_raw@, p, p);
                        m0.lemma_parts_disjoint(st0, key_raw@, l, l);
                        lemma_tagged_prefix(m0.id(), INDEX_TAG, k);
                        assert(lookup_key(st1, k) == lookup_key(st0, k));
                        assert(k != m0.keys_vec().slot(p) && k != m0.keys_vec().slot(l));
                        assert(k != m0.values_vec().slot(p) && k != m0.values_vec().slot(l));
                        assert(lookup_key(st2, k) == lookup_key(st1, k));
                        assert(lookup_key(st, k) == lookup_key(st2, k));
                    }
                }
                Some(prev)
            },
            None => None,
        }
    }

    /// Removes every entry: first each index entry (found through the stored
    /// keys), then both vectors.
    pub fn clear(&mut self, store: &mut KeyStore)
        requires
            old(store).wf(),
            old(self).wf_in(old(store)@),
        ensures
            final(store).wf(),
            final(self).wf_in(final(store)@),
            final(self).id() == old(self).id(),
            final(self).size() == 0,
            final(self).view_in(final(store)@) == Seq::<(Seq<u8>, Seq<u8>)>::empty(),
            final(self).fresh_in(final(store)@),
            unchanged_outside(old(store)@, final(store)@, old(self).id()),
            old(self).size() == 0 ==> final(store)@ == old(store)@,
    {
        let ghost st0 = store@;
        let ghost m0 = *self;
        let n = self.keys.len();
        let mut i: u64 = 0;
        while i < n
            invariant
                store.wf(),
                *self == m0,
                m0.wf_in(st0),
                n == m0.size(),
                i <= n,
                i == 0 ==> store@ == st0,
                forall|k: Seq<u8>|
                    #![trigger lookup_key(store@, k)]
                    !m0.index_prefix().is_prefix_of(k) ==> lookup_key(store@, k) == lookup_key(
                        st0,
                        k,
                    ),
                forall|rk: Seq<u8>| #[trigger]
                    store@.contains_key(m0.index_key(rk)) ==> st0.contains_key(m0.index_key(rk))
                        && u64_from_le(st0[m0.index_key(rk)]) >= i,
            decreases n - i,
        {
            proof {
                assert forall|j: int| 0 <= j < n implies #[trigger] store@.contains_key(
                    self.keys_vec().slot(j),
                ) && store@[self.keys_vec().slot(j)] == st0[self.keys_vec().slot(j)] by {
                    m0.lemma_parts_disjoint(st0, Seq::empty(), j, j);
                    assert(lookup_key(store@, self.keys_vec().slot(j)) == lookup_key(
                        st0,
                        self.keys_vec().slot(j),
                    ));
                }
            }
            proof {
                assert(store@.contains_key(self.keys_vec().slot(i as int)));
                assert(self.keys_vec().wf_in(store@));
            }
            let ghost kv = self.keys.view_in(store@);
            let raw_key = match self.keys.get_raw(store, i) {
                Some(x) => x,
                None => Vec::new(),
            };
            let index_lookup = self.raw_key_to_index_lookup(raw_key.as_slice());
            let ghost before = store@;
            store.remove(index_lookup.as_slice());
            proof {
                assert(kv[i as int] == m0.key_at(st0, i as int));
                assert(raw_key@ == m0.key_at(st0, i as int));
                lemma_u64_le_round_trip(i);
                assert forall|k: Seq<u8>|
                    !m0.index_prefix().is_prefix_of(k) implies #[trigger] lookup_key(store@, k)
                    == lookup_key(st0, k) by {
                    lemma_prefix_of_concat(m0.index_prefix(), raw_key@);
                    assert(lookup_key(before, k) == lookup_key(st0, k));
                }
                assert forall|rk: Seq<u8>| #[trigger]
                    store@.contains_key(m0.index_key(rk)) implies st0.contains_key(m0.index_key(rk))
                    && u64_from_le(st0[m0.index_key(rk)]) >= i + 1 by {
                    assert(before.contains_key(m0.index_key(rk)));
                    assert(rk != raw_key@);
                }
            }
            i = i + 1;
        }
        proof {
            assert forall|j: int| 0 <= j < n implies #[trigger] store@.contains_key(
                self.keys_vec().slot(j),
            ) && store@.contains_key(self.values_vec().slot(j)) by {
                m0.lemma_parts_disjoint(st0, Seq::empty(), j, j);
                assert(lookup_key(store@, self.keys_vec().slot(j)) == lookup_key(
                    st0,
                    self.keys_vec().slot(j),
                ));
                assert(lookup_key(store@, self.values_vec().slot(j)) == lookup_key(
                    st0,
                    self.values_vec().slot(j),
                ));
            }
        }
        let ghost st1 = store@;
        self.keys.clear(store);
        let ghost st2 = store@;
        self.values.clear(store);
        proof {
            let st = store@;
            assert forall|rk: Seq<u8>| !st.contains_key(#[trigger] self.index_key(rk)) by {
                if st.contains_key(self.index_key(rk)) {
                    assert(st2.contains_key(self.index_key(rk)));
                    assert(st1.contains_key(m0.index_key(rk)));
                }
            }
            assert(self.view_in(st) =~= Seq::<(Seq<u8>, Seq<u8>)>::empty());
            assert forall|k: Seq<u8>| !m0.id().is_prefix_of(k) implies #[trigger] lookup_key(
                st0,
                k,
            ) == lookup_key(st, k) by {
                lemma_tagged_prefix(m0.id(), INDEX_TAG, k);
                lemma_tagged_prefix(m0.id(), KEYS_TAG, k);
                lemma_tagged_prefix(m0.id(), VALUES_TAG, k);
                assert(lookup_key(st1, k) == lookup_key(st0, k));
                assert(lookup_key(st2, k) == lookup_key(st1, k));
            }
        }
    }

    /// The keys vector, for access by position.
    pub fn keys_as_vector(&self) -> (r: &Vector<K>)
        ensures
            *r == self.keys_vec(),
    {
        &self.keys
    }

    /// The values vector, for access by position.
    pub fn values_as_vector(&self) -> (r: &Vector<V>)
        ensures
            *r == self.values_vec(),
    {
        &self.values
    }
}

/// A typed operation could not encode its argument.
#[derive(Debug, Clone, Copy, PartialEq, Eq, Structural)]
pub enum CodecError {
    /// The key could not be encoded.
    KeySerialization,
    /// The value could not be encoded.
    ValueSerialization,
}

/// The decoded form of optional raw bytes.
pub open spec fn decode_opt<T: StorageCodec>(o: Option<Seq<u8>>) -> Option<T> {
    match o {
        Some(b) => T::decode_spec(b),
        None => None,
    }
}

/// The entries after inserting each pair of `items` in order.
pub open spec fn extend_entries<K: StorageCodec, V: StorageCodec>(
    s: Entries,
    items: Seq<(K, V)>,
) -> Entries
    decreases items.len(),
{
    if items.len() == 0 {
        s
    } else {
        insert_entry(
            extend_entries(s, items.drop_last()),
            K::encode_spec(items.last().0),
            V::encode_spec(items.last().1),
        )
    }
}

/// Inserting never adds more than one entry.
pub proof fn lemma_insert_entry_len(s: Entries, k: Seq<u8>, v: Seq<u8>)
    ensures
        s.len() <= insert_entry(s, k, v).len() <= s.len() + 1,
{
}

/// Extending by `n` pairs adds at most `n` entries.
pub proof fn lemma_extend_entries_len<K: StorageCodec, V: StorageCodec>(
    s: Entries,
    items: Seq<(K, V)>,
)
    ensures
        extend_entries(s, items).len() <= s.len() + items.len(),
    decreases items.len(),
{
    if items.len() > 0 {
        lemma_extend_entries_len(s, items.drop_last());
    }
}

impl<K: StorageCodec, V: StorageCodec> UnorderedMap<K, V> {
    /// Every stored key and value decodes.
    pub open spec fn typed_in(&self, st: Map<Seq<u8>, Seq<u8>>) -> bool {
        forall|i: int|
            0 <= i < self.size() ==> (K::decode_spec(#[trigger] self.key_at(st, i)) is Some)
                && (V::decode_spec(self.value_at(st, i)) is Some)
    }

    /// The value stored with `key`.
    pub fn get(&self, store: &KeyStore, key: &K) -> (r: Result<Option<V>, CodecError>)
        requires
            store.wf(),
            self.wf_in(store@),
            self.typed_in(store@),
        ensures
            match r {
                Ok(o) => o == decode_opt::<V>(lookup(self.view_in(store@), K::encode_spec(*key))),
                Err(e) => e == CodecError::KeySerialization,
            },
    {
        let key_raw = match key.encode() {
            Some(b) => b,
            None => return Err(CodecError::KeySerialization),
        };
        proof {
            self.lemma_index_agrees(store@, key_raw@);
        }
        match self.get_raw(store, key_raw.as_slice()) {
            Some(value_raw) => {
                proof {
                    let p = key_pos(self.view_in(store@), key_raw@);
                    assert(self.value_at(store@, p) == value_raw@);
                    assert(self.key_at(store@, p) == self.key_at(store@, p));
                }
                Ok(V::decode(value_raw.as_slice()))
            },
            None => Ok(None),
        }
    }

    /// Inserts `value` under `key`; returns the value it replaced, if any.
    pub fn insert(&mut self, store: &mut KeyStore, key: &K, value: &V) -> (r: Result<
        Option<V>,
        CodecError,
    >)
        requires
            old(store).wf(),
            old(self).wf_in(old(store)@),
            old(self).typed_in(old(store)@),
            old(self).size() < u64::MAX,
        ensures
            final(store).wf(),
            final(self).wf_in(final(store)@),
            final(self).typed_in(final(store)@),
            final(self).id() == old(self).id(),
            unchanged_outside(old(store)@, final(store)@, old(self).id()),
            match r {
                Ok(o) => {
                    &&& o == decode_opt::<V>(
                        lookup(old(self).view_in(old(store)@), K::encode_spec(*key)),
                    )
                    &&& final(self).view_in(final(store)@) == insert_entry(
                        old(self).view_in(old(store)@),
                        K::encode_spec(*key),
                        V::encode_spec(*value),
                    )
                },
                Err(_) => final(store)@ == old(store)@ && *final(self) == *old(self),
            },
    {
        let key_raw = match key.encode() {
            Some(b) => b,
            None => return Err(CodecError::KeySerialization),
        };
        let value_raw = match value.encode() {
            Some(b) => b,
            None => return Err(CodecError::ValueSerialization),
        };
        let ghost st0 = store@;
        let ghost s0 = self.view_in(st0);
        let ghost m0 = *self;
        proof {
            self.lemma_index_agrees(st0, key_raw@);
        }
        let prev = self.insert_raw(store, key_raw.as_slice(), value_raw.as_slice());
        proof {
            let st = store@;
            K::lemma_round_trip(*key);
            V::lemma_round_trip(*value);
            assert(self.view_in(st) == insert_entry(s0, key_raw@, value_raw@));
            assert(has_key(s0, key_raw@) ==> self.view_in(st) == s0.update(
                key_pos(s0, key_raw@),
                (key_raw@, value_raw@),
            ));
            assert forall|i: int| 0 <= i < self.size() implies (K::decode_spec(
                #[trigger] self.key_at(st, i),
            ) is Some) && (V::decode_spec(self.value_at(st, i)) is Some) by {
                let s = self.view_in(st);
                assert(s[i].0 == self.key_at(st, i) && s[i].1 == self.value_at(st, i));
                if has_key(s0, key_raw@) {
                    let p = key_pos(s0, key_raw@);
                    if i != p {
                        assert(s[i] == s0[i]);
                        assert(s0[i].0 == m0.key_at(st0, i) && s0[i].1 == m0.value_at(st0, i));
                    }
                } else if i < s0.len() {
                    assert(s[i] == s0[i]);
                    assert(s0[i].0 == m0.key_at(st0, i) && s0[i].1 == m0.value_at(st0, i));
                }
            }
            if has_key(s0, key_raw@) {
                let p = key_pos(s0, key_raw@);
                assert(s0[p].1 == m0.value_at(st0, p));
                assert(s0[p].0 == m0.key_at(st0, p));
            }
        }
        match prev {
            Some(value_raw) => Ok(V::decode(value_raw.as_slice())),
            None => Ok(None),
        }
    }

    /// Removes the entry with `key`, returning its value. The last entry
    /// takes the freed position.
    pub fn remove(&mut self, store: &mut KeyStore, key: &K) -> (r: Result<Option<V>, CodecError>)
        requires
            old(store).wf(),
            old(self).wf_in(old(store)@),
            old(self).typed_in(old(store)@),
        ensures
            final(store).wf(),
            final(self).wf_in(final(store)@),
            final(self).typed_in(final(store)@),
            final(self).id() == old(self).id(),
            unchanged_outside(old(store)@, final(store)@, old(self).id()),
            match r {
                Ok(o) => {
                    &&& o == decode_opt::<V>(
                        lookup(old(self).view_in(old(store)@), K::encode_spec(*key)),
                    )
                    &&& final(self).view_in(final(store)@) == remove_entry(
                        old(self).view_in(old(store)@),
                        K::encode_spec(*key),
                    )
                },
                Err(e) => e == CodecError::KeySerialization && final(store)@ == old(store)@
                    && *final(self) == *old(self),
            },
    {
        let key_raw = match key.encode() {
            Some(b) => b,
            None => return Err(CodecError::KeySerialization),
        };
        let ghost st0 = store@;
        let ghost s0 = self.view_in(st0);
        let ghost m0 = *self;
        proof {
            self.lemma_index_agrees(st0, key_raw@);
        }
        let prev = self.remove_raw(store, key_raw.as_slice());
        proof {
            let st = store@;
            assert forall|i: int| 0 <= i < self.size() implies (K::decode_spec(
                #[trigger] self.key_at(st, i),
            ) is Some) && (V::decode_spec(self.value_at(st, i)) is Some) by {
                let s = self.view_in(st);
                assert(s[i].0 == self.key_at(st, i) && s[i].1 == self.value_at(st, i));
                if has_key(s0, key_raw@) {
                    let p = key_pos(s0, key_raw@);
                    assert(0 <= p < s0.len());
                    assert(s.len() == s0.len() - 1);
                    let j = if i == p { s0.len() - 1 } else { i };
                    assert(s[i] == s0[j]);
                    assert(s0[j].0 == m0.key_at(st0, j) && s0[j].1 == m0.value_at(st0, j));
                } else {
                    assert(s[i] == s0[i]);
                    assert(s0[i].0 == m0.key_at(st0, i) && s0[i].1 == m0.value_at(st0, i));
                }
            }
            if has_key(s0, key_raw@) {
                let p = key_pos(s0, key_raw@);
                assert(s0[p].1 == m0.value_at(st0, p));
                assert(s0[p].0 == m0.key_at(st0, p));
            }
        }
        match prev {
            Some(value_raw) => Ok(V::decode(value_raw.as_slice())),
            None => Ok(None),
        }
    }

    /// The keys, decoded, in storage order.
    pub fn keys(&self, store: &KeyStore) -> (r: Vec<K>)
        requires
            store.wf(),
            self.wf_in(store@),
            self.typed_in(store@),
        ensures
            r@.len() == self.size(),
            forall|i: int|
                0 <= i < r@.len() ==> Some(#[trigger] r@[i]) == K::decode_spec(
                    self.view_in(store@)[i].0,
                ),
    {
        let raw = self.keys.iter_raw(store);
        let mut out: Vec<K> = Vec::new();
        let mut i: usize = 0;
        while i < raw.len()
            invariant
                raw@.len() == self.size(),
                self.wf_in(store@),
                self.typed_in(store@),
                forall|j: int| 0 <= j < raw@.len() ==> (#[trigger] raw@[j])@ == self.key_at(store@, j),
                i <= raw@.len(),
                out@.len() == i,
                forall|j: int|
                    0 <= j < i ==> Some(#[trigger] out@[j]) == K::decode_spec(self.key_at(store@, j)),
            decreases raw@.len() - i,
        {
            assert(raw@[i as int]@ == self.key_at(store@, i as int));
            if let Some(k) = K::decode(raw[i].as_slice()) {
                out.push(k);
            }
            i = i + 1;
        }
        out
    }

    /// The values, decoded, in storage order.
    pub fn values(&self, store: &KeyStore) -> (r: Vec<V>)
        requires
            store.wf(),
            self.wf_in(store@),
            self.typed_in(store@),
        ensures
            r@.len() == self.size(),
            forall|i: int|
                0 <= i < r@.len() ==> Some(#[trigger] r@[i]) == V::decode_spec(
                    self.view_in(store@)[i].1,
                ),
    {
        let raw = self.values.iter_raw(store);
        let mut out: Vec<V> = Vec::new();
        let mut i: usize = 0;
        while i < raw.len()
            invariant
                raw@.len() == self.size(),
                self.wf_in(store@),
                self.typed_in(store@),
                forall|j: int|
                    0 <= j < raw@.len() ==> (#[trigger] raw@[j])@ == self.value_at(store@, j),
                i <= raw@.len(),
                out@.len() == i,
                forall|j: int|
                    0 <= j < i ==> Some(#[trigger] out@[j]) == V::decode_spec(
                        self.value_at(store@, j),
                    ),
            decreases raw@.len() - i,
        {
            assert(raw@[i as int]@ == self.value_at(store@, i as int));
            assert(self.key_at(store@, i as int) == self.key_at(store@, i as int));
            if let Some(v) = V::decode(raw[i].as_slice()) {
                out.push(v);
            }
            i = i + 1;
        }
        out
    }

    /// The entries, decoded, in storage order.
    pub fn iter(&self, store: &KeyStore) -> (r: Vec<(K, V)>)
        requires
            store.wf(),
            self.wf_in(store@),
            self.typed_in(store@),
        ensures
            r@.len() == self.size(),
            forall|i: int|
                0 <= i < r@.len() ==> Some((#[trigger] r@[i]).0) == K::decode_spec(
                    self.view_in(store@)[i].0,
                ) && Some(r@[i].1) == V::decode_spec(self.view_in(store@)[i].1),
    {
        let raw_keys = self.keys.iter_raw(store);
        let raw_values = self.values.iter_raw(store);
        let mut out: Vec<(K, V)> = Vec::new();
        let mut i: usize = 0;
        while i < raw_keys.len()
            invariant
                raw_keys@.len() == self.size(),
                raw_values@.len() == self.size(),
                self.wf_in(store@),
                self.typed_in(store@),
                forall|j: int|
                    0 <= j < raw_keys@.len() ==> (#[trigger] raw_keys@[j])@ == self.key_at(
                        store@,
                        j,
                    ),
                forall|j: int|
                    0 <= j < raw_values@.len() ==> (#[trigger] raw_values@[j])@ == self.value_at(
                        store@,
                        j,
                    ),
                i <= raw_keys@.len(),
                out@.len() == i,
                forall|j: int|
                    0 <= j < i ==> Some((#[trigger] out@[j]).0) == K::decode_spec(
                        self.key_at(store@, j),
                    ) && Some(out@[j].1) == V::decode_spec(self.value_at(store@, j)),
            decreases raw_keys@.len() - i,
        {
            assert(raw_keys@[i as int]@ == self.key_at(store@, i as int));
            assert(raw_values@[i as int]@ == self.value_at(store@, i as int));
            let k = K::decode(raw_keys[i].as_slice());
            let v = V::decode(raw_values[i].as_slice());
            match (k, v) {
                (Some(k), Some(v)) => {
                    out.push((k, v));
                },
                _ => {},
            }
            i = i + 1;
        }
        out
    }

    /// The entries, decoded, in storage order, collected into a vector.
    pub fn to_vec(&self, store: &KeyStore) -> (r: Vec<(K, V)>)
        requires
            store.wf(),
            self.wf_in(store@),
            self.typed_in(store@),
        ensures
            r@.len() == self.size(),
            forall|i: int|
                0 <= i < r@.len() ==> Some((#[trigger] r@[i]).0) == K::decode_spec(
                    self.view_in(store@)[i].0,
                ) && Some(r@[i].1) == V::decode_spec(self.view_in(store@)[i].1),
    {
        self.iter(store)
    }

    /// Inserts each pair of `items` in order; a later pair overrides an
    /// earlier one with the same key. Stops at the first pair that cannot be
    /// encoded, with the pairs before it inserted.
    pub fn extend(&mut self, store: &mut KeyStore, items: Vec<(K, V)>) -> (r: Result<(), CodecError>)
        requires
            old(store).wf(),
            old(self).wf_in(old(store)@),
            old(self).typed_in(old(store)@),
            old(self).size() + items@.len() <= u64::MAX,
        ensures
            final(store).wf(),
            final(self).wf_in(final(store)@),
            final(self).typed_in(final(store)@),
            final(self).id() == old(self).id(),
            unchanged_outside(old(store)@, final(store)@, old(self).id()),
            r is Ok ==> final(self).view_in(final(store)@) == extend_entries(
                old(self).view_in(old(store)@),
                items@,
            ),
            r is Err ==> exists|j: int|
                0 <= j < items@.len() && final(self).view_in(final(store)@) == extend_entries(
                    old(self).view_in(old(store)@),
                    #[trigger] items@.subrange(0, j),
                ),
    {
        let ghost st0 = store@;
        let ghost s0 = self.view_in(st0);
        let ghost id = self.id();
        let mut i: usize = 0;
        assert(items@.subrange(0, 0) =~= Seq::<(K, V)>::empty());
        while i < items.len()
            invariant
                store.wf(),
                self.wf_in(store@),
                self.typed_in(store@),
                self.id() == id,
                s0.len() + items@.len() <= u64::MAX,
                old(store)@ == st0,
                old(self).id() == id,
                old(self).view_in(old(store)@) == s0,
                unchanged_outside(st0, store@, id),
                i <= items@.len(),
                self.view_in(store@) == extend_entries(s0, items@.subrange(0, i as int)),
            decreases items@.len() - i,
        {
            proof {
                lemma_extend_entries_len(s0, items@.subrange(0, i as int));
            }
            let ghost before = store@;
            match self.insert(store, &items[i].0, &items[i].1) {
                Ok(_) => {},
                Err(e) => {
                    assert(items@.subrange(0, i as int) == items@.subrange(0, i as int));
                    return Err(e);
                },
            }
            proof {
                let sub = items@.subrange(0, i + 1);
                assert(sub.drop_last() =~= items@.subrange(0, i as int));
                assert(sub.last() == items@[i as int]);
                assert forall|k: Seq<u8>| !id.is_prefix_of(k) implies #[trigger] lookup_key(st0, k)
                    == lookup_key(store@, k) by {
                    assert(lookup_key(before, k) == lookup_key(st0, k));
                }
            }
            i = i + 1;
        }
        assert(items@.subrange(0, items@.len() as int) =~= items@);
        Ok(())
    }
}

} // verus!
