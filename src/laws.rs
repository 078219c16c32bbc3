//! Properties of map operations, stated over the entries model that the
//! operations' contracts use, and proved.
use vstd::prelude::*;

use crate::codec::StorageCodec;
use crate::entries::{
    has_key, insert_entry, key_pos, lemma_key_pos_unique, lookup, remove_entry, swap_remove_at,
    unique_keys, Entries,
};
use crate::map::{decode_opt, extend_entries, UnorderedMap};

verus! {

/// Inserting keeps keys unique, makes `k` map to `v`, leaves every other key
/// as it was, and adds an entry exactly when `k` was absent.
pub proof fn lemma_insert_entry(s: Entries, k: Seq<u8>, v: Seq<u8>)
    requires
        unique_keys(s),
    ensures
        unique_keys(insert_entry(s, k, v)),
        lookup(insert_entry(s, k, v), k) == Some(v),
        forall|k2: Seq<u8>|
            k2 != k ==> #[trigger] lookup(insert_entry(s, k, v), k2) == lookup(s, k2),
        insert_entry(s, k, v).len() == if has_key(s, k) {
            s.len()
        } else {
            s.len() + 1
        },
{
    let t = insert_entry(s, k, v);
    if has_key(s, k) {
        let p = key_pos(s, k);
        assert forall|i: int, j: int|
            0 <= i < t.len() && 0 <= j < t.len() && #[trigger] t[i].0 == #[trigger] t[j].0 implies i
            == j by {
            assert(t[i].0 == s[i].0 && t[j].0 == s[j].0);
        }
        lemma_key_pos_unique(t, k, p);
        assert forall|k2: Seq<u8>| k2 != k implies #[trigger] lookup(t, k2) == lookup(s, k2) by {
            if has_key(s, k2) {
                let q = key_pos(s, k2);
                assert(t[q] == s[q]);
                lemma_key_pos_unique(t, k2, q);
            }
            if has_key(t, k2) {
                let q = key_pos(t, k2);
                assert(t[q] == s[q]);
            }
        }
    } else {
        let n = s.len() as int;
        assert forall|i: int, j: int|
            0 <= i < t.len() && 0 <= j < t.len() && #[trigger] t[i].0 == #[trigger] t[j].0 implies i
            == j by {
            if i < n && j == n {
                assert(s[i].0 == k);
            } else if j < n && i == n {
                assert(s[j].0 == k);
            }
        }
        lemma_key_pos_unique(t, k, n);
        assert forall|k2: Seq<u8>| k2 != k implies #[trigger] lookup(t, k2) == lookup(s, k2) by {
            if has_key(s, k2) {
                let q = key_pos(s, k2);
                assert(t[q] == s[q]);
                lemma_key_pos_unique(t, k2, q);
            }
            if has_key(t, k2) {
                let q = key_pos(t, k2);
                assert(t[q] == s[q]);
            }
        }
    }
}

/// Removing keeps keys unique, makes `k` absent, leaves every other key as
/// it was, and drops an entry exactly when `k` was present.
pub proof fn lemma_remove_entry(s: Entries, k: Seq<u8>)
    requires
        unique_keys(s),
    ensures
        unique_keys(remove_entry(s, k)),
        lookup(remove_entry(s, k), k) == None::<Seq<u8>>,
        forall|k2: Seq<u8>| k2 != k ==> #[trigger] lookup(remove_entry(s, k), k2) == lookup(s, k2),
        remove_entry(s, k).len() == if has_key(s, k) {
            s.len() - 1
        } else {
            s.len() as int
        },
{
    let t = remove_entry(s, k);
    if has_key(s, k) {
        let p = key_pos(s, k);
        let last = s.len() - 1;
        assert(t == swap_remove_at(s, p));
        assert forall|i: int| 0 <= i < t.len() implies #[trigger] t[i] == (if i == p {
            s[last]
        } else {
            s[i]
        }) by {}
        assert forall|i: int, j: int|
            0 <= i < t.len() && 0 <= j < t.len() && #[trigger] t[i].0 == #[trigger] t[j].0 implies i
            == j by {
            let oi = if i == p { last } else { i };
            let oj = if j == p { last } else { j };
            assert(t[i] == s[oi] && t[j] == s[oj]);
        }
        if has_key(t, k) {
            let q = key_pos(t, k);
            let oq = if q == p { last } else { q };
            assert(t[q] == s[oq]);
        }
        assert forall|k2: Seq<u8>| k2 != k implies #[trigger] lookup(t, k2) == lookup(s, k2) by {
            if has_key(s, k2) {
                let q = key_pos(s, k2);
                assert(q != p);
                let nq = if q == last { p } else { q };
                assert(t[nq] == s[q]);
                lemma_key_pos_unique(t, k2, nq);
            }
            if has_key(t, k2) {
                let q = key_pos(t, k2);
                let oq = if q == p { last } else { q };
                assert(t[q] == s[oq]);
                lemma_key_pos_unique(s, k2, oq);
            }
        }
    }
}

/// After `insert(key, value)`, `get(key)` gives `value` back.
pub proof fn lemma_insert_then_get<K: StorageCodec, V: StorageCodec>(s: Entries, key: K, value: V)
    requires
        unique_keys(s),
    ensures
        decode_opt::<V>(
            lookup(insert_entry(s, K::encode_spec(key), V::encode_spec(value)), K::encode_spec(key)),
        ) == Some(value),
{
    lemma_insert_entry(s, K::encode_spec(key), V::encode_spec(value));
    V::lemma_round_trip(value);
}

/// Inserting `v1` then `v2` under one key: the second insertion returns
/// `v1`, the key then maps to `v2`, and the number of entries does not change
/// on the second insertion.
pub proof fn lemma_overwrite(s: Entries, k: Seq<u8>, v1: Seq<u8>, v2: Seq<u8>)
    requires
        unique_keys(s),
    ensures
        lookup(insert_entry(s, k, v1), k) == Some(v1),
        lookup(insert_entry(insert_entry(s, k, v1), k, v2), k) == Some(v2),
        insert_entry(insert_entry(s, k, v1), k, v2).len() == insert_entry(s, k, v1).len(),
{
    lemma_insert_entry(s, k, v1);
    lemma_insert_entry(insert_entry(s, k, v1), k, v2);
}

/// Removing a present key returns its value, makes it absent, and leaves
/// every other key with its value.
pub proof fn lemma_remove_present(s: Entries, k: Seq<u8>)
    requires
        unique_keys(s),
        has_key(s, k),
    ensures
        lookup(s, k) == Some(s[key_pos(s, k)].1),
        lookup(remove_entry(s, k), k) == None::<Seq<u8>>,
        forall|k2: Seq<u8>| k2 != k ==> #[trigger] lookup(remove_entry(s, k), k2) == lookup(s, k2),
{
    lemma_remove_entry(s, k);
}

/// Removing the only entry leaves no entries.
pub proof fn lemma_remove_single(s: Entries, k: Seq<u8>)
    requires
        s.len() == 1,
        s[0].0 == k,
    ensures
        remove_entry(s, k).len() == 0,
{
    lemma_key_pos_unique(s, k, 0);
}

/// A well-formed map with no entries (after removing its only entry, or
/// after `clear`) has no index entry left in the store, and no key resolves.
pub proof fn lemma_empty_map_has_no_index<K, V>(m: UnorderedMap<K, V>, st: Map<Seq<u8>, Seq<u8>>)
    requires
        m.wf_in(st),
        m.size() == 0,
    ensures
        m.fresh_in(st),
        forall|k: Seq<u8>| #[trigger] lookup(m.view_in(st), k) == None::<Seq<u8>>,
{
    assert forall|rk: Seq<u8>| !st.contains_key(#[trigger] m.index_key(rk)) by {}
    assert forall|k: Seq<u8>| #[trigger] lookup(m.view_in(st), k) == None::<Seq<u8>> by {
        assert(!has_key(m.view_in(st), k));
    }
}

/// In a well-formed map the keys vector and the values vector have the same
/// length.
pub proof fn lemma_lengths_agree<K, V>(m: UnorderedMap<K, V>, st: Map<Seq<u8>, Seq<u8>>)
    requires
        m.wf_in(st),
    ensures
        m.keys_vec().length() == m.values_vec().length(),
        m.view_in(st).len() == m.size(),
{
}

/// Inserting distinct keys `a`, `b`, `c` into an empty map and removing `a`
/// leaves `c` in the first position and `b` in the second.
pub proof fn lemma_swap_remove_order(
    a: Seq<u8>,
    b: Seq<u8>,
    c: Seq<u8>,
    va: Seq<u8>,
    vb: Seq<u8>,
    vc: Seq<u8>,
)
    requires
        a != b,
        a != c,
        b != c,
    ensures
        remove_entry(
            insert_entry(insert_entry(insert_entry(Seq::empty(), a, va), b, vb), c, vc),
            a,
        ) == seq![(c, vc), (b, vb)],
{
    let s0: Entries = Seq::empty();
    let s1 = insert_entry(s0, a, va);
    assert(!has_key(s0, a));
    assert(s1 == seq![(a, va)]);
    assert(!has_key(s1, b)) by {
        if has_key(s1, b) {
            let i = key_pos(s1, b);
            assert(s1[i].0 == a);
        }
    }
    let s2 = insert_entry(s1, b, vb);
    assert(s2 =~= seq![(a, va), (b, vb)]);
    assert(!has_key(s2, c)) by {
        if has_key(s2, c) {
            let i = key_pos(s2, c);
            assert(s2[i].0 == a || s2[i].0 == b);
        }
    }
    let s3 = insert_entry(s2, c, vc);
    assert(s3 =~= seq![(a, va), (b, vb), (c, vc)]);
    assert(s3[0].0 == a);
    assert(unique_keys(s3));
    lemma_key_pos_unique(s3, a, 0);
    assert(remove_entry(s3, a) =~= seq![(c, vc), (b, vb)]);
}

/// Extending by two pairs with the same key keeps the later value and adds at
/// most one entry: one exactly when the key was absent.
pub proof fn lemma_extend_duplicate<K: StorageCodec, V: StorageCodec>(
    s: Entries,
    k: K,
    v1: V,
    v2: V,
)
    requires
        unique_keys(s),
    ensures
        lookup(extend_entries(s, seq![(k, v1), (k, v2)]), K::encode_spec(k)) == Some(
            V::encode_spec(v2),
        ),
        extend_entries(s, seq![(k, v1), (k, v2)]).len() == if has_key(s, K::encode_spec(k)) {
            s.len()
        } else {
            s.len() + 1
        },
{
    let items = seq![(k, v1), (k, v2)];
    let ek = K::encode_spec(k);
    assert(items.drop_last() =~= seq![(k, v1)]);
    assert(items.drop_last().drop_last() =~= Seq::<(K, V)>::empty());
    assert(extend_entries(s, Seq::<(K, V)>::empty()) == s);
    let s1 = extend_entries(s, items.drop_last());
    assert(items.drop_last().last() == (k, v1));
    assert(s1 == insert_entry(s, ek, V::encode_spec(v1)));
    lemma_insert_entry(s, ek, V::encode_spec(v1));
    lemma_insert_entry(s1, ek, V::encode_spec(v2));
}

} // verus!
