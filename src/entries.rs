//! The abstract model of a map: its entries, in storage order, as pairs of
//! raw key and raw value.
use vstd::prelude::*;

verus! {

/// Entries of a map: (raw key, raw value) pairs in storage order.
pub type Entries = Seq<(Seq<u8>, Seq<u8>)>;

/// Some entry has key `k`.
pub open spec fn has_key(s: Entries, k: Seq<u8>) -> bool {
    exists|i: int| 0 <= i < s.len() && #[trigger] s[i].0 == k
}

/// The position of the entry with key `k`.
pub open spec fn key_pos(s: Entries, k: Seq<u8>) -> int {
    choose|i: int| 0 <= i < s.len() && #[trigger] s[i].0 == k
}

/// No two entries share a key.
pub open spec fn unique_keys(s: Entries) -> bool {
    forall|i: int, j: int|
        0 <= i < s.len() && 0 <= j < s.len() && #[trigger] s[i].0 == #[trigger] s[j].0 ==> i == j
}

/// The value stored with key `k`, if any.
pub open spec fn lookup(s: Entries, k: Seq<u8>) -> Option<Seq<u8>> {
    if has_key(s, k) {
        Some(s[key_pos(s, k)].1)
    } else {
        None
    }
}

/// The entries after moving the last one into position `p` and dropping the last.
pub open spec fn swap_remove_at(s: Entries, p: int) -> Entries {
    s.update(p, s.last()).drop_last()
}

/// The entries after `insert(k, v)`: the value replaced in place, or a new
/// entry at the end.
pub open spec fn insert_entry(s: Entries, k: Seq<u8>, v: Seq<u8>) -> Entries {
    if has_key(s, k) {
        s.update(key_pos(s, k), (k, v))
    } else {
        s.push((k, v))
    }
}

/// The entries after `remove(k)`: swap-removal of its entry, if there is one.
pub open spec fn remove_entry(s: Entries, k: Seq<u8>) -> Entries {
    if has_key(s, k) {
        swap_remove_at(s, key_pos(s, k))
    } else {
        s
    }
}

/// With unique keys, the entry with key `k` at `p` is the one `key_pos` names.
pub proof fn lemma_key_pos_unique(s: Entries, k: Seq<u8>, p: int)
    requires
        unique_keys(s),
        0 <= p < s.len(),
        s[p].0 == k,
    ensures
        has_key(s, k),
        key_pos(s, k) == p,
        lookup(s, k) == Some(s[p].1),
{
    assert(has_key(s, k));
    let q = key_pos(s, k);
    assert(s[q].0 == s[p].0);
}

} // verus!
