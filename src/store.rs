//! An in-memory byte-key to byte-value store: the host storage that the
//! containers read and write through `read`, `write` and `remove`.
use vstd::prelude::*;

use crate::bytes::{bytes_equal, copy_bytes, opt_bytes};

verus! {

/// Byte-keyed storage. Its view is the map from each stored key to its value.
pub struct KeyStore {
    entries: Vec<(Vec<u8>, Vec<u8>)>,
    contents: Ghost<Map<Seq<u8>, Seq<u8>>>,
}

/// What `m` holds under `k`, if anything.
pub open spec fn lookup_key(m: Map<Seq<u8>, Seq<u8>>, k: Seq<u8>) -> Option<Seq<u8>> {
    if m.contains_key(k) {
        Some(m[k])
    } else {
        None
    }
}

/// `a` and `b` hold the same under every key that does not start with `ns`.
pub open spec fn unchanged_outside(
    a: Map<Seq<u8>, Seq<u8>>,
    b: Map<Seq<u8>, Seq<u8>>,
    ns: Seq<u8>,
) -> bool {
    forall|k: Seq<u8>|
        #![trigger lookup_key(a, k)]
        #![trigger lookup_key(b, k)]
        !ns.is_prefix_of(k) ==> lookup_key(a, k) == lookup_key(b, k)
}

impl View for KeyStore {
    type V = Map<Seq<u8>, Seq<u8>>;

    closed spec fn view(&self) -> Map<Seq<u8>, Seq<u8>> {
        self.contents@
    }
}

impl KeyStore {
    /// Each key is stored once, and the entries are exactly the view.
    pub closed spec fn wf(&self) -> bool {
        &&& forall|i: int, j: int|
            0 <= i < j < self.entries@.len() ==> #[trigger] self.entries@[i].0@
                != #[trigger] self.entries@[j].0@
        &&& forall|i: int|
            #![trigger self.entries@[i]]
            0 <= i < self.entries@.len() ==> self.contents@.contains_key(self.entries@[i].0@)
                && self.contents@[self.entries@[i].0@] == self.entries@[i].1@
        &&& forall|k: Seq<u8>|
            #[trigger] self.contents@.contains_key(k) ==> exists|i: int|
                0 <= i < self.entries@.len() && #[trigger] self.entries@[i].0@ == k
    }

    /// An empty store.
    pub fn new() -> (r: KeyStore)
        ensures
            r.wf(),
            r@ == Map::<Seq<u8>, Seq<u8>>::empty(),
    {
        KeyStore { entries: Vec::new(), contents: Ghost(Map::empty()) }
    }

    fn find(&self, key: &[u8]) -> (r: Option<usize>)
        requires
            self.wf(),
        ensures
            match r {
                Some(i) => i < self.entries@.len() && self.entries@[i as int].0@ == key@,
                None => !self@.contains_key(key@),
            },
    {
        let mut i: usize = 0;
        while i < self.entries.len()
            invariant
                i <= self.entries@.len(),
                forall|j: int| 0 <= j < i ==> self.entries@[j].0@ != key@,
            decreases self.entries@.len() - i,
        {
            if bytes_equal(self.entries[i].0.as_slice(), key) {
                return Some(i);
            }
            i = i + 1;
        }
        None
    }

    /// The value stored under `key`, if any.
    pub fn read(&self, key: &[u8]) -> (r: Option<Vec<u8>>)
        requires
            self.wf(),
        ensures
            opt_bytes(r) == lookup_key(self@, key@),
    {
        match self.find(key) {
            Some(i) => {
                assert(self.entries@[i as int] == self.entries@[i as int]);
                Some(copy_bytes(self.entries[i].1.as_slice()))
            },
            None => None,
        }
    }

    /// The value stored under `key`, which must be present.
    pub fn read_present(&self, key: &[u8]) -> (r: Vec<u8>)
        requires
            self.wf(),
            self@.contains_key(key@),
        ensures
            r@ == self@[key@],
    {
        match self.find(key) {
            Some(i) => {
                assert(self.entries@[i as int] == self.entries@[i as int]);
                copy_bytes(self.entries[i].1.as_slice())
            },
            None => Vec::new(),
        }
    }

    /// Stores `value` under `key`, replacing what was there.
    pub fn write(&mut self, key: &[u8], value: &[u8])
        requires
            old(self).wf(),
        ensures
            final(self).wf(),
            final(self)@ == old(self)@.insert(key@, value@),
    {
        let k = copy_bytes(key);
        let v = copy_bytes(value);
        let ghost oe = self.entries@;
        let ghost pos: int;
        match self.find(key) {
            Some(i) => {
                self.entries.set(i, (k, v));
                proof {
                    pos = i as int;
                }
            },
            None => {
                self.entries.push((k, v));
                proof {
                    pos = oe.len() as int;
                }
            },
        }
        self.contents = Ghost(self.contents@.insert(key@, value@));
        proof {
            let e = self.entries@;
            let m = self.contents@;
            assert forall|kk: Seq<u8>| #[trigger] m.contains_key(kk) implies exists|j: int|
                0 <= j < e.len() && #[trigger] e[j].0@ == kk by {
                if kk == key@ {
                    assert(e[pos].0@ == key@);
                } else {
                    let j = choose|j: int|
                        0 <= j < old(self).entries@.len() && #[trigger] old(self).entries@[j].0@
                            == kk;
                    assert(e[j] == old(self).entries@[j]);
                }
            }
        }
    }

    /// Removes `key`; says whether it was present.
    pub fn remove(&mut self, key: &[u8]) -> (r: bool)
        requires
            old(self).wf(),
        ensures
            final(self).wf(),
            r == old(self)@.contains_key(key@),
            final(self)@ == old(self)@.remove(key@),
    {
        match self.find(key) {
            Some(i) => {
                let ghost oe = self.entries@;
                self.entries.swap_remove(i);
                self.contents = Ghost(self.contents@.remove(key@));
                proof {
                    let e = self.entries@;
                    let m = self.contents@;
                    assert forall|a: int, b: int| 0 <= a < b < e.len() implies #[trigger] e[a].0@
                        != #[trigger] e[b].0@ by {
                        let oa = if a == i { oe.len() - 1 } else { a };
                        let ob = if b == i { oe.len() - 1 } else { b };
                        assert(e[a] == oe[oa]);
                        assert(e[b] == oe[ob]);
                        if oa < ob {
                            assert(oe[oa].0@ != oe[ob].0@);
                        } else {
                            assert(oe[ob].0@ != oe[oa].0@);
                        }
                    }
                    assert forall|j: int| #![trigger e[j]] 0 <= j < e.len() implies m.contains_key(
                        e[j].0@) && m[e[j].0@] == e[j].1@ by {
                        let oj = if j == i { oe.len() - 1 } else { j };
                        assert(e[j] == oe[oj]);
                        assert(oj != i);
                        assert(oe[oj].0@ != oe[i as int].0@);
                    }
                    assert forall|kk: Seq<u8>| #[trigger] m.contains_key(kk) implies exists|j: int|
                        0 <= j < e.len() && #[trigger] e[j].0@ == kk by {
                        let oj = choose|j: int| 0 <= j < oe.len() && #[trigger] oe[j].0@ == kk;
                        assert(oj != i);
                        if oj == oe.len() - 1 {
                            assert(e[i as int] == oe[oj]);
                        } else {
                            assert(e[oj] == oe[oj]);
                        }
                    }
                }
                true
            },
            None => {
                assert(self.contents@.remove(key@) =~= self.contents@);
                false
            },
        }
    }
}

} // verus!
