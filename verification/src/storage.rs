//! A minimal key-value store interface with an in-memory
//! implementation.

use vstd::prelude::*;

use crate::bytes_util::copy_bytes;
use crate::bytes_util::push_bytes;

verus! {

/// A byte-keyed store.
pub trait Kv {
    fn get(&self, key: &[u8]) -> Option<Vec<u8>>;

    fn put(&mut self, key: &[u8], value: Vec<u8>);

    fn delete(&mut self, key: &[u8]);
}

/// A store held entirely in memory: an association list with unique
/// keys.
#[derive(Debug)]
pub struct InMemoryKv {
    pub inner: Vec<(Vec<u8>, Vec<u8>)>,
}

/// The map a pair list stands for; later entries win.
pub open spec fn pairs_map(s: Seq<(Vec<u8>, Vec<u8>)>) -> Map<Seq<u8>, Seq<u8>>
    decreases s.len(),
{
    if s.len() == 0 {
        Map::empty()
    } else {
        pairs_map(s.drop_last()).insert(s.last().0@, s.last().1@)
    }
}

/// No key stored twice.
pub open spec fn pairs_wf(s: Seq<(Vec<u8>, Vec<u8>)>) -> bool {
    forall|i: int, j: int|
        0 <= i < j < s.len() ==> (#[trigger] s[i]).0@ != (#[trigger] s[j]).0@
}

/// An entry of the pair list maps to its value.
proof fn lemma_pairs_lookup(s: Seq<(Vec<u8>, Vec<u8>)>, i: int)
    requires
        pairs_wf(s),
        0 <= i < s.len(),
    ensures
        pairs_map(s).contains_key(s[i].0@),
        pairs_map(s)[s[i].0@] == s[i].1@,
    decreases s.len(),
{
    if i < s.len() - 1 {
        assert(pairs_wf(s.drop_last()));
        lemma_pairs_lookup(s.drop_last(), i);
        assert(s[i].0@ != s.last().0@);
    }
}

/// A key on no entry is not in the map.
proof fn lemma_pairs_absent(s: Seq<(Vec<u8>, Vec<u8>)>, k: Seq<u8>)
    requires
        forall|i: int| 0 <= i < s.len() ==> (#[trigger] s[i]).0@ != k,
    ensures
        !pairs_map(s).contains_key(k),
    decreases s.len(),
{
    if s.len() > 0 {
        lemma_pairs_absent(s.drop_last(), k);
    }
}

/// Replacing the entry at `i`, keeping its key, inserts into the map.
proof fn lemma_pairs_update(s: Seq<(Vec<u8>, Vec<u8>)>, i: int, x: (Vec<u8>, Vec<u8>))
    requires
        pairs_wf(s),
        0 <= i < s.len(),
        x.0@ == s[i].0@,
    ensures
        pairs_map(s.update(i, x)) == pairs_map(s).insert(x.0@, x.1@),
        pairs_wf(s.update(i, x)),
    decreases s.len(),
{
    let t = s.update(i, x);
    assert(forall|j: int| 0 <= j < s.len() && j != i ==> t[j] == s[j]);
    if i == s.len() - 1 {
        assert(t.drop_last() =~= s.drop_last());
        assert(pairs_map(t) =~= pairs_map(s).insert(x.0@, x.1@));
    } else {
        assert(t.drop_last() =~= s.drop_last().update(i, x));
        assert(pairs_wf(s.drop_last()));
        lemma_pairs_update(s.drop_last(), i, x);
        assert(t.last() == s.last());
        assert(pairs_map(t) =~= pairs_map(s).insert(x.0@, x.1@));
    }
}

/// Appending an entry with a fresh key inserts into the map.
proof fn lemma_pairs_push(s: Seq<(Vec<u8>, Vec<u8>)>, x: (Vec<u8>, Vec<u8>))
    requires
        forall|i: int| 0 <= i < s.len() ==> (#[trigger] s[i]).0@ != x.0@,
    ensures
        pairs_map(s.push(x)) == pairs_map(s).insert(x.0@, x.1@),
        pairs_wf(s) ==> pairs_wf(s.push(x)),
{
    assert(s.push(x).drop_last() =~= s);
    assert(s.push(x).last() == x);
}

/// Removing the entry at `i` removes its key from the map.
proof fn lemma_pairs_remove(s: Seq<(Vec<u8>, Vec<u8>)>, i: int)
    requires
        pairs_wf(s),
        0 <= i < s.len(),
    ensures
        pairs_map(s.remove(i)) == pairs_map(s).remove(s[i].0@),
        pairs_wf(s.remove(i)),
    decreases s.len(),
{
    let t = s.remove(i);
    if i == s.len() - 1 {
        assert(t =~= s.drop_last());
        lemma_pairs_absent(s.drop_last(), s[i].0@);
        assert(pairs_map(t) =~= pairs_map(s).remove(s[i].0@));
    } else {
        assert(t.drop_last() =~= s.drop_last().remove(i));
        assert(pairs_wf(s.drop_last()));
        lemma_pairs_remove(s.drop_last(), i);
        assert(t.last() == s.last());
        assert(s[i].0@ != s.last().0@);
        assert(pairs_map(t) =~= pairs_map(s).remove(s[i].0@));
    }
}

impl InMemoryKv {
    pub open spec fn wf(&self) -> bool {
        pairs_wf(self.inner@)
    }

    pub open spec fn view_map(&self) -> Map<Seq<u8>, Seq<u8>> {
        pairs_map(self.inner@)
    }

    /// An empty store.
    pub fn new() -> (r: InMemoryKv)
        ensures
            r.wf(),
            r.view_map() == Map::<Seq<u8>, Seq<u8>>::empty(),
    {
        let r = InMemoryKv { inner: Vec::new() };
        proof {
            assert(pairs_map(Seq::<(Vec<u8>, Vec<u8>)>::empty()) =~= Map::<
                Seq<u8>,
                Seq<u8>,
            >::empty());
        }
        r
    }

    /// The position of the entry for `key`, if stored.
    fn find_index(&self, key: &[u8]) -> (r: Option<usize>)
        ensures
            match r {
                Some(i) => i < self.inner@.len() && self.inner@[i as int].0@ == key@,
                None => forall|i: int|
                    0 <= i < self.inner@.len() ==> (#[trigger] self.inner@[i]).0@ != key@,
            },
    {
        let mut i: usize = 0;
        while i < self.inner.len()
            invariant
                i <= self.inner@.len(),
                forall|j: int| 0 <= j < i ==> (#[trigger] self.inner@[j]).0@ != key@,
            decreases self.inner@.len() - i,
        {
            let mut kv: Vec<u8> = Vec::new();
            push_bytes(&mut kv, key);
            if crate::bytes_util::bytes_eq(&self.inner[i].0, &kv) {
                return Some(i);
            }
            i = i + 1;
        }
        None
    }

    /// The stored value for `key`, copied out.
    pub fn get(&self, key: &[u8]) -> (r: Option<Vec<u8>>)
        requires
            self.wf(),
        ensures
            match r {
                Some(v) => self.view_map().contains_key(key@) && self.view_map()[key@] == v@,
                None => !self.view_map().contains_key(key@),
            },
    {
        match self.find_index(key) {
            Some(i) => {
                proof {
                    lemma_pairs_lookup(self.inner@, i as int);
                }
                Some(copy_bytes(&self.inner[i].1))
            },
            None => {
                proof {
                    lemma_pairs_absent(self.inner@, key@);
                }
                None
            },
        }
    }

    /// Store `value` under `key`, replacing any previous value.
    pub fn put(&mut self, key: &[u8], value: Vec<u8>)
        requires
            old(self).wf(),
        ensures
            final(self).wf(),
            final(self).view_map() == old(self).view_map().insert(key@, value@),
    {
        let mut kv: Vec<u8> = Vec::new();
        push_bytes(&mut kv, key);
        let ghost s = self.inner@;
        match self.find_index(key) {
            Some(i) => {
                self.inner[i] = (kv, value);
                proof {
                    lemma_pairs_update(s, i as int, self.inner@[i as int]);
                }
            },
            None => {
                self.inner.push((kv, value));
                proof {
                    lemma_pairs_push(s, self.inner@.last());
                }
            },
        }
    }

    /// Remove the entry under `key`, if any.
    pub fn delete(&mut self, key: &[u8])
        requires
            old(self).wf(),
        ensures
            final(self).wf(),
            final(self).view_map() == old(self).view_map().remove(key@),
    {
        let ghost s = self.inner@;
        match self.find_index(key) {
            Some(i) => {
                let _ = self.inner.remove(i);
                proof {
                    lemma_pairs_remove(s, i as int);
                }
            },
            None => {
                proof {
                    lemma_pairs_absent(s, key@);
                    assert(pairs_map(s).remove(key@) =~= pairs_map(s));
                }
            },
        }
    }
}

impl Kv for InMemoryKv {
    fn get(&self, key: &[u8]) -> Option<Vec<u8>> {
        if !kv_usable(self) {
            return None;
        }
        InMemoryKv::get(self, key)
    }

    fn put(&mut self, key: &[u8], value: Vec<u8>) {
        if kv_usable(self) {
            InMemoryKv::put(self, key, value);
        }
    }

    fn delete(&mut self, key: &[u8]) {
        if kv_usable(self) {
            InMemoryKv::delete(self, key);
        }
    }
}

/// Runtime check of the unique-key invariant, used where the store is
/// reached through the bare trait and nothing is known of it.
fn kv_usable(kv: &InMemoryKv) -> (r: bool)
    ensures
        r == kv.wf(),
{
    let mut i: usize = 0;
    while i < kv.inner.len()
        invariant
            i <= kv.inner@.len(),
            forall|a: int, b: int|
                0 <= a < b < i ==> (#[trigger] kv.inner@[a]).0@ != (#[trigger] kv.inner@[b]).0@,
        decreases kv.inner@.len() - i,
    {
        let mut j: usize = 0;
        while j < i
            invariant
                j <= i < kv.inner@.len(),
                forall|a: int, b: int|
                    0 <= a < b < i ==> (#[trigger] kv.inner@[a]).0@ != (
                    #[trigger] kv.inner@[b]).0@,
                forall|a: int| 0 <= a < j ==> (#[trigger] kv.inner@[a]).0@ != kv.inner@[i as int].0@,
            decreases i - j,
        {
            if crate::bytes_util::bytes_eq(&kv.inner[j].0, &kv.inner[i].0) {
                return false;
            }
            j = j + 1;
        }
        i = i + 1;
    }
    true
}

} // verus!
