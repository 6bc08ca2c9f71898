//! The reliable-broadcast state, per Merkle root: received shards, Echo
//! and Ready signer sets, and the reconstructed payload once enough
//! shards arrived.
//!
//! Signer insertion has set semantics: delivering the same Echo or Ready
//! twice leaves the state exactly as it was.

use vstd::prelude::*;

use crate::bytes_util::bytes_eq;
use crate::bytes_util::copy_bytes;
use crate::da::reconstruct_payload;
use crate::da::recoverable;

verus! {

/// Everything tracked for one Merkle root.
#[derive(Debug)]
pub struct RbcEntry {
    pub root: Vec<u8>,
    pub shards: Vec<(u32, Vec<u8>)>,
    pub echo: Vec<u32>,
    pub ready: Vec<u32>,
    pub payload: Option<Vec<u8>>,
}

/// Reliable-broadcast state over all roots.
#[derive(Debug)]
pub struct RbcState {
    pub entries: Vec<RbcEntry>,
}

/// Distinct members, read as a set.
pub open spec fn distinct_ids(s: Seq<u32>) -> bool {
    forall|i: int, j: int| 0 <= i < j < s.len() ==> s[i] != s[j]
}

impl RbcEntry {
    /// Shard indices and signer sets hold no duplicates.
    pub open spec fn wf(&self) -> bool {
        &&& forall|i: int, j: int|
            0 <= i < j < self.shards@.len() ==> (#[trigger] self.shards@[i]).0 != (
            #[trigger] self.shards@[j]).0
        &&& distinct_ids(self.echo@)
        &&& distinct_ids(self.ready@)
    }
}

/// The entry for `root`, first match in order.
pub open spec fn spec_find(s: Seq<RbcEntry>, root: Seq<u8>) -> Option<RbcEntry>
    decreases s.len(),
{
    if s.len() == 0 {
        None
    } else if s[0].root@ == root {
        Some(s[0])
    } else {
        spec_find(s.drop_first(), root)
    }
}

/// The recorded shards of `root`.
pub open spec fn shards_of(st: RbcState, root: Seq<u8>) -> Seq<(u32, Vec<u8>)> {
    match spec_find(st.entries@, root) {
        None => Seq::empty(),
        Some(e) => e.shards@,
    }
}

/// Whether `id` has echoed `root`.
pub open spec fn echo_has(st: RbcState, root: Seq<u8>, id: u32) -> bool {
    match spec_find(st.entries@, root) {
        None => false,
        Some(e) => e.echo@.contains(id),
    }
}

/// How many distinct validators echoed `root`.
pub open spec fn echo_count(st: RbcState, root: Seq<u8>) -> int {
    match spec_find(st.entries@, root) {
        None => 0,
        Some(e) => e.echo@.len() as int,
    }
}

/// Whether `id` has sent Ready for `root`.
pub open spec fn ready_has(st: RbcState, root: Seq<u8>, id: u32) -> bool {
    match spec_find(st.entries@, root) {
        None => false,
        Some(e) => e.ready@.contains(id),
    }
}

/// How many distinct validators sent Ready for `root`.
pub open spec fn ready_count(st: RbcState, root: Seq<u8>) -> int {
    match spec_find(st.entries@, root) {
        None => 0,
        Some(e) => e.ready@.len() as int,
    }
}

/// The Ready signers recorded for `root`, in arrival order.
pub open spec fn ready_signers_of(st: RbcState, root: Seq<u8>) -> Seq<u32> {
    match spec_find(st.entries@, root) {
        None => Seq::empty(),
        Some(e) => e.ready@,
    }
}

/// The payload reconstructed for `root`, if any.
pub open spec fn payload_of(st: RbcState, root: Seq<u8>) -> Option<Seq<u8>> {
    match spec_find(st.entries@, root) {
        None => None,
        Some(e) => match e.payload {
            None => None,
            Some(p) => Some(p@),
        },
    }
}

/// Whether the payload for `root` has been reconstructed.
pub open spec fn has_payload_spec(st: RbcState, root: Seq<u8>) -> bool {
    payload_of(st, root) is Some
}

/// A found entry carries the root it was looked up by.
proof fn lemma_find_root(s: Seq<RbcEntry>, root: Seq<u8>)
    requires
        spec_find(s, root) is Some,
    ensures
        spec_find(s, root)->Some_0.root@ == root,
    decreases s.len(),
{
    if s.len() > 0 && s[0].root@ != root {
        lemma_find_root(s.drop_first(), root);
    }
}

/// With distinct roots, the entry at `i` is what lookup by its root
/// finds.
proof fn lemma_find_index(s: Seq<RbcEntry>, i: int)
    requires
        0 <= i < s.len(),
        forall|a: int, b: int|
            0 <= a < b < s.len() ==> (#[trigger] s[a]).root@ != (#[trigger] s[b]).root@,
    ensures
        spec_find(s, s[i].root@) == Some(s[i]),
    decreases s.len(),
{
    if i > 0 {
        assert(s[0].root@ != s[i].root@);
        assert(forall|a: int, b: int|
            0 <= a < b < s.drop_first().len() ==> (#[trigger] s.drop_first()[a]).root@ != (
            #[trigger] s.drop_first()[b]).root@);
        lemma_find_index(s.drop_first(), i - 1);
    }
}

/// A root on no entry finds nothing.
proof fn lemma_find_absent(s: Seq<RbcEntry>, root: Seq<u8>)
    requires
        forall|i: int| 0 <= i < s.len() ==> (#[trigger] s[i]).root@ != root,
    ensures
        spec_find(s, root) is None,
    decreases s.len(),
{
    if s.len() > 0 {
        lemma_find_absent(s.drop_first(), root);
    }
}

/// Replacing the entry at `i`, keeping its root, changes exactly that
/// root's lookup.
proof fn lemma_find_update(s: Seq<RbcEntry>, i: int, x: RbcEntry)
    requires
        0 <= i < s.len(),
        x.root@ == s[i].root@,
        forall|a: int, b: int|
            0 <= a < b < s.len() ==> (#[trigger] s[a]).root@ != (#[trigger] s[b]).root@,
    ensures
        spec_find(s.update(i, x), x.root@) == Some(x),
        forall|r2: Seq<u8>| r2 != x.root@ ==> spec_find(s.update(i, x), r2) == spec_find(s, r2),
        forall|a: int, b: int|
            0 <= a < b < s.update(i, x).len() ==> (#[trigger] s.update(i, x)[a]).root@ != (
            #[trigger] s.update(i, x)[b]).root@,
    decreases s.len(),
{
    let t = s.update(i, x);
    assert(forall|j: int| 0 <= j < s.len() && j != i ==> t[j] == s[j]);
    if i == 0 {
        assert(t.drop_first() =~= s.drop_first());
        assert forall|r2: Seq<u8>| r2 != x.root@ implies spec_find(t, r2) == spec_find(s, r2) by {
            assert(t[0] == x);
            assert(s[0].root@ == x.root@);
        }
    } else {
        assert(t[0] == s[0]);
        assert(s[0].root@ != x.root@);
        assert(t.drop_first() =~= s.drop_first().update(i - 1, x));
        assert(forall|a: int, b: int|
            0 <= a < b < s.drop_first().len() ==> (#[trigger] s.drop_first()[a]).root@ != (
            #[trigger] s.drop_first()[b]).root@);
        lemma_find_update(s.drop_first(), i - 1, x);
        assert(spec_find(t, x.root@) == spec_find(t.drop_first(), x.root@));
        assert forall|r2: Seq<u8>| r2 != x.root@ implies spec_find(t, r2) == spec_find(s, r2) by {
            if s[0].root@ != r2 {
                assert(spec_find(t, r2) == spec_find(t.drop_first(), r2));
                assert(spec_find(s, r2) == spec_find(s.drop_first(), r2));
            }
        }
    }
}

/// Appending an entry with a fresh root changes exactly that root's
/// lookup.
proof fn lemma_find_push(s: Seq<RbcEntry>, x: RbcEntry)
    requires
        forall|i: int| 0 <= i < s.len() ==> (#[trigger] s[i]).root@ != x.root@,
    ensures
        spec_find(s.push(x), x.root@) == Some(x),
        forall|r2: Seq<u8>| r2 != x.root@ ==> spec_find(s.push(x), r2) == spec_find(s, r2),
    decreases s.len(),
{
    if s.len() == 0 {
        assert(s.push(x)[0] == x);
        assert forall|r2: Seq<u8>| r2 != x.root@ implies spec_find(s.push(x), r2) == spec_find(
            s,
            r2,
        ) by {
            assert(s.push(x)[0] == x);
            assert(s.push(x).drop_first() =~= Seq::<RbcEntry>::empty());
            assert(spec_find(s.push(x), r2) == spec_find(s.push(x).drop_first(), r2));
        }
    } else {
        assert(s.push(x)[0] == s[0]);
        assert(s.push(x).drop_first() =~= s.drop_first().push(x));
        lemma_find_push(s.drop_first(), x);
        assert forall|r2: Seq<u8>| r2 != x.root@ implies spec_find(s.push(x), r2) == spec_find(
            s,
            r2,
        ) by {
            if s[0].root@ != r2 {
                assert(spec_find(s.push(x), r2) == spec_find(s.drop_first().push(x), r2));
                assert(spec_find(s, r2) == spec_find(s.drop_first(), r2));
            }
        }
    }
}

/// When lookup finds nothing, no entry carries the root.
proof fn lemma_find_none_all(s: Seq<RbcEntry>, root: Seq<u8>)
    requires
        spec_find(s, root) is None,
    ensures
        forall|i: int| 0 <= i < s.len() ==> (#[trigger] s[i]).root@ != root,
    decreases s.len(),
{
    if s.len() > 0 {
        lemma_find_none_all(s.drop_first(), root);
        assert(forall|i: int|
            1 <= i < s.len() ==> (#[trigger] s[i]).root@ == s.drop_first()[i - 1].root@);
    }
}

impl RbcState {
    /// Distinct roots, each entry well-formed.
    pub open spec fn wf(&self) -> bool {
        &&& forall|a: int, b: int|
            0 <= a < b < self.entries@.len() ==> (#[trigger] self.entries@[a]).root@ != (
            #[trigger] self.entries@[b]).root@
        &&& forall|i: int| 0 <= i < self.entries@.len() ==> (#[trigger] self.entries@[i]).wf()
    }

    /// No roots tracked yet.
    pub fn new() -> (r: RbcState)
        ensures
            r.wf(),
            r.entries@.len() == 0,
    {
        RbcState { entries: Vec::new() }
    }

    /// The position of the entry for `root`, if it is tracked.
    fn find_index(&self, root: &Vec<u8>) -> (r: Option<usize>)
        requires
            self.wf(),
        ensures
            match r {
                Some(i) => i < self.entries@.len() && self.entries@[i as int].root@ == root@
                    && spec_find(self.entries@, root@) == Some(self.entries@[i as int]),
                None => spec_find(self.entries@, root@) is None,
            },
    {
        let mut i: usize = 0;
        while i < self.entries.len()
            invariant
                i <= self.entries@.len(),
                self.wf(),
                forall|j: int| 0 <= j < i ==> (#[trigger] self.entries@[j]).root@ != root@,
            decreases self.entries@.len() - i,
        {
            if bytes_eq(&self.entries[i].root, root) {
                proof {
                    lemma_find_index(self.entries@, i as int);
                }
                return Some(i);
            }
            i = i + 1;
        }
        proof {
            lemma_find_absent(self.entries@, root@);
        }
        None
    }

    /// The position of the entry for `root`, creating an empty one if
    /// none is tracked yet.
    fn find_or_create(&mut self, root: &Vec<u8>) -> (r: usize)
        requires
            old(self).wf(),
        ensures
            final(self).wf(),
            r < final(self).entries@.len(),
            final(self).entries@[r as int].root@ == root@,
            spec_find(final(self).entries@, root@) == Some(final(self).entries@[r as int]),
            match spec_find(old(self).entries@, root@) {
                Some(e) => final(self).entries@ == old(self).entries@ && spec_find(
                    final(self).entries@,
                    root@,
                ) == Some(e),
                None => {
                    let e = final(self).entries@[r as int];
                    &&& final(self).entries@ == old(self).entries@.push(e)
                    &&& e.shards@.len() == 0
                    &&& e.echo@.len() == 0
                    &&& e.ready@.len() == 0
                    &&& e.payload is None
                },
            },
            forall|r2: Seq<u8>|
                r2 != root@ ==> spec_find(final(self).entries@, r2) == spec_find(
                    old(self).entries@,
                    r2,
                ),
    {
        match self.find_index(root) {
            Some(i) => i,
            None => {
                let entry = RbcEntry {
                    root: copy_bytes(root),
                    shards: Vec::new(),
                    echo: Vec::new(),
                    ready: Vec::new(),
                    payload: None,
                };
                let ghost s = self.entries@;
                self.entries.push(entry);
                proof {
                    lemma_find_none_all(s, root@);
                    lemma_find_push(s, self.entries@.last());
                    assert(forall|j: int|
                        0 <= j < s.len() ==> self.entries@[j] == s[j]);
                }
                self.entries.len() - 1
            },
        }
    }

    /// Record a proof-checked shard; a second shard with an already
    /// recorded index is ignored.
    pub fn push_shard(&mut self, root: &Vec<u8>, idx: u32, bytes: Vec<u8>)
        requires
            old(self).wf(),
        ensures
            final(self).wf(),
            forall|r2: Seq<u8>|
                r2 != root@ ==> spec_find(final(self).entries@, r2) == spec_find(
                    old(self).entries@,
                    r2,
                ),
            ({
                let had = shards_of(*old(self), root@);
                if exists|t: int| 0 <= t < had.len() && (#[trigger] had[t]).0 == idx {
                    shards_of(*final(self), root@) == had
                } else {
                    shards_of(*final(self), root@) == had.push((idx, bytes))
                }
            }),
            echo_count(*final(self), root@) == echo_count(*old(self), root@),
            ready_count(*final(self), root@) == ready_count(*old(self), root@),
            payload_of(*final(self), root@) == payload_of(*old(self), root@),
    {
        let i = self.find_or_create(root);
        let ghost s = self.entries@;
        let e = &self.entries[i];
        let mut seen = false;
        let mut t: usize = 0;
        while t < e.shards.len()
            invariant
                t <= e.shards@.len(),
                seen == exists|u: int| 0 <= u < t && (#[trigger] e.shards@[u]).0 == idx,
            decreases e.shards@.len() - t,
        {
            if e.shards[t].0 == idx {
                seen = true;
                proof {
                    assert(e.shards@[t as int].0 == idx);
                }
            }
            t = t + 1;
        }
        if !seen {
            proof {
                assert(forall|u: int| 0 <= u < e.shards@.len() ==> (#[trigger] e.shards@[u]).0
                    != idx);
            }
            let em = &mut self.entries[i];
            em.shards.push((idx, bytes));
            proof {
                let x = self.entries@[i as int];
                assert(x.shards@ == s[i as int].shards@.push((idx, bytes)));
                assert(x.root@ == root@);
                assert(self.entries@ =~= s.update(i as int, x));
                lemma_find_update(s, i as int, x);
            }
        } else {
            proof {
                assert(self.entries@ == s);
            }
        }
    }

    /// Whether the payload for `root` is reconstructed.
    pub fn has_payload(&self, root: &Vec<u8>) -> (r: bool)
        requires
            self.wf(),
        ensures
            r == has_payload_spec(*self, root@),
    {
        match self.find_index(root) {
            Some(i) => self.entries[i].payload.is_some(),
            None => false,
        }
    }

    /// The reconstructed payload for `root`, if any.
    pub fn get_payload(&self, root: &Vec<u8>) -> (r: Option<&Vec<u8>>)
        requires
            self.wf(),
        ensures
            match r {
                Some(p) => payload_of(*self, root@) == Some(p@),
                None => payload_of(*self, root@) is None,
            },
    {
        match self.find_index(root) {
            Some(i) => {
                match &self.entries[i].payload {
                    Some(p) => Some(p),
                    None => None,
                }
            },
            None => None,
        }
    }

    /// Attempt to rebuild the payload of `root` from its recorded
    /// shards.
    ///
    /// Returns whether the payload is available afterwards. Whenever the
    /// recorded shards are at least `k` distinct-index shards of the
    /// codeword of a payload that does not end in a zero byte, the
    /// attempt succeeds with exactly that payload.
    pub fn try_reconstruct(&mut self, root: &Vec<u8>, k: u32, m: u32) -> (r: bool)
        requires
            old(self).wf(),
            1 <= k,
            1 <= m,
            k + m <= 256,
        ensures
            final(self).wf(),
            r == has_payload_spec(*final(self), root@),
            forall|r2: Seq<u8>|
                r2 != root@ ==> spec_find(final(self).entries@, r2) == spec_find(
                    old(self).entries@,
                    r2,
                ),
            shards_of(*final(self), root@) == shards_of(*old(self), root@),
            echo_count(*final(self), root@) == echo_count(*old(self), root@),
            ready_count(*final(self), root@) == ready_count(*old(self), root@),
            has_payload_spec(*old(self), root@) ==> final(self).entries@ == old(self).entries@
                && r,
            forall|payload: Seq<u8>|
                #[trigger] recoverable(shards_of(*old(self), root@), payload, k as int, m as int)
                    && !has_payload_spec(*old(self), root@) ==> (r && payload_of(
                    *final(self),
                    root@,
                ) == Some(payload)),
    {
        let i = match self.find_index(root) {
            Some(i) => i,
            None => {
                proof {
                    assert(shards_of(*self, root@) =~= Seq::<(u32, Vec<u8>)>::empty());
                    assert forall|payload: Seq<u8>|
                        #[trigger] recoverable(
                            shards_of(*self, root@),
                            payload,
                            k as int,
                            m as int,
                        ) && !has_payload_spec(*self, root@) implies false by {}
                }
                return false;
            },
        };
        if self.entries[i].payload.is_some() {
            return true;
        }
        let ghost s = self.entries@;
        let result = reconstruct_payload(&self.entries[i].shards, k, m);
        match result {
            Some(p) => {
                let em = &mut self.entries[i];
                em.payload = Some(p);
                proof {
                    let x = self.entries@[i as int];
                    assert(self.entries@ =~= s.update(i as int, x));
                    lemma_find_update(s, i as int, x);
                }
                true
            },
            None => {
                false
            },
        }
    }

    /// Record that `sender` echoed `root`; a repeated Echo from the same
    /// sender leaves the state unchanged. Returns the distinct-echo
    /// count afterwards.
    pub fn insert_echo(&mut self, root: &Vec<u8>, sender: u32) -> (r: usize)
        requires
            old(self).wf(),
        ensures
            final(self).wf(),
            r == echo_count(*final(self), root@),
            echo_has(*final(self), root@, sender),
            echo_has(*old(self), root@, sender) ==> final(self).entries@ == old(self).entries@,
            !echo_has(*old(self), root@, sender) ==> echo_count(*final(self), root@) == echo_count(
                *old(self),
                root@,
            ) + 1,
            forall|r2: Seq<u8>|
                r2 != root@ ==> spec_find(final(self).entries@, r2) == spec_find(
                    old(self).entries@,
                    r2,
                ),
            shards_of(*final(self), root@) == shards_of(*old(self), root@),
            ready_count(*final(self), root@) == ready_count(*old(self), root@),
            payload_of(*final(self), root@) == payload_of(*old(self), root@),
    {
        let i = self.find_or_create(root);
        let ghost s = self.entries@;
        let ghost pre = *self;
        let e = &self.entries[i];
        let mut seen = false;
        let mut t: usize = 0;
        while t < e.echo.len()
            invariant
                t <= e.echo@.len(),
                seen == exists|u: int| 0 <= u < t && e.echo@[u] == sender,
            decreases e.echo@.len() - t,
        {
            if e.echo[t] == sender {
                seen = true;
                proof {
                    assert(e.echo@[t as int] == sender);
                }
            }
            t = t + 1;
        }
        if seen {
            proof {
                assert(e.echo@.contains(sender));
            }
            let count = self.entries[i].echo.len();
            count
        } else {
            proof {
                assert(forall|u: int| 0 <= u < e.echo@.len() ==> e.echo@[u] != sender);
                assert(!e.echo@.contains(sender));
            }
            let em = &mut self.entries[i];
            em.echo.push(sender);
            let count = self.entries[i].echo.len();
            proof {
                let x = self.entries@[i as int];
                assert(x.echo@ =~= s[i as int].echo@.push(sender));
                assert(x.echo@[x.echo@.len() - 1] == sender);
                assert(x.echo@.contains(sender));
                assert(self.entries@ =~= s.update(i as int, x));
                assert(distinct_ids(x.echo@));
                lemma_find_update(s, i as int, x);
            }
            count
        }
    }

    /// Record that `sender` sent Ready for `root`; a repeated Ready from
    /// the same sender leaves the state unchanged. Returns the
    /// distinct-ready count afterwards.
    pub fn insert_ready(&mut self, root: &Vec<u8>, sender: u32) -> (r: usize)
        requires
            old(self).wf(),
        ensures
            final(self).wf(),
            r == ready_count(*final(self), root@),
            ready_has(*final(self), root@, sender),
            ready_has(*old(self), root@, sender) ==> final(self).entries@ == old(self).entries@,
            !ready_has(*old(self), root@, sender) ==> ready_count(*final(self), root@)
                == ready_count(*old(self), root@) + 1,
            forall|r2: Seq<u8>|
                r2 != root@ ==> spec_find(final(self).entries@, r2) == spec_find(
                    old(self).entries@,
                    r2,
                ),
            shards_of(*final(self), root@) == shards_of(*old(self), root@),
            echo_count(*final(self), root@) == echo_count(*old(self), root@),
            payload_of(*final(self), root@) == payload_of(*old(self), root@),
    {
        let i = self.find_or_create(root);
        let ghost s = self.entries@;
        let e = &self.entries[i];
        let mut seen = false;
        let mut t: usize = 0;
        while t < e.ready.len()
            invariant
                t <= e.ready@.len(),
                seen == exists|u: int| 0 <= u < t && e.ready@[u] == sender,
            decreases e.ready@.len() - t,
        {
            if e.ready[t] == sender {
                seen = true;
                proof {
                    assert(e.ready@[t as int] == sender);
                }
            }
            t = t + 1;
        }
        if seen {
            proof {
                assert(e.ready@.contains(sender));
            }
            let count = self.entries[i].ready.len();
            count
        } else {
            proof {
                assert(forall|u: int| 0 <= u < e.ready@.len() ==> e.ready@[u] != sender);
                assert(!e.ready@.contains(sender));
            }
            let em = &mut self.entries[i];
            em.ready.push(sender);
            let count = self.entries[i].ready.len();
            proof {
                let x = self.entries@[i as int];
                assert(x.ready@ =~= s[i as int].ready@.push(sender));
                assert(x.ready@[x.ready@.len() - 1] == sender);
                assert(x.ready@.contains(sender));
                assert(self.entries@ =~= s.update(i as int, x));
                assert(distinct_ids(x.ready@));
                lemma_find_update(s, i as int, x);
            }
            count
        }
    }

    /// The distinct Ready signers recorded for `root`, in arrival order.
    pub fn ready_signers(&self, root: &Vec<u8>) -> (r: Vec<u32>)
        requires
            self.wf(),
        ensures
            r@ == ready_signers_of(*self, root@),
    {
        match self.find_index(root) {
            Some(i) => {
                let e = &self.entries[i];
                let mut out: Vec<u32> = Vec::new();
                let mut t: usize = 0;
                while t < e.ready.len()
                    invariant
                        t <= e.ready@.len(),
                        out@ == e.ready@.take(t as int),
                    decreases e.ready@.len() - t,
                {
                    out.push(e.ready[t]);
                    t = t + 1;
                    proof {
                        assert(out@ =~= e.ready@.take(t as int));
                    }
                }
                proof {
                    assert(e.ready@.take(e.ready@.len() as int) =~= e.ready@);
                }
                out
            },
            None => Vec::new(),
        }
    }
}

} // verus!
