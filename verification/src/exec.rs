//! The account executor: versioned balances under serial and
//! optimistic-parallel application of transfer batches.
//!
//! Account state is modelled as a map from account identifier to
//! `(ver, bal, last_update_height)`. A debit requires the balance to
//! cover the amount; a credit saturates at the largest balance; both bump
//! the version and stamp the height.

use vstd::prelude::*;

use crate::bytes_util::copy_bytes;
use crate::types::Batch;
use crate::types::Receipt;
use crate::types::Status;
use crate::types::Transfer;
use crate::types::Tx;
use crate::types::now_ms;

verus! {

/// One account as the executor stores and serializes it.
#[derive(Clone, Debug)]
pub struct AccountState {
    pub addr: Vec<u8>,
    pub ver: u64,
    pub bal: u64,
    pub last_update_height: u64,
}

/// The `(ver, bal, last_update_height)` triple of an account entry.
pub open spec fn vals_of(a: AccountState) -> (u64, u64, u64) {
    (a.ver, a.bal, a.last_update_height)
}

/// The full view of an account entry.
pub open spec fn acct_view(a: AccountState) -> (Seq<u8>, u64, u64, u64) {
    (a.addr@, a.ver, a.bal, a.last_update_height)
}

/// No account identifier appears twice.
pub open spec fn wf_accounts(s: Seq<AccountState>) -> bool {
    forall|i: int, j: int|
        0 <= i < j < s.len() ==> (#[trigger] s[i]).addr@ != (#[trigger] s[j]).addr@
}

/// The map an account list stands for; later entries win.
pub open spec fn accounts_map(s: Seq<AccountState>) -> Map<Seq<u8>, (u64, u64, u64)>
    decreases s.len(),
{
    if s.len() == 0 {
        Map::empty()
    } else {
        accounts_map(s.drop_last()).insert(s.last().addr@, vals_of(s.last()))
    }
}

/// The account triple for `a`, with `(0, 0, 0)` for an absent account.
pub open spec fn spec_lookup(m: Map<Seq<u8>, (u64, u64, u64)>, a: Seq<u8>) -> (u64, u64, u64) {
    if m.contains_key(a) {
        m[a]
    } else {
        (0u64, 0u64, 0u64)
    }
}

/// A version bump; the version pins at the largest value rather than
/// wrap.
pub open spec fn spec_bump(v: u64) -> u64 {
    if v == u64::MAX {
        v
    } else {
        (v + 1) as u64
    }
}

/// Saturating balance addition.
pub open spec fn spec_sat_add(b: u64, a: u64) -> u64 {
    if b + a > u64::MAX {
        u64::MAX
    } else {
        (b + a) as u64
    }
}

/// Debit `amount` from `a` at height `h`: requires the balance to cover
/// it; an absent account holds zero.
pub open spec fn spec_debit(m: Map<Seq<u8>, (u64, u64, u64)>, a: Seq<u8>, amount: u64, h: u64) -> Option<
    Map<Seq<u8>, (u64, u64, u64)>,
> {
    let (v, b, _old_h) = spec_lookup(m, a);
    if b >= amount {
        Some(m.insert(a, (spec_bump(v), (b - amount) as u64, h)))
    } else {
        None
    }
}

/// Credit `amount` to `a` at height `h`, creating the account if absent.
pub open spec fn spec_credit(m: Map<Seq<u8>, (u64, u64, u64)>, a: Seq<u8>, amount: u64, h: u64) -> Map<
    Seq<u8>,
    (u64, u64, u64),
> {
    let (v, b, _old_h) = spec_lookup(m, a);
    m.insert(a, (spec_bump(v), spec_sat_add(b, amount), h))
}

/// Apply one transfer: debit the sender, credit the receiver; a failed
/// debit leaves the map untouched.
pub open spec fn spec_apply_transfer(
    m: Map<Seq<u8>, (u64, u64, u64)>,
    t: Transfer,
    h: u64,
) -> (Map<Seq<u8>, (u64, u64, u64)>, bool) {
    match spec_debit(m, t.from@, t.amount, h) {
        Some(m1) => (spec_credit(m1, t.to@, t.amount, h), true),
        None => (m, false),
    }
}

/// The map after serially applying the first `n` transactions.
pub open spec fn spec_apply_upto(
    m: Map<Seq<u8>, (u64, u64, u64)>,
    txs: Seq<Tx>,
    h: u64,
    n: int,
) -> Map<Seq<u8>, (u64, u64, u64)>
    decreases n,
{
    if n <= 0 {
        m
    } else {
        spec_apply_transfer(spec_apply_upto(m, txs, h, n - 1), txs[n - 1].transfer, h).0
    }
}

/// Whether the `i`-th transaction commits under serial application.
pub open spec fn spec_tx_committed(
    m: Map<Seq<u8>, (u64, u64, u64)>,
    txs: Seq<Tx>,
    h: u64,
    i: int,
) -> bool {
    spec_apply_transfer(spec_apply_upto(m, txs, h, i), txs[i].transfer, h).1
}

/// The receipt view a status stands for: `None` for committed, the
/// reason characters otherwise.
pub open spec fn status_view(s: Status) -> Option<Seq<char>> {
    match s {
        Status::Committed => None,
        Status::Rejected(r) => Some(r@),
    }
}

/// Saturating `u128` subtraction, for receipt latencies.
pub open spec fn spec_sat_sub128(a: u128, b: u128) -> u128 {
    if a >= b {
        (a - b) as u128
    } else {
        0
    }
}

/// What a correct receipt list says about a serially applied batch.
pub open spec fn serial_receipts_ok(
    receipts: Seq<Receipt>,
    m0: Map<Seq<u8>, (u64, u64, u64)>,
    txs: Seq<Tx>,
    h: u64,
    now: u128,
) -> bool {
    &&& receipts.len() == txs.len()
    &&& forall|i: int|
        0 <= i < txs.len() ==> {
            let r = #[trigger] receipts[i];
            &&& r.tx_id@ == txs[i].id@
            &&& r.block_height == h
            &&& r.latency_ms == spec_sat_sub128(now, txs[i].submitted_unix_ms)
            &&& status_view(r.status) == if spec_tx_committed(m0, txs, h, i) {
                None::<Seq<char>>
            } else {
                Some("insufficient funds"@)
            }
        }
}

/// Bump a version, pinning at the maximum.
pub fn bump(v: u64) -> (r: u64)
    ensures
        r == spec_bump(v),
{
    if v == u64::MAX {
        v
    } else {
        v + 1
    }
}

/// Saturating balance addition.
pub fn sat_add(b: u64, a: u64) -> (r: u64)
    ensures
        r == spec_sat_add(b, a),
{
    if a > u64::MAX - b {
        u64::MAX
    } else {
        b + a
    }
}

/// Saturating `u128` subtraction.
pub fn sat_sub128(a: u128, b: u128) -> (r: u128)
    ensures
        r == spec_sat_sub128(a, b),
{
    if a >= b {
        a - b
    } else {
        0
    }
}

/// The rejection status for a debit the balance does not cover.
pub fn insufficient_status() -> (r: Status)
    ensures
        status_view(r) == Some("insufficient funds"@),
{
    Status::Rejected("insufficient funds".to_owned())
}

/// An entry of the account list maps to its triple.
proof fn lemma_map_lookup(s: Seq<AccountState>, i: int)
    requires
        wf_accounts(s),
        0 <= i < s.len(),
    ensures
        accounts_map(s).contains_key(s[i].addr@),
        accounts_map(s)[s[i].addr@] == vals_of(s[i]),
    decreases s.len(),
{
    if i < s.len() - 1 {
        assert(wf_accounts(s.drop_last()));
        lemma_map_lookup(s.drop_last(), i);
        assert(s[i].addr@ != s.last().addr@);
    }
}

/// An identifier on no entry is not in the map.
proof fn lemma_map_absent(s: Seq<AccountState>, a: Seq<u8>)
    requires
        forall|i: int| 0 <= i < s.len() ==> (#[trigger] s[i]).addr@ != a,
    ensures
        !accounts_map(s).contains_key(a),
    decreases s.len(),
{
    if s.len() > 0 {
        lemma_map_absent(s.drop_last(), a);
    }
}

/// Replacing the entry at `i` with one of the same identifier inserts
/// into the map.
proof fn lemma_map_update(s: Seq<AccountState>, i: int, x: AccountState)
    requires
        wf_accounts(s),
        0 <= i < s.len(),
        x.addr@ == s[i].addr@,
    ensures
        accounts_map(s.update(i, x)) == accounts_map(s).insert(x.addr@, vals_of(x)),
        wf_accounts(s.update(i, x)),
    decreases s.len(),
{
    let t = s.update(i, x);
    assert(forall|j: int| 0 <= j < s.len() && j != i ==> t[j] == s[j]);
    if i == s.len() - 1 {
        assert(t.drop_last() =~= s.drop_last());
        assert(accounts_map(t) =~= accounts_map(s).insert(x.addr@, vals_of(x)));
    } else {
        assert(t.drop_last() =~= s.drop_last().update(i, x));
        assert(wf_accounts(s.drop_last()));
        lemma_map_update(s.drop_last(), i, x);
        assert(s.last().addr@ != x.addr@);
        assert(t.last() == s.last());
        assert(accounts_map(t) =~= accounts_map(s).insert(x.addr@, vals_of(x)));
    }
}

/// Appending an entry with a fresh identifier inserts into the map.
proof fn lemma_map_push(s: Seq<AccountState>, x: AccountState)
    requires
        forall|i: int| 0 <= i < s.len() ==> (#[trigger] s[i]).addr@ != x.addr@,
    ensures
        accounts_map(s.push(x)) == accounts_map(s).insert(x.addr@, vals_of(x)),
        wf_accounts(s) ==> wf_accounts(s.push(x)),
{
    assert(s.push(x).drop_last() =~= s);
    assert(s.push(x).last() == x);
}

/// The operations every executor offers the node around it.
pub trait Executor {
    /// The standing invariant callers must maintain.
    spec fn inv(&self) -> bool;

    fn balance(&self, addr: &Vec<u8>) -> u64
        requires
            self.inv(),
    ;

    fn apply_batch_blocking(&mut self, batch: &Batch, block_height: u64) -> (receipts: Vec<
        Receipt,
    >)
        requires
            old(self).inv(),
        ensures
            final(self).inv(),
    ;

    fn last_height(&self) -> u64;

    fn snapshot(&self) -> Vec<AccountState>;

    fn diff_since(&self, since: u64) -> Vec<AccountState>;

    fn restore(&mut self, replace: bool, items: Vec<AccountState>)
        requires
            old(self).inv(),
        ensures
            final(self).inv(),
    ;
}

/// The serial executor: one ordered pass over each batch.
#[derive(Debug)]
pub struct SimpleExecutor {
    pub accounts: Vec<AccountState>,
    pub last_height: u64,
}

/// The genesis account identifier.
pub open spec fn alice_addr() -> Seq<u8> {
    seq![97u8, 108u8, 105u8, 99u8, 101u8]
}

impl SimpleExecutor {
    /// No account identifier stored twice.
    pub open spec fn wf(&self) -> bool {
        wf_accounts(self.accounts@)
    }

    /// The account map this executor holds.
    pub open spec fn view_map(&self) -> Map<Seq<u8>, (u64, u64, u64)> {
        accounts_map(self.accounts@)
    }

    /// A fresh executor: height 0, with the genesis account funded.
    pub fn new() -> (r: SimpleExecutor)
        ensures
            r.wf(),
            r.last_height == 0,
            r.view_map() == Map::<Seq<u8>, (u64, u64, u64)>::empty().insert(
                alice_addr(),
                (1u64, 1_000_000_000_000u64, 0u64),
            ),
    {
        let alice: Vec<u8> = vec![97u8, 108u8, 105u8, 99u8, 101u8];
        proof {
            assert(alice@ =~= alice_addr());
        }
        let mut r = SimpleExecutor { accounts: Vec::new(), last_height: 0 };
        r.credit(&alice, 1_000_000_000_000u64, 0);
        proof {
            assert(accounts_map(Seq::<AccountState>::empty()) =~= Map::<
                Seq<u8>,
                (u64, u64, u64),
            >::empty());
        }
        r
    }

    /// The position of the entry for `addr`, if it is stored.
    fn find_index(&self, addr: &Vec<u8>) -> (r: Option<usize>)
        ensures
            match r {
                Some(i) => i < self.accounts@.len() && self.accounts@[i as int].addr@ == addr@,
                None => forall|i: int|
                    0 <= i < self.accounts@.len() ==> (#[trigger] self.accounts@[i]).addr@
                        != addr@,
            },
    {
        let mut i: usize = 0;
        while i < self.accounts.len()
            invariant
                i <= self.accounts@.len(),
                forall|j: int| 0 <= j < i ==> (#[trigger] self.accounts@[j]).addr@ != addr@,
            decreases self.accounts@.len() - i,
        {
            if crate::bytes_util::bytes_eq(&self.accounts[i].addr, addr) {
                return Some(i);
            }
            i = i + 1;
        }
        None
    }

    /// The `(ver, bal, last_update_height)` of `addr`; zeroes if absent.
    pub fn lookup_vals(&self, addr: &Vec<u8>) -> (r: (u64, u64, u64))
        requires
            self.wf(),
        ensures
            r == spec_lookup(self.view_map(), addr@),
    {
        match self.find_index(addr) {
            Some(i) => {
                proof {
                    lemma_map_lookup(self.accounts@, i as int);
                }
                let a = &self.accounts[i];
                (a.ver, a.bal, a.last_update_height)
            },
            None => {
                proof {
                    lemma_map_absent(self.accounts@, addr@);
                }
                (0, 0, 0)
            },
        }
    }

    /// The stored triple for `addr`, or `None` when absent.
    pub fn get_vals(&self, addr: &Vec<u8>) -> (r: Option<(u64, u64, u64)>)
        requires
            self.wf(),
        ensures
            match r {
                Some(v) => self.view_map().contains_key(addr@) && v == self.view_map()[addr@],
                None => !self.view_map().contains_key(addr@),
            },
    {
        match self.find_index(addr) {
            Some(i) => {
                proof {
                    lemma_map_lookup(self.accounts@, i as int);
                }
                let a = &self.accounts[i];
                Some((a.ver, a.bal, a.last_update_height))
            },
            None => {
                proof {
                    lemma_map_absent(self.accounts@, addr@);
                }
                None
            },
        }
    }

    /// The balance of `addr`; zero if absent.
    pub fn balance(&self, addr: &Vec<u8>) -> (r: u64)
        requires
            self.wf(),
        ensures
            r == spec_lookup(self.view_map(), addr@).1,
    {
        self.lookup_vals(addr).1
    }

    /// Store `(v, b, h)` for `addr`, creating the entry if absent.
    fn upsert(&mut self, addr: &Vec<u8>, v: u64, b: u64, h: u64)
        requires
            old(self).wf(),
        ensures
            final(self).wf(),
            final(self).view_map() == old(self).view_map().insert(addr@, (v, b, h)),
            final(self).last_height == old(self).last_height,
    {
        let entry = AccountState { addr: copy_bytes(addr), ver: v, bal: b, last_update_height: h };
        let ghost s = self.accounts@;
        match self.find_index(addr) {
            Some(i) => {
                self.accounts[i] = entry;
                proof {
                    lemma_map_update(s, i as int, self.accounts@[i as int]);
                }
            },
            None => {
                self.accounts.push(entry);
                proof {
                    lemma_map_push(s, self.accounts@.last());
                }
            },
        }
    }

    /// Credit `amount` to `addr` at height `h`.
    fn credit(&mut self, addr: &Vec<u8>, amount: u64, h: u64)
        requires
            old(self).wf(),
        ensures
            final(self).wf(),
            final(self).view_map() == spec_credit(old(self).view_map(), addr@, amount, h),
            final(self).last_height == old(self).last_height,
    {
        let (v, b, _) = self.lookup_vals(addr);
        let nv = bump(v);
        let nb = sat_add(b, amount);
        self.upsert(addr, nv, nb, h);
    }

    /// Debit `amount` from `addr` at height `h`; `false` and no change
    /// when the balance does not cover it.
    fn debit(&mut self, addr: &Vec<u8>, amount: u64, h: u64) -> (r: bool)
        requires
            old(self).wf(),
        ensures
            final(self).wf(),
            final(self).last_height == old(self).last_height,
            match spec_debit(old(self).view_map(), addr@, amount, h) {
                Some(m1) => r && final(self).view_map() == m1,
                None => !r && *final(self) == *old(self),
            },
    {
        let (v, b, _) = self.lookup_vals(addr);
        if b >= amount {
            let nv = bump(v);
            self.upsert(addr, nv, b - amount, h);
            true
        } else {
            false
        }
    }

    /// Apply `batch` serially at `block_height`, stamping receipt
    /// latencies against `now`.
    pub fn apply_batch_at(&mut self, batch: &Batch, block_height: u64, now: u128) -> (receipts: Vec<
        Receipt,
    >)
        requires
            old(self).wf(),
        ensures
            final(self).wf(),
            final(self).last_height == block_height,
            final(self).view_map() == spec_apply_upto(
                old(self).view_map(),
                batch.txs@,
                block_height,
                batch.txs@.len() as int,
            ),
            serial_receipts_ok(
                receipts@,
                old(self).view_map(),
                batch.txs@,
                block_height,
                now,
            ),
    {
        self.last_height = block_height;
        let ghost m0 = self.view_map();
        let mut receipts: Vec<Receipt> = Vec::new();
        let mut i: usize = 0;
        while i < batch.txs.len()
            invariant
                i <= batch.txs@.len(),
                self.wf(),
                self.last_height == block_height,
                self.view_map() == spec_apply_upto(m0, batch.txs@, block_height, i as int),
                receipts@.len() == i,
                forall|j: int|
                    0 <= j < i ==> {
                        let r = #[trigger] receipts@[j];
                        &&& r.tx_id@ == batch.txs@[j].id@
                        &&& r.block_height == block_height
                        &&& r.latency_ms == spec_sat_sub128(now, batch.txs@[j].submitted_unix_ms)
                        &&& status_view(r.status) == if spec_tx_committed(
                            m0,
                            batch.txs@,
                            block_height,
                            j,
                        ) {
                            None::<Seq<char>>
                        } else {
                            Some("insufficient funds"@)
                        }
                    },
            decreases batch.txs@.len() - i,
        {
            let tx = &batch.txs[i];
            let ok = self.debit(&tx.transfer.from, tx.transfer.amount, block_height);
            let status: Status = if ok {
                self.credit(&tx.transfer.to, tx.transfer.amount, block_height);
                Status::Committed
            } else {
                insufficient_status()
            };
            let latency_ms = sat_sub128(now, tx.submitted_unix_ms);
            receipts.push(
                Receipt { tx_id: copy_bytes(&tx.id), status, block_height, latency_ms },
            );
            i = i + 1;
        }
        receipts
    }

    /// Apply `batch` serially at `block_height`, reading the clock for
    /// latencies.
    pub fn apply_batch_blocking(&mut self, batch: &Batch, block_height: u64) -> (receipts: Vec<
        Receipt,
    >)
        requires
            old(self).wf(),
        ensures
            final(self).wf(),
            final(self).last_height == block_height,
            final(self).view_map() == spec_apply_upto(
                old(self).view_map(),
                batch.txs@,
                block_height,
                batch.txs@.len() as int,
            ),
            exists|now: u128|
                serial_receipts_ok(
                    receipts@,
                    old(self).view_map(),
                    batch.txs@,
                    block_height,
                    now,
                ),
    {
        let now = now_ms();
        let receipts = self.apply_batch_at(batch, block_height, now);
        proof {
            assert(serial_receipts_ok(
                receipts@,
                old(self).view_map(),
                batch.txs@,
                block_height,
                now,
            ));
        }
        receipts
    }

    /// The last committed block height.
    pub fn last_height(&self) -> (r: u64)
        ensures
            r == self.last_height,
    {
        self.last_height
    }

    /// Every account, in storage order.
    pub fn snapshot(&self) -> (r: Vec<AccountState>)
        ensures
            r@.len() == self.accounts@.len(),
            forall|i: int|
                0 <= i < r@.len() ==> acct_view(#[trigger] r@[i]) == acct_view(
                    self.accounts@[i],
                ),
    {
        let mut out: Vec<AccountState> = Vec::new();
        let mut i: usize = 0;
        while i < self.accounts.len()
            invariant
                i <= self.accounts@.len(),
                out@.len() == i,
                forall|j: int|
                    0 <= j < i ==> acct_view(#[trigger] out@[j]) == acct_view(self.accounts@[j]),
            decreases self.accounts@.len() - i,
        {
            let a = &self.accounts[i];
            out.push(
                AccountState {
                    addr: copy_bytes(&a.addr),
                    ver: a.ver,
                    bal: a.bal,
                    last_update_height: a.last_update_height,
                },
            );
            i = i + 1;
        }
        out
    }

    /// The accounts last touched above height `since`, in storage order.
    pub fn diff_since(&self, since: u64) -> (r: Vec<AccountState>)
        ensures
            views_of(r@) == spec_diff(self.accounts@, since),
    {
        let mut out: Vec<AccountState> = Vec::new();
        let mut i: usize = 0;
        proof {
            assert(self.accounts@.take(0) =~= Seq::<AccountState>::empty());
        }
        while i < self.accounts.len()
            invariant
                i <= self.accounts@.len(),
                views_of(out@) == spec_diff(self.accounts@.take(i as int), since),
            decreases self.accounts@.len() - i,
        {
            let ghost prefix = self.accounts@.take(i as int);
            let a = &self.accounts[i];
            if a.last_update_height > since {
                out.push(
                    AccountState {
                        addr: copy_bytes(&a.addr),
                        ver: a.ver,
                        bal: a.bal,
                        last_update_height: a.last_update_height,
                    },
                );
            }
            i = i + 1;
            proof {
                assert(self.accounts@.take(i as int).drop_last() =~= prefix);
                assert(self.accounts@.take(i as int).last() == self.accounts@[i - 1]);
                assert(views_of(out@) =~= spec_diff(self.accounts@.take(i as int), since));
            }
        }
        proof {
            assert(self.accounts@.take(self.accounts@.len() as int) =~= self.accounts@);
        }
        out
    }

    /// Clear the accounts when `replace` is set, then upsert every item
    /// in order.
    pub fn restore(&mut self, replace: bool, items: Vec<AccountState>)
        requires
            old(self).wf(),
        ensures
            final(self).wf(),
            final(self).last_height == old(self).last_height,
            final(self).view_map() == spec_restore_map(
                if replace {
                    Map::<Seq<u8>, (u64, u64, u64)>::empty()
                } else {
                    old(self).view_map()
                },
                items@,
            ),
    {
        if replace {
            self.accounts.clear();
            proof {
                assert(accounts_map(Seq::<AccountState>::empty()) =~= Map::<
                    Seq<u8>,
                    (u64, u64, u64),
                >::empty());
            }
        }
        let ghost base = self.view_map();
        let mut i: usize = 0;
        proof {
            assert(items@.take(0) =~= Seq::<AccountState>::empty());
        }
        while i < items.len()
            invariant
                i <= items@.len(),
                self.wf(),
                self.last_height == old(self).last_height,
                self.view_map() == spec_restore_map(base, items@.take(i as int)),
            decreases items@.len() - i,
        {
            let ghost prefix = items@.take(i as int);
            let it = &items[i];
            self.upsert(&it.addr, it.ver, it.bal, it.last_update_height);
            i = i + 1;
            proof {
                assert(items@.take(i as int).drop_last() =~= prefix);
                assert(items@.take(i as int).last() == items@[i - 1]);
            }
        }
        proof {
            assert(items@.take(items@.len() as int) =~= items@);
        }
    }
}

impl Executor for SimpleExecutor {
    open spec fn inv(&self) -> bool {
        self.wf()
    }

    fn balance(&self, addr: &Vec<u8>) -> u64 {
        SimpleExecutor::balance(self, addr)
    }

    fn apply_batch_blocking(&mut self, batch: &Batch, block_height: u64) -> Vec<Receipt> {
        SimpleExecutor::apply_batch_blocking(self, batch, block_height)
    }

    fn last_height(&self) -> u64 {
        SimpleExecutor::last_height(self)
    }

    fn snapshot(&self) -> Vec<AccountState> {
        SimpleExecutor::snapshot(self)
    }

    fn diff_since(&self, since: u64) -> Vec<AccountState> {
        SimpleExecutor::diff_since(self, since)
    }

    fn restore(&mut self, replace: bool, items: Vec<AccountState>) {
        SimpleExecutor::restore(self, replace, items)
    }
}

impl Executor for BlockStmExecutor {
    open spec fn inv(&self) -> bool {
        self.wf()
    }

    fn balance(&self, addr: &Vec<u8>) -> u64 {
        BlockStmExecutor::balance(self, addr)
    }

    fn apply_batch_blocking(&mut self, batch: &Batch, block_height: u64) -> Vec<Receipt> {
        BlockStmExecutor::apply_batch_blocking(self, batch, block_height)
    }

    fn last_height(&self) -> u64 {
        BlockStmExecutor::last_height(self)
    }

    fn snapshot(&self) -> Vec<AccountState> {
        BlockStmExecutor::snapshot(self)
    }

    fn diff_since(&self, since: u64) -> Vec<AccountState> {
        BlockStmExecutor::diff_since(self, since)
    }

    fn restore(&mut self, replace: bool, items: Vec<AccountState>) {
        BlockStmExecutor::restore(self, replace, items)
    }
}

/// The views of the entries of an account list, in order.
pub open spec fn views_of(s: Seq<AccountState>) -> Seq<(Seq<u8>, u64, u64, u64)> {
    s.map_values(|a: AccountState| acct_view(a))
}

/// The views of the accounts last touched above `since`, in order.
pub open spec fn spec_diff(s: Seq<AccountState>, since: u64) -> Seq<(Seq<u8>, u64, u64, u64)>
    decreases s.len(),
{
    if s.len() == 0 {
        Seq::empty()
    } else {
        spec_diff(s.drop_last(), since) + if s.last().last_update_height > since {
            seq![acct_view(s.last())]
        } else {
            Seq::empty()
        }
    }
}

/// The map after upserting every item in order over `base`.
pub open spec fn spec_restore_map(
    base: Map<Seq<u8>, (u64, u64, u64)>,
    items: Seq<AccountState>,
) -> Map<Seq<u8>, (u64, u64, u64)>
    decreases items.len(),
{
    if items.len() == 0 {
        base
    } else {
        spec_restore_map(base, items.drop_last()).insert(
            items.last().addr@,
            vals_of(items.last()),
        )
    }
}

/// Restoring a snapshot over an emptied store rebuilds exactly the map
/// the snapshot was taken of: `restore(replace = true, snapshot())` is a
/// no-op on the account map.
pub proof fn lemma_restore_snapshot_noop(cur: Seq<AccountState>, items: Seq<AccountState>)
    requires
        items.len() == cur.len(),
        forall|i: int| 0 <= i < cur.len() ==> acct_view(#[trigger] items[i]) == acct_view(cur[i]),
    ensures
        spec_restore_map(Map::<Seq<u8>, (u64, u64, u64)>::empty(), items) == accounts_map(cur),
    decreases cur.len(),
{
    if cur.len() > 0 {
        assert(forall|i: int|
            0 <= i < cur.drop_last().len() ==> acct_view(#[trigger] items.drop_last()[i])
                == acct_view(cur.drop_last()[i]));
        lemma_restore_snapshot_noop(cur.drop_last(), items.drop_last());
        assert(acct_view(items.last()) == acct_view(cur.last()));
    }
}

/// How many debits-plus-credits the first `n` serially applied
/// transactions make to account `a`: a committed transfer debits its
/// sender once and credits its receiver once.
pub open spec fn spec_touches(
    m: Map<Seq<u8>, (u64, u64, u64)>,
    txs: Seq<Tx>,
    h: u64,
    a: Seq<u8>,
    n: int,
) -> int
    decreases n,
{
    if n <= 0 {
        0
    } else {
        let prev = spec_touches(m, txs, h, a, n - 1);
        if spec_tx_committed(m, txs, h, n - 1) {
            prev + (if txs[n - 1].transfer.from@ == a {
                1int
            } else {
                0int
            }) + (if txs[n - 1].transfer.to@ == a {
                1int
            } else {
                0int
            })
        } else {
            prev
        }
    }
}

/// An account's version counts the debits-plus-credits applied to it:
/// after serially applying `n` transactions, the version of `a` has
/// grown by exactly the number of debits and credits that touched it,
/// provided the count stays below the version cap.
pub proof fn lemma_ver_counts_touches(
    m: Map<Seq<u8>, (u64, u64, u64)>,
    txs: Seq<Tx>,
    h: u64,
    a: Seq<u8>,
    n: int,
)
    requires
        0 <= n <= txs.len(),
        spec_lookup(m, a).0 + spec_touches(m, txs, h, a, n) < u64::MAX,
    ensures
        spec_lookup(spec_apply_upto(m, txs, h, n), a).0 == spec_lookup(m, a).0 + spec_touches(
            m,
            txs,
            h,
            a,
            n,
        ),
    decreases n,
{
    if n > 0 {
        assert(spec_touches(m, txs, h, a, n - 1) <= spec_touches(m, txs, h, a, n)) by {
            lemma_touches_monotonic(m, txs, h, a, n);
        }
        lemma_ver_counts_touches(m, txs, h, a, n - 1);
    }
}

/// One more transaction never lowers the touch count.
proof fn lemma_touches_monotonic(
    m: Map<Seq<u8>, (u64, u64, u64)>,
    txs: Seq<Tx>,
    h: u64,
    a: Seq<u8>,
    n: int,
)
    requires
        n >= 1,
    ensures
        spec_touches(m, txs, h, a, n - 1) <= spec_touches(m, txs, h, a, n),
{
}

/// Account lists with the same entry views stand for the same map.
proof fn lemma_map_of_views(s1: Seq<AccountState>, s2: Seq<AccountState>)
    requires
        s1.len() == s2.len(),
        forall|i: int| 0 <= i < s1.len() ==> acct_view(#[trigger] s1[i]) == acct_view(s2[i]),
    ensures
        accounts_map(s1) == accounts_map(s2),
        wf_accounts(s2) ==> wf_accounts(s1),
    decreases s1.len(),
{
    if s1.len() > 0 {
        assert(forall|i: int|
            0 <= i < s1.drop_last().len() ==> acct_view(#[trigger] s1.drop_last()[i])
                == acct_view(s2.drop_last()[i]));
        lemma_map_of_views(s1.drop_last(), s2.drop_last());
        assert(acct_view(s1.last()) == acct_view(s2.last()));
        assert(accounts_map(s1) =~= accounts_map(s2));
    }
    if wf_accounts(s2) {
        assert forall|i: int, j: int| 0 <= i < j < s1.len() implies (#[trigger] s1[i]).addr@ != (
        #[trigger] s1[j]).addr@ by {
            assert(acct_view(s1[i]) == acct_view(s2[i]));
            assert(acct_view(s1[j]) == acct_view(s2[j]));
            assert(s2[i].addr@ != s2[j].addr@);
        }
    }
}

/// One optimistic attempt at a transfer, against snapshot `s_map` and
/// current map `m`: reject when the snapshot balance does not cover the
/// amount; apply both sides when neither account moved since the
/// snapshot and the current balance still covers it; otherwise leave the
/// transfer unfilled for the next round.
pub open spec fn opt_tx_step(
    s_map: Map<Seq<u8>, (u64, u64, u64)>,
    m: Map<Seq<u8>, (u64, u64, u64)>,
    t: Transfer,
    h: u64,
) -> (Map<Seq<u8>, (u64, u64, u64)>, Option<bool>) {
    let (sv_f, sb_f, _sh_f) = spec_lookup(s_map, t.from@);
    let (sv_t, sb_t, _sh_t) = spec_lookup(s_map, t.to@);
    if sb_f < t.amount {
        (m, Some(false))
    } else {
        let (cv_f, cb_f) = if m.contains_key(t.from@) {
            (m[t.from@].0, m[t.from@].1)
        } else {
            (sv_f, sb_f)
        };
        let (cv_t, cb_t) = if m.contains_key(t.to@) {
            (m[t.to@].0, m[t.to@].1)
        } else {
            (sv_t, sb_t)
        };
        if cv_f == sv_f && cv_t == sv_t && cb_f >= t.amount {
            let m1 = m.insert(t.from@, (spec_bump(cv_f), (cb_f - t.amount) as u64, h));
            let m2 = m1.insert(t.to@, (spec_bump(cv_t), spec_sat_add(cb_t, t.amount), h));
            (m2, Some(true))
        } else {
            (m, None)
        }
    }
}

/// One optimistic round over the first `n` transactions: finalized ones
/// are skipped, the rest attempted in order against the fixed snapshot.
pub open spec fn opt_round_upto(
    s_map: Map<Seq<u8>, (u64, u64, u64)>,
    m: Map<Seq<u8>, (u64, u64, u64)>,
    txs: Seq<Tx>,
    st: Seq<Option<bool>>,
    h: u64,
    n: int,
) -> (Map<Seq<u8>, (u64, u64, u64)>, Seq<Option<bool>>)
    decreases n,
{
    if n <= 0 {
        (m, st)
    } else {
        let (m1, st1) = opt_round_upto(s_map, m, txs, st, h, n - 1);
        if st1[n - 1] is Some {
            (m1, st1)
        } else {
            let (m2, s) = opt_tx_step(s_map, m1, txs[n - 1].transfer, h);
            (m2, st1.update(n - 1, s))
        }
    }
}

/// `rounds` optimistic rounds, each snapshotting the map it starts
/// from.
pub open spec fn opt_rounds(
    m: Map<Seq<u8>, (u64, u64, u64)>,
    txs: Seq<Tx>,
    st: Seq<Option<bool>>,
    h: u64,
    rounds: int,
) -> (Map<Seq<u8>, (u64, u64, u64)>, Seq<Option<bool>>)
    decreases rounds,
{
    if rounds <= 0 {
        (m, st)
    } else {
        let (m1, st1) = opt_rounds(m, txs, st, h, rounds - 1);
        opt_round_upto(m1, m1, txs, st1, h, txs.len() as int)
    }
}

/// All transactions start unfilled.
pub open spec fn none_st(n: int) -> Seq<Option<bool>> {
    Seq::new(n as nat, |i: int| None::<bool>)
}

/// What a correct receipt list says about an optimistically applied
/// batch: the outcome of each transaction is its slot after the last
/// round, with a still-unfilled transaction rejected for conflict.
pub open spec fn optimistic_receipts_ok(
    receipts: Seq<Receipt>,
    m0: Map<Seq<u8>, (u64, u64, u64)>,
    txs: Seq<Tx>,
    h: u64,
    now: u128,
    rounds: int,
) -> bool {
    let st = opt_rounds(m0, txs, none_st(txs.len() as int), h, rounds).1;
    &&& receipts.len() == txs.len()
    &&& forall|i: int|
        0 <= i < txs.len() ==> {
            let r = #[trigger] receipts[i];
            &&& r.tx_id@ == txs[i].id@
            &&& r.block_height == h
            &&& r.latency_ms == spec_sat_sub128(now, txs[i].submitted_unix_ms)
            &&& status_view(r.status) == match st[i] {
                Some(true) => None::<Seq<char>>,
                Some(false) => Some("insufficient funds"@),
                None => Some("conflict"@),
            }
        }
}

/// The rejection status for a transfer whose conflicts outlasted the
/// retry rounds.
pub fn conflict_status() -> (r: Status)
    ensures
        status_view(r) == Some("conflict"@),
{
    Status::Rejected("conflict".to_owned())
}

/// The finalization slots a partial receipt list stands for.
pub open spec fn st_of(receipts: Seq<Option<Receipt>>) -> Seq<Option<bool>> {
    receipts.map_values(
        |o: Option<Receipt>|
            match o {
                None => None::<bool>,
                Some(r) => Some(r.status is Committed),
            },
    )
}

/// The optimistic executor: bounded-retry parallel-style application
/// over the serial executor's account store.
#[derive(Debug)]
pub struct BlockStmExecutor {
    pub inner: SimpleExecutor,
    pub max_retries: usize,
}

impl BlockStmExecutor {
    pub open spec fn wf(&self) -> bool {
        self.inner.wf()
    }

    pub open spec fn view_map(&self) -> Map<Seq<u8>, (u64, u64, u64)> {
        self.inner.view_map()
    }

    /// Wrap a serial executor; five retry rounds.
    pub fn new(inner: SimpleExecutor) -> (r: BlockStmExecutor)
        ensures
            r.inner == inner,
            r.max_retries == 5,
    {
        BlockStmExecutor { inner, max_retries: 5 }
    }

    /// The balance of `addr`; zero if absent.
    pub fn balance(&self, addr: &Vec<u8>) -> (r: u64)
        requires
            self.wf(),
        ensures
            r == spec_lookup(self.view_map(), addr@).1,
    {
        self.inner.balance(addr)
    }

    /// Apply `batch` optimistically at `block_height`, stamping receipt
    /// latencies against `now`.
    pub fn apply_batch_at(&mut self, batch: &Batch, block_height: u64, now: u128) -> (receipts:
        Vec<Receipt>)
        requires
            old(self).wf(),
        ensures
            final(self).wf(),
            final(self).max_retries == old(self).max_retries,
            final(self).inner.last_height == block_height,
            final(self).view_map() == opt_rounds(
                old(self).view_map(),
                batch.txs@,
                none_st(batch.txs@.len() as int),
                block_height,
                old(self).max_retries as int,
            ).0,
            optimistic_receipts_ok(
                receipts@,
                old(self).view_map(),
                batch.txs@,
                block_height,
                now,
                old(self).max_retries as int,
            ),
    {
        let len = batch.txs.len();
        self.inner.last_height = block_height;
        let ghost m0 = self.view_map();
        let mut slots: Vec<Option<Receipt>> = Vec::new();
        let mut i0: usize = 0;
        while i0 < len
            invariant
                i0 <= len,
                slots@.len() == i0,
                forall|j: int| 0 <= j < i0 ==> slots@[j] is None,
            decreases len - i0,
        {
            slots.push(None);
            i0 = i0 + 1;
        }
        proof {
            assert(st_of(slots@) =~= none_st(len as int));
        }

        let mut round: usize = 0;
        while round < self.max_retries
            invariant
                round <= self.max_retries,
                self.wf(),
                self.inner.last_height == block_height,
                self.max_retries == old(self).max_retries,
                slots@.len() == batch.txs@.len(),
                len == batch.txs@.len(),
                (self.view_map(), st_of(slots@)) == opt_rounds(
                    m0,
                    batch.txs@,
                    none_st(len as int),
                    block_height,
                    round as int,
                ),
                slot_receipts_ok(slots@, batch.txs@, block_height, now),
            decreases self.max_retries - round,
        {
            let snap_list = self.inner.snapshot();
            let snap = SimpleExecutor { accounts: snap_list, last_height: 0 };
            proof {
                lemma_map_of_views(snap.accounts@, self.inner.accounts@);
            }
            let ghost round_m = self.view_map();
            let ghost round_st = st_of(slots@);
            let mut i: usize = 0;
            while i < len
                invariant
                    i <= len,
                    len == batch.txs@.len(),
                    self.wf(),
                    snap.wf(),
                    self.inner.last_height == block_height,
                    self.max_retries == old(self).max_retries,
                    snap.view_map() == round_m,
                    slots@.len() == len,
                    (self.view_map(), st_of(slots@)) == opt_round_upto(
                        round_m,
                        round_m,
                        batch.txs@,
                        round_st,
                        block_height,
                        i as int,
                    ),
                    slot_receipts_ok(slots@, batch.txs@, block_height, now),
                decreases len - i,
            {
                let ghost pre_m = self.view_map();
                let ghost pre_st = st_of(slots@);
                let tx = &batch.txs[i];
                if slots[i].is_none() {
                    let (sv_f, sb_f, _) = snap.lookup_vals(&tx.transfer.from);
                    let (sv_t, sb_t, _) = snap.lookup_vals(&tx.transfer.to);
                    if sb_f < tx.transfer.amount {
                        let latency_ms = sat_sub128(now, tx.submitted_unix_ms);
                        slots[i] = Some(
                            Receipt {
                                tx_id: copy_bytes(&tx.id),
                                status: insufficient_status(),
                                block_height,
                                latency_ms,
                            },
                        );
                    } else {
                        let (cv_f, cb_f) = match self.inner.get_vals(&tx.transfer.from) {
                            Some(v) => (v.0, v.1),
                            None => (sv_f, sb_f),
                        };
                        let (cv_t, cb_t) = match self.inner.get_vals(&tx.transfer.to) {
                            Some(v) => (v.0, v.1),
                            None => (sv_t, sb_t),
                        };
                        if cv_f == sv_f && cv_t == sv_t && cb_f >= tx.transfer.amount {
                            let nv_f = bump(cv_f);
                            let nb_f = cb_f - tx.transfer.amount;
                            self.inner.upsert(&tx.transfer.from, nv_f, nb_f, block_height);
                            let nv_t = bump(cv_t);
                            let nb_t = sat_add(cb_t, tx.transfer.amount);
                            self.inner.upsert(&tx.transfer.to, nv_t, nb_t, block_height);
                            let latency_ms = sat_sub128(now, tx.submitted_unix_ms);
                            slots[i] = Some(
                                Receipt {
                                    tx_id: copy_bytes(&tx.id),
                                    status: Status::Committed,
                                    block_height,
                                    latency_ms,
                                },
                            );
                        }
                    }
                }
                i = i + 1;
                proof {
                    assert(st_of(slots@) =~= opt_round_upto(
                        round_m,
                        round_m,
                        batch.txs@,
                        round_st,
                        block_height,
                        i as int,
                    ).1);
                }
            }
            round = round + 1;
        }

        // Anything still unfilled lost its retries: reject as a conflict.
        let mut receipts: Vec<Receipt> = Vec::new();
        let ghost final_st = st_of(slots@);
        let mut f: usize = 0;
        while f < len
            invariant
                f <= len,
                len == batch.txs@.len(),
                slots@.len() == len,
                final_st == st_of(slots@),
                slot_receipts_ok(slots@, batch.txs@, block_height, now),
                receipts@.len() == f,
                forall|j: int|
                    0 <= j < f ==> {
                        let r = #[trigger] receipts@[j];
                        &&& r.tx_id@ == batch.txs@[j].id@
                        &&& r.block_height == block_height
                        &&& r.latency_ms == spec_sat_sub128(
                            now,
                            batch.txs@[j].submitted_unix_ms,
                        )
                        &&& status_view(r.status) == match final_st[j] {
                            Some(true) => None::<Seq<char>>,
                            Some(false) => Some("insufficient funds"@),
                            None => Some("conflict"@),
                        }
                    },
            decreases len - f,
        {
            let tx = &batch.txs[f];
            let latency_ms = sat_sub128(now, tx.submitted_unix_ms);
            match &slots[f] {
                Some(r) => {
                    receipts.push(
                        Receipt {
                            tx_id: copy_bytes(&r.tx_id),
                            status: match &r.status {
                                Status::Committed => Status::Committed,
                                Status::Rejected(_) => insufficient_status(),
                            },
                            block_height: r.block_height,
                            latency_ms: r.latency_ms,
                        },
                    );
                },
                None => {
                    receipts.push(
                        Receipt {
                            tx_id: copy_bytes(&tx.id),
                            status: conflict_status(),
                            block_height,
                            latency_ms,
                        },
                    );
                },
            }
            f = f + 1;
        }
        receipts
    }

    /// Apply `batch` optimistically at `block_height`, reading the clock
    /// for latencies.
    pub fn apply_batch_blocking(&mut self, batch: &Batch, block_height: u64) -> (receipts: Vec<
        Receipt,
    >)
        requires
            old(self).wf(),
        ensures
            final(self).wf(),
            final(self).max_retries == old(self).max_retries,
            final(self).inner.last_height == block_height,
            final(self).view_map() == opt_rounds(
                old(self).view_map(),
                batch.txs@,
                none_st(batch.txs@.len() as int),
                block_height,
                old(self).max_retries as int,
            ).0,
            exists|now: u128|
                optimistic_receipts_ok(
                    receipts@,
                    old(self).view_map(),
                    batch.txs@,
                    block_height,
                    now,
                    old(self).max_retries as int,
                ),
    {
        let now = now_ms();
        let receipts = self.apply_batch_at(batch, block_height, now);
        proof {
            assert(optimistic_receipts_ok(
                receipts@,
                old(self).view_map(),
                batch.txs@,
                block_height,
                now,
                old(self).max_retries as int,
            ));
        }
        receipts
    }

    /// The last committed block height.
    pub fn last_height(&self) -> (r: u64)
        ensures
            r == self.inner.last_height,
    {
        self.inner.last_height()
    }

    /// Every account, in storage order.
    pub fn snapshot(&self) -> (r: Vec<AccountState>)
        ensures
            r@.len() == self.inner.accounts@.len(),
            forall|i: int|
                0 <= i < r@.len() ==> acct_view(#[trigger] r@[i]) == acct_view(
                    self.inner.accounts@[i],
                ),
    {
        self.inner.snapshot()
    }

    /// The accounts last touched above height `since`.
    pub fn diff_since(&self, since: u64) -> (r: Vec<AccountState>)
        ensures
            views_of(r@) == spec_diff(self.inner.accounts@, since),
    {
        self.inner.diff_since(since)
    }

    /// Clear when `replace` is set, then upsert every item in order.
    pub fn restore(&mut self, replace: bool, items: Vec<AccountState>)
        requires
            old(self).wf(),
        ensures
            final(self).wf(),
            final(self).view_map() == spec_restore_map(
                if replace {
                    Map::<Seq<u8>, (u64, u64, u64)>::empty()
                } else {
                    old(self).view_map()
                },
                items@,
            ),
    {
        self.inner.restore(replace, items);
    }
}

/// The transfers of `txs` touch pairwise disjoint account pairs, and no
/// transfer pays its own sender.
pub open spec fn independent_txs(txs: Seq<Tx>) -> bool {
    &&& forall|i: int|
        0 <= i < txs.len() ==> (#[trigger] txs[i]).transfer.from@ != txs[i].transfer.to@
    &&& forall|i: int, j: int|
        0 <= i < txs.len() && 0 <= j < txs.len() && i != j ==> {
            let a = (#[trigger] txs[i]).transfer;
            let b = (#[trigger] txs[j]).transfer;
            &&& a.from@ != b.from@
            &&& a.from@ != b.to@
            &&& a.to@ != b.from@
            &&& a.to@ != b.to@
        }
}

/// Serial application leaves accounts that none of the first `n`
/// transfers name untouched.
proof fn lemma_apply_upto_frame(
    m: Map<Seq<u8>, (u64, u64, u64)>,
    txs: Seq<Tx>,
    h: u64,
    n: int,
    a: Seq<u8>,
)
    requires
        0 <= n <= txs.len(),
        forall|j: int|
            0 <= j < n ==> (#[trigger] txs[j]).transfer.from@ != a && txs[j].transfer.to@ != a,
    ensures
        spec_apply_upto(m, txs, h, n).contains_key(a) == m.contains_key(a),
        spec_lookup(spec_apply_upto(m, txs, h, n), a) == spec_lookup(m, a),
    decreases n,
{
    if n > 0 {
        lemma_apply_upto_frame(m, txs, h, n - 1, a);
    }
}

/// A round over fully finalized transactions changes nothing.
proof fn lemma_round_noop(
    s_map: Map<Seq<u8>, (u64, u64, u64)>,
    m: Map<Seq<u8>, (u64, u64, u64)>,
    txs: Seq<Tx>,
    st: Seq<Option<bool>>,
    h: u64,
    n: int,
)
    requires
        0 <= n <= txs.len(),
        st.len() == txs.len(),
        forall|i: int| 0 <= i < st.len() ==> (#[trigger] st[i]) is Some,
    ensures
        opt_round_upto(s_map, m, txs, st, h, n) == (m, st),
    decreases n,
{
    if n > 0 {
        lemma_round_noop(s_map, m, txs, st, h, n - 1);
    }
}

/// The first optimistic round over independent transfers finalizes each
/// one exactly as serial application does.
proof fn lemma_first_round_matches(
    m: Map<Seq<u8>, (u64, u64, u64)>,
    txs: Seq<Tx>,
    h: u64,
    n: int,
)
    requires
        independent_txs(txs),
        0 <= n <= txs.len(),
    ensures
        opt_round_upto(m, m, txs, none_st(txs.len() as int), h, n).0 == spec_apply_upto(
            m,
            txs,
            h,
            n,
        ),
        opt_round_upto(m, m, txs, none_st(txs.len() as int), h, n).1.len() == txs.len(),
        forall|i: int|
            0 <= i < txs.len() ==> opt_round_upto(m, m, txs, none_st(txs.len() as int), h, n).1[i]
                == if i < n {
                Some(spec_tx_committed(m, txs, h, i))
            } else {
                None::<bool>
            },
    decreases n,
{
    if n > 0 {
        lemma_first_round_matches(m, txs, h, n - 1);
        let m1 = opt_round_upto(m, m, txs, none_st(txs.len() as int), h, n - 1).0;
        let t = txs[n - 1].transfer;
        assert forall|j: int| 0 <= j < n - 1 implies (#[trigger] txs[j]).transfer.from@ != t.from@
            && txs[j].transfer.to@ != t.from@ by {
            assert(independent_txs(txs));
        }
        lemma_apply_upto_frame(m, txs, h, n - 1, t.from@);
        assert forall|j: int| 0 <= j < n - 1 implies (#[trigger] txs[j]).transfer.from@ != t.to@
            && txs[j].transfer.to@ != t.to@ by {
            assert(independent_txs(txs));
        }
        lemma_apply_upto_frame(m, txs, h, n - 1, t.to@);
        assert(m1 == spec_apply_upto(m, txs, h, n - 1));
        assert(spec_lookup(m1, t.from@) == spec_lookup(m, t.from@));
        assert(spec_lookup(m1, t.to@) == spec_lookup(m, t.to@));
    }
}

/// Serial and optimistic execution agree on batches of independent
/// transfers: started from the same accounts, they finalize every
/// transaction with the same outcome and end in the same account map,
/// with no transaction left to a conflict rejection.
pub proof fn lemma_optimistic_matches_serial(
    m: Map<Seq<u8>, (u64, u64, u64)>,
    txs: Seq<Tx>,
    h: u64,
    rounds: int,
)
    requires
        independent_txs(txs),
        rounds >= 1,
    ensures
        opt_rounds(m, txs, none_st(txs.len() as int), h, rounds).0 == spec_apply_upto(
            m,
            txs,
            h,
            txs.len() as int,
        ),
        opt_rounds(m, txs, none_st(txs.len() as int), h, rounds).1.len() == txs.len(),
        forall|i: int|
            0 <= i < txs.len() ==> opt_rounds(m, txs, none_st(txs.len() as int), h, rounds).1[i]
                == Some(spec_tx_committed(m, txs, h, i)),
    decreases rounds,
{
    let st0 = none_st(txs.len() as int);
    if rounds == 1 {
        assert(opt_rounds(m, txs, st0, h, 0) == (m, st0));
        lemma_first_round_matches(m, txs, h, txs.len() as int);
        assert(opt_rounds(m, txs, st0, h, 1) == opt_round_upto(m, m, txs, st0, h, txs.len() as int));
    } else {
        lemma_optimistic_matches_serial(m, txs, h, rounds - 1);
        let prior = opt_rounds(m, txs, st0, h, rounds - 1);
        assert(prior.1.len() == txs.len());
        assert(forall|i: int| 0 <= i < prior.1.len() ==> (#[trigger] prior.1[i]) is Some);
        lemma_round_noop(prior.0, prior.0, txs, prior.1, h, txs.len() as int);
        assert(opt_rounds(m, txs, st0, h, rounds) == opt_round_upto(
            prior.0,
            prior.0,
            txs,
            prior.1,
            h,
            txs.len() as int,
        ));
    }
}

/// Every transfer of `txs` is sent by account `a`, and none pays `a`.
pub open spec fn all_from(txs: Seq<Tx>, a: Seq<u8>) -> bool {
    forall|i: int|
        0 <= i < txs.len() ==> (#[trigger] txs[i]).transfer.from@ == a && txs[i].transfer.to@ != a
}

/// With a single sender that is never credited, the sender's balance
/// never rises along serial application.
proof fn lemma_sender_balance_monotone(
    m: Map<Seq<u8>, (u64, u64, u64)>,
    txs: Seq<Tx>,
    h: u64,
    a: Seq<u8>,
    p: int,
    q: int,
)
    requires
        all_from(txs, a),
        0 <= p <= q <= txs.len(),
    ensures
        spec_lookup(spec_apply_upto(m, txs, h, q), a).1 <= spec_lookup(
            spec_apply_upto(m, txs, h, p),
            a,
        ).1,
    decreases q - p,
{
    if q > p {
        lemma_sender_balance_monotone(m, txs, h, a, p, q - 1);
    }
}

/// The touch count of any account over `n` transactions is at most `2n`.
proof fn lemma_touches_bound(
    m: Map<Seq<u8>, (u64, u64, u64)>,
    txs: Seq<Tx>,
    h: u64,
    a: Seq<u8>,
    n: int,
)
    requires
        n >= 0,
    ensures
        spec_touches(m, txs, h, a, n) <= 2 * n,
        spec_touches(m, txs, h, a, n) >= 0,
    decreases n,
{
    if n > 0 {
        lemma_touches_bound(m, txs, h, a, n - 1);
    }
}

/// The first serially committed transaction at or after `p`, or the
/// batch length when none remains.
pub open spec fn next_commit(m: Map<Seq<u8>, (u64, u64, u64)>, txs: Seq<Tx>, h: u64, p: int) -> int
    decreases txs.len() - p,
{
    if p >= txs.len() {
        txs.len() as int
    } else if spec_tx_committed(m, txs, h, p) {
        p
    } else {
        next_commit(m, txs, h, p + 1)
    }
}

/// Between `p` and the next commit nothing commits; at the next commit,
/// something does.
proof fn lemma_next_commit_facts(m: Map<Seq<u8>, (u64, u64, u64)>, txs: Seq<Tx>, h: u64, p: int)
    requires
        0 <= p <= txs.len(),
    ensures
        p <= next_commit(m, txs, h, p),
        next_commit(m, txs, h, p) <= txs.len(),
        forall|t: int| p <= t < next_commit(m, txs, h, p) ==> !spec_tx_committed(m, txs, h, t),
        next_commit(m, txs, h, p) < txs.len() ==> spec_tx_committed(
            m,
            txs,
            h,
            next_commit(m, txs, h, p),
        ),
    decreases txs.len() - p,
{
    if p < txs.len() && !spec_tx_committed(m, txs, h, p) {
        lemma_next_commit_facts(m, txs, h, p + 1);
    }
}

/// Rejected transactions leave the serial map untouched.
proof fn lemma_apply_constant(m: Map<Seq<u8>, (u64, u64, u64)>, txs: Seq<Tx>, h: u64, p: int, q: int)
    requires
        0 <= p <= q <= txs.len(),
        forall|t: int| p <= t < q ==> !spec_tx_committed(m, txs, h, t),
    ensures
        spec_apply_upto(m, txs, h, q) == spec_apply_upto(m, txs, h, p),
    decreases q - p,
{
    if q > p {
        lemma_apply_constant(m, txs, h, p, q - 1);
        assert(!spec_tx_committed(m, txs, h, q - 1));
        assert(spec_apply_upto(m, txs, h, q) == spec_apply_transfer(
            spec_apply_upto(m, txs, h, q - 1),
            txs[q - 1].transfer,
            h,
        ).0);
        assert(!spec_apply_transfer(spec_apply_upto(m, txs, h, q - 1), txs[q - 1].transfer, h).1);
    }
}

/// One optimistic round over a single-sender batch, from slots whose
/// first `p` entries are finalized with their serial outcome and whose
/// later rejections are all justified by the round's snapshot: the round
/// commits exactly the next serially committed transfer, rejects every
/// later one the snapshot cannot afford, and leaves the rest open.
proof fn lemma_chain_round_gen(
    m: Map<Seq<u8>, (u64, u64, u64)>,
    txs: Seq<Tx>,
    h: u64,
    a: Seq<u8>,
    p: int,
    st0: Seq<Option<bool>>,
    i: int,
)
    requires
        all_from(txs, a),
        spec_lookup(m, a).0 + 2 * txs.len() < u64::MAX,
        0 <= p <= txs.len(),
        st0.len() == txs.len(),
        forall|j: int| 0 <= j < p ==> st0[j] == Some(spec_tx_committed(m, txs, h, j)),
        forall|j: int|
            p <= j < txs.len() ==> st0[j] is None || (st0[j] == Some(false) && spec_lookup(
                spec_apply_upto(m, txs, h, p),
                a,
            ).1 < txs[j].transfer.amount),
        0 <= i <= txs.len(),
    ensures
        ({
            let c = next_commit(m, txs, h, p);
            let s_map = spec_apply_upto(m, txs, h, p);
            let r = opt_round_upto(s_map, s_map, txs, st0, h, i);
            &&& (i <= c ==> r.0 == s_map)
            &&& (i > c ==> r.0 == spec_apply_upto(m, txs, h, c + 1))
            &&& r.1.len() == txs.len()
            &&& forall|j: int| i <= j < txs.len() ==> r.1[j] == st0[j]
            &&& forall|j: int| 0 <= j < i && j < p ==> r.1[j] == st0[j]
            &&& forall|j: int| p <= j < i && j < c ==> r.1[j] == Some(false)
            &&& (c < i ==> r.1[c] == Some(true))
            &&& forall|j: int|
                c < j < i ==> r.1[j] == (if spec_lookup(s_map, a).1 < txs[j].transfer.amount {
                    Some(false)
                } else {
                    None::<bool>
                })
        }),
    decreases i,
{
    let c = next_commit(m, txs, h, p);
    let s_map = spec_apply_upto(m, txs, h, p);
    lemma_next_commit_facts(m, txs, h, p);
    if i > 0 {
        lemma_chain_round_gen(m, txs, h, a, p, st0, i - 1);
        let prev = opt_round_upto(s_map, s_map, txs, st0, h, i - 1);
        let j = i - 1;
        let t = txs[j].transfer;
        if j < p {
            // already finalized before the round: skipped
            assert(prev.1[j] == st0[j]);
            assert(st0[j] is Some);
        } else if j < c {
            // not serially committed yet: the snapshot cannot afford it
            lemma_apply_constant(m, txs, h, p, j);
            assert(!spec_tx_committed(m, txs, h, j));
            assert(spec_lookup(s_map, a).1 < t.amount);
            if st0[j] is None {
                assert(prev.1[j] == st0[j]);
                assert(opt_tx_step(s_map, prev.0, t, h) == (prev.0, Some(false)));
            }
        } else if j == c {
            // the next serial commit: snapshot and current map agree
            lemma_apply_constant(m, txs, h, p, c);
            assert(spec_tx_committed(m, txs, h, c));
            assert(spec_lookup(s_map, a).1 >= t.amount);
            assert(st0[c as int] is None);
            assert(prev.1[j] == st0[j]);
            assert(prev.0 == s_map);
            let step = opt_tx_step(s_map, s_map, t, h);
            assert(step.0 == spec_apply_upto(m, txs, h, c + 1) && step.1 == Some(true)) by {
                assert(spec_apply_transfer(s_map, t, h).1);
            }
        } else {
            // past the round's commit: rejected by the snapshot or left
            // open by the sender's moved version
            assert(prev.0 == spec_apply_upto(m, txs, h, c + 1));
            if st0[j] is None {
                assert(prev.1[j] == st0[j]);
                if spec_lookup(s_map, a).1 < t.amount {
                    assert(opt_tx_step(s_map, prev.0, t, h) == (prev.0, Some(false)));
                } else {
                    lemma_apply_constant(m, txs, h, p, c);
                    lemma_touches_bound(m, txs, h, a, c);
                    lemma_ver_counts_touches(m, txs, h, a, c);
                    let v_c = spec_lookup(s_map, a).0;
                    assert(v_c < u64::MAX);
                    assert(spec_tx_committed(m, txs, h, c));
                    assert(spec_lookup(prev.0, a).0 == spec_bump(v_c));
                    assert(spec_bump(v_c) == v_c + 1);
                    assert(opt_tx_step(s_map, prev.0, t, h) == (prev.0, None::<bool>));
                }
            } else {
                assert(st0[j] == Some(false) && spec_lookup(s_map, a).1 < t.amount);
            }
        }
    }
}

/// The finalized prefix after each optimistic round over a single-sender
/// batch: past the committed transfers of the earlier rounds.
pub open spec fn chain_frontier(m: Map<Seq<u8>, (u64, u64, u64)>, txs: Seq<Tx>, h: u64, r: int) -> int
    decreases r,
{
    if r <= 0 {
        0
    } else {
        let c = next_commit(m, txs, h, chain_frontier(m, txs, h, r - 1));
        if c < txs.len() {
            c + 1
        } else {
            txs.len() as int
        }
    }
}

/// The frontier is within the batch and grows by at least one committed
/// transfer per round until it covers the batch.
proof fn lemma_frontier_bounds(m: Map<Seq<u8>, (u64, u64, u64)>, txs: Seq<Tx>, h: u64, r: int)
    requires
        r >= 0,
    ensures
        0 <= chain_frontier(m, txs, h, r) <= txs.len(),
        chain_frontier(m, txs, h, r) >= r || chain_frontier(m, txs, h, r) == txs.len(),
        r >= 1 ==> chain_frontier(m, txs, h, r) >= chain_frontier(m, txs, h, r - 1),
    decreases r,
{
    if r > 0 {
        lemma_frontier_bounds(m, txs, h, r - 1);
        lemma_next_commit_facts(m, txs, h, chain_frontier(m, txs, h, r - 1));
    }
}

/// After `r` rounds over a single-sender batch, the map is the serial
/// map of the frontier prefix, everything before the frontier holds its
/// serial outcome, and later slots are open or rejected consistently
/// with the frontier's balance.
proof fn lemma_chain_rounds_gen(
    m: Map<Seq<u8>, (u64, u64, u64)>,
    txs: Seq<Tx>,
    h: u64,
    a: Seq<u8>,
    r: int,
)
    requires
        all_from(txs, a),
        spec_lookup(m, a).0 + 2 * txs.len() < u64::MAX,
        r >= 0,
    ensures
        ({
            let fr = chain_frontier(m, txs, h, r);
            let st = opt_rounds(m, txs, none_st(txs.len() as int), h, r);
            &&& st.0 == spec_apply_upto(m, txs, h, fr)
            &&& st.1.len() == txs.len()
            &&& forall|i: int| 0 <= i < fr ==> st.1[i] == Some(spec_tx_committed(m, txs, h, i))
            &&& forall|i: int|
                fr <= i < txs.len() ==> st.1[i] is None || (st.1[i] == Some(false) && spec_lookup(
                    spec_apply_upto(m, txs, h, fr),
                    a,
                ).1 < txs[i].transfer.amount)
        }),
    decreases r,
{
    let l = txs.len() as int;
    let fr = chain_frontier(m, txs, h, r);
    lemma_frontier_bounds(m, txs, h, r);
    if r == 0 {
        assert(opt_rounds(m, txs, none_st(l), h, 0) == (m, none_st(l)));
    } else {
        lemma_chain_rounds_gen(m, txs, h, a, r - 1);
        let p = chain_frontier(m, txs, h, r - 1);
        lemma_frontier_bounds(m, txs, h, r - 1);
        let c = next_commit(m, txs, h, p);
        lemma_next_commit_facts(m, txs, h, p);
        let prior = opt_rounds(m, txs, none_st(l), h, r - 1);
        lemma_chain_round_gen(m, txs, h, a, p, prior.1, l);
        assert(opt_rounds(m, txs, none_st(l), h, r) == opt_round_upto(
            prior.0,
            prior.0,
            txs,
            prior.1,
            h,
            l,
        ));
        let st = opt_rounds(m, txs, none_st(l), h, r);
        if c < l {
            assert(fr == c + 1);
            assert(st.0 == spec_apply_upto(m, txs, h, fr));
            assert forall|i: int| 0 <= i < fr implies st.1[i] == Some(
                spec_tx_committed(m, txs, h, i),
            ) by {
                if i < p {
                    assert(st.1[i] == prior.1[i]);
                    assert(prior.1[i] == Some(spec_tx_committed(m, txs, h, i)));
                } else if i < c {
                    assert(st.1[i] == Some(false));
                    assert(!spec_tx_committed(m, txs, h, i));
                } else {
                    assert(i == c);
                    assert(st.1[i] == Some(true));
                    assert(spec_tx_committed(m, txs, h, c));
                }
            }
            assert forall|i: int| fr <= i < l implies st.1[i] is None || (st.1[i] == Some(false)
                && spec_lookup(spec_apply_upto(m, txs, h, fr), a).1
                < txs[i].transfer.amount) by {
                if st.1[i] == Some(false) {
                    assert(spec_lookup(spec_apply_upto(m, txs, h, p), a).1
                        < txs[i].transfer.amount);
                    lemma_sender_balance_monotone(m, txs, h, a, p, fr);
                }
            }
        } else {
            // no commit remains: every open transfer is rejected this round
            assert(c == l && fr == l);
            lemma_apply_constant(m, txs, h, p, l);
            assert(st.0 == spec_apply_upto(m, txs, h, fr));
            assert forall|i: int| 0 <= i < fr implies st.1[i] == Some(
                spec_tx_committed(m, txs, h, i),
            ) by {
                if i >= p {
                    assert(st.1[i] == Some(false));
                    assert(!spec_tx_committed(m, txs, h, i));
                } else {
                    assert(st.1[i] == prior.1[i]);
                    assert(prior.1[i] == Some(spec_tx_committed(m, txs, h, i)));
                }
            }
        }
    }
}

/// Serial and optimistic execution agree on single-sender batches, as
/// long as the batch fits in the retry rounds: the optimistic executor
/// commits one conflicting transfer per round, in serial order, rejects
/// exactly what serial application rejects, and ends in the serial
/// account map with every transaction finalized to its serial outcome.
pub proof fn lemma_optimistic_matches_serial_chain(
    m: Map<Seq<u8>, (u64, u64, u64)>,
    txs: Seq<Tx>,
    h: u64,
    a: Seq<u8>,
    rounds: int,
)
    requires
        all_from(txs, a),
        spec_lookup(m, a).0 + 2 * txs.len() < u64::MAX,
        rounds >= txs.len(),
        rounds >= 1,
    ensures
        opt_rounds(m, txs, none_st(txs.len() as int), h, rounds).0 == spec_apply_upto(
            m,
            txs,
            h,
            txs.len() as int,
        ),
        opt_rounds(m, txs, none_st(txs.len() as int), h, rounds).1.len() == txs.len(),
        forall|i: int|
            0 <= i < txs.len() ==> opt_rounds(m, txs, none_st(txs.len() as int), h, rounds).1[i]
                == Some(spec_tx_committed(m, txs, h, i)),
{
    lemma_chain_rounds_gen(m, txs, h, a, rounds);
    lemma_frontier_bounds(m, txs, h, rounds);
    assert(chain_frontier(m, txs, h, rounds) == txs.len());
}

/// Every filled slot carries the right id, height and latency, and a
/// status that is either committed or the insufficient-funds rejection.
pub open spec fn slot_receipts_ok(
    slots: Seq<Option<Receipt>>,
    txs: Seq<Tx>,
    h: u64,
    now: u128,
) -> bool {
    forall|j: int|
        0 <= j < slots.len() ==> match #[trigger] slots[j] {
            Some(r) => {
                &&& r.tx_id@ == txs[j].id@
                &&& r.block_height == h
                &&& r.latency_ms == spec_sat_sub128(now, txs[j].submitted_unix_ms)
                &&& (r.status is Committed || status_view(r.status) == Some("insufficient funds"@))
            },
            None => true,
        }
}

} // verus!
