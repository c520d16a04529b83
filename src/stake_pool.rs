//! The stake pool: deposits that back spending capacity, and the fees that
//! their stakers accumulate.
use vstd::prelude::*;

use crate::error::Error;
use crate::util::copy_vec;

verus! {

/// The smallest spending limit a stake may carry.
pub const MIN_STAKE: i128 = 1_000_000;

/// The largest spending limit a stake may carry.
pub const MAX_STAKE: i128 = 100_000_000;

/// One staker's deposit. Deactivated, never deleted, on unstake.
#[derive(Debug, Clone, Copy, PartialEq, Eq, Structural)]
pub struct Stake {
    pub staker: u64,
    pub spending_limit: i128,
    pub time_bound: u64,
    pub staked_at: u64,
    pub accumulated_fees: i128,
    pub is_active: bool,
}

/// The pool's abstract state.
pub ghost struct PoolLedger {
    pub registry: Option<u64>,
    /// Stake records in order of creation, at most one per staker.
    pub stakes: Seq<Stake>,
    /// Stakers with an active stake, in order of staking.
    pub active: Seq<u64>,
    pub total_capacity: int,
}

/// The stake pool.
pub struct IdentityPoolContract {
    registry: Option<u64>,
    stakes: Vec<Stake>,
    active: Vec<u64>,
    total_capacity: i128,
}

/// Index of the record of `who` in `stakes`, or -1.
pub open spec fn stake_index(stakes: Seq<Stake>, who: u64) -> int
    decreases stakes.len(),
{
    if stakes.len() == 0 {
        -1
    } else if stakes.last().staker == who {
        stakes.len() - 1
    } else {
        stake_index(stakes.drop_last(), who)
    }
}

pub open spec fn has_stake(l: PoolLedger, who: u64) -> bool {
    stake_index(l.stakes, who) >= 0
}

pub open spec fn stake_of(l: PoolLedger, who: u64) -> Stake {
    l.stakes[stake_index(l.stakes, who)]
}

/// What an active record contributes to the capacity.
pub open spec fn backing(s: Stake) -> int {
    if s.is_active {
        s.spending_limit as int
    } else {
        0
    }
}

/// The sum of the spending limits of the active records.
pub open spec fn capacity_of(stakes: Seq<Stake>) -> int
    decreases stakes.len(),
{
    if stakes.len() == 0 {
        0
    } else {
        capacity_of(stakes.drop_last()) + backing(stakes.last())
    }
}

/// `s` without its first occurrence of `x`.
pub open spec fn remove_first(s: Seq<u64>, x: u64) -> Seq<u64>
    decreases s.len(),
{
    if s.len() == 0 {
        s
    } else if s[0] == x {
        s.subrange(1, s.len() as int)
    } else {
        seq![s[0]] + remove_first(s.subrange(1, s.len() as int), x)
    }
}

pub open spec fn in_bounds(limit: int) -> bool {
    MIN_STAKE <= limit <= MAX_STAKE
}

/// No two records belong to the same staker.
pub open spec fn one_record_each(stakes: Seq<Stake>) -> bool {
    forall|i: int, j: int|
        0 <= i < stakes.len() && 0 <= j < stakes.len() && i != j ==> (#[trigger] stakes[i]).staker
            != (#[trigger] stakes[j]).staker
}

/// Whether `who` has an active record.
pub open spec fn has_active_record(stakes: Seq<Stake>, who: u64) -> bool {
    exists|i: int| 0 <= i < stakes.len() && (#[trigger] stakes[i]).staker == who && stakes[i].is_active
}

/// The active list holds, once each, exactly the stakers whose record is
/// active.
pub open spec fn active_list_exact(l: PoolLedger) -> bool {
    &&& forall|a: int, b: int|
        0 <= a < l.active.len() && 0 <= b < l.active.len() && a != b ==> #[trigger] l.active[a]
            != #[trigger] l.active[b]
    &&& forall|k: int| 0 <= k < l.active.len() ==> has_active_record(l.stakes, #[trigger] l.active[k])
    &&& forall|i: int|
        0 <= i < l.stakes.len() && (#[trigger] l.stakes[i]).is_active ==> l.active.contains(
            l.stakes[i].staker,
        )
}

/// The pool's invariant: nothing is staked before initialization, there is
/// one record per staker, the active list matches the active records, every
/// limit is in bounds and the capacity is the sum of the active limits.
pub open spec fn pool_wf(l: PoolLedger) -> bool {
    &&& one_record_each(l.stakes)
    &&& active_list_exact(l)
    &&& l.registry is None ==> l.stakes.len() == 0 && l.active.len() == 0
    &&& forall|i: int| 0 <= i < l.stakes.len() ==> in_bounds(#[trigger] l.stakes[i].spending_limit as int)
    &&& l.total_capacity == capacity_of(l.stakes)
}

/// The state after a successful stake.
pub open spec fn after_stake(l: PoolLedger, staker: u64, limit: i128, time_bound: u64, now: u64) -> PoolLedger {
    PoolLedger {
        registry: l.registry,
        stakes: l.stakes.push(
            Stake {
                staker,
                spending_limit: limit,
                time_bound,
                staked_at: now,
                accumulated_fees: 0,
                is_active: true,
            },
        ),
        active: l.active.push(staker),
        total_capacity: l.total_capacity + limit,
    }
}

/// The state after a successful unstake of an existing record. An already
/// inactive record leaves the capacity and the active list as they are.
pub open spec fn after_unstake(l: PoolLedger, staker: u64) -> PoolLedger {
    let i = stake_index(l.stakes, staker);
    let s = l.stakes[i];
    if s.is_active {
        PoolLedger {
            registry: l.registry,
            stakes: l.stakes.update(i, Stake { is_active: false, ..s }),
            active: remove_first(l.active, staker),
            total_capacity: l.total_capacity - s.spending_limit,
        }
    } else {
        l
    }
}

/// The state with the fees of `staker`'s record set to `fees`.
pub open spec fn with_fees(l: PoolLedger, staker: u64, fees: int) -> PoolLedger {
    let i = stake_index(l.stakes, staker);
    PoolLedger {
        stakes: l.stakes.update(i, Stake { accumulated_fees: fees as i128, ..l.stakes[i] }),
        ..l
    }
}

proof fn lemma_stake_index_range(stakes: Seq<Stake>, who: u64)
    ensures
        -1 <= stake_index(stakes, who) < stakes.len(),
        stake_index(stakes, who) >= 0 ==> stakes[stake_index(stakes, who)].staker == who,
    decreases stakes.len(),
{
    if stakes.len() > 0 {
        lemma_stake_index_range(stakes.drop_last(), who);
    }
}

proof fn lemma_stake_index_update(stakes: Seq<Stake>, i: int, s: Stake, who: u64)
    requires
        0 <= i < stakes.len(),
        s.staker == stakes[i].staker,
    ensures
        stake_index(stakes.update(i, s), who) == stake_index(stakes, who),
    decreases stakes.len(),
{
    let u = stakes.update(i, s);
    if i < stakes.len() - 1 {
        assert(u.drop_last() =~= stakes.drop_last().update(i, s));
        lemma_stake_index_update(stakes.drop_last(), i, s, who);
    } else {
        assert(u.drop_last() =~= stakes.drop_last());
    }
}

proof fn lemma_capacity_update(stakes: Seq<Stake>, i: int, s: Stake)
    requires
        0 <= i < stakes.len(),
    ensures
        capacity_of(stakes.update(i, s)) == capacity_of(stakes) - backing(stakes[i]) + backing(s),
    decreases stakes.len(),
{
    let u = stakes.update(i, s);
    if i < stakes.len() - 1 {
        assert(u.drop_last() =~= stakes.drop_last().update(i, s));
        lemma_capacity_update(stakes.drop_last(), i, s);
    } else {
        assert(u.drop_last() =~= stakes.drop_last());
    }
}

proof fn lemma_capacity_bounds(stakes: Seq<Stake>)
    requires
        forall|i: int| 0 <= i < stakes.len() ==> in_bounds(#[trigger] stakes[i].spending_limit as int),
    ensures
        0 <= capacity_of(stakes) <= stakes.len() * MAX_STAKE,
    decreases stakes.len(),
{
    if stakes.len() > 0 {
        let d = stakes.drop_last();
        assert forall|i: int| 0 <= i < d.len() implies in_bounds(#[trigger] d[i].spending_limit as int) by {
            assert(d[i] == stakes[i]);
        }
        lemma_capacity_bounds(d);
        assert(in_bounds(stakes[stakes.len() - 1].spending_limit as int));
        assert((d.len() + 1) * MAX_STAKE == d.len() * MAX_STAKE + MAX_STAKE) by (nonlinear_arith);
    }
}

proof fn lemma_remove_first_at(s: Seq<u64>, x: u64, j: int)
    requires
        0 <= j < s.len(),
        s[j] == x,
        forall|k: int| 0 <= k < j ==> s[k] != x,
    ensures
        remove_first(s, x) == s.remove(j),
    decreases s.len(),
{
    if j > 0 {
        let t = s.subrange(1, s.len() as int);
        assert forall|k: int| 0 <= k < j - 1 implies t[k] != x by {
            assert(t[k] == s[k + 1]);
        }
        lemma_remove_first_at(t, x, j - 1);
        assert(seq![s[0]] + t.remove(j - 1) =~= s.remove(j));
    } else {
        assert(s.subrange(1, s.len() as int) =~= s.remove(0));
    }
}

proof fn lemma_remove_first_absent(s: Seq<u64>, x: u64)
    requires
        forall|k: int| 0 <= k < s.len() ==> s[k] != x,
    ensures
        remove_first(s, x) == s,
    decreases s.len(),
{
    if s.len() > 0 {
        let t = s.subrange(1, s.len() as int);
        assert forall|k: int| 0 <= k < t.len() implies t[k] != x by {
            assert(t[k] == s[k + 1]);
        }
        lemma_remove_first_absent(t, x);
        assert(seq![s[0]] + t =~= s);
    }
}

/// Staking and then unstaking restores the total capacity; in between the
/// staker has a stake, so a second stake by the same staker is refused.
pub proof fn lemma_unstake_restores_capacity(
    l: PoolLedger,
    staker: u64,
    limit: i128,
    time_bound: u64,
    now: u64,
)
    requires
        pool_wf(l),
        !has_stake(l, staker),
        in_bounds(limit as int),
    ensures
        has_stake(after_stake(l, staker, limit, time_bound, now), staker),
        after_unstake(after_stake(l, staker, limit, time_bound, now), staker).total_capacity
            == l.total_capacity,
{
    let l1 = after_stake(l, staker, limit, time_bound, now);
    assert(l1.stakes.last().staker == staker);
    assert(stake_index(l1.stakes, staker) == l.stakes.len());
}

/// Removes the first occurrence of `x` from `v`, if any.
fn remove_first_from(v: &mut Vec<u64>, x: u64)
    ensures
        final(v)@ == remove_first(old(v)@, x),
{
    let mut j: usize = 0;
    while j < v.len()
        invariant
            j <= v@.len(),
            v@ == old(v)@,
            forall|k: int| 0 <= k < j ==> v@[k] != x,
        decreases v@.len() - j,
    {
        if v[j] == x {
            proof {
                lemma_remove_first_at(v@, x, j as int);
            }
            v.remove(j);
            return;
        }
        j = j + 1;
    }
    proof {
        lemma_remove_first_absent(v@, x);
    }
}

proof fn lemma_stake_index_absent(stakes: Seq<Stake>, who: u64)
    requires
        stake_index(stakes, who) == -1,
    ensures
        forall|i: int| 0 <= i < stakes.len() ==> (#[trigger] stakes[i]).staker != who,
    decreases stakes.len(),
{
    if stakes.len() > 0 {
        lemma_stake_index_absent(stakes.drop_last(), who);
        assert forall|i: int| 0 <= i < stakes.len() implies (#[trigger] stakes[i]).staker != who by {
            if i < stakes.len() - 1 {
                assert(stakes[i] == stakes.drop_last()[i]);
            }
        }
    }
}

proof fn lemma_stake_keeps_wf(l: PoolLedger, staker: u64, limit: i128, time_bound: u64, now: u64)
    requires
        pool_wf(l),
        l.registry is Some,
        !has_stake(l, staker),
        in_bounds(limit as int),
    ensures
        one_record_each(after_stake(l, staker, limit, time_bound, now).stakes),
        active_list_exact(after_stake(l, staker, limit, time_bound, now)),
{
    let l1 = after_stake(l, staker, limit, time_bound, now);
    let n = l.stakes.len() as int;
    lemma_stake_index_range(l.stakes, staker);
    lemma_stake_index_absent(l.stakes, staker);
    assert forall|i: int, j: int|
        0 <= i < l1.stakes.len() && 0 <= j < l1.stakes.len() && i != j implies (#[trigger] l1.stakes[i]).staker
        != (#[trigger] l1.stakes[j]).staker by {
        if i < n && j < n {
            assert(l1.stakes[i] == l.stakes[i] && l1.stakes[j] == l.stakes[j]);
        } else if i < n {
            assert(l1.stakes[i] == l.stakes[i]);
        } else {
            assert(l1.stakes[j] == l.stakes[j]);
        }
    }
    assert forall|k: int| 0 <= k < l.active.len() implies #[trigger] l.active[k] != staker by {
        assert(has_active_record(l.stakes, l.active[k]));
    }
    assert forall|a: int, b: int|
        0 <= a < l1.active.len() && 0 <= b < l1.active.len() && a != b implies #[trigger] l1.active[a]
        != #[trigger] l1.active[b] by {
        if a < l.active.len() && b < l.active.len() {
            assert(l1.active[a] == l.active[a] && l1.active[b] == l.active[b]);
        } else if a < l.active.len() {
            assert(l1.active[a] == l.active[a]);
        } else {
            assert(l1.active[b] == l.active[b]);
        }
    }
    assert forall|k: int| 0 <= k < l1.active.len() implies has_active_record(
        l1.stakes,
        #[trigger] l1.active[k],
    ) by {
        if k < l.active.len() {
            assert(l1.active[k] == l.active[k]);
            assert(has_active_record(l.stakes, l.active[k]));
            let i = choose|i: int|
                0 <= i < l.stakes.len() && (#[trigger] l.stakes[i]).staker == l.active[k] && l.stakes[i].is_active;
            assert(l1.stakes[i] == l.stakes[i]);
        } else {
            assert(l1.stakes[n].staker == l1.active[k]);
        }
    }
    assert forall|i: int| 0 <= i < l1.stakes.len() && (#[trigger] l1.stakes[i]).is_active implies l1.active.contains(
        l1.stakes[i].staker,
    ) by {
        if i < n {
            assert(l1.stakes[i] == l.stakes[i]);
            let m = choose|m: int| 0 <= m < l.active.len() && l.active[m] == l.stakes[i].staker;
            assert(l1.active[m] == l.active[m]);
        } else {
            assert(l1.active[l.active.len() as int] == staker);
        }
    }
}

proof fn lemma_unstake_keeps_wf(l: PoolLedger, staker: u64)
    requires
        pool_wf(l),
        has_stake(l, staker),
    ensures
        one_record_each(after_unstake(l, staker).stakes),
        active_list_exact(after_unstake(l, staker)),
{
    let i = stake_index(l.stakes, staker);
    lemma_stake_index_range(l.stakes, staker);
    let s = l.stakes[i];
    if s.is_active {
        let l1 = after_unstake(l, staker);
        assert(l.stakes[i].is_active);
        assert(l.active.contains(staker));
        let j = choose|j: int| 0 <= j < l.active.len() && l.active[j] == staker;
        assert forall|k: int| 0 <= k < j implies l.active[k] != staker by {
            assert(l.active[k] != l.active[j]);
        }
        lemma_remove_first_at(l.active, staker, j);
        assert(l1.active == l.active.remove(j));
        assert forall|a: int, b: int|
            0 <= a < l1.stakes.len() && 0 <= b < l1.stakes.len() && a != b implies (#[trigger] l1.stakes[a]).staker
            != (#[trigger] l1.stakes[b]).staker by {
            assert(l.stakes[a].staker != l.stakes[b].staker);
        }
        assert forall|a: int, b: int|
            0 <= a < l1.active.len() && 0 <= b < l1.active.len() && a != b implies #[trigger] l1.active[a]
            != #[trigger] l1.active[b] by {
            let a0 = if a < j { a } else { a + 1 };
            let b0 = if b < j { b } else { b + 1 };
            assert(l1.active[a] == l.active[a0] && l1.active[b] == l.active[b0]);
            assert(l.active[a0] != l.active[b0]);
        }
        assert forall|k: int| 0 <= k < l1.active.len() implies has_active_record(
            l1.stakes,
            #[trigger] l1.active[k],
        ) by {
            let k0 = if k < j { k } else { k + 1 };
            assert(l1.active[k] == l.active[k0]);
            assert(l.active[k0] != l.active[j]);
            assert(has_active_record(l.stakes, l.active[k0]));
            let m = choose|m: int|
                0 <= m < l.stakes.len() && (#[trigger] l.stakes[m]).staker == l.active[k0] && l.stakes[m].is_active;
            assert(m != i);
            assert(l1.stakes[m] == l.stakes[m]);
        }
        assert forall|m: int| 0 <= m < l1.stakes.len() && (#[trigger] l1.stakes[m]).is_active implies l1.active.contains(
            l1.stakes[m].staker,
        ) by {
            assert(m != i);
            assert(l1.stakes[m] == l.stakes[m]);
            assert(l.stakes[m].staker != l.stakes[i].staker);
            let q = choose|q: int| 0 <= q < l.active.len() && l.active[q] == l.stakes[m].staker;
            assert(q != j);
            let q1 = if q < j { q } else { q - 1 };
            assert(l1.active[q1] == l.active[q]);
        }
    }
}

proof fn lemma_update_keeps_wf(l: PoolLedger, i: int, s: Stake)
    requires
        pool_wf(l),
        0 <= i < l.stakes.len(),
        s.staker == l.stakes[i].staker,
        s.is_active == l.stakes[i].is_active,
        s.spending_limit == l.stakes[i].spending_limit,
    ensures
        pool_wf(PoolLedger { stakes: l.stakes.update(i, s), ..l }),
{
    let l1 = PoolLedger { stakes: l.stakes.update(i, s), ..l };
    lemma_capacity_update(l.stakes, i, s);
    assert forall|a: int, b: int|
        0 <= a < l1.stakes.len() && 0 <= b < l1.stakes.len() && a != b implies (#[trigger] l1.stakes[a]).staker
        != (#[trigger] l1.stakes[b]).staker by {
        assert(l.stakes[a].staker != l.stakes[b].staker);
    }
    assert forall|k: int| 0 <= k < l1.active.len() implies has_active_record(
        l1.stakes,
        #[trigger] l1.active[k],
    ) by {
        assert(has_active_record(l.stakes, l.active[k]));
        let m = choose|m: int|
            0 <= m < l.stakes.len() && (#[trigger] l.stakes[m]).staker == l.active[k] && l.stakes[m].is_active;
        assert(l1.stakes[m].staker == l.stakes[m].staker && l1.stakes[m].is_active == l.stakes[m].is_active);
    }
    assert forall|m: int| 0 <= m < l1.stakes.len() && (#[trigger] l1.stakes[m]).is_active implies l1.active.contains(
        l1.stakes[m].staker,
    ) by {
        assert(l.stakes[m].is_active && l.stakes[m].staker == l1.stakes[m].staker);
    }
    assert forall|m: int| 0 <= m < l1.stakes.len() implies in_bounds(#[trigger] l1.stakes[m].spending_limit as int) by {
        assert(in_bounds(l.stakes[m].spending_limit as int));
    }
}

impl View for IdentityPoolContract {
    type V = PoolLedger;

    closed spec fn view(&self) -> PoolLedger {
        PoolLedger {
            registry: self.registry,
            stakes: self.stakes@,
            active: self.active@,
            total_capacity: self.total_capacity as int,
        }
    }
}

impl IdentityPoolContract {
    /// The pool's invariant.
    pub open spec fn wf(&self) -> bool {
        pool_wf(self@)
    }

    /// An empty, uninitialized pool.
    pub fn new() -> (r: Self)
        ensures
            r.wf(),
            r@.registry is None,
            r@.stakes.len() == 0,
            r@.active.len() == 0,
            r@.total_capacity == 0,
    {
        IdentityPoolContract { registry: None, stakes: Vec::new(), active: Vec::new(), total_capacity: 0 }
    }

    /// Records the credential registry, once, and zeroes the total capacity
    /// and the active list.
    pub fn initialize(&mut self, credential_registry: u64) -> (r: Result<(), Error>)
        requires
            old(self).wf(),
        ensures
            final(self).wf(),
            old(self)@.registry is Some ==> r == Err::<(), Error>(Error::AlreadyInitialized)
                && final(self)@ == old(self)@,
            old(self)@.registry is None ==> r is Ok && final(self)@ == (PoolLedger {
                registry: Some(credential_registry),
                stakes: old(self)@.stakes,
                active: Seq::empty(),
                total_capacity: 0,
            }),
    {
        if self.registry.is_some() {
            return Err(Error::AlreadyInitialized);
        }
        self.registry = Some(credential_registry);
        self.total_capacity = 0;
        self.active = Vec::new();
        Ok(())
    }

    /// Whether `initialize` has been called.
    pub fn is_initialized(&self) -> (r: bool)
        ensures
            r == self@.registry is Some,
    {
        self.registry.is_some()
    }

    /// Position of the record of `who`, scanning from the newest record.
    fn find(&self, who: u64) -> (r: Option<usize>)
        ensures
            r is None <==> stake_index(self@.stakes, who) == -1,
            r matches Some(i) ==> i == stake_index(self@.stakes, who) && i < self@.stakes.len(),
    {
        let mut i: usize = self.stakes.len();
        assert(self@.stakes.subrange(0, i as int) =~= self@.stakes);
        while i > 0
            invariant
                i <= self.stakes@.len(),
                stake_index(self@.stakes, who) == stake_index(self@.stakes.subrange(0, i as int), who),
            decreases i,
        {
            let ghost sub = self@.stakes.subrange(0, i as int);
            assert(sub.drop_last() =~= self@.stakes.subrange(0, i - 1));
            if self.stakes[i - 1].staker == who {
                return Some(i - 1);
            }
            i = i - 1;
        }
        assert(self@.stakes.subrange(0, 0) =~= Seq::<Stake>::empty());
        None
    }

    /// Stakes `spending_limit` for `staker` until `time_bound`.
    pub fn stake_identity(
        &mut self,
        signer: Option<u64>,
        staker: u64,
        spending_limit: i128,
        time_bound: u64,
        now: u64,
    ) -> (r: Result<(), Error>)
        requires
            old(self).wf(),
            old(self)@.registry is Some,
        ensures
            final(self).wf(),
            signer != Some(staker) ==> r == Err::<(), Error>(Error::Unauthorized),
            signer == Some(staker) && !in_bounds(spending_limit as int) ==> r == Err::<(), Error>(
                Error::InvalidArgument,
            ),
            signer == Some(staker) && in_bounds(spending_limit as int) && has_stake(old(self)@, staker)
                ==> r == Err::<(), Error>(Error::AlreadyExists),
            r is Ok <==> signer == Some(staker) && in_bounds(spending_limit as int) && !has_stake(
                old(self)@,
                staker,
            ),
            r is Ok ==> final(self)@ == after_stake(old(self)@, staker, spending_limit, time_bound, now),
            r is Err ==> final(self)@ == old(self)@,
    {
        if signer != Some(staker) {
            return Err(Error::Unauthorized);
        }
        if spending_limit < MIN_STAKE || spending_limit > MAX_STAKE {
            return Err(Error::InvalidArgument);
        }
        if self.find(staker).is_some() {
            return Err(Error::AlreadyExists);
        }
        let ghost l0 = self@;
        let n = self.stakes.len();
        proof {
            lemma_capacity_bounds(l0.stakes);
            assert(n * MAX_STAKE + MAX_STAKE <= 0x1_0000_0000_0000_0000 * MAX_STAKE) by (nonlinear_arith)
                requires n <= 0xffff_ffff_ffff_ffff;
        }
        let s = Stake {
            staker,
            spending_limit,
            time_bound,
            staked_at: now,
            accumulated_fees: 0,
            is_active: true,
        };
        self.stakes.push(s);
        self.total_capacity = self.total_capacity + spending_limit;
        self.active.push(staker);
        proof {
            assert(self@.stakes.drop_last() =~= l0.stakes);
            assert(self@ == after_stake(l0, staker, spending_limit, time_bound, now));
            lemma_stake_keeps_wf(l0, staker, spending_limit, time_bound, now);
        }
        Ok(())
    }

    /// Deactivates the stake of `staker` and returns its accumulated fees,
    /// which stay on the record. An active stake's limit leaves the capacity
    /// and `staker` leaves the active list (its first occurrence).
    pub fn unstake_identity(&mut self, signer: Option<u64>, staker: u64) -> (r: Result<i128, Error>)
        requires
            old(self).wf(),
        ensures
            final(self).wf(),
            signer != Some(staker) ==> r == Err::<i128, Error>(Error::Unauthorized),
            signer == Some(staker) && !has_stake(old(self)@, staker) ==> r == Err::<i128, Error>(
                Error::NotFound,
            ),
            r is Ok <==> signer == Some(staker) && has_stake(old(self)@, staker),
            r is Ok ==> r == Ok::<i128, Error>(stake_of(old(self)@, staker).accumulated_fees)
                && final(self)@ == after_unstake(old(self)@, staker),
            r is Err ==> final(self)@ == old(self)@,
    {
        if signer != Some(staker) {
            return Err(Error::Unauthorized);
        }
        let i = match self.find(staker) {
            Some(i) => i,
            None => return Err(Error::NotFound),
        };
        let ghost l0 = self@;
        proof {
            lemma_stake_index_range(l0.stakes, staker);
            lemma_capacity_bounds(l0.stakes);
        }
        let s = self.stakes[i];
        if !s.is_active {
            return Ok(s.accumulated_fees);
        }
        let off = Stake { is_active: false, ..s };
        proof {
            lemma_capacity_update(l0.stakes, i as int, off);
        }
        self.stakes.set(i, off);
        self.total_capacity = self.total_capacity - s.spending_limit;
        remove_first_from(&mut self.active, staker);
        proof {
            lemma_stake_index_update(l0.stakes, i as int, off, staker);
            lemma_unstake_keeps_wf(l0, staker);
        }
        Ok(s.accumulated_fees)
    }

    /// The total capacity: the sum of the limits of the active stakes.
    pub fn get_available_capacity(&self) -> (r: i128)
        ensures
            r == self@.total_capacity,
    {
        self.total_capacity
    }

    /// The stake record of `staker`, if any.
    pub fn get_stake(&self, staker: u64) -> (r: Option<Stake>)
        ensures
            r == (if has_stake(self@, staker) {
                Some(stake_of(self@, staker))
            } else {
                None::<Stake>
            }),
    {
        match self.find(staker) {
            Some(i) => Some(self.stakes[i]),
            None => None,
        }
    }

    /// The advertised yield in basis points (15%).
    pub fn calculate_apy(&self) -> (r: u32)
        ensures
            r == 1500,
    {
        1500
    }

    /// Returns the accumulated fees of `staker` and zeroes them. The stake
    /// need not be active.
    pub fn claim_earnings(&mut self, signer: Option<u64>, staker: u64) -> (r: Result<i128, Error>)
        requires
            old(self).wf(),
        ensures
            final(self).wf(),
            signer != Some(staker) ==> r == Err::<i128, Error>(Error::Unauthorized),
            signer == Some(staker) && !has_stake(old(self)@, staker) ==> r == Err::<i128, Error>(
                Error::NotFound,
            ),
            r is Ok <==> signer == Some(staker) && has_stake(old(self)@, staker),
            r is Ok ==> r == Ok::<i128, Error>(stake_of(old(self)@, staker).accumulated_fees)
                && final(self)@ == with_fees(old(self)@, staker, 0),
            r is Err ==> final(self)@ == old(self)@,
    {
        if signer != Some(staker) {
            return Err(Error::Unauthorized);
        }
        let i = match self.find(staker) {
            Some(i) => i,
            None => return Err(Error::NotFound),
        };
        proof {
            lemma_stake_index_range(self@.stakes, staker);
        }
        let s = self.stakes[i];
        self.set_fees(i, 0);
        Ok(s.accumulated_fees)
    }

    /// Adds `amount` to the accumulated fees of `staker`.
    pub fn add_fees(&mut self, staker: u64, amount: i128) -> (r: Result<(), Error>)
        requires
            old(self).wf(),
            has_stake(old(self)@, staker) ==> i128::MIN <= stake_of(old(self)@, staker).accumulated_fees
                + amount <= i128::MAX,
        ensures
            final(self).wf(),
            r is Ok <==> has_stake(old(self)@, staker),
            r is Err ==> r == Err::<(), Error>(Error::NotFound) && final(self)@ == old(self)@,
            r is Ok ==> final(self)@ == with_fees(
                old(self)@,
                staker,
                stake_of(old(self)@, staker).accumulated_fees + amount,
            ),
    {
        let i = match self.find(staker) {
            Some(i) => i,
            None => return Err(Error::NotFound),
        };
        proof {
            lemma_stake_index_range(self@.stakes, staker);
        }
        let fees = self.stakes[i].accumulated_fees + amount;
        self.set_fees(i, fees);
        Ok(())
    }

    fn set_fees(&mut self, i: usize, fees: i128)
        requires
            old(self).wf(),
            0 <= i < old(self)@.stakes.len(),
        ensures
            final(self).wf(),
            final(self)@ == (PoolLedger {
                stakes: old(self)@.stakes.update(
                    i as int,
                    Stake { accumulated_fees: fees, ..old(self)@.stakes[i as int] },
                ),
                ..old(self)@
            }),
    {
        let s = Stake { accumulated_fees: fees, ..self.stakes[i] };
        proof {
            lemma_update_keeps_wf(self@, i as int, s);
        }
        self.stakes.set(i, s);
    }

    /// The stakers with an active stake, in order of staking.
    pub fn get_active_stakers(&self) -> (r: Vec<u64>)
        ensures
            r@ == self@.active,
    {
        copy_vec(&self.active)
    }

    /// Whether `staker` has an active stake whose time bound is after `now`.
    pub fn is_active(&self, staker: u64, now: u64) -> (r: bool)
        ensures
            r == (has_stake(self@, staker) && stake_of(self@, staker).is_active && now < stake_of(
                self@,
                staker,
            ).time_bound),
    {
        match self.find(staker) {
            Some(i) => self.stakes[i].is_active && now < self.stakes[i].time_bound,
            None => false,
        }
    }
}

} // verus!
