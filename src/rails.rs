//! The rail registry: issues compliance rails to agents, tracks their usage
//! against a spending limit, revokes them, and splits fees.
use std::collections::HashMap;
use vstd::prelude::*;

use crate::digest::{sha256, sha256_of};
use crate::error::Error;
use crate::util::copy_vec;

verus! {

broadcast use vstd::std_specs::hash::group_hash_axioms;

/// Share of a fee that goes to the protocol treasury, in basis points.
pub const PROTOCOL_FEE_BPS: i128 = 1200;

/// Share of a fee that goes to the backing stakers, in basis points.
pub const STAKER_FEE_BPS: i128 = 8800;

/// A rail identifier: a 32-byte digest.
pub type RailId = [u8; 32];

/// A time-bounded, amount-bounded spending authorization.
#[derive(Debug, Clone)]
pub struct ComplianceRail {
    pub rail_id: RailId,
    pub agent: u64,
    pub spending_limit: i128,
    pub expires_at: u64,
    pub used_amount: i128,
    pub is_active: bool,
    pub backing_stakers: Vec<u64>,
}

/// The abstract value of a rail.
pub ghost struct RailView {
    pub rail_id: Seq<u8>,
    pub agent: u64,
    pub spending_limit: int,
    pub expires_at: u64,
    pub used_amount: int,
    pub is_active: bool,
    pub backing_stakers: Seq<u64>,
}

impl View for ComplianceRail {
    type V = RailView;

    open spec fn view(&self) -> RailView {
        RailView {
            rail_id: self.rail_id@,
            agent: self.agent,
            spending_limit: self.spending_limit as int,
            expires_at: self.expires_at,
            used_amount: self.used_amount as int,
            is_active: self.is_active,
            backing_stakers: self.backing_stakers@,
        }
    }
}

/// The registry's abstract state.
pub ghost struct RailLedger {
    pub stake_pool: Option<u64>,
    pub treasury: Option<u64>,
    pub rail_count: u64,
    /// Rails in order of issuance. A later rail with the same identifier
    /// replaces an earlier one.
    pub rails: Seq<RailView>,
    /// For each agent, the identifiers of its rails in order of issuance.
    pub agent_rails: Map<u64, Seq<RailId>>,
}

/// The rail registry.
pub struct DharmaPoolContract {
    stake_pool: Option<u64>,
    treasury: Option<u64>,
    rail_count: u64,
    rails: Vec<ComplianceRail>,
    agent_rails: HashMap<u64, Vec<RailId>>,
}

impl View for DharmaPoolContract {
    type V = RailLedger;

    closed spec fn view(&self) -> RailLedger {
        RailLedger {
            stake_pool: self.stake_pool,
            treasury: self.treasury,
            rail_count: self.rail_count,
            rails: self.rails@.map_values(|r: ComplianceRail| r@),
            agent_rails: self.agent_rails@.map_values(|v: Vec<RailId>| v@),
        }
    }
}

/// Position of the rail with identifier `id` (the latest such), or -1.
pub open spec fn rail_index(rails: Seq<RailView>, id: Seq<u8>) -> int
    decreases rails.len(),
{
    if rails.len() == 0 {
        -1
    } else if rails.last().rail_id == id {
        rails.len() - 1
    } else {
        rail_index(rails.drop_last(), id)
    }
}

pub open spec fn has_rail(l: RailLedger, id: Seq<u8>) -> bool {
    rail_index(l.rails, id) >= 0
}

pub open spec fn rail_of(l: RailLedger, id: Seq<u8>) -> RailView {
    l.rails[rail_index(l.rails, id)]
}

/// A rail is valid while it is active and its expiry lies after `now`.
pub open spec fn rail_valid(l: RailLedger, id: Seq<u8>, now: u64) -> bool {
    has_rail(l, id) && rail_of(l, id).is_active && now < rail_of(l, id).expires_at
}

/// The identifiers of the rails of `agent`.
pub open spec fn rails_of_agent(l: RailLedger, agent: u64) -> Seq<RailId> {
    if l.agent_rails.contains_key(agent) {
        l.agent_rails[agent]
    } else {
        Seq::empty()
    }
}

/// The registry's invariant: nothing is issued before initialization, and
/// no rail is used past its limit.
pub open spec fn rails_wf(l: RailLedger) -> bool {
    &&& l.stake_pool is None ==> l.rails.len() == 0 && l.rail_count == 0 && l.agent_rails
        == Map::<u64, Seq<RailId>>::empty()
    &&& forall|i: int|
        0 <= i < l.rails.len() ==> 0 <= #[trigger] l.rails[i].used_amount <= l.rails[i].spending_limit
}

/// `x` as `n` bytes, least significant first.
pub open spec fn le_bytes(x: nat, n: nat) -> Seq<u8>
    decreases n,
{
    if n == 0 {
        Seq::empty()
    } else {
        seq![(x % 256) as u8] + le_bytes(x / 256, (n - 1) as nat)
    }
}

/// The canonical encoding of a rail request that its identifier digests.
pub open spec fn rail_preimage(count: u64, agent: u64, amount: nat, duration: u64) -> Seq<u8> {
    le_bytes(count as nat, 8) + le_bytes(agent as nat, 8) + le_bytes(amount, 16) + le_bytes(
        duration as nat,
        8,
    )
}

/// The identifier of the rail requested as the `count`-th.
pub open spec fn rail_id_for(count: u64, agent: u64, amount: nat, duration: u64) -> Seq<u8> {
    sha256_of(rail_preimage(count, agent, amount, duration))
}

/// The rail that a request creates.
pub open spec fn new_rail(id: Seq<u8>, agent: u64, amount: int, expires_at: u64) -> RailView {
    RailView {
        rail_id: id,
        agent,
        spending_limit: amount,
        expires_at,
        used_amount: 0,
        is_active: true,
        backing_stakers: Seq::empty(),
    }
}

/// The state after a rail with identifier `id` is stored for `agent`.
pub open spec fn after_store(l: RailLedger, id: RailId, agent: u64, amount: int, expires_at: u64) -> RailLedger {
    RailLedger {
        rail_count: (l.rail_count + 1) as u64,
        rails: l.rails.push(new_rail(id@, agent, amount, expires_at)),
        agent_rails: l.agent_rails.insert(agent, rails_of_agent(l, agent).push(id)),
        ..l
    }
}

/// The state with rail `i` deactivated.
pub open spec fn deactivate(rails: Seq<RailView>, i: int) -> Seq<RailView> {
    rails.update(i, RailView { is_active: false, ..rails[i] })
}

/// One step of the agent kill switch: deactivates the rail `id` if active,
/// counting it.
pub open spec fn revoke_step(rails: Seq<RailView>, count: nat, id: Seq<u8>) -> (Seq<RailView>, nat) {
    let i = rail_index(rails, id);
    if i >= 0 && rails[i].is_active {
        (deactivate(rails, i), count + 1)
    } else {
        (rails, count)
    }
}

/// The kill switch over `ids` in order: the rails after it and how many it
/// deactivated.
pub open spec fn revoke_list(rails: Seq<RailView>, ids: Seq<RailId>) -> (Seq<RailView>, nat)
    decreases ids.len(),
{
    if ids.len() == 0 {
        (rails, 0)
    } else {
        let prev = revoke_list(rails, ids.drop_last());
        revoke_step(prev.0, prev.1, ids.last()@)
    }
}

/// Integer division that truncates toward zero.
pub open spec fn trunc_div(a: int, b: int) -> int {
    if a >= 0 {
        a / b
    } else {
        -((-a) / b)
    }
}

/// The protocol's share of `fee`, truncated.
pub open spec fn protocol_share(fee: int) -> int {
    trunc_div(fee * PROTOCOL_FEE_BPS, 10000)
}

/// The stakers' share of `fee`, truncated.
pub open spec fn staker_share(fee: int) -> int {
    trunc_div(fee * STAKER_FEE_BPS, 10000)
}

proof fn lemma_rail_index_range(rails: Seq<RailView>, id: Seq<u8>)
    ensures
        -1 <= rail_index(rails, id) < rails.len(),
        rail_index(rails, id) >= 0 ==> rails[rail_index(rails, id)].rail_id == id,
    decreases rails.len(),
{
    if rails.len() > 0 {
        lemma_rail_index_range(rails.drop_last(), id);
    }
}

proof fn lemma_rail_index_update(rails: Seq<RailView>, i: int, r: RailView, id: Seq<u8>)
    requires
        0 <= i < rails.len(),
        r.rail_id == rails[i].rail_id,
    ensures
        rail_index(rails.update(i, r), id) == rail_index(rails, id),
    decreases rails.len(),
{
    let u = rails.update(i, r);
    if i < rails.len() - 1 {
        assert(u.drop_last() =~= rails.drop_last().update(i, r));
        lemma_rail_index_update(rails.drop_last(), i, r, id);
    } else {
        assert(u.drop_last() =~= rails.drop_last());
    }
}

/// The two shares are complementary in basis points, and for a non-negative
/// fee their truncated sum never exceeds the fee (the remainder is dropped).
pub proof fn lemma_fee_split_bounded(fee: int)
    requires
        fee >= 0,
    ensures
        PROTOCOL_FEE_BPS + STAKER_FEE_BPS == 10000,
        0 <= protocol_share(fee),
        0 <= staker_share(fee),
        protocol_share(fee) + staker_share(fee) <= fee,
{
    let p = fee * 1200;
    let q = fee * 8800;
    assert(p >= 0 && q >= 0) by (nonlinear_arith)
        requires fee >= 0, p == fee * 1200, q == fee * 8800;
    assert((p / 10000) * 10000 <= p) by (nonlinear_arith)
        requires p >= 0;
    assert((q / 10000) * 10000 <= q) by (nonlinear_arith)
        requires q >= 0;
    assert(p / 10000 >= 0 && q / 10000 >= 0) by (nonlinear_arith)
        requires p >= 0, q >= 0;
    assert((p / 10000 + q / 10000) * 10000 <= fee * 10000) by (nonlinear_arith)
        requires (p / 10000) * 10000 <= p, (q / 10000) * 10000 <= q, p + q == fee * 10000;
    assert(p / 10000 + q / 10000 <= fee) by (nonlinear_arith)
        requires (p / 10000 + q / 10000) * 10000 <= fee * 10000;
}

/// Whether every rail named in `ids` is absent or inactive.
pub open spec fn all_revoked(rails: Seq<RailView>, ids: Seq<RailId>) -> bool {
    forall|k: int|
        0 <= k < ids.len() ==> {
            let i = rail_index(rails, #[trigger] ids[k]@);
            i < 0 || !rails[i].is_active
        }
}

/// A rail just requested is valid until it expires, unused, active, and
/// carries the requested amount as its limit.
pub proof fn lemma_request_then_valid(
    l: RailLedger,
    id: RailId,
    agent: u64,
    amount: int,
    duration: u64,
    now: u64,
)
    requires
        amount > 0,
        duration > 0,
        now + duration <= u64::MAX,
    ensures
        ({
            let l1 = after_store(l, id, agent, amount, (now + duration) as u64);
            &&& rail_valid(l1, id@, now)
            &&& rail_of(l1, id@).used_amount == 0
            &&& rail_of(l1, id@).is_active
            &&& rail_of(l1, id@).spending_limit == amount
            &&& rail_of(l1, id@).agent == agent
        }),
{
    let l1 = after_store(l, id, agent, amount, (now + duration) as u64);
    assert(l1.rails.last().rail_id == id@);
    assert(rail_index(l1.rails, id@) == l.rails.len());
}

proof fn lemma_deactivate_keeps_index(rails: Seq<RailView>, i: int, id: Seq<u8>)
    requires
        0 <= i < rails.len(),
    ensures
        rail_index(deactivate(rails, i), id) == rail_index(rails, id),
{
    lemma_rail_index_update(rails, i, RailView { is_active: false, ..rails[i] }, id);
}

/// Revoking a rail twice leaves the same state as revoking it once; the rail
/// is still there, and no longer valid.
pub proof fn lemma_revoke_idempotent(l: RailLedger, id: Seq<u8>, now: u64)
    requires
        has_rail(l, id),
    ensures
        ({
            let l1 = RailLedger { rails: deactivate(l.rails, rail_index(l.rails, id)), ..l };
            let l2 = RailLedger { rails: deactivate(l1.rails, rail_index(l1.rails, id)), ..l1 };
            &&& l2 == l1
            &&& has_rail(l1, id)
            &&& !rail_valid(l1, id, now)
        }),
{
    let i = rail_index(l.rails, id);
    lemma_rail_index_range(l.rails, id);
    lemma_deactivate_keeps_index(l.rails, i, id);
    let d = deactivate(l.rails, i);
    assert(deactivate(d, i) =~= d);
}

proof fn lemma_step_keeps_revoked(rails: Seq<RailView>, count: nat, id: Seq<u8>, other: Seq<u8>)
    requires
        rail_index(rails, other) < 0 || !rails[rail_index(rails, other)].is_active,
    ensures
        ({
            let r = revoke_step(rails, count, id).0;
            rail_index(r, other) < 0 || !r[rail_index(r, other)].is_active
        }),
{
    let i = rail_index(rails, id);
    lemma_rail_index_range(rails, id);
    lemma_rail_index_range(rails, other);
    if i >= 0 && rails[i].is_active {
        lemma_deactivate_keeps_index(rails, i, other);
    }
}

/// After the kill switch every rail it was given is absent or inactive.
pub proof fn lemma_kill_switch_revokes_all(rails: Seq<RailView>, ids: Seq<RailId>)
    ensures
        all_revoked(revoke_list(rails, ids).0, ids),
    decreases ids.len(),
{
    if ids.len() > 0 {
        let init = ids.drop_last();
        lemma_kill_switch_revokes_all(rails, init);
        let p = revoke_list(rails, init);
        let last = ids.last()@;
        let r = revoke_step(p.0, p.1, last).0;
        assert forall|k: int| 0 <= k < ids.len() implies {
            let i = rail_index(r, #[trigger] ids[k]@);
            i < 0 || !r[i].is_active
        } by {
            if k < ids.len() - 1 {
                assert(ids[k] == init[k]);
                lemma_step_keeps_revoked(p.0, p.1, last, ids[k]@);
            } else {
                let i = rail_index(p.0, last);
                lemma_rail_index_range(p.0, last);
                if i >= 0 && p.0[i].is_active {
                    lemma_deactivate_keeps_index(p.0, i, last);
                }
            }
        }
    }
}

/// The kill switch over rails that are all absent or inactive changes nothing
/// and counts zero.
pub proof fn lemma_kill_switch_again_is_zero(rails: Seq<RailView>, ids: Seq<RailId>)
    requires
        all_revoked(rails, ids),
    ensures
        revoke_list(rails, ids) == (rails, 0nat),
    decreases ids.len(),
{
    if ids.len() > 0 {
        let init = ids.drop_last();
        assert forall|k: int| 0 <= k < init.len() implies {
            let i = rail_index(rails, #[trigger] init[k]@);
            i < 0 || !rails[i].is_active
        } by {
            assert(init[k] == ids[k]);
        }
        lemma_kill_switch_again_is_zero(rails, init);
        assert(ids.last() == ids[ids.len() - 1]);
    }
}

/// Running the agent's kill switch twice: the second run counts zero and
/// leaves the rails as the first left them, all of them invalid.
pub proof fn lemma_kill_switch_twice(l: RailLedger, agent: u64, now: u64)
    ensures
        ({
            let ids = rails_of_agent(l, agent);
            let first = revoke_list(l.rails, ids);
            let l1 = RailLedger { rails: first.0, ..l };
            &&& revoke_list(first.0, ids) == (first.0, 0nat)
            &&& forall|k: int| 0 <= k < ids.len() ==> !rail_valid(l1, #[trigger] ids[k]@, now)
        }),
{
    let ids = rails_of_agent(l, agent);
    lemma_kill_switch_revokes_all(l.rails, ids);
    lemma_kill_switch_again_is_zero(revoke_list(l.rails, ids).0, ids);
}

/// Whether the rail `id` exists and is active.
pub open spec fn is_live(rails: Seq<RailView>, id: Seq<u8>) -> bool {
    rail_index(rails, id) >= 0 && rails[rail_index(rails, id)].is_active
}

/// How many entries of `ids` name an active rail.
pub open spec fn count_active(rails: Seq<RailView>, ids: Seq<RailId>) -> nat
    decreases ids.len(),
{
    if ids.len() == 0 {
        0
    } else {
        count_active(rails, ids.drop_last()) + if is_live(rails, ids.last()@) {
            1nat
        } else {
            0nat
        }
    }
}

/// Whether no two entries of `ids` are the same identifier.
pub open spec fn distinct_ids(ids: Seq<RailId>) -> bool {
    forall|i: int, j: int| 0 <= i < j < ids.len() ==> (#[trigger] ids[i])@ != (#[trigger] ids[j])@
}

proof fn lemma_kill_switch_spares_others(rails: Seq<RailView>, ids: Seq<RailId>, id: Seq<u8>)
    requires
        forall|k: int| 0 <= k < ids.len() ==> (#[trigger] ids[k])@ != id,
    ensures
        rail_index(revoke_list(rails, ids).0, id) == rail_index(rails, id),
        is_live(revoke_list(rails, ids).0, id) == is_live(rails, id),
    decreases ids.len(),
{
    if ids.len() > 0 {
        let init = ids.drop_last();
        assert forall|k: int| 0 <= k < init.len() implies (#[trigger] init[k])@ != id by {
            assert(init[k] == ids[k]);
        }
        lemma_kill_switch_spares_others(rails, init, id);
        let p = revoke_list(rails, init);
        let last = ids.last()@;
        assert(ids[ids.len() - 1]@ != id);
        let i = rail_index(p.0, last);
        lemma_rail_index_range(p.0, last);
        lemma_rail_index_range(p.0, id);
        if i >= 0 && p.0[i].is_active {
            lemma_deactivate_keeps_index(p.0, i, id);
        }
    }
}

/// The agent's kill switch over distinct identifiers deactivates, and
/// counts, exactly the rails among them that were active.
pub proof fn lemma_kill_switch_counts_active(rails: Seq<RailView>, ids: Seq<RailId>)
    requires
        distinct_ids(ids),
    ensures
        revoke_list(rails, ids).1 == count_active(rails, ids),
    decreases ids.len(),
{
    if ids.len() > 0 {
        let init = ids.drop_last();
        assert forall|i: int, j: int| 0 <= i < j < init.len() implies (#[trigger] init[i])@
            != (#[trigger] init[j])@ by {
            assert(init[i] == ids[i] && init[j] == ids[j]);
        }
        lemma_kill_switch_counts_active(rails, init);
        let last = ids.last()@;
        assert forall|k: int| 0 <= k < init.len() implies (#[trigger] init[k])@ != last by {
            assert(init[k] == ids[k]);
            assert(ids[k]@ != ids[ids.len() - 1]@);
        }
        lemma_kill_switch_spares_others(rails, init, last);
    }
}

/// Whether two identifiers are equal.
fn same_id(a: &RailId, b: &RailId) -> (r: bool)
    ensures
        r == (a@ == b@),
{
    let mut i: usize = 0;
    while i < 32
        invariant
            i <= 32,
            a@.len() == 32,
            b@.len() == 32,
            forall|k: int| 0 <= k < i ==> a@[k] == b@[k],
        decreases 32 - i,
    {
        if a[i] != b[i] {
            return false;
        }
        i = i + 1;
    }
    assert(a@ =~= b@);
    true
}

/// Appends `x` as `n` bytes, least significant first.
fn push_le(out: &mut Vec<u8>, x: u128, n: usize)
    ensures
        final(out)@ == old(out)@ + le_bytes(x as nat, n as nat),
{
    let ghost start = out@;
    let mut v: u128 = x;
    let mut k: usize = 0;
    while k < n
        invariant
            k <= n,
            start + le_bytes(x as nat, n as nat) == out@ + le_bytes(v as nat, (n - k) as nat),
        decreases n - k,
    {
        let ghost old_v = v as nat;
        let ghost before = out@;
        let b = (v % 256) as u8;
        out.push(b);
        v = v / 256;
        k = k + 1;
        proof {
            let m = (n - k) as nat;
            assert(le_bytes(old_v, m + 1) == seq![(old_v % 256) as u8] + le_bytes(old_v / 256, m));
            assert(before + le_bytes(old_v, m + 1) =~= out@ + le_bytes(v as nat, m));
        }
    }
    assert(out@ + le_bytes(v as nat, 0) =~= out@);
}

proof fn lemma_le_bytes_len(x: nat, n: nat)
    ensures
        le_bytes(x, n).len() == n,
    decreases n,
{
    if n > 0 {
        lemma_le_bytes_len(x / 256, (n - 1) as nat);
    }
}

/// The canonical encoding of a rail request.
fn encode_request(count: u64, agent: u64, amount: i128, duration: u64) -> (r: Vec<u8>)
    requires
        amount > 0,
    ensures
        r@ == rail_preimage(count, agent, amount as nat, duration),
        r@.len() == 40,
{
    proof {
        lemma_le_bytes_len(count as nat, 8);
        lemma_le_bytes_len(agent as nat, 8);
        lemma_le_bytes_len(amount as nat, 16);
        lemma_le_bytes_len(duration as nat, 8);
    }
    let mut out: Vec<u8> = Vec::new();
    push_le(&mut out, count as u128, 8);
    push_le(&mut out, agent as u128, 8);
    push_le(&mut out, amount as u128, 16);
    push_le(&mut out, duration as u128, 8);
    assert(out@ =~= rail_preimage(count, agent, amount as nat, duration));
    out
}

/// The protocol's and the stakers' shares of `fee`, each truncated toward zero.
pub fn split_fee(fee: i128) -> (r: (i128, i128))
    requires
        i128::MIN <= fee * STAKER_FEE_BPS <= i128::MAX,
    ensures
        r.0 == protocol_share(fee as int),
        r.1 == staker_share(fee as int),
{
    if fee >= 0 {
        (fee * PROTOCOL_FEE_BPS / 10000, fee * STAKER_FEE_BPS / 10000)
    } else {
        let f = -fee;
        (-(f * PROTOCOL_FEE_BPS / 10000), -(f * STAKER_FEE_BPS / 10000))
    }
}

impl DharmaPoolContract {
    /// The registry's invariant.
    pub open spec fn wf(&self) -> bool {
        rails_wf(self@)
    }

    /// An empty, uninitialized registry.
    pub fn new() -> (r: Self)
        ensures
            r.wf(),
            r@.stake_pool is None,
            r@.treasury is None,
            r@.rail_count == 0,
            r@.rails.len() == 0,
            r@.agent_rails == Map::<u64, Seq<RailId>>::empty(),
    {
        let r = DharmaPoolContract {
            stake_pool: None,
            treasury: None,
            rail_count: 0,
            rails: Vec::new(),
            agent_rails: HashMap::new(),
        };
        assert(r@.agent_rails =~= Map::<u64, Seq<RailId>>::empty());
        r
    }

    /// Records the stake pool and the treasury, once, and zeroes the rail
    /// counter.
    pub fn initialize(&mut self, stake_pool: u64, treasury: u64) -> (r: Result<(), Error>)
        requires
            old(self).wf(),
        ensures
            final(self).wf(),
            old(self)@.stake_pool is Some ==> r == Err::<(), Error>(Error::AlreadyInitialized)
                && final(self)@ == old(self)@,
            old(self)@.stake_pool is None ==> r is Ok && final(self)@ == (RailLedger {
                stake_pool: Some(stake_pool),
                treasury: Some(treasury),
                rail_count: 0,
                ..old(self)@
            }),
    {
        if self.stake_pool.is_some() {
            return Err(Error::AlreadyInitialized);
        }
        self.stake_pool = Some(stake_pool);
        self.treasury = Some(treasury);
        self.rail_count = 0;
        Ok(())
    }

    /// Whether `initialize` has been called.
    pub fn is_initialized(&self) -> (r: bool)
        ensures
            r == self@.stake_pool is Some,
    {
        self.stake_pool.is_some()
    }

    /// How many rails have been requested.
    pub fn get_rail_count(&self) -> (r: u64)
        ensures
            r == self@.rail_count,
    {
        self.rail_count
    }

    /// Position of the rail `id`, scanning from the newest.
    fn find(&self, id: &RailId) -> (r: Option<usize>)
        ensures
            r is None <==> rail_index(self@.rails, id@) == -1,
            r matches Some(i) ==> i == rail_index(self@.rails, id@) && i < self@.rails.len(),
    {
        let mut i: usize = self.rails.len();
        assert(self@.rails.subrange(0, i as int) =~= self@.rails);
        while i > 0
            invariant
                i <= self.rails@.len(),
                rail_index(self@.rails, id@) == rail_index(self@.rails.subrange(0, i as int), id@),
            decreases i,
        {
            let ghost sub = self@.rails.subrange(0, i as int);
            assert(sub.drop_last() =~= self@.rails.subrange(0, i - 1));
            if same_id(&self.rails[i - 1].rail_id, id) {
                return Some(i - 1);
            }
            i = i - 1;
        }
        assert(self@.rails.subrange(0, 0) =~= Seq::<RailView>::empty());
        None
    }

    /// Stores a new active, unused rail with identifier `rail_id`, appends the
    /// identifier to the agent's index and advances the counter.
    pub fn store_rail(&mut self, rail_id: RailId, agent: u64, amount: i128, expires_at: u64)
        requires
            old(self).wf(),
            amount > 0,
            old(self)@.stake_pool is Some,
            old(self)@.rail_count < u64::MAX,
        ensures
            final(self).wf(),
            final(self)@ == after_store(old(self)@, rail_id, agent, amount as int, expires_at),
    {
        let ghost l0 = self@;
        let rail = ComplianceRail {
            rail_id,
            agent,
            spending_limit: amount,
            expires_at,
            used_amount: 0,
            is_active: true,
            backing_stakers: Vec::new(),
        };
        self.rails.push(rail);
        let mut ids: Vec<RailId> = match self.agent_rails.get(&agent) {
            Some(v) => copy_vec(v),
            None => Vec::new(),
        };
        assert(ids@ == rails_of_agent(l0, agent));
        ids.push(rail_id);
        self.agent_rails.insert(agent, ids);
        self.rail_count = self.rail_count + 1;
        assert(self@.rails =~= l0.rails.push(new_rail(rail_id@, agent, amount as int, expires_at)));
        assert(self@.agent_rails =~= l0.agent_rails.insert(agent, rails_of_agent(l0, agent).push(rail_id)));
    }

    /// Issues a rail to `agent` for `amount`, expiring `duration` after
    /// `now`. Its identifier digests the request together with the counter.
    pub fn request_compliance(
        &mut self,
        signer: Option<u64>,
        agent: u64,
        amount: i128,
        duration: u64,
        now: u64,
    ) -> (r: Result<RailId, Error>)
        requires
            old(self).wf(),
            signer == Some(agent) && amount > 0 ==> old(self)@.stake_pool is Some && now + duration
                <= u64::MAX && old(self)@.rail_count < u64::MAX,
        ensures
            final(self).wf(),
            signer != Some(agent) ==> r == Err::<RailId, Error>(Error::Unauthorized),
            signer == Some(agent) && amount <= 0 ==> r == Err::<RailId, Error>(Error::InvalidArgument),
            r is Ok <==> signer == Some(agent) && amount > 0,
            r is Err ==> final(self)@ == old(self)@,
            r matches Ok(id) ==> id@ == rail_id_for(old(self)@.rail_count, agent, amount as nat, duration)
                && final(self)@ == after_store(old(self)@, id, agent, amount as int, (now + duration) as u64),
    {
        if signer != Some(agent) {
            return Err(Error::Unauthorized);
        }
        if amount <= 0 {
            return Err(Error::InvalidArgument);
        }
        let preimage = encode_request(self.rail_count, agent, amount, duration);
        let rail_id = sha256(&preimage);
        self.store_rail(rail_id, agent, amount, now + duration);
        Ok(rail_id)
    }

    /// Issues a rail after checking `zk_proof`. The proof verifier accepts every
    /// proof, so this is `request_compliance`.
    pub fn issue_rail(
        &mut self,
        signer: Option<u64>,
        agent: u64,
        amount: i128,
        duration: u64,
        zk_proof: [u8; 64],
        now: u64,
    ) -> (r: Result<RailId, Error>)
        requires
            old(self).wf(),
            signer == Some(agent) && amount > 0 ==> old(self)@.stake_pool is Some && now + duration
                <= u64::MAX && old(self)@.rail_count < u64::MAX,
        ensures
            final(self).wf(),
            signer != Some(agent) ==> r == Err::<RailId, Error>(Error::Unauthorized),
            signer == Some(agent) && amount <= 0 ==> r == Err::<RailId, Error>(Error::InvalidArgument),
            r is Ok <==> signer == Some(agent) && amount > 0,
            r is Err ==> final(self)@ == old(self)@,
            r matches Ok(id) ==> id@ == rail_id_for(old(self)@.rail_count, agent, amount as nat, duration)
                && final(self)@ == after_store(old(self)@, id, agent, amount as int, (now + duration) as u64),
    {
        self.request_compliance(signer, agent, amount, duration, now)
    }

    /// Whether the rail `rail_id` exists, is active and has not expired at `now`.
    pub fn check_rail_validity(&self, rail_id: &RailId, now: u64) -> (r: bool)
        ensures
            r == rail_valid(self@, rail_id@, now),
    {
        match self.find(rail_id) {
            Some(i) => self.rails[i].is_active && now < self.rails[i].expires_at,
            None => false,
        }
    }

    /// A copy of the rail `rail_id`, if any.
    pub fn get_rail(&self, rail_id: &RailId) -> (r: Option<ComplianceRail>)
        ensures
            r is Some <==> has_rail(self@, rail_id@),
            r matches Some(x) ==> x@ == rail_of(self@, rail_id@),
    {
        match self.find(rail_id) {
            Some(i) => {
                let x = &self.rails[i];
                Some(
                    ComplianceRail {
                        rail_id: x.rail_id,
                        agent: x.agent,
                        spending_limit: x.spending_limit,
                        expires_at: x.expires_at,
                        used_amount: x.used_amount,
                        is_active: x.is_active,
                        backing_stakers: copy_vec(&x.backing_stakers),
                    },
                )
            },
            None => None,
        }
    }

    /// Deactivates rail `i`.
    fn deactivate_at(&mut self, i: usize)
        requires
            old(self).wf(),
            i < old(self)@.rails.len(),
        ensures
            final(self).wf(),
            final(self)@ == (RailLedger { rails: deactivate(old(self)@.rails, i as int), ..old(self)@ }),
    {
        let mut x = self.rails.remove(i);
        x.is_active = false;
        self.rails.insert(i, x);
        assert(self@.rails =~= deactivate(old(self)@.rails, i as int));
    }

    /// Revokes the rail `rail_id`. Revoking a revoked rail is no error.
    pub fn revoke_rail(&mut self, signer: Option<u64>, rail_id: &RailId, caller: u64) -> (r: Result<(), Error>)
        requires
            old(self).wf(),
        ensures
            final(self).wf(),
            signer != Some(caller) ==> r == Err::<(), Error>(Error::Unauthorized),
            signer == Some(caller) && !has_rail(old(self)@, rail_id@) ==> r == Err::<(), Error>(
                Error::NotFound,
            ),
            r is Ok <==> signer == Some(caller) && has_rail(old(self)@, rail_id@),
            r is Err ==> final(self)@ == old(self)@,
            r is Ok ==> final(self)@ == (RailLedger {
                rails: deactivate(old(self)@.rails, rail_index(old(self)@.rails, rail_id@)),
                ..old(self)@
            }),
    {
        if signer != Some(caller) {
            return Err(Error::Unauthorized);
        }
        match self.find(rail_id) {
            Some(i) => {
                self.deactivate_at(i);
                Ok(())
            },
            None => Err(Error::NotFound),
        }
    }

    /// The agent's kill switch: deactivates every active rail in the agent's
    /// index and returns how many it deactivated.
    pub fn revoke_all_rails(&mut self, signer: Option<u64>, agent: u64) -> (r: Result<u32, Error>)
        requires
            old(self).wf(),
            rails_of_agent(old(self)@, agent).len() <= u32::MAX,
        ensures
            final(self).wf(),
            signer != Some(agent) ==> r == Err::<u32, Error>(Error::Unauthorized)
                && final(self)@ == old(self)@,
            signer == Some(agent) ==> ({
                let done = revoke_list(old(self)@.rails, rails_of_agent(old(self)@, agent));
                &&& r == Ok::<u32, Error>(done.1 as u32)
                &&& final(self)@ == (RailLedger { rails: done.0, ..old(self)@ })
            }),
    {
        if signer != Some(agent) {
            return Err(Error::Unauthorized);
        }
        let ids: Vec<RailId> = match self.agent_rails.get(&agent) {
            Some(v) => copy_vec(v),
            None => Vec::new(),
        };
        assert(ids@ == rails_of_agent(old(self)@, agent));
        let ghost l0 = self@;
        let mut count: u32 = 0;
        let mut k: usize = 0;
        while k < ids.len()
            invariant
                k <= ids@.len() <= u32::MAX,
                self.wf(),
                count <= k,
                (self@.rails, count as nat) == revoke_list(l0.rails, ids@.subrange(0, k as int)),
                self@ == (RailLedger { rails: self@.rails, ..l0 }),
            decreases ids@.len() - k,
        {
            let ghost sub = ids@.subrange(0, k + 1);
            assert(sub.drop_last() =~= ids@.subrange(0, k as int));
            assert(sub.last() == ids@[k as int]);
            let id = ids[k];
            match self.find(&id) {
                Some(i) => {
                    if self.rails[i].is_active {
                        self.deactivate_at(i);
                        count = count + 1;
                    }
                },
                None => {},
            }
            k = k + 1;
        }
        assert(ids@.subrange(0, ids@.len() as int) =~= ids@);
        Ok(count)
    }

    /// The staker's kill switch. Rails are not indexed by their backing
    /// stakers, so it deactivates nothing and returns zero.
    pub fn revoke_staker_rails(&mut self, signer: Option<u64>, staker: u64) -> (r: Result<u32, Error>)
        ensures
            signer != Some(staker) ==> r == Err::<u32, Error>(Error::Unauthorized),
            signer == Some(staker) ==> r == Ok::<u32, Error>(0),
            final(self)@ == old(self)@,
    {
        if signer != Some(staker) {
            return Err(Error::Unauthorized);
        }
        Ok(0)
    }

    /// Splits `total_fee` into the protocol's and the stakers' shares, each
    /// truncated; the remainder is dropped.
    pub fn distribute_fees(&self, rail_id: &RailId, total_fee: i128) -> (r: Result<(i128, i128), Error>)
        requires
            i128::MIN <= total_fee * STAKER_FEE_BPS <= i128::MAX,
        ensures
            r is Err <==> !has_rail(self@, rail_id@),
            r is Err ==> r == Err::<(i128, i128), Error>(Error::NotFound),
            r matches Ok(p) ==> p.0 == protocol_share(total_fee as int) && p.1 == staker_share(
                total_fee as int,
            ),
    {
        if self.find(rail_id).is_none() {
            return Err(Error::NotFound);
        }
        Ok(split_fee(total_fee))
    }

    /// The identifiers of the rails of `agent`, revoked ones included.
    pub fn get_agent_rails(&self, agent: u64) -> (r: Vec<RailId>)
        ensures
            r@ == rails_of_agent(self@, agent),
    {
        match self.agent_rails.get(&agent) {
            Some(v) => copy_vec(v),
            None => Vec::new(),
        }
    }

    /// Records `amount` of spending against the rail `rail_id`.
    pub fn record_usage(&mut self, rail_id: &RailId, amount: i128) -> (r: Result<(), Error>)
        requires
            old(self).wf(),
        ensures
            final(self).wf(),
            !has_rail(old(self)@, rail_id@) ==> r == Err::<(), Error>(Error::NotFound),
            has_rail(old(self)@, rail_id@) && !rail_of(old(self)@, rail_id@).is_active ==> r == Err::<
                (),
                Error,
            >(Error::NotActive),
            has_rail(old(self)@, rail_id@) && rail_of(old(self)@, rail_id@).is_active && amount < 0 ==> r
                == Err::<(), Error>(Error::InvalidArgument),
            has_rail(old(self)@, rail_id@) && rail_of(old(self)@, rail_id@).is_active && amount >= 0
                && rail_of(old(self)@, rail_id@).used_amount + amount > rail_of(
                old(self)@,
                rail_id@,
            ).spending_limit ==> r == Err::<(), Error>(Error::LimitExceeded),
            r is Ok <==> has_rail(old(self)@, rail_id@) && rail_of(old(self)@, rail_id@).is_active
                && 0 <= amount && rail_of(old(self)@, rail_id@).used_amount + amount <= rail_of(
                old(self)@,
                rail_id@,
            ).spending_limit,
            r is Err ==> final(self)@ == old(self)@,
            r is Ok ==> final(self)@ == (RailLedger {
                rails: old(self)@.rails.update(
                    rail_index(old(self)@.rails, rail_id@),
                    RailView {
                        used_amount: rail_of(old(self)@, rail_id@).used_amount + amount,
                        ..rail_of(old(self)@, rail_id@)
                    },
                ),
                ..old(self)@
            }),
    {
        let i = match self.find(rail_id) {
            Some(i) => i,
            None => return Err(Error::NotFound),
        };
        if !self.rails[i].is_active {
            return Err(Error::NotActive);
        }
        if amount < 0 {
            return Err(Error::InvalidArgument);
        }
        if amount > self.rails[i].spending_limit - self.rails[i].used_amount {
            return Err(Error::LimitExceeded);
        }
        let mut x = self.rails.remove(i);
        x.used_amount = x.used_amount + amount;
        self.rails.insert(i, x);
        assert(self@.rails =~= old(self)@.rails.update(
            i as int,
            RailView { used_amount: old(self)@.rails[i as int].used_amount + amount, ..old(self)@.rails[i as int] },
        ));
        Ok(())
    }
}

} // verus!
