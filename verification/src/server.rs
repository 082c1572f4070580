//! The request service over the per-entry-point pools: byte-exact validation
//! of request fields, routing to the pool an entry point selects, and the
//! debug surface over pools and reputation. The transport that carries these
//! requests is outside the library; it hands over plain values.

use vstd::prelude::*;

use crate::pool::{
    has_sn, references, remove_mined, select_mined, sn_index_of, sort_entries, worst_of,
    MempoolError, OnNewBlockEvent, OperationOrigin, PoolConfig, PoolEntry, UoPool,
};
use crate::reputation::{
    decay_entry, decayed, entry_for, hours_between, ReputationParams, ReputationStatus,
    ReputationTracker,
};
use crate::types::{
    le_nat, opt_addr_of_wire, opt_addr_wire_valid, Address, OpHash, PoolOperation, StorageSlot,
    UserOperation,
};
use crate::u256::U256;

verus! {

/// Typed rejections of the request service.
#[derive(Clone, Copy, PartialEq, Eq, Structural, Debug)]
pub enum ServiceError {
    /// A byte-length violation or a missing required field.
    InvalidArgument,
    /// The named entry point has no configured pool.
    UnsupportedEntryPoint,
    /// The pool rejected the operation.
    Mempool(MempoolError),
}

/// A storage slot as it arrives on the wire.
#[derive(Debug)]
pub struct RawStorageSlot {
    pub address: Vec<u8>,
    pub slot: Vec<u8>,
    pub value: Vec<u8>,
}

/// A pool operation as it arrives on the wire: addresses as 20 raw bytes,
/// 256-bit integers as 32 little-endian bytes, optional addresses absent
/// when empty or all-zero, entity kinds as small integers.
#[derive(Debug)]
pub struct RawMempoolOp {
    pub sender: Vec<u8>,
    pub nonce: Vec<u8>,
    pub max_fee_per_gas: Vec<u8>,
    pub max_priority_fee_per_gas: Vec<u8>,
    pub paymaster: Vec<u8>,
    pub factory: Vec<u8>,
    pub aggregator: Vec<u8>,
    pub call_data: Vec<u8>,
    pub valid_after: u64,
    pub valid_until: u64,
    pub expected_code_hash: Vec<u8>,
    pub sim_block_hash: Vec<u8>,
    pub expected_storage_slots: Vec<RawStorageSlot>,
    pub entities_needing_stake: Vec<u32>,
    pub account_is_staked: bool,
}

/// The submission request: the target entry point and the operation.
#[derive(Debug)]
pub struct AddOpRequest {
    pub entry_point: Vec<u8>,
    pub op: Option<RawMempoolOp>,
}

/// A reputation override as it arrives on the wire.
#[derive(Debug)]
pub struct RawReputation {
    pub address: Vec<u8>,
    pub ops_seen: u64,
    pub ops_included: u64,
}

/// One reputation record as the debug dump reports it: counters decayed to
/// the read time, classification recomputed.
#[derive(Clone, Copy, PartialEq, Eq, Structural, Debug)]
pub struct ReputationDump {
    pub address: Address,
    pub ops_seen: u64,
    pub ops_included: u64,
    pub status: ReputationStatus,
}

/// The 256-bit integer carried by a 32-byte little-endian wire field.
pub open spec fn u256_of_le(s: Seq<u8>) -> U256 {
    U256 {
        w0: le_nat(s.subrange(0, 8)) as u64,
        w1: le_nat(s.subrange(8, 16)) as u64,
        w2: le_nat(s.subrange(16, 24)) as u64,
        w3: le_nat(s.subrange(24, 32)) as u64,
    }
}

/// Parses a 32-byte little-endian wire field.
pub fn parse_u256_le(v: &Vec<u8>) -> (r: Option<U256>)
    ensures
        r is Some <==> v@.len() == 32,
        r is Some ==> r->Some_0 == u256_of_le(v@),
{
    if v.len() != 32 {
        return None;
    }
    proof {
        crate::types::lemma_le_nat_bound(v@.subrange(0, 8));
        crate::types::lemma_le_nat_bound(v@.subrange(8, 16));
        crate::types::lemma_le_nat_bound(v@.subrange(16, 24));
        crate::types::lemma_le_nat_bound(v@.subrange(24, 32));
        reveal_with_fuel(crate::types::pow256, 9);
    }
    Some(
        U256 {
            w0: crate::types::le_u64_range(v, 0),
            w1: crate::types::le_u64_range(v, 8),
            w2: crate::types::le_u64_range(v, 16),
            w3: crate::types::le_u64_range(v, 24),
        },
    )
}

/// Shape validity of a wire storage slot.
pub open spec fn slot_valid(s: RawStorageSlot) -> bool {
    s.address@.len() == 20 && s.slot@.len() == 32 && s.value@.len() == 32
}

/// Shape validity of a wire operation: every address and hash byte-exact,
/// every entity kind known.
pub open spec fn raw_op_valid(r: RawMempoolOp) -> bool {
    &&& r.sender@.len() == 20
    &&& r.nonce@.len() == 32
    &&& r.max_fee_per_gas@.len() == 32
    &&& r.max_priority_fee_per_gas@.len() == 32
    &&& opt_addr_wire_valid(r.paymaster@)
    &&& opt_addr_wire_valid(r.factory@)
    &&& opt_addr_wire_valid(r.aggregator@)
    &&& r.expected_code_hash@.len() == 32
    &&& r.sim_block_hash@.len() == 32
    &&& forall|i: int|
        0 <= i < r.expected_storage_slots@.len() ==> slot_valid(
            #[trigger] r.expected_storage_slots@[i],
        )
    &&& forall|i: int| 0 <= i < r.entities_needing_stake@.len() ==> r.entities_needing_stake@[i] < 4
}

/// Whether the wire list names entity kind `k`.
pub open spec fn has_kind(s: Seq<u32>, k: u32) -> bool {
    exists|i: int| 0 <= i < s.len() && s[i] == k
}

/// Field-for-field agreement of a parsed operation with its wire form.
pub open spec fn parsed_op_matches(r: RawMempoolOp, op: PoolOperation) -> bool {
    &&& op.uo.sender == Address::of_bytes(r.sender@)
    &&& op.uo.nonce == u256_of_le(r.nonce@)
    &&& op.uo.max_fee_per_gas == u256_of_le(r.max_fee_per_gas@)
    &&& op.uo.max_priority_fee_per_gas == u256_of_le(r.max_priority_fee_per_gas@)
    &&& op.uo.paymaster == opt_addr_of_wire(r.paymaster@)
    &&& op.uo.factory == opt_addr_of_wire(r.factory@)
    &&& op.uo.aggregator == opt_addr_of_wire(r.aggregator@)
    &&& op.uo.call_data@ == r.call_data@
    &&& op.valid_after == r.valid_after
    &&& op.valid_until == r.valid_until
    &&& op.expected_code_hash == OpHash::of_bytes(r.expected_code_hash@)
    &&& op.sim_block_hash == OpHash::of_bytes(r.sim_block_hash@)
    &&& op.expected_storage_slots@.len() == r.expected_storage_slots@.len()
    &&& forall|i: int|
        0 <= i < r.expected_storage_slots@.len() ==> #[trigger] op.expected_storage_slots@[i]
            == (StorageSlot {
            address: Address::of_bytes(r.expected_storage_slots@[i].address@),
            slot: u256_of_le(r.expected_storage_slots@[i].slot@),
            value: u256_of_le(r.expected_storage_slots@[i].value@),
        })
    &&& op.needs_account_stake == has_kind(r.entities_needing_stake@, 0)
    &&& op.needs_paymaster_stake == has_kind(r.entities_needing_stake@, 1)
    &&& op.needs_factory_stake == has_kind(r.entities_needing_stake@, 2)
    &&& op.needs_aggregator_stake == has_kind(r.entities_needing_stake@, 3)
    &&& op.account_is_staked == r.account_is_staked
}

/// Parses a wire operation, validating every field byte-exactly.
pub fn parse_mempool_op(r: &RawMempoolOp) -> (res: Result<PoolOperation, ServiceError>)
    ensures
        res is Ok <==> raw_op_valid(*r),
        res is Ok ==> parsed_op_matches(*r, res->Ok_0),
        res is Err ==> res == Err::<PoolOperation, ServiceError>(ServiceError::InvalidArgument),
{
    let sender = match Address::parse(&r.sender) {
        Some(a) => a,
        None => {
            return Err(ServiceError::InvalidArgument);
        },
    };
    let nonce = match parse_u256_le(&r.nonce) {
        Some(x) => x,
        None => {
            return Err(ServiceError::InvalidArgument);
        },
    };
    let max_fee_per_gas = match parse_u256_le(&r.max_fee_per_gas) {
        Some(x) => x,
        None => {
            return Err(ServiceError::InvalidArgument);
        },
    };
    let max_priority_fee_per_gas = match parse_u256_le(&r.max_priority_fee_per_gas) {
        Some(x) => x,
        None => {
            return Err(ServiceError::InvalidArgument);
        },
    };
    let paymaster = match crate::types::parse_opt_address(&r.paymaster) {
        Ok(o) => o,
        Err(_) => {
            return Err(ServiceError::InvalidArgument);
        },
    };
    let factory = match crate::types::parse_opt_address(&r.factory) {
        Ok(o) => o,
        Err(_) => {
            return Err(ServiceError::InvalidArgument);
        },
    };
    let aggregator = match crate::types::parse_opt_address(&r.aggregator) {
        Ok(o) => o,
        Err(_) => {
            return Err(ServiceError::InvalidArgument);
        },
    };
    let expected_code_hash = match OpHash::parse(&r.expected_code_hash) {
        Some(h) => h,
        None => {
            return Err(ServiceError::InvalidArgument);
        },
    };
    let sim_block_hash = match OpHash::parse(&r.sim_block_hash) {
        Some(h) => h,
        None => {
            return Err(ServiceError::InvalidArgument);
        },
    };
    let mut slots: Vec<StorageSlot> = Vec::new();
    let mut i: usize = 0;
    while i < r.expected_storage_slots.len()
        invariant
            i <= r.expected_storage_slots@.len(),
            slots@.len() == i,
            forall|j: int| 0 <= j < i ==> slot_valid(#[trigger] r.expected_storage_slots@[j]),
            forall|j: int|
                0 <= j < i ==> #[trigger] slots@[j] == (StorageSlot {
                    address: Address::of_bytes(r.expected_storage_slots@[j].address@),
                    slot: u256_of_le(r.expected_storage_slots@[j].slot@),
                    value: u256_of_le(r.expected_storage_slots@[j].value@),
                }),
        decreases r.expected_storage_slots@.len() - i,
    {
        let raw = &r.expected_storage_slots[i];
        let address = match Address::parse(&raw.address) {
            Some(a) => a,
            None => {
                return Err(ServiceError::InvalidArgument);
            },
        };
        let slot = match parse_u256_le(&raw.slot) {
            Some(x) => x,
            None => {
                return Err(ServiceError::InvalidArgument);
            },
        };
        let value = match parse_u256_le(&raw.value) {
            Some(x) => x,
            None => {
                return Err(ServiceError::InvalidArgument);
            },
        };
        slots.push(StorageSlot { address, slot, value });
        i = i + 1;
    }
    let mut needs_account_stake = false;
    let mut needs_paymaster_stake = false;
    let mut needs_factory_stake = false;
    let mut needs_aggregator_stake = false;
    let mut k: usize = 0;
    while k < r.entities_needing_stake.len()
        invariant
            k <= r.entities_needing_stake@.len(),
            forall|j: int| 0 <= j < k ==> r.entities_needing_stake@[j] < 4,
            needs_account_stake == has_kind(r.entities_needing_stake@.take(k as int), 0),
            needs_paymaster_stake == has_kind(r.entities_needing_stake@.take(k as int), 1),
            needs_factory_stake == has_kind(r.entities_needing_stake@.take(k as int), 2),
            needs_aggregator_stake == has_kind(r.entities_needing_stake@.take(k as int), 3),
        decreases r.entities_needing_stake@.len() - k,
    {
        let kind = r.entities_needing_stake[k];
        proof {
            assert(r.entities_needing_stake@.take(k + 1 as int) =~= r.entities_needing_stake@.take(
                k as int,
            ).push(r.entities_needing_stake@[k as int]));
            assert forall|c: u32| true implies has_kind(
                r.entities_needing_stake@.take(k + 1 as int),
                c,
            ) == (has_kind(r.entities_needing_stake@.take(k as int), c) || c
                == r.entities_needing_stake@[k as int]) by {
                let t1 = r.entities_needing_stake@.take(k + 1 as int);
                let t0 = r.entities_needing_stake@.take(k as int);
                if has_kind(t0, c) {
                    let j = choose|j: int| 0 <= j < t0.len() && t0[j] == c;
                    assert(t1[j] == c);
                }
                if c == r.entities_needing_stake@[k as int] {
                    assert(t1[k as int] == c);
                }
                if has_kind(t1, c) && !has_kind(t0, c) && c != r.entities_needing_stake@[k as int] {
                    let j = choose|j: int| 0 <= j < t1.len() && t1[j] == c;
                    assert(t0[j] == c);
                }
            }
        }
        if kind == 0 {
            needs_account_stake = true;
        } else if kind == 1 {
            needs_paymaster_stake = true;
        } else if kind == 2 {
            needs_factory_stake = true;
        } else if kind == 3 {
            needs_aggregator_stake = true;
        } else {
            return Err(ServiceError::InvalidArgument);
        }
        k = k + 1;
    }
    proof {
        assert(r.entities_needing_stake@.take(r.entities_needing_stake@.len() as int)
            =~= r.entities_needing_stake@);
    }
    Ok(
        PoolOperation {
            uo: UserOperation {
                sender,
                nonce,
                max_fee_per_gas,
                max_priority_fee_per_gas,
                paymaster,
                factory,
                aggregator,
                call_data: clone_bytes(&r.call_data),
            },
            valid_after: r.valid_after,
            valid_until: r.valid_until,
            expected_code_hash,
            sim_block_hash,
            expected_storage_slots: slots,
            needs_account_stake,
            needs_paymaster_stake,
            needs_factory_stake,
            needs_aggregator_stake,
            account_is_staked: r.account_is_staked,
        },
    )
}

/// A byte-for-byte copy.
fn clone_bytes(v: &Vec<u8>) -> (r: Vec<u8>)
    ensures
        r@ == v@,
{
    let mut out: Vec<u8> = Vec::new();
    let mut i: usize = 0;
    while i < v.len()
        invariant
            i <= v@.len(),
            out@ == v@.take(i as int),
        decreases v@.len() - i,
    {
        out.push(v[i]);
        proof {
            assert(v@.take(i + 1 as int) =~= v@.take(i as int).push(v@[i as int]));
        }
        i = i + 1;
    }
    proof {
        assert(v@.take(v@.len() as int) =~= v@);
    }
    out
}

/// The request service: one pool per supported entry point, and the shared
/// reputation table.
pub struct OpPoolImpl {
    pub chain_id: u64,
    pub pools: Vec<UoPool>,
    pub reputation: ReputationTracker,
}

impl OpPoolImpl {
    /// Every pool well-formed and on this service's chain, entry points
    /// pairwise distinct, reputation table well-formed.
    pub open spec fn wf(self) -> bool {
        &&& forall|i: int| 0 <= i < self.pools@.len() ==> (#[trigger] self.pools@[i]).wf()
        &&& forall|i: int|
            0 <= i < self.pools@.len() ==> (#[trigger] self.pools@[i]).chain_id == self.chain_id
        &&& forall|i: int, j: int| #![trigger self.pools@[i], self.pools@[j]]
            0 <= i < j < self.pools@.len() ==> self.pools@[i].entry_point
                != self.pools@[j].entry_point
    }

    /// Whether some pool serves entry point `a`.
    pub open spec fn supported(self, a: Address) -> bool {
        exists|i: int| 0 <= i < self.pools@.len() && self.pools@[i].entry_point == a
    }

    /// The index of the pool serving `a`; unique on a well-formed service.
    pub open spec fn pool_index_of(self, a: Address) -> int {
        choose|i: int| 0 <= i < self.pools@.len() && self.pools@[i].entry_point == a
    }

    /// Builds the service: one empty pool per distinct entry point.
    pub fn new(
        chain_id: u64,
        entry_points: &Vec<Address>,
        pool_config: PoolConfig,
        reputation_params: ReputationParams,
    ) -> (r: OpPoolImpl)
        requires
            pool_config.wf(),
            reputation_params.decay_hours >= 1,
        ensures
            r.wf(),
            r.reputation.wf(),
            r.chain_id == chain_id,
            forall|a: Address| r.supported(a) == entry_points@.contains(a),
            forall|i: int| 0 <= i < r.pools@.len() ==> (#[trigger] r.pools@[i]).entries@.len() == 0,
            forall|a: Address| r.reputation.seen_of(a) == 0 && r.reputation.included_of(a) == 0,
    {
        let mut pools: Vec<UoPool> = Vec::new();
        let mut i: usize = 0;
        while i < entry_points.len()
            invariant
                i <= entry_points@.len(),
                pool_config.wf(),
                forall|p: int| 0 <= p < pools@.len() ==> (#[trigger] pools@[p]).wf(),
                forall|p: int|
                    0 <= p < pools@.len() ==> (#[trigger] pools@[p]).chain_id == chain_id,
                forall|p: int|
                    0 <= p < pools@.len() ==> (#[trigger] pools@[p]).entries@.len() == 0,
                forall|p: int, q: int|
                    0 <= p < q < pools@.len() ==> pools@[p].entry_point != pools@[q].entry_point,
                forall|p: int|
                    0 <= p < pools@.len() ==> entry_points@.take(i as int).contains(
                        (#[trigger] pools@[p]).entry_point,
                    ),
                forall|a: Address|
                    entry_points@.take(i as int).contains(a) ==> exists|p: int|
                        0 <= p < pools@.len() && (#[trigger] pools@[p]).entry_point == a,
            decreases entry_points@.len() - i,
        {
            let a = entry_points[i];
            let mut present = false;
            let mut j: usize = 0;
            while j < pools.len()
                invariant
                    j <= pools@.len(),
                    present == exists|p: int|
                        0 <= p < j && (#[trigger] pools@[p]).entry_point == a,
                decreases pools@.len() - j,
            {
                if pools[j].entry_point.hi == a.hi && pools[j].entry_point.lo == a.lo {
                    proof {
                        assert(pools@[j as int].entry_point == a);
                    }
                    present = true;
                }
                j = j + 1;
            }
            let ghost old_pools = pools@;
            if !present {
                pools.push(UoPool::new(a, chain_id, pool_config));
            }
            proof {
                assert(entry_points@.take(i + 1 as int) =~= entry_points@.take(i as int).push(
                    entry_points@[i as int],
                ));
                let t1 = entry_points@.take(i + 1 as int);
                let t0 = entry_points@.take(i as int);
                assert forall|p: int| 0 <= p < pools@.len() implies t1.contains(
                    (#[trigger] pools@[p]).entry_point,
                ) by {
                    if p < old_pools.len() {
                        assert(pools@[p] == old_pools[p]);
                        assert(t0.contains(old_pools[p].entry_point));
                        let idx = choose|idx: int|
                            0 <= idx < t0.len() && t0[idx] == old_pools[p].entry_point;
                        assert(t1[idx] == old_pools[p].entry_point);
                    } else {
                        assert(pools@[p].entry_point == a);
                        assert(t1[i as int] == a);
                    }
                }
                assert forall|a2: Address| t1.contains(a2) implies exists|p: int|
                    0 <= p < pools@.len() && (#[trigger] pools@[p]).entry_point == a2 by {
                    let idx = choose|idx: int| 0 <= idx < t1.len() && t1[idx] == a2;
                    if idx < i as int {
                        assert(t0[idx] == a2);
                        assert(t0.contains(a2));
                        let p = choose|p: int|
                            0 <= p < old_pools.len() && (#[trigger] old_pools[p]).entry_point
                                == a2;
                        assert(pools@[p] == old_pools[p]);
                        assert(pools@[p].entry_point == a2);
                    } else {
                        assert(a2 == a);
                        if present {
                            let p = choose|p: int|
                                0 <= p < old_pools.len() && (#[trigger] old_pools[p]).entry_point
                                    == a;
                            assert(pools@[p] == old_pools[p]);
                            assert(pools@[p].entry_point == a2);
                        } else {
                            assert(pools@[pools@.len() - 1].entry_point == a2);
                        }
                    }
                }
            }
            i = i + 1;
        }
        proof {
            assert(entry_points@.take(entry_points@.len() as int) =~= entry_points@);
        }
        OpPoolImpl { chain_id, pools, reputation: ReputationTracker::new(reputation_params) }
    }

    /// The index of the pool serving `a`, if any.
    fn find_pool(&self, a: &Address) -> (r: Option<usize>)
        requires
            self.wf(),
        ensures
            match r {
                Some(i) => i < self.pools@.len() && self.pools@[i as int].entry_point == *a
                    && self.supported(*a) && self.pool_index_of(*a) == i,
                None => !self.supported(*a),
            },
    {
        let mut i: usize = 0;
        while i < self.pools.len()
            invariant
                self.wf(),
                i <= self.pools@.len(),
                forall|j: int| 0 <= j < i ==> (#[trigger] self.pools@[j]).entry_point != *a,
            decreases self.pools@.len() - i,
        {
            let ep = &self.pools[i].entry_point;
            if ep.hi == a.hi && ep.lo == a.lo {
                proof {
                    assert(self.pools@[i as int].entry_point == *a);
                    let w = self.pool_index_of(*a);
                    assert(0 <= w < self.pools@.len() && self.pools@[w].entry_point == *a);
                    if w < i as int {
                        assert(self.pools@[w].entry_point != self.pools@[i as int].entry_point);
                        assert(false);
                    } else if (i as int) < w {
                        assert(self.pools@[i as int].entry_point != self.pools@[w].entry_point);
                        assert(false);
                    }
                }
                return Some(i);
            }
            i = i + 1;
        }
        None
    }

    /// Chain id and the supported entry points.
    pub fn get_supported_entry_points(&self) -> (r: (u64, Vec<Address>))
        ensures
            r.0 == self.chain_id,
            r.1@.len() == self.pools@.len(),
            forall|i: int| 0 <= i < r.1@.len() ==> r.1@[i] == self.pools@[i].entry_point,
    {
        let mut eps: Vec<Address> = Vec::new();
        let mut i: usize = 0;
        while i < self.pools.len()
            invariant
                i <= self.pools@.len(),
                eps@.len() == i,
                forall|j: int| 0 <= j < i ==> eps@[j] == self.pools@[j].entry_point,
            decreases self.pools@.len() - i,
        {
            eps.push(self.pools[i].entry_point());
            i = i + 1;
        }
        (self.chain_id, eps)
    }

    /// The pool an entry-point byte string selects: the bytes must parse as
    /// an address, and the address must be supported.
    pub fn get_mempool_for_entry_point(&self, entry_point: &Vec<u8>) -> (r: Result<
        &UoPool,
        ServiceError,
    >)
        requires
            self.wf(),
        ensures
            r is Ok <==> entry_point@.len() == 20 && self.supported(
                Address::of_bytes(entry_point@),
            ),
            r is Ok ==> *r->Ok_0 == self.pools@[self.pool_index_of(
                Address::of_bytes(entry_point@),
            )],
            r is Err ==> r->Err_0 == (if entry_point@.len() != 20 {
                ServiceError::InvalidArgument
            } else {
                ServiceError::UnsupportedEntryPoint
            }),
    {
        let a = match Address::parse(entry_point) {
            Some(a) => a,
            None => {
                return Err(ServiceError::InvalidArgument);
            },
        };
        match self.find_pool(&a) {
            Some(i) => Ok(&self.pools[i]),
            None => Err(ServiceError::UnsupportedEntryPoint),
        }
    }
}


/// Whether every wire hash has exactly 32 bytes.
pub open spec fn hashes_valid(hs: Seq<Vec<u8>>) -> bool {
    forall|k: int| 0 <= k < hs.len() ==> (#[trigger] hs[k])@.len() == 32
}

/// The hashes a list of 32-byte strings carries.
pub open spec fn parsed_hashes(hs: Seq<Vec<u8>>) -> Seq<OpHash> {
    Seq::new(hs.len(), |k: int| OpHash::of_bytes(hs[k]@))
}

/// The counters the last override for address `a` in the list sets, if any.
pub open spec fn last_set(rs: Seq<RawReputation>, a: Address) -> Option<(u64, u64)>
    decreases rs.len(),
{
    if rs.len() == 0 {
        None
    } else if rs.last().address@.len() == 20 && Address::of_bytes(rs.last().address@) == a {
        Some((rs.last().ops_seen, rs.last().ops_included))
    } else {
        last_set(rs.drop_last(), a)
    }
}

impl OpPoolImpl {
    /// Submits an operation: the entry point must be a 20-byte supported
    /// address and the operation present and well-shaped; the selected
    /// pool's admission policy then decides. Reputation is bumped for every
    /// entity the parsed operation references, whatever the policy says.
    pub fn add_op(&mut self, req: AddOpRequest, now: u64) -> (r: Result<OpHash, ServiceError>)
        requires
            old(self).wf(),
            old(self).reputation.wf(),
        ensures
            final(self).wf(),
            final(self).reputation.wf(),
            final(self).chain_id == old(self).chain_id,
            final(self).pools@.len() == old(self).pools@.len(),
            forall|j: int|
                0 <= j < final(self).pools@.len() ==> (#[trigger] final(self).pools@[j]).entry_point
                    == old(self).pools@[j].entry_point,
            req.entry_point@.len() != 20 ==> r == Err::<OpHash, ServiceError>(
                ServiceError::InvalidArgument,
            ) && *final(self) == *old(self),
            req.entry_point@.len() == 20 && !old(self).supported(Address::of_bytes(req.entry_point@))
                ==> r == Err::<OpHash, ServiceError>(ServiceError::UnsupportedEntryPoint)
                    && *final(self) == *old(self),
            req.entry_point@.len() == 20 && old(self).supported(Address::of_bytes(req.entry_point@))
                && req.op is None ==> r == Err::<OpHash, ServiceError>(
                ServiceError::InvalidArgument,
            ) && *final(self) == *old(self),
            req.entry_point@.len() == 20 && old(self).supported(Address::of_bytes(req.entry_point@))
                && req.op is Some && !raw_op_valid(req.op->0) ==> r == Err::<OpHash, ServiceError>(
                ServiceError::InvalidArgument,
            ) && *final(self) == *old(self),
            req.entry_point@.len() == 20 && old(self).supported(Address::of_bytes(req.entry_point@))
                && req.op is Some && raw_op_valid(req.op->0) ==> exists|op: PoolOperation|
                #![auto]
                parsed_op_matches(req.op->0, op) && add_op_effect(
                    *old(self),
                    *final(self),
                    old(self).pool_index_of(Address::of_bytes(req.entry_point@)),
                    op,
                    now,
                    r,
                ),
    {
        let ep = match Address::parse(&req.entry_point) {
            Some(a) => a,
            None => {
                return Err(ServiceError::InvalidArgument);
            },
        };
        let i = match self.find_pool(&ep) {
            Some(i) => i,
            None => {
                return Err(ServiceError::UnsupportedEntryPoint);
            },
        };
        let raw = match &req.op {
            Some(raw) => raw,
            None => {
                return Err(ServiceError::InvalidArgument);
            },
        };
        let op = match parse_mempool_op(raw) {
            Ok(op) => op,
            Err(e) => {
                return Err(e);
            },
        };
        let ghost op_spec = op;
        let mut pool = self.pools.remove(i);
        let res = pool.add_operation(OperationOrigin::Local, op, &mut self.reputation, now);
        self.pools.insert(i, pool);
        proof {
            assert(self.pools@ =~= old(self).pools@.update(i as int, self.pools@[i as int]));
            assert forall|j: int|
                0 <= j < self.pools@.len() && j != i as int implies #[trigger] self.pools@[j]
                == old(self).pools@[j] by {}
        }
        match res {
            Ok(h) => {
                proof {
                    assert(parsed_op_matches(req.op->0, op_spec));
                }
                Ok(h)
            },
            Err(e) => Err(ServiceError::Mempool(e)),
        }
    }

    /// The best operations of the selected pool, in priority order.
    pub fn get_ops(&self, entry_point: &Vec<u8>, max_ops: u64) -> (r: Result<
        Vec<PoolOperation>,
        ServiceError,
    >)
        requires
            self.wf(),
        ensures
            r is Ok <==> entry_point@.len() == 20 && self.supported(
                Address::of_bytes(entry_point@),
            ),
            r is Err ==> r->Err_0 == (if entry_point@.len() != 20 {
                ServiceError::InvalidArgument
            } else {
                ServiceError::UnsupportedEntryPoint
            }),
            r is Ok ==> ({
                let p = self.pools@[self.pool_index_of(Address::of_bytes(entry_point@))];
                let sorted = sort_entries(p.entries@, p.base_fee);
                &&& r->Ok_0@.len() == if max_ops <= p.entries@.len() {
                    max_ops as nat
                } else {
                    p.entries@.len()
                }
                &&& forall|k: int| 0 <= k < r->Ok_0@.len() ==> (#[trigger] r->Ok_0@[k])@
                    == sorted[k].op@
            }),
    {
        let ep = match Address::parse(entry_point) {
            Some(a) => a,
            None => {
                return Err(ServiceError::InvalidArgument);
            },
        };
        let i = match self.find_pool(&ep) {
            Some(i) => i,
            None => {
                return Err(ServiceError::UnsupportedEntryPoint);
            },
        };
        let m: usize = if max_ops > usize::MAX as u64 {
            usize::MAX
        } else {
            max_ops as usize
        };
        Ok(self.pools[i].best_operations(m))
    }

    /// Removes the listed operations from the selected pool; every hash must
    /// be exactly 32 bytes.
    pub fn remove_ops(&mut self, entry_point: &Vec<u8>, hashes: &Vec<Vec<u8>>) -> (r: Result<
        (),
        ServiceError,
    >)
        requires
            old(self).wf(),
        ensures
            final(self).wf(),
            final(self).chain_id == old(self).chain_id,
            final(self).reputation == old(self).reputation,
            final(self).pools@.len() == old(self).pools@.len(),
            r is Ok <==> entry_point@.len() == 20 && old(self).supported(
                Address::of_bytes(entry_point@),
            ) && hashes_valid(hashes@),
            r is Err ==> *final(self) == *old(self) && r->Err_0 == (if entry_point@.len() != 20 {
                ServiceError::InvalidArgument
            } else if !old(self).supported(Address::of_bytes(entry_point@)) {
                ServiceError::UnsupportedEntryPoint
            } else {
                ServiceError::InvalidArgument
            }),
            r is Ok ==> ({
                let i = old(self).pool_index_of(Address::of_bytes(entry_point@));
                let p0 = old(self).pools@[i];
                &&& forall|j: int|
                    0 <= j < old(self).pools@.len() && j != i ==> #[trigger] final(self).pools@[j]
                        == old(self).pools@[j]
                &&& final(self).pools@[i].entries@ == remove_mined(
                    p0.entries@,
                    parsed_hashes(hashes@),
                )
                &&& final(self).pools@[i] == (UoPool {
                    entries: final(self).pools@[i].entries,
                    ..p0
                })
            }),
    {
        let ep = match Address::parse(entry_point) {
            Some(a) => a,
            None => {
                return Err(ServiceError::InvalidArgument);
            },
        };
        let i = match self.find_pool(&ep) {
            Some(i) => i,
            None => {
                return Err(ServiceError::UnsupportedEntryPoint);
            },
        };
        let mut parsed: Vec<OpHash> = Vec::new();
        let mut k: usize = 0;
        while k < hashes.len()
            invariant
                *self == *old(self),
                self.wf(),
                entry_point@.len() == 20,
                old(self).supported(Address::of_bytes(entry_point@)),
                k <= hashes@.len(),
                parsed@.len() == k,
                forall|j: int| 0 <= j < k ==> (#[trigger] hashes@[j])@.len() == 32,
                forall|j: int| 0 <= j < k ==> parsed@[j] == OpHash::of_bytes(hashes@[j]@),
            decreases hashes@.len() - k,
        {
            match OpHash::parse(&hashes[k]) {
                Some(h) => {
                    parsed.push(h);
                },
                None => {
                    return Err(ServiceError::InvalidArgument);
                },
            }
            k = k + 1;
        }
        proof {
            assert(parsed@ =~= parsed_hashes(hashes@));
        }
        let mut pool = self.pools.remove(i);
        let _removed = pool.remove_operations(&parsed);
        self.pools.insert(i, pool);
        proof {
            assert(self.pools@ =~= old(self).pools@.update(i as int, self.pools@[i as int]));
        }
        Ok(())
    }

    /// Routes a mined-block event to the pool of the entry point it
    /// concerns; an unsupported entry point is a no-op.
    pub fn on_new_block(&mut self, entry_point: &Address, event: &OnNewBlockEvent, now: u64)
        requires
            old(self).wf(),
            old(self).reputation.wf(),
        ensures
            final(self).wf(),
            final(self).reputation.wf(),
            final(self).chain_id == old(self).chain_id,
            final(self).pools@.len() == old(self).pools@.len(),
            !old(self).supported(*entry_point) ==> *final(self) == *old(self),
            old(self).supported(*entry_point) ==> ({
                let i = old(self).pool_index_of(*entry_point);
                let p0 = old(self).pools@[i];
                &&& forall|j: int|
                    0 <= j < old(self).pools@.len() && j != i ==> #[trigger] final(self).pools@[j]
                        == old(self).pools@[j]
                &&& final(self).pools@[i].entries@ == remove_mined(
                    p0.entries@,
                    event.mined_operations@,
                )
                &&& final(self).pools@[i] == (UoPool {
                    entries: final(self).pools@[i].entries,
                    ..p0
                })
                &&& final(self).reputation.params == old(self).reputation.params
                &&& forall|a: Address| #![trigger final(self).reputation.seen_of(a)]
                    final(self).reputation.seen_of(a) == old(self).reputation.seen_of(a)
                &&& forall|a: Address| #![trigger final(self).reputation.included_of(a)]
                    final(self).reputation.included_of(a) as int == {
                        let c = old(self).reputation.included_of(a)
                            + crate::pool::count_referencing(
                            select_mined(p0.entries@, event.mined_operations@),
                            a,
                        );
                        if c <= u64::MAX {
                            c
                        } else {
                            u64::MAX as int
                        }
                    }
            }),
    {
        let i = match self.find_pool(entry_point) {
            Some(i) => i,
            None => {
                return ;
            },
        };
        let mut pool = self.pools.remove(i);
        pool.on_new_block(event, &mut self.reputation, now);
        self.pools.insert(i, pool);
        proof {
            assert(self.pools@ =~= old(self).pools@.update(i as int, self.pools@[i as int]));
        }
    }

    /// Clears every pool; reputation is untouched.
    pub fn debug_clear_state(&mut self)
        requires
            old(self).wf(),
        ensures
            final(self).wf(),
            final(self).chain_id == old(self).chain_id,
            final(self).reputation == old(self).reputation,
            final(self).pools@.len() == old(self).pools@.len(),
            forall|j: int|
                0 <= j < final(self).pools@.len() ==> (#[trigger] final(self).pools@[j]).entries@.len()
                    == 0,
            forall|j: int|
                0 <= j < final(self).pools@.len() ==> #[trigger] final(self).pools@[j] == (UoPool {
                    entries: final(self).pools@[j].entries,
                    ..old(self).pools@[j]
                }),
    {
        let mut i: usize = 0;
        while i < self.pools.len()
            invariant
                i <= self.pools@.len(),
                self.wf(),
                self.chain_id == old(self).chain_id,
                self.reputation == old(self).reputation,
                self.pools@.len() == old(self).pools@.len(),
                forall|j: int| i <= j < self.pools@.len() ==> #[trigger] self.pools@[j] == old(
                    self,
                ).pools@[j],
                forall|j: int|
                    0 <= j < i ==> (#[trigger] self.pools@[j]).entries@.len() == 0,
                forall|j: int|
                    0 <= j < i ==> #[trigger] self.pools@[j] == (UoPool {
                        entries: self.pools@[j].entries,
                        ..old(self).pools@[j]
                    }),
            decreases self.pools@.len() - i,
        {
            let ghost before = self.pools@;
            let mut pool = self.pools.remove(i);
            pool.clear();
            self.pools.insert(i, pool);
            proof {
                assert(self.pools@ =~= before.update(i as int, self.pools@[i as int]));
            }
            i = i + 1;
        }
    }

    /// Debug dump of the selected pool: all resident operations, in
    /// insertion order.
    pub fn debug_dump_mempool(&self, entry_point: &Vec<u8>) -> (r: Result<
        Vec<PoolOperation>,
        ServiceError,
    >)
        requires
            self.wf(),
        ensures
            r is Ok <==> entry_point@.len() == 20 && self.supported(
                Address::of_bytes(entry_point@),
            ),
            r is Err ==> r->Err_0 == (if entry_point@.len() != 20 {
                ServiceError::InvalidArgument
            } else {
                ServiceError::UnsupportedEntryPoint
            }),
            r is Ok ==> ({
                let p = self.pools@[self.pool_index_of(Address::of_bytes(entry_point@))];
                &&& r->Ok_0@.len() == p.entries@.len()
                &&& forall|k: int| 0 <= k < r->Ok_0@.len() ==> (#[trigger] r->Ok_0@[k])@
                    == p.entries@[k].op@
            }),
    {
        let ep = match Address::parse(entry_point) {
            Some(a) => a,
            None => {
                return Err(ServiceError::InvalidArgument);
            },
        };
        let i = match self.find_pool(&ep) {
            Some(i) => i,
            None => {
                return Err(ServiceError::UnsupportedEntryPoint);
            },
        };
        Ok(self.pools[i].all_operations(usize::MAX))
    }

    /// Admin override of reputation records. The list must be non-empty and
    /// every address exactly 20 bytes; validation happens before any record
    /// is written, and the last override for an address wins.
    pub fn debug_set_reputation(
        &mut self,
        entry_point: &Vec<u8>,
        reputations: &Vec<RawReputation>,
        now: u64,
    ) -> (r: Result<(), ServiceError>)
        requires
            old(self).wf(),
            old(self).reputation.wf(),
        ensures
            final(self).wf(),
            final(self).reputation.wf(),
            final(self).pools@ == old(self).pools@,
            final(self).chain_id == old(self).chain_id,
            final(self).reputation.params == old(self).reputation.params,
            r is Ok <==> entry_point@.len() == 20 && old(self).supported(
                Address::of_bytes(entry_point@),
            ) && reputations@.len() > 0 && (forall|k: int|
                0 <= k < reputations@.len() ==> (#[trigger] reputations@[k]).address@.len() == 20),
            r is Err ==> final(self).reputation == old(self).reputation && r->Err_0 == (if entry_point@.len()
                != 20 {
                ServiceError::InvalidArgument
            } else if !old(self).supported(Address::of_bytes(entry_point@)) {
                ServiceError::UnsupportedEntryPoint
            } else {
                ServiceError::InvalidArgument
            }),
            r is Ok ==> forall|a: Address| #![trigger entry_for(final(self).reputation.entries@, a)]
                match last_set(reputations@, a) {
                    Some(si) => entry_for(final(self).reputation.entries@, a) == Some(
                        crate::reputation::ReputationEntry {
                            address: a,
                            ops_seen: si.0,
                            ops_included: si.1,
                            last_update: now,
                        },
                    ),
                    None => entry_for(final(self).reputation.entries@, a) == entry_for(
                        old(self).reputation.entries@,
                        a,
                    ),
                },
    {
        let ep = match Address::parse(entry_point) {
            Some(a) => a,
            None => {
                return Err(ServiceError::InvalidArgument);
            },
        };
        if self.find_pool(&ep).is_none() {
            return Err(ServiceError::UnsupportedEntryPoint);
        }
        if reputations.len() == 0 {
            return Err(ServiceError::InvalidArgument);
        }
        let mut k: usize = 0;
        while k < reputations.len()
            invariant
                *self == *old(self),
                self.wf(),
                self.reputation.wf(),
                entry_point@.len() == 20,
                old(self).supported(Address::of_bytes(entry_point@)),
                k <= reputations@.len(),
                forall|j: int|
                    0 <= j < k ==> (#[trigger] reputations@[j]).address@.len() == 20,
            decreases reputations@.len() - k,
        {
            if reputations[k].address.len() != 20 {
                return Err(ServiceError::InvalidArgument);
            }
            k = k + 1;
        }
        let ghost rep0 = self.reputation;
        let mut t: usize = 0;
        proof {
            assert(reputations@.take(0) =~= Seq::<RawReputation>::empty());
        }
        while t < reputations.len()
            invariant
                t <= reputations@.len(),
                self.reputation.wf(),
                self.reputation.params == rep0.params,
                self.wf(),
                self.chain_id == old(self).chain_id,
                self.pools@ == old(self).pools@,
                forall|j: int|
                    0 <= j < reputations@.len() ==> (#[trigger] reputations@[j]).address@.len()
                        == 20,
                forall|a: Address| #![trigger entry_for(self.reputation.entries@, a)]
                    match last_set(reputations@.take(t as int), a) {
                        Some(si) => entry_for(self.reputation.entries@, a) == Some(
                            crate::reputation::ReputationEntry {
                                address: a,
                                ops_seen: si.0,
                                ops_included: si.1,
                                last_update: now,
                            },
                        ),
                        None => entry_for(self.reputation.entries@, a) == entry_for(
                            rep0.entries@,
                            a,
                        ),
                    },
            decreases reputations@.len() - t,
        {
            let raw = &reputations[t];
            let a = match Address::parse(&raw.address) {
                Some(a) => a,
                None => {
                    proof {
                        assert(false);
                    }
                    return Err(ServiceError::InvalidArgument);
                },
            };
            self.reputation.set_reputation(&a, raw.ops_seen, raw.ops_included, now);
            proof {
                let t0 = reputations@.take(t as int);
                let t1 = reputations@.take(t + 1 as int);
                assert(t1.drop_last() =~= t0);
                assert(t1.last() == reputations@[t as int]);
            }
            t = t + 1;
        }
        proof {
            assert(reputations@.take(reputations@.len() as int) =~= reputations@);
        }
        Ok(())
    }

    /// Debug dump of the reputation table: counters decayed to the read
    /// time, classification recomputed.
    pub fn debug_dump_reputation(&self, entry_point: &Vec<u8>, now: u64) -> (r: Result<
        Vec<ReputationDump>,
        ServiceError,
    >)
        requires
            self.wf(),
            self.reputation.wf(),
        ensures
            r is Ok <==> entry_point@.len() == 20 && self.supported(
                Address::of_bytes(entry_point@),
            ),
            r is Err ==> r->Err_0 == (if entry_point@.len() != 20 {
                ServiceError::InvalidArgument
            } else {
                ServiceError::UnsupportedEntryPoint
            }),
            r is Ok ==> ({
                let es = self.reputation.entries@;
                &&& r->Ok_0@.len() == es.len()
                &&& forall|k: int|
                    0 <= k < es.len() ==> #[trigger] r->Ok_0@[k] == (ReputationDump {
                        address: es[k].address,
                        ops_seen: decay_entry(es[k], now, self.reputation.params.decay_hours).ops_seen,
                        ops_included: decay_entry(
                            es[k],
                            now,
                            self.reputation.params.decay_hours,
                        ).ops_included,
                        status: self.reputation.params.classify(
                            decayed(
                                es[k].ops_seen,
                                hours_between(es[k].last_update, now),
                                self.reputation.params.decay_hours,
                            ),
                            decayed(
                                es[k].ops_included,
                                hours_between(es[k].last_update, now),
                                self.reputation.params.decay_hours,
                            ),
                        ),
                    })
            }),
    {
        let ep = match Address::parse(entry_point) {
            Some(a) => a,
            None => {
                return Err(ServiceError::InvalidArgument);
            },
        };
        if self.find_pool(&ep).is_none() {
            return Err(ServiceError::UnsupportedEntryPoint);
        }
        let mut out: Vec<ReputationDump> = Vec::new();
        let mut k: usize = 0;
        while k < self.reputation.entries.len()
            invariant
                k <= self.reputation.entries@.len(),
                self.reputation.wf(),
                out@.len() == k,
                forall|j: int|
                    0 <= j < k ==> #[trigger] out@[j] == (ReputationDump {
                        address: self.reputation.entries@[j].address,
                        ops_seen: decay_entry(
                            self.reputation.entries@[j],
                            now,
                            self.reputation.params.decay_hours,
                        ).ops_seen,
                        ops_included: decay_entry(
                            self.reputation.entries@[j],
                            now,
                            self.reputation.params.decay_hours,
                        ).ops_included,
                        status: self.reputation.params.classify(
                            decayed(
                                self.reputation.entries@[j].ops_seen,
                                hours_between(self.reputation.entries@[j].last_update, now),
                                self.reputation.params.decay_hours,
                            ),
                            decayed(
                                self.reputation.entries@[j].ops_included,
                                hours_between(self.reputation.entries@[j].last_update, now),
                                self.reputation.params.decay_hours,
                            ),
                        ),
                    }),
            decreases self.reputation.entries@.len() - k,
        {
            let e = self.reputation.entries[k];
            let h = crate::reputation::hours_elapsed(e.last_update, now);
            let seen = crate::reputation::decay_count(e.ops_seen, h, self.reputation.params.decay_hours);
            let included = crate::reputation::decay_count(
                e.ops_included,
                h,
                self.reputation.params.decay_hours,
            );
            let diff = if seen >= included {
                seen - included
            } else {
                0
            };
            let status = if diff > self.reputation.params.banning_slack {
                ReputationStatus::Banned
            } else if diff > self.reputation.params.throttling_slack {
                ReputationStatus::Throttled
            } else {
                ReputationStatus::Good
            };
            out.push(ReputationDump { address: e.address, ops_seen: seen, ops_included: included, status });
            k = k + 1;
        }
        Ok(out)
    }
}

/// The effect of an admission through the service on the selected pool, the
/// shared reputation and the result; exactly the pool-level contract, lifted
/// to the service state.
pub open spec fn add_op_effect(
    before: OpPoolImpl,
    after: OpPoolImpl,
    i: int,
    op: PoolOperation,
    now: u64,
    r: Result<OpHash, ServiceError>,
) -> bool {
    let p0 = before.pools@[i];
    let rep0 = before.reputation;
    &&& forall|a: Address| #![trigger after.reputation.seen_of(a)]
        after.reputation.seen_of(a) as int == if references(op, a) && rep0.seen_of(a) < u64::MAX {
            rep0.seen_of(a) + 1
        } else {
            rep0.seen_of(a) as int
        }
    &&& forall|a: Address| #![trigger after.reputation.included_of(a)]
        after.reputation.included_of(a) == rep0.included_of(a)
    &&& after.reputation.params == rep0.params
    &&& forall|j: int|
        0 <= j < before.pools@.len() && j != i ==> #[trigger] after.pools@[j] == before.pools@[j]
    &&& match p0.admit_error(rep0, op, now) {
        Some(e) => r == Err::<OpHash, ServiceError>(ServiceError::Mempool(e)) && after.pools@[i].entries@
            == p0.entries@ && after.pools@[i] == (UoPool {
            entries: after.pools@[i].entries,
            next_seq: p0.next_seq,
            ..p0
        }),
        None => {
            let h = crate::crypto::op_hash_spec(op.uo@, p0.entry_point, p0.chain_id);
            let e = PoolEntry { hash: h, op: op, seq: p0.next_seq };
            &&& r == Ok::<OpHash, ServiceError>(h)
            &&& after.pools@[i] == (UoPool {
                entries: after.pools@[i].entries,
                next_seq: after.pools@[i].next_seq,
                ..p0
            })
            &&& after.pools@[i].next_seq == p0.next_seq + 1
            &&& if has_sn(p0.entries@, op.uo.sender, op.uo.nonce) {
                after.pools@[i].entries@ == p0.entries@.remove(
                    sn_index_of(p0.entries@, op.uo.sender, op.uo.nonce),
                ).push(e)
            } else if p0.entries@.len() >= p0.config.max_pool_size {
                after.pools@[i].entries@ == p0.entries@.remove(worst_of(p0.entries@, p0.base_fee)).push(
                    e,
                )
            } else {
                after.pools@[i].entries@ == p0.entries@.push(e)
            }
        },
    }
}

} // verus!
