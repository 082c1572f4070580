//! Plain data model: addresses, operation hashes, user operations and the
//! validation metadata that accompanies them in the pool, together with the
//! byte-level conversions that the request service performs on its inputs.

use vstd::prelude::*;

use crate::u256::U256;

verus! {

/// The mathematical value of a big-endian byte string.
pub open spec fn be_nat(s: Seq<u8>) -> nat
    decreases s.len(),
{
    if s.len() == 0 {
        0
    } else {
        be_nat(s.drop_last()) * 256 + s.last() as nat
    }
}

/// The `n`-byte big-endian encoding of `x % 256^n`.
pub open spec fn be_seq(x: nat, n: nat) -> Seq<u8>
    decreases n,
{
    if n == 0 {
        Seq::empty()
    } else {
        be_seq(x / 256, (n - 1) as nat) + seq![(x % 256) as u8]
    }
}

pub proof fn lemma_be_nat_bound(s: Seq<u8>)
    ensures
        be_nat(s) < pow256(s.len()),
    decreases s.len(),
{
    if s.len() > 0 {
        lemma_be_nat_bound(s.drop_last());
    }
}

/// 256^n.
pub open spec fn pow256(n: nat) -> nat
    decreases n,
{
    if n == 0 {
        1
    } else {
        256 * pow256((n - 1) as nat)
    }
}

/// Reads bytes `start..end` of `v` as a big-endian unsigned integer.
pub fn be_u128_range(v: &Vec<u8>, start: usize, end: usize) -> (r: u128)
    requires
        start <= end <= v@.len(),
        end - start <= 16,
    ensures
        r == be_nat(v@.subrange(start as int, end as int)),
{
    let mut acc: u128 = 0;
    let mut i: usize = start;
    proof {
        assert(v@.subrange(start as int, start as int) =~= Seq::<u8>::empty());
    }
    while i < end
        invariant
            start <= i <= end <= v@.len(),
            end - start <= 16,
            acc == be_nat(v@.subrange(start as int, i as int)),
            acc < pow256((i - start) as nat),
        decreases end - i,
    {
        proof {
            assert(v@.subrange(start as int, (i + 1) as int).drop_last() =~= v@.subrange(
                start as int,
                i as int,
            ));
            assert(pow256((i + 1 - start) as nat) == 256 * pow256((i - start) as nat));
            lemma_pow256_le((i - start) as nat, 15);
            reveal_with_fuel(pow256, 17);
            assert(pow256(15) == 0x1_0000_0000_0000_0000_0000_0000_0000_00);
        }
        acc = acc * 256 + (v[i] as u128);
        i = i + 1;
    }
    acc
}

pub proof fn lemma_pow256_le(m: nat, n: nat)
    requires
        m <= n,
    ensures
        pow256(m) <= pow256(n),
    decreases n,
{
    if m < n {
        lemma_pow256_le(m, (n - 1) as nat);
    }
}

/// Appends the `n`-byte big-endian encoding of `x` to `out`.
pub fn push_be(out: &mut Vec<u8>, x: u128, n: usize)
    ensures
        final(out)@ == old(out)@ + be_seq(x as nat, n as nat),
    decreases n,
{
    if n == 0 {
        proof {
            assert(old(out)@ + be_seq(x as nat, 0) =~= old(out)@);
        }
    } else {
        push_be(out, x / 256, n - 1);
        out.push((x % 256) as u8);
    }
}

/// A 20-byte account address, stored as two big-endian integer pieces:
/// `hi` holds the first 4 bytes, `lo` the remaining 16.
#[derive(Clone, Copy, PartialEq, Eq, Structural, Debug)]
pub struct Address {
    pub hi: u32,
    pub lo: u128,
}

impl Address {
    /// The 20-byte encoding of this address.
    pub open spec fn bytes(self) -> Seq<u8> {
        be_seq(self.hi as nat, 4) + be_seq(self.lo as nat, 16)
    }

    /// The address whose 20-byte encoding is `s`.
    pub open spec fn of_bytes(s: Seq<u8>) -> Address {
        Address { hi: be_nat(s.subrange(0, 4)) as u32, lo: be_nat(s.subrange(4, 20)) as u128 }
    }

    /// Parses a byte string as an address; `None` exactly when the length is
    /// not 20.
    pub fn parse(v: &Vec<u8>) -> (r: Option<Address>)
        ensures
            r is Some <==> v@.len() == 20,
            r is Some ==> r->Some_0 == Address::of_bytes(v@),
    {
        if v.len() != 20 {
            return None;
        }
        let hi128: u128 = be_u128_range(v, 0, 4);
        let lo: u128 = be_u128_range(v, 4, 20);
        proof {
            lemma_be_nat_bound(v@.subrange(0, 4));
        }
        Some(Address { hi: hi128 as u32, lo })
    }

    /// The 20-byte encoding of this address.
    pub fn to_bytes(&self) -> (r: Vec<u8>)
        ensures
            r@ == self.bytes(),
    {
        let mut out: Vec<u8> = Vec::new();
        push_be(&mut out, self.hi as u128, 4);
        push_be(&mut out, self.lo, 16);
        out
    }
}

/// A 32-byte operation hash, stored as two big-endian integer halves.
#[derive(Clone, Copy, PartialEq, Eq, Structural, Debug)]
pub struct OpHash {
    pub hi: u128,
    pub lo: u128,
}

impl OpHash {
    /// The 32-byte encoding of this hash.
    pub open spec fn bytes(self) -> Seq<u8> {
        be_seq(self.hi as nat, 16) + be_seq(self.lo as nat, 16)
    }

    /// The hash whose 32-byte encoding is `s`.
    pub open spec fn of_bytes(s: Seq<u8>) -> OpHash {
        OpHash { hi: be_nat(s.subrange(0, 16)) as u128, lo: be_nat(s.subrange(16, 32)) as u128 }
    }

    /// Parses a byte string as a hash; `None` exactly when the length is not
    /// 32.
    pub fn parse(v: &Vec<u8>) -> (r: Option<OpHash>)
        ensures
            r is Some <==> v@.len() == 32,
            r is Some ==> r->Some_0 == OpHash::of_bytes(v@),
    {
        if v.len() != 32 {
            return None;
        }
        let hi: u128 = be_u128_range(v, 0, 16);
        let lo: u128 = be_u128_range(v, 16, 32);
        Some(OpHash { hi, lo })
    }

    /// The 32-byte encoding of this hash.
    pub fn to_bytes(&self) -> (r: Vec<u8>)
        ensures
            r@ == self.bytes(),
    {
        let mut out: Vec<u8> = Vec::new();
        push_be(&mut out, self.hi, 16);
        push_be(&mut out, self.lo, 16);
        out
    }
}

/// The closed set of entity roles an operation can reference.
#[derive(Clone, Copy, PartialEq, Eq, Structural, Debug)]
pub enum EntityKind {
    Account,
    Paymaster,
    Factory,
    Aggregator,
}

/// A signed intent aimed at an entry-point contract; the fields the pool
/// reads, plus the opaque call-data payload.
#[derive(Debug)]
pub struct UserOperation {
    pub sender: Address,
    pub nonce: U256,
    pub max_fee_per_gas: U256,
    pub max_priority_fee_per_gas: U256,
    pub paymaster: Option<Address>,
    pub factory: Option<Address>,
    pub aggregator: Option<Address>,
    pub call_data: Vec<u8>,
}

/// The mathematical value of a `UserOperation`.
pub struct UserOperationModel {
    pub sender: Address,
    pub nonce: U256,
    pub max_fee_per_gas: U256,
    pub max_priority_fee_per_gas: U256,
    pub paymaster: Option<Address>,
    pub factory: Option<Address>,
    pub aggregator: Option<Address>,
    pub call_data: Seq<u8>,
}

impl View for UserOperation {
    type V = UserOperationModel;

    open spec fn view(&self) -> UserOperationModel {
        UserOperationModel {
            sender: self.sender,
            nonce: self.nonce,
            max_fee_per_gas: self.max_fee_per_gas,
            max_priority_fee_per_gas: self.max_priority_fee_per_gas,
            paymaster: self.paymaster,
            factory: self.factory,
            aggregator: self.aggregator,
            call_data: self.call_data@,
        }
    }
}

impl Clone for UserOperation {
    fn clone(&self) -> (r: Self)
        ensures
            r@ == self@,
    {
        UserOperation {
            sender: self.sender,
            nonce: self.nonce,
            max_fee_per_gas: self.max_fee_per_gas,
            max_priority_fee_per_gas: self.max_priority_fee_per_gas,
            paymaster: self.paymaster,
            factory: self.factory,
            aggregator: self.aggregator,
            call_data: self.call_data.clone(),
        }
    }
}

/// A storage slot whose value was read during upstream validation.
#[derive(Clone, Copy, PartialEq, Eq, Structural, Debug)]
pub struct StorageSlot {
    pub address: Address,
    pub slot: U256,
    pub value: U256,
}

/// A user operation augmented with the validation metadata produced upstream;
/// only these are stored in the pool.
#[derive(Debug)]
pub struct PoolOperation {
    pub uo: UserOperation,
    pub valid_after: u64,
    pub valid_until: u64,
    pub expected_code_hash: OpHash,
    pub sim_block_hash: OpHash,
    pub expected_storage_slots: Vec<StorageSlot>,
    pub needs_account_stake: bool,
    pub needs_paymaster_stake: bool,
    pub needs_factory_stake: bool,
    pub needs_aggregator_stake: bool,
    pub account_is_staked: bool,
}

/// The mathematical value of a `PoolOperation`.
pub struct PoolOperationModel {
    pub uo: UserOperationModel,
    pub valid_after: u64,
    pub valid_until: u64,
    pub expected_code_hash: OpHash,
    pub sim_block_hash: OpHash,
    pub expected_storage_slots: Seq<StorageSlot>,
    pub needs_account_stake: bool,
    pub needs_paymaster_stake: bool,
    pub needs_factory_stake: bool,
    pub needs_aggregator_stake: bool,
    pub account_is_staked: bool,
}

impl View for PoolOperation {
    type V = PoolOperationModel;

    open spec fn view(&self) -> PoolOperationModel {
        PoolOperationModel {
            uo: self.uo@,
            valid_after: self.valid_after,
            valid_until: self.valid_until,
            expected_code_hash: self.expected_code_hash,
            sim_block_hash: self.sim_block_hash,
            expected_storage_slots: self.expected_storage_slots@,
            needs_account_stake: self.needs_account_stake,
            needs_paymaster_stake: self.needs_paymaster_stake,
            needs_factory_stake: self.needs_factory_stake,
            needs_aggregator_stake: self.needs_aggregator_stake,
            account_is_staked: self.account_is_staked,
        }
    }
}

impl Clone for PoolOperation {
    fn clone(&self) -> (r: Self)
        ensures
            r@ == self@,
    {
        PoolOperation {
            uo: self.uo.clone(),
            valid_after: self.valid_after,
            valid_until: self.valid_until,
            expected_code_hash: self.expected_code_hash,
            sim_block_hash: self.sim_block_hash,
            expected_storage_slots: self.expected_storage_slots.clone(),
            needs_account_stake: self.needs_account_stake,
            needs_paymaster_stake: self.needs_paymaster_stake,
            needs_factory_stake: self.needs_factory_stake,
            needs_aggregator_stake: self.needs_aggregator_stake,
            account_is_staked: self.account_is_staked,
        }
    }
}

/// Whether `now` lies in the validity window, leaving `buffer` seconds of
/// headroom before expiry. A zero `valid_until` means no upper bound.
pub fn time_range_contains(valid_after: u64, valid_until: u64, now: u64, buffer: u64) -> (r: bool)
    ensures
        r == (valid_after <= now && (valid_until == 0 || now + buffer <= valid_until)),
{
    valid_after <= now && (valid_until == 0 || (now as u128) + (buffer as u128)
        <= valid_until as u128)
}


/// The mathematical value of a little-endian byte string.
pub open spec fn le_nat(s: Seq<u8>) -> nat
    decreases s.len(),
{
    if s.len() == 0 {
        0
    } else {
        s[0] as nat + 256 * le_nat(s.drop_first())
    }
}

pub proof fn lemma_le_nat_bound(s: Seq<u8>)
    ensures
        le_nat(s) < pow256(s.len()),
    decreases s.len(),
{
    if s.len() > 0 {
        lemma_le_nat_bound(s.drop_first());
    }
}

/// The `n`-byte little-endian encoding of `x % 256^n`.
pub open spec fn le_seq(x: nat, n: nat) -> Seq<u8>
    decreases n,
{
    if n == 0 {
        Seq::empty()
    } else {
        seq![(x % 256) as u8] + le_seq(x / 256, (n - 1) as nat)
    }
}

/// Appends the `n`-byte little-endian encoding of `x` to `out`.
pub fn push_le(out: &mut Vec<u8>, x: u128, n: usize)
    ensures
        final(out)@ == old(out)@ + le_seq(x as nat, n as nat),
    decreases n,
{
    if n == 0 {
        proof {
            assert(old(out)@ + le_seq(x as nat, 0) =~= old(out)@);
        }
    } else {
        out.push((x % 256) as u8);
        push_le(out, x / 256, n - 1);
        proof {
            assert(old(out)@ + le_seq(x as nat, n as nat) =~= final(out)@);
        }
    }
}

/// Reads the 8 bytes at `start` as a little-endian integer.
pub fn le_u64_range(v: &Vec<u8>, start: usize) -> (r: u64)
    requires
        start + 8 <= v@.len(),
    ensures
        r == le_nat(v@.subrange(start as int, start + 8)),
{
    let mut acc: u64 = 0;
    let mut k: usize = 8;
    let n: usize = v.len();
    assert(start + 8 <= n);
    proof {
        assert(v@.subrange(start + 8, start + 8) =~= Seq::<u8>::empty());
    }
    while k > 0
        invariant
            k <= 8,
            start + 8 <= usize::MAX,
            start + 8 <= v@.len(),
            acc == le_nat(v@.subrange(start + k, start + 8)),
            acc < pow256((8 - k) as nat),
        decreases k,
    {
        k = k - 1;
        proof {
            assert(v@.subrange(start + k, start + 8).drop_first() =~= v@.subrange(
                start + k + 1,
                start + 8,
            ));
            reveal_with_fuel(pow256, 9);
            lemma_pow256_le((7 - k) as nat, 7);
            assert(pow256(7) == 0x100_0000_0000_0000);
        }
        acc = acc * 256 + (v[start + k] as u64);
    }
    proof {
        assert(v@.subrange(start as int, start + 8) =~= v@.subrange(start + 0, start + 8));
    }
    acc
}

/// Whether every byte is zero.
pub open spec fn all_zero(s: Seq<u8>) -> bool {
    forall|i: int| 0 <= i < s.len() ==> s[i] == 0
}

/// An optional wire address: absent when empty or all zero, present
/// otherwise; anything but 0 or 20 bytes is malformed.
pub open spec fn opt_addr_wire_valid(s: Seq<u8>) -> bool {
    s.len() == 0 || s.len() == 20
}

pub open spec fn opt_addr_of_wire(s: Seq<u8>) -> Option<Address> {
    if s.len() == 20 && !all_zero(s) {
        Some(Address::of_bytes(s))
    } else {
        None
    }
}

/// Parses an optional address from its wire form.
pub fn parse_opt_address(v: &Vec<u8>) -> (r: Result<Option<Address>, ()>)
    ensures
        r is Ok <==> opt_addr_wire_valid(v@),
        r is Ok ==> r->Ok_0 == opt_addr_of_wire(v@),
{
    if v.len() == 0 {
        return Ok(None);
    }
    if v.len() != 20 {
        return Err(());
    }
    let mut i: usize = 0;
    while i < v.len()
        invariant
            i <= v@.len(),
            v@.len() == 20,
            forall|j: int| 0 <= j < i ==> v@[j] == 0,
        decreases v@.len() - i,
    {
        if v[i] != 0 {
            assert(!all_zero(v@));
            match Address::parse(v) {
                Some(a) => {
                    return Ok(Some(a));
                },
                None => {
                    return Err(());
                },
            }
        }
        i = i + 1;
    }
    assert(all_zero(v@));
    Ok(None)
}


/// The index of the first operation with the given sender and nonce; how a
/// receipt lookup picks its operation out of a transaction's batch.
pub fn find_op_by_sender_nonce(ops: &Vec<UserOperation>, sender: &Address, nonce: &U256) -> (r:
    Option<usize>)
    ensures
        match r {
            Some(i) => i < ops@.len() && ops@[i as int].sender == *sender && ops@[i as int].nonce
                == *nonce && forall|j: int|
                0 <= j < i ==> !((#[trigger] ops@[j]).sender == *sender && ops@[j].nonce == *nonce),
            None => forall|j: int|
                0 <= j < ops@.len() ==> !((#[trigger] ops@[j]).sender == *sender && ops@[j].nonce
                    == *nonce),
        },
{
    let mut i: usize = 0;
    while i < ops.len()
        invariant
            i <= ops@.len(),
            forall|j: int|
                0 <= j < i ==> !((#[trigger] ops@[j]).sender == *sender && ops@[j].nonce == *nonce),
        decreases ops@.len() - i,
    {
        let op = &ops[i];
        if op.sender == *sender && op.nonce == *nonce {
            return Some(i);
        }
        i = i + 1;
    }
    None
}

} // verus!
