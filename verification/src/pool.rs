//! The per-entry-point pool: an indexed, priority-ordered store of admitted
//! operations, the admission policy over reputation, replacement and
//! capacity, and the block reaction that removes mined operations.

use vstd::prelude::*;

use crate::crypto::op_hash_spec;
use crate::reputation::{ReputationStatus, ReputationTracker};
use crate::types::{Address, EntityKind, OpHash, PoolOperation};
use crate::u256::{scaled_ge, U256};

verus! {

/// Origin of an operation.
#[derive(Clone, Copy, PartialEq, Eq, Structural, Debug)]
pub enum OperationOrigin {
    /// The operation was submitted via a local RPC call.
    Local,
    /// The operation was discovered via the P2P gossip protocol.
    External,
}

/// Event when a new block is mined.
#[derive(Debug)]
pub struct OnNewBlockEvent {
    /// List of operations that were included in the block, by their hashes.
    pub mined_operations: Vec<OpHash>,
}

/// Static configuration of one pool.
#[derive(Clone, Copy, PartialEq, Eq, Structural, Debug)]
pub struct PoolConfig {
    /// Hard cap on the number of resident operations.
    pub max_pool_size: usize,
    /// Minimum relative fee increase, in percent, for a replacement to win.
    pub replacement_bump_percent: u64,
}

impl PoolConfig {
    pub open spec fn wf(self) -> bool {
        &&& self.max_pool_size >= 1
        &&& self.replacement_bump_percent <= 0xFFFF_FFFF_FFFF_FF00u64
    }
}

/// A resident operation: its canonical hash, the operation itself, and the
/// insertion sequence number that breaks priority ties first-in-first-out.
#[derive(Debug)]
pub struct PoolEntry {
    pub hash: OpHash,
    pub op: PoolOperation,
    pub seq: u64,
}

/// Whether entry `e` occupies the `(sender, nonce)` slot.
pub open spec fn sn_eq(e: PoolEntry, sender: Address, nonce: U256) -> bool {
    e.op.uo.sender == sender && e.op.uo.nonce == nonce
}

/// Whether some entry of `s` carries hash `h`.
pub open spec fn hash_resident(s: Seq<PoolEntry>, h: OpHash) -> bool {
    exists|i: int| 0 <= i < s.len() && s[i].hash == h
}

/// Whether the operation references address `a` as one of its entities:
/// paymaster, factory or aggregator when present, or the sender when it
/// needs stake it does not have.
pub open spec fn references(op: PoolOperation, a: Address) -> bool {
    ||| op.uo.paymaster == Some(a)
    ||| op.uo.factory == Some(a)
    ||| op.uo.aggregator == Some(a)
    ||| (op.needs_account_stake && !op.account_is_staked && op.uo.sender == a)
}

/// Whether some resident operation references address `a`.
pub open spec fn some_entry_references(s: Seq<PoolEntry>, a: Address) -> bool {
    exists|i: int| 0 <= i < s.len() && references(s[i].op, a)
}

/// How many entries of `s` reference address `a`; the per-entity count of
/// the pool, derived from its contents.
pub open spec fn count_referencing(s: Seq<PoolEntry>, a: Address) -> nat
    decreases s.len(),
{
    if s.len() == 0 {
        0
    } else {
        count_referencing(s.drop_first(), a) + if references(s[0].op, a) {
            1nat
        } else {
            0nat
        }
    }
}

/// The entries of `s` whose hash is not listed in `hs`, in order.
pub open spec fn remove_mined(s: Seq<PoolEntry>, hs: Seq<OpHash>) -> Seq<PoolEntry>
    decreases s.len(),
{
    if s.len() == 0 {
        Seq::empty()
    } else {
        let rest = remove_mined(s.drop_first(), hs);
        if hs.contains(s[0].hash) {
            rest
        } else {
            seq![s[0]] + rest
        }
    }
}

/// The entries of `s` whose hash is listed in `hs`, in order.
pub open spec fn select_mined(s: Seq<PoolEntry>, hs: Seq<OpHash>) -> Seq<PoolEntry>
    decreases s.len(),
{
    if s.len() == 0 {
        Seq::empty()
    } else {
        let rest = select_mined(s.drop_first(), hs);
        if hs.contains(s[0].hash) {
            seq![s[0]] + rest
        } else {
            rest
        }
    }
}

/// The store for one entry point.
pub struct UoPool {
    pub entry_point: Address,
    pub chain_id: u64,
    pub config: PoolConfig,
    /// The most recent known network base fee, if any.
    pub base_fee: Option<U256>,
    /// The next insertion sequence number.
    pub next_seq: u64,
    pub entries: Vec<PoolEntry>,
}

impl UoPool {
    /// Pool invariant: size within cap; hashes unique; at most one resident
    /// operation per `(sender, nonce)`; insertion sequence strictly
    /// increasing along the store and below the next to be issued; every
    /// stored hash is the canonical hash of its operation.
    pub open spec fn wf(self) -> bool {
        &&& self.config.wf()
        &&& self.entries@.len() <= self.config.max_pool_size
        &&& forall|i: int, j: int|
            0 <= i < j < self.entries@.len() ==> self.entries@[i].hash != self.entries@[j].hash
        &&& forall|i: int, j: int|
            0 <= i < j < self.entries@.len() ==> !(self.entries@[i].op.uo.sender
                == self.entries@[j].op.uo.sender && self.entries@[i].op.uo.nonce
                == self.entries@[j].op.uo.nonce)
        &&& forall|i: int, j: int|
            0 <= i < j < self.entries@.len() ==> self.entries@[i].seq < self.entries@[j].seq
        &&& forall|i: int| 0 <= i < self.entries@.len() ==> self.entries@[i].seq < self.next_seq
        &&& forall|i: int|
            0 <= i < self.entries@.len() ==> self.entries@[i].hash == op_hash_spec(
                self.entries@[i].op.uo@,
                self.entry_point,
                self.chain_id,
            )
    }

    pub fn new(entry_point: Address, chain_id: u64, config: PoolConfig) -> (r: UoPool)
        requires
            config.wf(),
        ensures
            r.wf(),
            r.entry_point == entry_point,
            r.chain_id == chain_id,
            r.config == config,
            r.base_fee is None,
            r.entries@.len() == 0,
    {
        UoPool {
            entry_point,
            chain_id,
            config,
            base_fee: None,
            next_seq: 0,
            entries: Vec::new(),
        }
    }

    /// The entry point address this pool targets.
    pub fn entry_point(&self) -> (r: Address)
        ensures
            r == self.entry_point,
    {
        self.entry_point
    }

    /// Records the latest network base fee.
    pub fn set_base_fee(&mut self, base_fee: Option<U256>)
        ensures
            *final(self) == (UoPool { base_fee, ..*old(self) }),
    {
        self.base_fee = base_fee;
    }

    /// Removes everything; reputation is untouched by construction.
    pub fn clear(&mut self)
        requires
            old(self).wf(),
        ensures
            final(self).entries@.len() == 0,
            final(self).wf(),
            *final(self) == (UoPool { entries: final(self).entries, ..*old(self) }),
    {
        self.entries.clear();
    }

    /// Debug dump: up to `max` resident operations, in insertion order.
    pub fn all_operations(&self, max: usize) -> (r: Vec<PoolOperation>)
        ensures
            r@.len() == if max <= self.entries@.len() {
                max as nat
            } else {
                self.entries@.len()
            },
            forall|i: int| 0 <= i < r@.len() ==> r@[i]@ == self.entries@[i].op@,
    {
        let mut out: Vec<PoolOperation> = Vec::new();
        let mut i: usize = 0;
        let n = if max <= self.entries.len() {
            max
        } else {
            self.entries.len()
        };
        while i < n
            invariant
                i <= n,
                n == if max <= self.entries@.len() {
                    max as nat
                } else {
                    self.entries@.len()
                },
                n <= self.entries@.len(),
                out@.len() == i,
                forall|j: int| 0 <= j < i ==> out@[j]@ == self.entries@[j].op@,
            decreases n - i,
        {
            out.push(self.entries[i].op.clone());
            i = i + 1;
        }
        out
    }

    /// Removes every resident operation whose hash is listed; unknown hashes
    /// are skipped. Returns the removed entries, in store order.
    pub fn remove_operations(&mut self, hashes: &Vec<OpHash>) -> (removed: Vec<PoolEntry>)
        requires
            old(self).wf(),
        ensures
            final(self).wf(),
            final(self).entries@ == remove_mined(old(self).entries@, hashes@),
            removed@ == select_mined(old(self).entries@, hashes@),
            *final(self) == (UoPool { entries: final(self).entries, ..*old(self) }),
    {
        let mut kept: Vec<PoolEntry> = Vec::new();
        let mut removed: Vec<PoolEntry> = Vec::new();
        let ghost s = self.entries@;
        while self.entries.len() > 0
            invariant
                remove_mined(s, hashes@) == kept@ + remove_mined(self.entries@, hashes@),
                select_mined(s, hashes@) == removed@ + select_mined(self.entries@, hashes@),
                self.entry_point == old(self).entry_point,
                self.chain_id == old(self).chain_id,
                self.config == old(self).config,
                self.base_fee == old(self).base_fee,
                self.next_seq == old(self).next_seq,
            decreases self.entries@.len(),
        {
            let ghost before = self.entries@;
            let e = self.entries.remove(0);
            proof {
                assert(self.entries@ =~= before.drop_first());
            }
            if hash_listed(hashes, &e.hash) {
                removed.push(e);
                proof {
                    assert(select_mined(s, hashes@) =~= removed@ + select_mined(
                        self.entries@,
                        hashes@,
                    ));
                }
            } else {
                kept.push(e);
                proof {
                    assert(remove_mined(s, hashes@) =~= kept@ + remove_mined(
                        self.entries@,
                        hashes@,
                    ));
                }
            }
        }
        proof {
            assert(remove_mined(s, hashes@) =~= kept@);
            assert(select_mined(s, hashes@) =~= removed@);
            lemma_remove_mined_props(s, hashes@);
        }
        self.entries = kept;
        proof {
            let r = remove_mined(s, hashes@);
            assert forall|i: int, j: int| 0 <= i < j < r.len() implies r[i].hash != r[j].hash
                && !(r[i].op.uo.sender == r[j].op.uo.sender && r[i].op.uo.nonce
                == r[j].op.uo.nonce) && r[i].seq < r[j].seq by {
                assert(pair_within(s, r, i, j));
                let (p, q) = choose|p: int, q: int| #![trigger s[p], s[q]]
                    0 <= p < q < s.len() && r[i] == s[p] && r[j] == s[q];
            }
            assert forall|i: int| 0 <= i < r.len() implies r[i].seq < self.next_seq && r[i].hash
                == op_hash_spec(r[i].op.uo@, self.entry_point, self.chain_id) by {
                assert(within(s, r, i));
                let j = choose|j: int| i <= j < s.len() && r[i] == #[trigger] s[j];
                assert(old(self).entries@[j] == s[j]);
                assert(s[j].seq < old(self).next_seq);
                assert(s[j].hash == op_hash_spec(s[j].op.uo@, old(self).entry_point, old(self).chain_id));
            }
        }
        removed
    }
}

/// Whether `h` occurs in the list.
fn hash_listed(hashes: &Vec<OpHash>, h: &OpHash) -> (r: bool)
    ensures
        r == hashes@.contains(*h),
{
    let mut i: usize = 0;
    while i < hashes.len()
        invariant
            i <= hashes@.len(),
            forall|j: int| 0 <= j < i ==> hashes@[j] != *h,
        decreases hashes@.len() - i,
    {
        if hashes[i].hi == h.hi && hashes[i].lo == h.lo {
            assert(hashes@[i as int] == *h);
            return true;
        }
        i = i + 1;
    }
    false
}

/// Position `i` of `r` holds an entry of `s`, no earlier than position `i`.
pub open spec fn within(s: Seq<PoolEntry>, r: Seq<PoolEntry>, i: int) -> bool {
    exists|j: int| i <= j < s.len() && r[i] == #[trigger] s[j]
}

/// Positions `i < j` of `r` hold entries of `s` in the original order.
pub open spec fn pair_within(s: Seq<PoolEntry>, r: Seq<PoolEntry>, i: int, j: int) -> bool {
    exists|p: int, q: int| #![trigger s[p], s[q]]
        0 <= p < q < s.len() && r[i] == s[p] && r[j] == s[q]
}

/// Every entry kept by `remove_mined` is an entry of `s`, and pairs keep
/// their original order.
pub proof fn lemma_remove_mined_props(s: Seq<PoolEntry>, hs: Seq<OpHash>)
    ensures
        remove_mined(s, hs).len() <= s.len(),
        forall|i: int| 0 <= i < remove_mined(s, hs).len() ==> #[trigger] within(
            s,
            remove_mined(s, hs),
            i,
        ),
        forall|i: int, j: int|
            0 <= i < j < remove_mined(s, hs).len() ==> #[trigger] pair_within(
                s,
                remove_mined(s, hs),
                i,
                j,
            ),
    decreases s.len(),
{
    if s.len() > 0 {
        let s1 = s.drop_first();
        lemma_remove_mined_props(s1, hs);
        let r = remove_mined(s, hs);
        let r1 = remove_mined(s1, hs);
        if hs.contains(s[0].hash) {
            assert(r == r1);
            assert forall|i: int| 0 <= i < r.len() implies #[trigger] within(s, r, i) by {
                assert(within(s1, r1, i));
                let j1 = choose|j1: int| i <= j1 < s1.len() && r1[i] == s1[j1];
                assert(r[i] == s[j1 + 1]);
                assert(within(s, r, i));
            }
            assert forall|i: int, j: int| 0 <= i < j < r.len() implies #[trigger] pair_within(
                s,
                r,
                i,
                j,
            ) by {
                assert(pair_within(s1, r1, i, j));
                let (p1, q1) = choose|p1: int, q1: int| #![trigger s1[p1], s1[q1]]
                    0 <= p1 < q1 < s1.len() && r1[i] == s1[p1] && r1[j] == s1[q1];
                assert(r[i] == s[p1 + 1] && r[j] == s[q1 + 1]);
                assert(pair_within(s, r, i, j));
            }
        } else {
            assert(r == seq![s[0]] + r1);
            assert forall|i: int| 0 <= i < r.len() implies #[trigger] within(s, r, i) by {
                if i == 0 {
                    assert(r[0] == s[0]);
                    assert(within(s, r, 0));
                } else {
                    assert(within(s1, r1, i - 1));
                    let j1 = choose|j1: int| i - 1 <= j1 < s1.len() && r1[i - 1] == s1[j1];
                    assert(r[i] == s[j1 + 1]);
                    assert(within(s, r, i));
                }
            }
            assert forall|i: int, j: int| 0 <= i < j < r.len() implies #[trigger] pair_within(
                s,
                r,
                i,
                j,
            ) by {
                if i == 0 {
                    assert(within(s1, r1, j - 1));
                    let q1 = choose|q1: int| j - 1 <= q1 < s1.len() && r1[j - 1] == s1[q1];
                    assert(r[0] == s[0] && r[j] == s[q1 + 1]);
                    assert(pair_within(s, r, 0, j));
                } else {
                    assert(pair_within(s1, r1, i - 1, j - 1));
                    let (p1, q1) = choose|p1: int, q1: int| #![trigger s1[p1], s1[q1]]
                        0 <= p1 < q1 < s1.len() && r1[i - 1] == s1[p1] && r1[j - 1] == s1[q1];
                    assert(r[i] == s[p1 + 1] && r[j] == s[q1 + 1]);
                    assert(pair_within(s, r, i, j));
                }
            }
        }
    }
}

/// The effective priority fee per gas of an operation under a base fee:
/// `min(max_priority_fee_per_gas, max_fee_per_gas - base_fee)` clamped at
/// zero; without a known base fee, the priority fee itself.
pub open spec fn priority_key(op: crate::types::PoolOperationModel, base: Option<U256>) -> nat {
    match base {
        Some(b) => {
            let cap = if op.uo.max_fee_per_gas.as_nat() >= b.as_nat() {
                (op.uo.max_fee_per_gas.as_nat() - b.as_nat()) as nat
            } else {
                0nat
            };
            if op.uo.max_priority_fee_per_gas.as_nat() <= cap {
                op.uo.max_priority_fee_per_gas.as_nat()
            } else {
                cap
            }
        },
        None => op.uo.max_priority_fee_per_gas.as_nat(),
    }
}

/// Computes the effective priority fee per gas of an operation.
pub fn priority_key_exec(op: &PoolOperation, base: &Option<U256>) -> (r: U256)
    ensures
        r.as_nat() == priority_key(op@, *base),
{
    match base {
        Some(b) => op.uo.max_priority_fee_per_gas.min(&op.uo.max_fee_per_gas.saturating_sub(b)),
        None => op.uo.max_priority_fee_per_gas,
    }
}

/// Whether `a` may stand no later than `b` in priority order: a strictly
/// greater key, or an equal key and no later insertion.
pub open spec fn entry_before(a: PoolEntry, b: PoolEntry, base: Option<U256>) -> bool {
    ||| priority_key(a.op@, base) > priority_key(b.op@, base)
    ||| (priority_key(a.op@, base) == priority_key(b.op@, base) && a.seq <= b.seq)
}

fn entry_before_exec(a: &PoolEntry, b: &PoolEntry, base: &Option<U256>) -> (r: bool)
    ensures
        r == entry_before(*a, *b, *base),
{
    let ka = priority_key_exec(&a.op, base);
    let kb = priority_key_exec(&b.op, base);
    if kb.lt(&ka) {
        true
    } else if ka.lt(&kb) {
        false
    } else {
        a.seq <= b.seq
    }
}

/// `e` inserted into `s` before the first element it precedes.
pub open spec fn insert_sorted(e: PoolEntry, s: Seq<PoolEntry>, base: Option<U256>) -> Seq<
    PoolEntry,
>
    decreases s.len(),
{
    if s.len() == 0 {
        seq![e]
    } else if entry_before(e, s[0], base) {
        seq![e] + s
    } else {
        seq![s[0]] + insert_sorted(e, s.drop_first(), base)
    }
}

/// The priority index: the entries of `s` in priority order, descending by
/// key, ties first-in-first-out.
pub open spec fn sort_entries(s: Seq<PoolEntry>, base: Option<U256>) -> Seq<PoolEntry>
    decreases s.len(),
{
    if s.len() == 0 {
        Seq::empty()
    } else {
        insert_sorted(s[0], sort_entries(s.drop_first(), base), base)
    }
}

/// Pairwise priority order along a sequence.
pub open spec fn sorted_chain(s: Seq<PoolEntry>, base: Option<U256>) -> bool {
    forall|i: int, j: int| 0 <= i < j < s.len() ==> entry_before(s[i], s[j], base)
}

pub proof fn lemma_insert_sorted_len(e: PoolEntry, s: Seq<PoolEntry>, base: Option<U256>)
    ensures
        insert_sorted(e, s, base).len() == s.len() + 1,
    decreases s.len(),
{
    if s.len() > 0 && !entry_before(e, s[0], base) {
        lemma_insert_sorted_len(e, s.drop_first(), base);
    }
}

/// Where `e` lands: before the first element it precedes, after all it does
/// not precede.
pub proof fn lemma_insert_sorted_split(
    e: PoolEntry,
    s: Seq<PoolEntry>,
    base: Option<U256>,
    j: int,
)
    requires
        0 <= j <= s.len(),
        forall|k: int| 0 <= k < j ==> !entry_before(e, s[k], base),
        j < s.len() ==> entry_before(e, s[j], base),
    ensures
        insert_sorted(e, s, base) == s.take(j) + seq![e] + s.skip(j),
    decreases s.len(),
{
    if j == 0 {
        if s.len() == 0 {
            assert(insert_sorted(e, s, base) =~= s.take(0) + seq![e] + s.skip(0));
        } else {
            assert(insert_sorted(e, s, base) =~= s.take(0) + seq![e] + s.skip(0));
        }
    } else {
        let s1 = s.drop_first();
        assert(!entry_before(e, s[0], base));
        assert forall|k: int| 0 <= k < j - 1 implies !entry_before(e, s1[k], base) by {
            assert(s1[k] == s[k + 1]);
        }
        assert(j - 1 < s1.len() ==> entry_before(e, s1[j - 1], base));
        lemma_insert_sorted_split(e, s1, base, j - 1);
        assert(insert_sorted(e, s, base) =~= s.take(j) + seq![e] + s.skip(j)) by {
            assert(insert_sorted(e, s, base) == seq![s[0]] + (s1.take(j - 1) + seq![e] + s1.skip(
                j - 1,
            )));
            assert(s1.take(j - 1) =~= s.subrange(1, j));
            assert(s1.skip(j - 1) =~= s.skip(j));
        }
    }
}

/// Inserting into a priority-ordered sequence keeps it ordered.
pub proof fn lemma_insert_sorted_sorted(e: PoolEntry, s: Seq<PoolEntry>, base: Option<U256>)
    requires
        sorted_chain(s, base),
    ensures
        sorted_chain(insert_sorted(e, s, base), base),
    decreases s.len(),
{
    let r = insert_sorted(e, s, base);
    if s.len() == 0 {
    } else if entry_before(e, s[0], base) {
        assert forall|i: int, j: int| 0 <= i < j < r.len() implies entry_before(
            r[i],
            r[j],
            base,
        ) by {
            if i == 0 {
                assert(r[0] == e && r[j] == s[j - 1]);
                if j > 1 {
                    assert(entry_before(s[0], s[j - 1], base));
                }
            } else {
                assert(r[i] == s[i - 1] && r[j] == s[j - 1]);
                assert(entry_before(s[i - 1], s[j - 1], base));
            }
        }
    } else {
        let s1 = s.drop_first();
        assert forall|i: int, j: int| 0 <= i < j < s1.len() implies entry_before(
            s1[i],
            s1[j],
            base,
        ) by {
            assert(s1[i] == s[i + 1] && s1[j] == s[j + 1]);
        }
        lemma_insert_sorted_sorted(e, s1, base);
        let r1 = insert_sorted(e, s1, base);
        lemma_insert_sorted_len(e, s1, base);
        assert forall|k: int| 0 <= k < r1.len() implies entry_before(s[0], r1[k], base) by {
            lemma_insert_sorted_membership(e, s1, base, r1[k], k);
            if r1[k] == e {
                assert(entry_before(s[0], e, base));
            } else {
                let m = choose|m: int| 0 <= m < s1.len() && s1[m] == r1[k];
                assert(s1[m] == s[m + 1]);
                assert(entry_before(s[0], s[m + 1], base));
            }
        }
        assert forall|i: int, j: int| 0 <= i < j < r.len() implies entry_before(
            r[i],
            r[j],
            base,
        ) by {
            if i == 0 {
                assert(r[0] == s[0] && r[j] == r1[j - 1]);
                assert(entry_before(s[0], r1[j - 1], base));
            } else {
                assert(r[i] == r1[i - 1] && r[j] == r1[j - 1]);
                assert(entry_before(r1[i - 1], r1[j - 1], base));
            }
        }
    }
}

/// Every element of an insertion result is the inserted element or one of
/// the original elements.
pub proof fn lemma_insert_sorted_membership(
    e: PoolEntry,
    s: Seq<PoolEntry>,
    base: Option<U256>,
    x: PoolEntry,
    k: int,
)
    requires
        0 <= k < insert_sorted(e, s, base).len(),
        insert_sorted(e, s, base)[k] == x,
    ensures
        x == e || exists|m: int| 0 <= m < s.len() && s[m] == x,
    decreases s.len(),
{
    if s.len() == 0 {
    } else if entry_before(e, s[0], base) {
        if k > 0 {
            assert(s[k - 1] == x);
        }
    } else {
        if k == 0 {
            assert(s[0] == x);
        } else {
            lemma_insert_sorted_membership(e, s.drop_first(), base, x, k - 1);
            if x != e {
                let m = choose|m: int| 0 <= m < s.drop_first().len() && s.drop_first()[m] == x;
                assert(s[m + 1] == x);
            }
        }
    }
}

/// The priority index is ordered and exactly as long as the store.
pub proof fn lemma_sort_entries_sorted(s: Seq<PoolEntry>, base: Option<U256>)
    ensures
        sorted_chain(sort_entries(s, base), base),
        sort_entries(s, base).len() == s.len(),
    decreases s.len(),
{
    if s.len() > 0 {
        lemma_sort_entries_sorted(s.drop_first(), base);
        lemma_insert_sorted_sorted(s[0], sort_entries(s.drop_first(), base), base);
        lemma_insert_sorted_len(s[0], sort_entries(s.drop_first(), base), base);
    }
}

/// An element stands in the priority index exactly when it stands in the
/// store.
pub proof fn lemma_sort_entries_membership(s: Seq<PoolEntry>, base: Option<U256>, x: PoolEntry)
    ensures
        (exists|i: int| 0 <= i < sort_entries(s, base).len() && sort_entries(s, base)[i] == x)
            <==> (exists|i: int| 0 <= i < s.len() && s[i] == x),
    decreases s.len(),
{
    let r = sort_entries(s, base);
    if s.len() > 0 {
        let s1 = s.drop_first();
        let r1 = sort_entries(s1, base);
        lemma_sort_entries_membership(s1, base, x);
        lemma_sort_entries_sorted(s1, base);
        lemma_insert_sorted_len(s[0], r1, base);
        if exists|i: int| 0 <= i < r.len() && r[i] == x {
            let i = choose|i: int| 0 <= i < r.len() && r[i] == x;
            lemma_insert_sorted_membership(s[0], r1, base, x, i);
            if x == s[0] {
                assert(s[0] == x);
            } else {
                let m = choose|m: int| 0 <= m < s1.len() && s1[m] == x;
                assert(s[m + 1] == x);
            }
        }
        if exists|i: int| 0 <= i < s.len() && s[i] == x {
            let i = choose|i: int| 0 <= i < s.len() && s[i] == x;
            if i == 0 {
                lemma_insert_sorted_contains_inserted(s[0], r1, base);
            } else {
                assert(s1[i - 1] == x);
                let m = choose|m: int| 0 <= m < r1.len() && r1[m] == x;
                lemma_insert_sorted_contains_rest(s[0], r1, base, m);
            }
        }
    }
}

/// The inserted element stands somewhere in the insertion result.
pub proof fn lemma_insert_sorted_contains_inserted(
    e: PoolEntry,
    s: Seq<PoolEntry>,
    base: Option<U256>,
)
    ensures
        exists|i: int|
            0 <= i < insert_sorted(e, s, base).len() && insert_sorted(e, s, base)[i] == e,
    decreases s.len(),
{
    let r = insert_sorted(e, s, base);
    if s.len() == 0 {
        assert(r[0] == e);
    } else if entry_before(e, s[0], base) {
        assert(r[0] == e);
    } else {
        lemma_insert_sorted_contains_inserted(e, s.drop_first(), base);
        let i = choose|i: int|
            0 <= i < insert_sorted(e, s.drop_first(), base).len() && insert_sorted(
                e,
                s.drop_first(),
                base,
            )[i] == e;
        assert(r[i + 1] == e);
    }
}

/// Every original element stands somewhere in the insertion result.
pub proof fn lemma_insert_sorted_contains_rest(
    e: PoolEntry,
    s: Seq<PoolEntry>,
    base: Option<U256>,
    m: int,
)
    requires
        0 <= m < s.len(),
    ensures
        exists|i: int|
            0 <= i < insert_sorted(e, s, base).len() && insert_sorted(e, s, base)[i] == s[m],
    decreases s.len(),
{
    let r = insert_sorted(e, s, base);
    if entry_before(e, s[0], base) {
        assert(r[m + 1] == s[m]);
    } else {
        if m == 0 {
            assert(r[0] == s[0]);
        } else {
            lemma_insert_sorted_contains_rest(e, s.drop_first(), base, m - 1);
            let i = choose|i: int|
                0 <= i < insert_sorted(e, s.drop_first(), base).len() && insert_sorted(
                    e,
                    s.drop_first(),
                    base,
                )[i] == s.drop_first()[m - 1];
            assert(r[i + 1] == s[m]);
        }
    }
}


/// The view of index list `idx` over store `s`.
pub open spec fn map_idx(s: Seq<PoolEntry>, idx: Seq<usize>) -> Seq<PoolEntry> {
    Seq::new(idx.len(), |k: int| s[idx[k] as int])
}

impl UoPool {
    /// Indices of the resident operations, in priority order.
    fn sorted_indices(&self) -> (idx: Vec<usize>)
        ensures
            idx@.len() == self.entries@.len(),
            forall|k: int| 0 <= k < idx@.len() ==> idx@[k] < self.entries@.len(),
            map_idx(self.entries@, idx@) == sort_entries(self.entries@, self.base_fee),
    {
        let ghost s = self.entries@;
        let mut idx: Vec<usize> = Vec::new();
        let mut i: usize = self.entries.len();
        proof {
            assert(s.skip(i as int) =~= Seq::<PoolEntry>::empty());
            assert(map_idx(s, idx@) =~= sort_entries(s.skip(i as int), self.base_fee));
        }
        while i > 0
            invariant
                i <= s.len(),
                self.entries@ == s,
                forall|k: int| 0 <= k < idx@.len() ==> idx@[k] < s.len(),
                map_idx(s, idx@) == sort_entries(s.skip(i as int), self.base_fee),
                idx@.len() == s.len() - i,
            decreases i,
        {
            i = i - 1;
            let ghost cur = sort_entries(s.skip(i + 1), self.base_fee);
            let mut j: usize = 0;
            while j < idx.len() && !entry_before_exec(&self.entries[i], &self.entries[idx[j]], &self.base_fee)
                invariant
                    j <= idx@.len(),
                    self.entries@ == s,
                    i < s.len(),
                    forall|k: int| 0 <= k < idx@.len() ==> idx@[k] < s.len(),
                    map_idx(s, idx@) == cur,
                    idx@.len() == cur.len(),
                    forall|k: int| 0 <= k < j ==> !entry_before(s[i as int], cur[k], self.base_fee),
                decreases idx@.len() - j,
            {
                proof {
                    assert(cur[j as int] == s[idx@[j as int] as int]);
                }
                j = j + 1;
            }
            proof {
                if j < idx@.len() {
                    assert(cur[j as int] == s[idx@[j as int] as int]);
                }
                lemma_insert_sorted_split(s[i as int], cur, self.base_fee, j as int);
            }
            idx.insert(j, i);
            proof {
                assert(s.skip(i as int).drop_first() =~= s.skip(i + 1));
                assert(s.skip(i as int)[0] == s[i as int]);
                assert(map_idx(s, idx@) =~= cur.take(j as int) + seq![s[i as int]] + cur.skip(
                    j as int,
                ));
            }
        }
        proof {
            assert(s.skip(0) =~= s);
        }
        idx
    }

    /// The best operations: up to `max` of them, in descending order of
    /// effective priority fee, first-in-first-out among equal keys. The
    /// returned items are snapshots; the pool may evict them later.
    pub fn best_operations(&self, max: usize) -> (r: Vec<PoolOperation>)
        ensures
            r@.len() == if max <= self.entries@.len() {
                max as nat
            } else {
                self.entries@.len()
            },
            forall|k: int|
                0 <= k < r@.len() ==> r@[k]@ == sort_entries(self.entries@, self.base_fee)[k].op@,
            forall|p: int, q: int|
                0 <= p < q < r@.len() ==> priority_key(r@[p]@, self.base_fee) >= priority_key(
                    r@[q]@,
                    self.base_fee,
                ),
    {
        let idx = self.sorted_indices();
        proof {
            lemma_sort_entries_sorted(self.entries@, self.base_fee);
        }
        let n = if max <= idx.len() {
            max
        } else {
            idx.len()
        };
        let mut out: Vec<PoolOperation> = Vec::new();
        let mut k: usize = 0;
        while k < n
            invariant
                k <= n,
                n <= idx@.len(),
                idx@.len() == self.entries@.len(),
                forall|t: int| 0 <= t < idx@.len() ==> idx@[t] < self.entries@.len(),
                map_idx(self.entries@, idx@) == sort_entries(self.entries@, self.base_fee),
                out@.len() == k,
                forall|t: int|
                    0 <= t < k ==> out@[t]@ == sort_entries(self.entries@, self.base_fee)[t].op@,
            decreases n - k,
        {
            proof {
                assert(sort_entries(self.entries@, self.base_fee)[k as int] == s_at(
                    self.entries@,
                    idx@,
                    k as int,
                ));
            }
            out.push(self.entries[idx[k]].op.clone());
            k = k + 1;
        }
        proof {
            let sorted = sort_entries(self.entries@, self.base_fee);
            assert forall|p: int, q: int| 0 <= p < q < out@.len() implies priority_key(
                out@[p]@,
                self.base_fee,
            ) >= priority_key(out@[q]@, self.base_fee) by {
                assert(entry_before(sorted[p], sorted[q], self.base_fee));
            }
        }
        out
    }
}

/// The store entry an index list points at.
pub open spec fn s_at(s: Seq<PoolEntry>, idx: Seq<usize>, k: int) -> PoolEntry {
    s[idx[k] as int]
}


/// Rejection reasons of the admission policy.
#[derive(Clone, Copy, PartialEq, Eq, Structural, Debug)]
pub enum MempoolError {
    /// A referenced entity is banned, or throttled while already present.
    EntityThrottled(EntityKind, Address),
    /// The operation carries an aggregator that needs stake; unsupported.
    UnsupportedAggregator(Address),
    /// An entity sits in a slot that requires stake it does not have.
    EntityRequiresStake(EntityKind, Address),
    /// The fee bump over the incumbent (whose fees are carried here) is too
    /// small.
    ReplacementUnderpriced(U256, U256),
    /// The pool is full and the newcomer does not beat the lowest key.
    DiscardedOnInsert,
    /// An internal invariant would break; surfaced as an unspecified error.
    Internal,
}

/// A single optional entity reference.
pub open spec fn opt_entity(k: EntityKind, o: Option<Address>) -> Seq<(EntityKind, Address)> {
    match o {
        Some(a) => seq![(k, a)],
        None => Seq::empty(),
    }
}

/// The entities an operation references, in the order the admission policy
/// reads them: paymaster, factory, aggregator, then the sender when it needs
/// stake it does not have.
pub open spec fn ref_list(op: PoolOperation) -> Seq<(EntityKind, Address)> {
    opt_entity(EntityKind::Paymaster, op.uo.paymaster) + opt_entity(
        EntityKind::Factory,
        op.uo.factory,
    ) + opt_entity(EntityKind::Aggregator, op.uo.aggregator) + (if op.needs_account_stake
        && !op.account_is_staked {
        seq![(EntityKind::Account, op.uo.sender)]
    } else {
        Seq::empty()
    })
}

/// `references` agrees with membership in the reference list.
pub proof fn lemma_ref_list_references(op: PoolOperation, a: Address)
    ensures
        references(op, a) <==> exists|i: int| 0 <= i < ref_list(op).len() && ref_list(op)[i].1 == a,
{
    let r = ref_list(op);
    if references(op, a) {
        if op.uo.paymaster == Some(a) {
            assert(r[0].1 == a);
        } else if op.uo.factory == Some(a) {
            let i = opt_entity(EntityKind::Paymaster, op.uo.paymaster).len() as int;
            assert(r[i].1 == a);
        } else if op.uo.aggregator == Some(a) {
            let i = (opt_entity(EntityKind::Paymaster, op.uo.paymaster).len() + opt_entity(
                EntityKind::Factory,
                op.uo.factory,
            ).len()) as int;
            assert(r[i].1 == a);
        } else {
            assert(r[r.len() - 1].1 == a);
        }
    }
}

/// Collects the reference list of an operation.
pub fn referenced_entities(op: &PoolOperation) -> (r: Vec<(EntityKind, Address)>)
    ensures
        r@ == ref_list(*op),
{
    let mut out: Vec<(EntityKind, Address)> = Vec::new();
    if let Some(a) = op.uo.paymaster {
        out.push((EntityKind::Paymaster, a));
    }
    if let Some(a) = op.uo.factory {
        out.push((EntityKind::Factory, a));
    }
    if let Some(a) = op.uo.aggregator {
        out.push((EntityKind::Aggregator, a));
    }
    if op.needs_account_stake && !op.account_is_staked {
        out.push((EntityKind::Account, op.uo.sender));
    }
    proof {
        assert(out@ =~= ref_list(*op));
    }
    out
}

/// The first referenced entity whose address is banned at `now`.
pub open spec fn first_banned(
    refs: Seq<(EntityKind, Address)>,
    rep: ReputationTracker,
    now: u64,
) -> Option<(EntityKind, Address)>
    decreases refs.len(),
{
    if refs.len() == 0 {
        None
    } else if rep.status_of(refs[0].1, now) is Banned {
        Some(refs[0])
    } else {
        first_banned(refs.drop_first(), rep, now)
    }
}

/// The first referenced entity that is throttled while the pool already
/// holds an operation referencing it.
pub open spec fn first_throttled_blocked(
    refs: Seq<(EntityKind, Address)>,
    rep: ReputationTracker,
    now: u64,
    s: Seq<PoolEntry>,
) -> Option<(EntityKind, Address)>
    decreases refs.len(),
{
    if refs.len() == 0 {
        None
    } else if rep.status_of(refs[0].1, now) is Throttled && some_entry_references(s, refs[0].1) {
        Some(refs[0])
    } else {
        first_throttled_blocked(refs.drop_first(), rep, now, s)
    }
}

/// The reputation gate of admission: a banned reference, else a throttled
/// one that is already present.
pub open spec fn reputation_gate(
    refs: Seq<(EntityKind, Address)>,
    rep: ReputationTracker,
    now: u64,
    s: Seq<PoolEntry>,
) -> Option<(EntityKind, Address)> {
    match first_banned(refs, rep, now) {
        Some(e) => Some(e),
        None => first_throttled_blocked(refs, rep, now, s),
    }
}

/// The staking gate: an aggregator that needs stake is unsupported; a sender
/// that needs stake must have been marked staked by upstream validation.
/// Paymasters and factories that need stake were already held to it there.
pub open spec fn stake_gate(op: PoolOperation) -> Option<MempoolError> {
    if op.needs_aggregator_stake && op.uo.aggregator is Some {
        Some(MempoolError::UnsupportedAggregator(op.uo.aggregator->0))
    } else if op.needs_account_stake && !op.account_is_staked {
        Some(MempoolError::EntityRequiresStake(EntityKind::Account, op.uo.sender))
    } else {
        None
    }
}

fn stake_gate_exec(op: &PoolOperation) -> (r: Option<MempoolError>)
    ensures
        r == stake_gate(*op),
{
    if op.needs_aggregator_stake {
        if let Some(a) = op.uo.aggregator {
            return Some(MempoolError::UnsupportedAggregator(a));
        }
    }
    if op.needs_account_stake && !op.account_is_staked {
        return Some(MempoolError::EntityRequiresStake(EntityKind::Account, op.uo.sender));
    }
    None
}

/// Whether the newcomer's fees beat the incumbent's by at least the
/// configured bump: both fees, scaled comparison, no rounding.
pub open spec fn replacement_ok(newcomer: PoolOperation, incumbent: PoolOperation, pct: u64) -> bool {
    &&& newcomer.uo.max_fee_per_gas.as_nat() * 100 >= incumbent.uo.max_fee_per_gas.as_nat() * (
    100 + pct)
    &&& newcomer.uo.max_priority_fee_per_gas.as_nat() * 100
        >= incumbent.uo.max_priority_fee_per_gas.as_nat() * (100 + pct)
}

/// Whether some entry of `s` holds the `(sender, nonce)` slot.
pub open spec fn has_sn(s: Seq<PoolEntry>, sender: Address, nonce: U256) -> bool {
    exists|i: int| 0 <= i < s.len() && sn_eq(s[i], sender, nonce)
}

/// Stepping the banned scan past one reference.
proof fn lemma_first_banned_skip(
    refs: Seq<(EntityKind, Address)>,
    i: int,
    rep: ReputationTracker,
    now: u64,
)
    requires
        0 <= i < refs.len(),
    ensures
        rep.status_of(refs[i].1, now) is Banned ==> first_banned(refs.skip(i), rep, now) == Some(
            refs[i],
        ),
        !(rep.status_of(refs[i].1, now) is Banned) ==> first_banned(refs.skip(i), rep, now)
            == first_banned(refs.skip(i + 1), rep, now),
{
    assert(refs.skip(i)[0] == refs[i]);
    assert(refs.skip(i).drop_first() =~= refs.skip(i + 1));
}

/// Stepping the throttled scan past one reference.
proof fn lemma_first_throttled_skip(
    refs: Seq<(EntityKind, Address)>,
    i: int,
    rep: ReputationTracker,
    now: u64,
    s: Seq<PoolEntry>,
)
    requires
        0 <= i < refs.len(),
    ensures
        (rep.status_of(refs[i].1, now) is Throttled && some_entry_references(s, refs[i].1))
            ==> first_throttled_blocked(refs.skip(i), rep, now, s) == Some(refs[i]),
        !(rep.status_of(refs[i].1, now) is Throttled && some_entry_references(s, refs[i].1))
            ==> first_throttled_blocked(refs.skip(i), rep, now, s) == first_throttled_blocked(
            refs.skip(i + 1),
            rep,
            now,
            s,
        ),
{
    assert(refs.skip(i)[0] == refs[i]);
    assert(refs.skip(i).drop_first() =~= refs.skip(i + 1));
}

impl UoPool {
    /// Whether some resident operation references address `a`.
    fn references_address(&self, a: &Address) -> (r: bool)
        ensures
            r == some_entry_references(self.entries@, *a),
    {
        let mut i: usize = 0;
        while i < self.entries.len()
            invariant
                i <= self.entries@.len(),
                forall|j: int| 0 <= j < i ==> !references(self.entries@[j].op, *a),
            decreases self.entries@.len() - i,
        {
            let e = &self.entries[i];
            let pm = match e.op.uo.paymaster {
                Some(p) => p == *a,
                None => false,
            };
            let fc = match e.op.uo.factory {
                Some(p) => p == *a,
                None => false,
            };
            let ag = match e.op.uo.aggregator {
                Some(p) => p == *a,
                None => false,
            };
            let sn = e.op.needs_account_stake && !e.op.account_is_staked && e.op.uo.sender == *a;
            if pm || fc || ag || sn {
                assert(references(self.entries@[i as int].op, *a));
                return true;
            }
            i = i + 1;
        }
        false
    }

    /// The reputation gate, read against the current table.
    fn reputation_gate_exec(
        &self,
        refs: &Vec<(EntityKind, Address)>,
        rep: &ReputationTracker,
        now: u64,
    ) -> (r: Option<(EntityKind, Address)>)
        requires
            rep.wf(),
        ensures
            r == reputation_gate(refs@, *rep, now, self.entries@),
    {
        let mut i: usize = 0;
        proof {
            assert(refs@.skip(0) =~= refs@);
        }
        while i < refs.len()
            invariant
                i <= refs@.len(),
                rep.wf(),
                first_banned(refs@, *rep, now) == first_banned(refs@.skip(i as int), *rep, now),
            decreases refs@.len() - i,
        {
            let (k, a) = refs[i];
            let st = rep.status(&a, now);
            proof {
                lemma_first_banned_skip(refs@, i as int, *rep, now);
            }
            if matches!(st, ReputationStatus::Banned) {
                return Some((k, a));
            }
            i = i + 1;
        }
        proof {
            assert(refs@.skip(i as int) =~= Seq::<(EntityKind, Address)>::empty());
        }
        let mut j: usize = 0;
        proof {
            assert(refs@.skip(0) =~= refs@);
        }
        while j < refs.len()
            invariant
                j <= refs@.len(),
                rep.wf(),
                first_banned(refs@, *rep, now) is None,
                first_throttled_blocked(refs@, *rep, now, self.entries@)
                    == first_throttled_blocked(refs@.skip(j as int), *rep, now, self.entries@),
            decreases refs@.len() - j,
        {
            let (k, a) = refs[j];
            let st = rep.status(&a, now);
            proof {
                lemma_first_throttled_skip(refs@, j as int, *rep, now, self.entries@);
            }
            if matches!(st, ReputationStatus::Throttled) {
                if self.references_address(&a) {
                    return Some((k, a));
                }
            }
            j = j + 1;
        }
        proof {
            assert(refs@.skip(j as int) =~= Seq::<(EntityKind, Address)>::empty());
        }
        None
    }

    /// The index of the resident operation with the given `(sender, nonce)`.
    fn find_sn_index(&self, sender: &Address, nonce: &U256) -> (r: Option<usize>)
        ensures
            match r {
                Some(i) => i < self.entries@.len() && sn_eq(self.entries@[i as int], *sender, *nonce),
                None => !has_sn(self.entries@, *sender, *nonce),
            },
    {
        let mut i: usize = 0;
        while i < self.entries.len()
            invariant
                i <= self.entries@.len(),
                forall|j: int| 0 <= j < i ==> !sn_eq(self.entries@[j], *sender, *nonce),
            decreases self.entries@.len() - i,
        {
            let e = &self.entries[i];
            if e.op.uo.sender == *sender && e.op.uo.nonce == *nonce {
                return Some(i);
            }
            i = i + 1;
        }
        None
    }

    /// The index of the eviction candidate: the resident operation with the
    /// lowest priority key, the newest among equals.
    fn worst_index(&self) -> (r: usize)
        requires
            self.entries@.len() >= 1,
        ensures
            r < self.entries@.len(),
            forall|t: int|
                0 <= t < self.entries@.len() ==> entry_before(
                    self.entries@[t],
                    self.entries@[r as int],
                    self.base_fee,
                ),
    {
        let mut w: usize = 0;
        let mut k: usize = 1;
        while k < self.entries.len()
            invariant
                w < k <= self.entries@.len(),
                forall|t: int|
                    0 <= t < k ==> entry_before(
                        self.entries@[t],
                        self.entries@[w as int],
                        self.base_fee,
                    ),
            decreases self.entries@.len() - k,
        {
            if entry_before_exec(&self.entries[w], &self.entries[k], &self.base_fee) {
                w = k;
            }
            k = k + 1;
        }
        w
    }

    /// Whether a hash is resident outside position `except`.
    fn hash_resident_except(&self, h: &OpHash, except: usize, check_all: bool) -> (r: bool)
        requires
            !check_all ==> except < self.entries@.len(),
        ensures
            r == hash_resident(
                if check_all {
                    self.entries@
                } else {
                    self.entries@.remove(except as int)
                },
                *h,
            ),
    {
        let mut i: usize = 0;
        while i < self.entries.len()
            invariant
                i <= self.entries@.len(),
                !check_all ==> except < self.entries@.len(),
                forall|j: int| 0 <= j < i && (check_all || j != except) ==> self.entries@[j].hash != *h,
            decreases self.entries@.len() - i,
        {
            if check_all || i != except {
                let e = &self.entries[i];
                if e.hash.hi == h.hi && e.hash.lo == h.lo {
                    proof {
                        assert(self.entries@[i as int].hash == *h);
                        if !check_all {
                            let rem = self.entries@.remove(except as int);
                            if i < except {
                                assert(rem[i as int] == self.entries@[i as int]);
                                assert(hash_resident(rem, *h));
                            } else {
                                assert(rem[i - 1] == self.entries@[i as int]);
                                assert(hash_resident(rem, *h));
                            }
                        }
                    }
                    return true;
                }
            }
            i = i + 1;
        }
        proof {
            if !check_all {
                let rem = self.entries@.remove(except as int);
                assert forall|j: int| 0 <= j < rem.len() implies rem[j].hash != *h by {
                    if j < except {
                        assert(rem[j] == self.entries@[j]);
                    } else {
                        assert(rem[j] == self.entries@[j + 1]);
                    }
                }
            }
        }
        false
    }
}


/// The index of the `(sender, nonce)` slot's occupant; meaningful only when
/// `has_sn` holds and the pool is well-formed, which makes it unique.
pub open spec fn sn_index_of(s: Seq<PoolEntry>, sender: Address, nonce: U256) -> int {
    choose|i: int| 0 <= i < s.len() && sn_eq(s[i], sender, nonce)
}

/// The index of the eviction candidate; meaningful on a well-formed,
/// non-empty pool, which makes it unique.
pub open spec fn is_worst(s: Seq<PoolEntry>, base: Option<U256>, w: int) -> bool {
    0 <= w < s.len() && forall|t: int| 0 <= t < s.len() ==> entry_before(s[t], s[w], base)
}

pub open spec fn worst_of(s: Seq<PoolEntry>, base: Option<U256>) -> int {
    choose|w: int| is_worst(s, base, w)
}

/// In a well-formed pool the occupant of a `(sender, nonce)` slot is unique.
proof fn lemma_sn_index_unique(s: Seq<PoolEntry>, sender: Address, nonce: U256, i: int)
    requires
        0 <= i < s.len(),
        sn_eq(s[i], sender, nonce),
        forall|p: int, q: int|
            0 <= p < q < s.len() ==> !(s[p].op.uo.sender == s[q].op.uo.sender && s[p].op.uo.nonce
                == s[q].op.uo.nonce),
    ensures
        has_sn(s, sender, nonce),
        sn_index_of(s, sender, nonce) == i,
{
    assert(has_sn(s, sender, nonce));
    let j = sn_index_of(s, sender, nonce);
    assert(0 <= j < s.len() && sn_eq(s[j], sender, nonce));
    if i < j {
        assert(false);
    } else if j < i {
        assert(false);
    }
}

/// With strictly increasing sequence numbers the eviction candidate is
/// unique.
proof fn lemma_worst_unique(s: Seq<PoolEntry>, base: Option<U256>, w: int)
    requires
        0 <= w < s.len(),
        forall|t: int| 0 <= t < s.len() ==> entry_before(s[t], s[w], base),
        forall|p: int, q: int| 0 <= p < q < s.len() ==> s[p].seq < s[q].seq,
    ensures
        worst_of(s, base) == w,
{
    assert(is_worst(s, base, w));
    let v = worst_of(s, base);
    assert(is_worst(s, base, v));
    assert(entry_before(s[w], s[v], base));
    assert(entry_before(s[v], s[w], base));
    if v < w {
        assert(false);
    } else if w < v {
        assert(false);
    }
}

impl UoPool {
    /// The admission decision against the current pool and reputation: the
    /// rejection the policy produces, or `None` when the operation is
    /// admitted. Gates apply in order: reputation, staking, replacement,
    /// capacity; a hash collision or an exhausted sequence counter is an
    /// internal error.
    pub open spec fn admit_error(
        self,
        rep: ReputationTracker,
        op: PoolOperation,
        now: u64,
    ) -> Option<MempoolError> {
        let refs = ref_list(op);
        let s = self.entries@;
        let h = op_hash_spec(op.uo@, self.entry_point, self.chain_id);
        match reputation_gate(refs, rep, now, s) {
            Some(ka) => Some(MempoolError::EntityThrottled(ka.0, ka.1)),
            None => match stake_gate(op) {
                Some(e) => Some(e),
                None => if has_sn(s, op.uo.sender, op.uo.nonce) {
                    let i = sn_index_of(s, op.uo.sender, op.uo.nonce);
                    if !replacement_ok(op, s[i].op, self.config.replacement_bump_percent) {
                        Some(
                            MempoolError::ReplacementUnderpriced(
                                s[i].op.uo.max_fee_per_gas,
                                s[i].op.uo.max_priority_fee_per_gas,
                            ),
                        )
                    } else if hash_resident(s.remove(i), h) || self.next_seq == u64::MAX {
                        Some(MempoolError::Internal)
                    } else {
                        None
                    }
                } else if s.len() >= self.config.max_pool_size {
                    let v = worst_of(s, self.base_fee);
                    if !(priority_key(op@, self.base_fee) > priority_key(s[v].op@, self.base_fee)) {
                        Some(MempoolError::DiscardedOnInsert)
                    } else if hash_resident(s.remove(v), h) || self.next_seq == u64::MAX {
                        Some(MempoolError::Internal)
                    } else {
                        None
                    }
                } else if hash_resident(s, h) || self.next_seq == u64::MAX {
                    Some(MempoolError::Internal)
                } else {
                    None
                },
            },
        }
    }

    /// Adds a validated operation to the pool, applying the admission
    /// policy. Whatever the outcome, every referenced entity's seen-counter
    /// is bumped exactly once; the pool itself changes only on success:
    /// a same-`(sender, nonce)` incumbent is replaced, a full pool evicts
    /// its lowest-priority entry, and otherwise the operation is appended.
    #[verifier::rlimit(100)]
    pub fn add_operation(
        &mut self,
        _origin: OperationOrigin,
        op: PoolOperation,
        rep: &mut ReputationTracker,
        now: u64,
    ) -> (r: Result<OpHash, MempoolError>)
        requires
            old(self).wf(),
            old(rep).wf(),
        ensures
            final(self).wf(),
            final(rep).wf(),
            final(rep).params == old(rep).params,
            final(self).entry_point == old(self).entry_point,
            final(self).chain_id == old(self).chain_id,
            final(self).config == old(self).config,
            final(self).base_fee == old(self).base_fee,
            forall|a: Address| #![trigger final(rep).seen_of(a)]
                final(rep).seen_of(a) as int == if references(op, a) && old(rep).seen_of(a)
                    < u64::MAX {
                    old(rep).seen_of(a) + 1
                } else {
                    old(rep).seen_of(a) as int
                },
            forall|a: Address| #![trigger final(rep).included_of(a)]
                final(rep).included_of(a) == old(rep).included_of(a),
            forall|a: Address| #![trigger final(rep).seen_of(a)]
                final(rep).seen_of(a) >= old(rep).seen_of(a),
            r is Err <==> old(self).admit_error(*old(rep), op, now) is Some,
            r is Err ==> r == Err::<OpHash, MempoolError>(
                old(self).admit_error(*old(rep), op, now)->0,
            ) && final(self).entries@ == old(self).entries@ && final(self).next_seq == old(
                self,
            ).next_seq,
            r is Ok ==> r == Ok::<OpHash, MempoolError>(
                op_hash_spec(op.uo@, old(self).entry_point, old(self).chain_id),
            ) && final(self).next_seq == old(self).next_seq + 1,
            r is Ok ==> {
                let s = old(self).entries@;
                let e = PoolEntry {
                    hash: op_hash_spec(op.uo@, old(self).entry_point, old(self).chain_id),
                    op: op,
                    seq: old(self).next_seq,
                };
                if has_sn(s, op.uo.sender, op.uo.nonce) {
                    final(self).entries@ == s.remove(
                        sn_index_of(s, op.uo.sender, op.uo.nonce),
                    ).push(e)
                } else if s.len() >= old(self).config.max_pool_size {
                    final(self).entries@ == s.remove(worst_of(s, old(self).base_fee)).push(e)
                } else {
                    final(self).entries@ == s.push(e)
                }
            },
    {
        let refs = referenced_entities(&op);
        let gate = self.reputation_gate_exec(&refs, rep, now);
        // Every admission attempt counts against the referenced entities,
        // whatever the outcome; classification above was read first.
        let ghost rep0 = *rep;
        let mut t: usize = 0;
        while t < refs.len()
            invariant
                t <= refs@.len(),
                rep.wf(),
                rep.params == rep0.params,
                forall|a: Address| #![trigger rep.seen_of(a)]
                    rep.seen_of(a) as int == if addr_in_prefix(refs@, t as int, a) && rep0.seen_of(
                        a,
                    ) < u64::MAX {
                        rep0.seen_of(a) + 1
                    } else {
                        rep0.seen_of(a) as int
                    },
                forall|a: Address| #![trigger rep.included_of(a)]
                    rep.included_of(a) == rep0.included_of(a),
            decreases refs@.len() - t,
        {
            let (_k, a) = refs[t];
            if !addr_in_first(&refs, t, &a) {
                rep.bump_seen(&a, now);
            }
            t = t + 1;
        }
        proof {
            assert forall|a: Address| #![trigger final(rep).seen_of(a)] true implies
                addr_in_prefix(refs@, refs@.len() as int, a) == references(op, a) by {
                lemma_ref_list_references(op, a);
            }
        }
        if let Some((k, a)) = gate {
            return Err(MempoolError::EntityThrottled(k, a));
        }
        if let Some(e) = stake_gate_exec(&op) {
            return Err(e);
        }
        let h = crate::crypto::operation_hash(&op.uo, &self.entry_point, self.chain_id);
        let ghost s0 = self.entries@;
        match self.find_sn_index(&op.uo.sender, &op.uo.nonce) {
            Some(i) => {
                proof {
                    lemma_sn_index_unique(s0, op.uo.sender, op.uo.nonce, i as int);
                }
                let inc_max_fee = self.entries[i].op.uo.max_fee_per_gas;
                let inc_prio_fee = self.entries[i].op.uo.max_priority_fee_per_gas;
                let pct = self.config.replacement_bump_percent;
                let ok_max = scaled_ge(&op.uo.max_fee_per_gas, 100, &inc_max_fee, 100 + pct);
                let ok_prio = scaled_ge(
                    &op.uo.max_priority_fee_per_gas,
                    100,
                    &inc_prio_fee,
                    100 + pct,
                );
                if !(ok_max && ok_prio) {
                    return Err(MempoolError::ReplacementUnderpriced(inc_max_fee, inc_prio_fee));
                }
                if self.hash_resident_except(&h, i, false) || self.next_seq == u64::MAX {
                    return Err(MempoolError::Internal);
                }
                let seq = self.next_seq;
                self.next_seq = seq + 1;
                self.entries.remove(i);
                self.entries.push(PoolEntry { hash: h, op, seq });
                proof {
                    lemma_wf_after_swap(s0, i as int, self.entries@, *old(self), *self);
                }
                Ok(h)
            },
            None => {
                if self.entries.len() >= self.config.max_pool_size {
                    let v = self.worst_index();
                    proof {
                        lemma_worst_unique(s0, self.base_fee, v as int);
                    }
                    let new_key = priority_key_exec(&op, &self.base_fee);
                    let worst_key = priority_key_exec(&self.entries[v].op, &self.base_fee);
                    if !worst_key.lt(&new_key) {
                        return Err(MempoolError::DiscardedOnInsert);
                    }
                    if self.hash_resident_except(&h, v, false) || self.next_seq == u64::MAX {
                        return Err(MempoolError::Internal);
                    }
                    let seq = self.next_seq;
                    self.next_seq = seq + 1;
                    self.entries.remove(v);
                    self.entries.push(PoolEntry { hash: h, op, seq });
                    proof {
                        lemma_wf_after_swap(s0, v as int, self.entries@, *old(self), *self);
                    }
                    Ok(h)
                } else {
                    if self.hash_resident_except(&h, 0, true) || self.next_seq == u64::MAX {
                        return Err(MempoolError::Internal);
                    }
                    let seq = self.next_seq;
                    self.next_seq = seq + 1;
                    self.entries.push(PoolEntry { hash: h, op, seq });
                    Ok(h)
                }
            },
        }
    }
}

/// Whether one of the first `t` references carries address `a`.
pub open spec fn addr_in_prefix(refs: Seq<(EntityKind, Address)>, t: int, a: Address) -> bool {
    exists|l: int| 0 <= l < t && refs[l].1 == a
}

/// Whether address `a` occurs among the first `t` references.
fn addr_in_first(refs: &Vec<(EntityKind, Address)>, t: usize, a: &Address) -> (r: bool)
    requires
        t <= refs@.len(),
    ensures
        r == addr_in_prefix(refs@, t as int, *a),
{
    let mut l: usize = 0;
    while l < t
        invariant
            l <= t <= refs@.len(),
            forall|m: int| 0 <= m < l ==> refs@[m].1 != *a,
        decreases t - l,
    {
        if refs[l].1 == *a {
            assert(refs@[l as int].1 == *a);
            return true;
        }
        l = l + 1;
    }
    false
}

/// Removing index `i` and appending a fresh entry keeps the pool invariant,
/// when the newcomer collides with nothing that remains.
proof fn lemma_wf_after_swap(
    s0: Seq<PoolEntry>,
    i: int,
    s1: Seq<PoolEntry>,
    before: UoPool,
    after: UoPool,
)
    requires
        before.wf(),
        before.entries@ == s0,
        0 <= i < s0.len(),
        s1 == s0.remove(i).push(after.entries@[s1.len() - 1]),
        after.entries@ == s1,
        after.entry_point == before.entry_point,
        after.chain_id == before.chain_id,
        after.config == before.config,
        after.next_seq == before.next_seq + 1,
        !hash_resident(s0.remove(i), s1[s1.len() - 1].hash),
        s1[s1.len() - 1].seq == before.next_seq,
        s1[s1.len() - 1].hash == op_hash_spec(
            s1[s1.len() - 1].op.uo@,
            before.entry_point,
            before.chain_id,
        ),
        forall|j: int|
            0 <= j < s0.len() && j != i ==> !(s0[j].op.uo.sender == s1[s1.len() - 1].op.uo.sender
                && s0[j].op.uo.nonce == s1[s1.len() - 1].op.uo.nonce),
    ensures
        after.wf(),
{
    let rem = s0.remove(i);
    let e = s1[s1.len() - 1];
    assert(s1.len() == s0.len());
    assert forall|p: int| 0 <= p < rem.len() implies rem[p] == (if p < i {
        s0[p]
    } else {
        s0[p + 1]
    }) by {}
    assert forall|p: int, q: int| 0 <= p < q < s1.len() implies s1[p].hash != s1[q].hash && !(
    s1[p].op.uo.sender == s1[q].op.uo.sender && s1[p].op.uo.nonce == s1[q].op.uo.nonce) && s1[p].seq
        < s1[q].seq by {
        if q < s1.len() - 1 {
            assert(s1[p] == rem[p] && s1[q] == rem[q]);
        } else {
            assert(s1[p] == rem[p]);
            assert(!hash_resident(rem, e.hash) ==> rem[p].hash != e.hash);
        }
    }
    assert forall|p: int| 0 <= p < s1.len() implies s1[p].seq < after.next_seq && s1[p].hash
        == op_hash_spec(s1[p].op.uo@, after.entry_point, after.chain_id) by {
        if p < s1.len() - 1 {
            assert(s1[p] == rem[p]);
        }
    }
}


/// Appending an entry adds its reference, if any, to the count.
pub proof fn lemma_count_snoc(s: Seq<PoolEntry>, x: PoolEntry, a: Address)
    ensures
        count_referencing(s.push(x), a) == count_referencing(s, a) + if references(x.op, a) {
            1nat
        } else {
            0nat
        },
    decreases s.len(),
{
    if s.len() == 0 {
        assert(s.push(x)[0] == x);
        assert(s.push(x).drop_first() =~= Seq::<PoolEntry>::empty());
        assert(count_referencing(Seq::<PoolEntry>::empty(), a) == 0);
        assert(count_referencing(s, a) == 0);
        assert(count_referencing(s.push(x), a) == count_referencing(s.push(x).drop_first(), a)
            + if references(s.push(x)[0].op, a) {
            1nat
        } else {
            0nat
        });
    } else {
        lemma_count_snoc(s.drop_first(), x, a);
        assert(s.push(x)[0] == s[0]);
        assert(s.push(x).drop_first() =~= s.drop_first().push(x));
        assert(count_referencing(s.push(x), a) == count_referencing(s.push(x).drop_first(), a)
            + if references(s.push(x)[0].op, a) {
            1nat
        } else {
            0nat
        });
        assert(count_referencing(s, a) == count_referencing(s.drop_first(), a) + if references(
            s[0].op,
            a,
        ) {
            1nat
        } else {
            0nat
        });
    }
}

impl UoPool {
    /// Reacts to a mined block: every listed operation still resident is
    /// removed, and each entity it referenced has its inclusion counter
    /// bumped once; unknown hashes are ignored, and the seen-counters are
    /// untouched.
    pub fn on_new_block(&mut self, event: &OnNewBlockEvent, rep: &mut ReputationTracker, now: u64)
        requires
            old(self).wf(),
            old(rep).wf(),
        ensures
            final(self).wf(),
            final(rep).wf(),
            final(rep).params == old(rep).params,
            final(self).entries@ == remove_mined(old(self).entries@, event.mined_operations@),
            *final(self) == (UoPool { entries: final(self).entries, ..*old(self) }),
            forall|a: Address| #![trigger final(rep).seen_of(a)]
                final(rep).seen_of(a) == old(rep).seen_of(a),
            forall|a: Address| #![trigger final(rep).included_of(a)]
                final(rep).included_of(a) as int == {
                    let c = old(rep).included_of(a) + count_referencing(
                        select_mined(old(self).entries@, event.mined_operations@),
                        a,
                    );
                    if c <= u64::MAX {
                        c
                    } else {
                        u64::MAX as int
                    }
                },
    {
        let removed = self.remove_operations(&event.mined_operations);
        let ghost rep0 = *rep;
        let ghost rem = removed@;
        let mut j: usize = 0;
        proof {
            assert(rem.take(0) =~= Seq::<PoolEntry>::empty());
        }
        while j < removed.len()
            invariant
                j <= rem.len(),
                removed@ == rem,
                rep.wf(),
                rep.params == rep0.params,
                forall|a: Address| #![trigger rep.seen_of(a)] rep.seen_of(a) == rep0.seen_of(a),
                forall|a: Address| #![trigger rep.included_of(a)]
                    rep.included_of(a) as int == {
                        let c = rep0.included_of(a) + count_referencing(rem.take(j as int), a);
                        if c <= u64::MAX {
                            c
                        } else {
                            u64::MAX as int
                        }
                    },
            decreases rem.len() - j,
        {
            let refs = referenced_entities(&removed[j].op);
            let ghost base = *rep;
            let mut t: usize = 0;
            while t < refs.len()
                invariant
                    t <= refs@.len(),
                    refs@ == ref_list(rem[j as int].op),
                    j < rem.len(),
                    rep.wf(),
                    rep.params == base.params,
                    forall|a: Address| #![trigger rep.seen_of(a)] rep.seen_of(a) == base.seen_of(a),
                    forall|a: Address| #![trigger rep.included_of(a)]
                        rep.included_of(a) as int == if addr_in_prefix(refs@, t as int, a)
                            && base.included_of(a) < u64::MAX {
                            base.included_of(a) + 1
                        } else {
                            base.included_of(a) as int
                        },
                decreases refs@.len() - t,
            {
                let (_k, a) = refs[t];
                if !addr_in_first(&refs, t, &a) {
                    rep.bump_included(&a, now);
                }
                t = t + 1;
            }
            proof {
                assert(rem.take(j + 1 as int) =~= rem.take(j as int).push(rem[j as int]));
                lemma_count_snoc(rem.take(j as int), rem[j as int], arbitrary());
                assert forall|a: Address| #![trigger rep.included_of(a)]
                    rep.included_of(a) as int == {
                        let c = rep0.included_of(a) + count_referencing(rem.take(j + 1 as int), a);
                        if c <= u64::MAX {
                            c
                        } else {
                            u64::MAX as int
                        }
                    } by {
                    lemma_ref_list_references(rem[j as int].op, a);
                    lemma_count_snoc(rem.take(j as int), rem[j as int], a);
                }
            }
            j = j + 1;
        }
        proof {
            assert(rem.take(rem.len() as int) =~= rem);
        }
    }
}

} // verus!
