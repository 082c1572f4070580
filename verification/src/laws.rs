//! The laws of the pool, stated once and proved: index coherence, banned
//! exclusion, idempotence of mined removal, and the two round trips. Each is
//! phrased over the same specification functions the pool's contracts use,
//! so together with those contracts it holds of every run.

use vstd::prelude::*;
use vstd::seq_lib::group_seq_properties;

use crate::pool::{
    first_banned, hash_resident, lemma_ref_list_references, lemma_sort_entries_membership,
    lemma_sort_entries_sorted, ref_list, references, remove_mined, reputation_gate, select_mined,
    sort_entries, stake_gate, PoolEntry, UoPool,
};
use crate::reputation::{ReputationStatus, ReputationTracker};
use crate::types::{Address, EntityKind, OpHash, PoolOperation};
use crate::u256::U256;

verus! {

/// The hash index: the set of resident hashes.
pub open spec fn hash_index(s: Seq<PoolEntry>) -> Set<OpHash> {
    s.map_values(|e: PoolEntry| e.hash).to_set()
}

/// The sender-nonce index: the set of occupied `(sender, nonce)` slots.
pub open spec fn sender_nonce_index(s: Seq<PoolEntry>) -> Set<(Address, U256)> {
    s.map_values(|e: PoolEntry| (e.op.uo.sender, e.op.uo.nonce)).to_set()
}

/// Index coherence: on a well-formed pool the hash index, the sender-nonce
/// index and the priority index all have exactly one place per resident
/// operation, and the priority index holds exactly the resident hashes.
pub proof fn lemma_index_coherence(p: UoPool)
    requires
        p.wf(),
    ensures
        hash_index(p.entries@).len() == p.entries@.len(),
        sender_nonce_index(p.entries@).len() == p.entries@.len(),
        sort_entries(p.entries@, p.base_fee).len() == p.entries@.len(),
        forall|h: OpHash|
            hash_resident(sort_entries(p.entries@, p.base_fee), h) <==> #[trigger] hash_resident(
                p.entries@,
                h,
            ),
        forall|h: OpHash| #[trigger] hash_index(p.entries@).contains(h) <==> hash_resident(
            p.entries@,
            h,
        ),
{
    broadcast use group_seq_properties;

    let s = p.entries@;
    let hs = s.map_values(|e: PoolEntry| e.hash);
    let sn = s.map_values(|e: PoolEntry| (e.op.uo.sender, e.op.uo.nonce));
    assert(hs.no_duplicates()) by {
        assert forall|i: int, j: int| 0 <= i < hs.len() && 0 <= j < hs.len() && i != j implies
            hs[i] != hs[j] by {
            assert(hs[i] == s[i].hash && hs[j] == s[j].hash);
        }
    }
    assert(sn.no_duplicates()) by {
        assert forall|i: int, j: int| 0 <= i < sn.len() && 0 <= j < sn.len() && i != j implies
            sn[i] != sn[j] by {
            assert(sn[i] == (s[i].op.uo.sender, s[i].op.uo.nonce));
            assert(sn[j] == (s[j].op.uo.sender, s[j].op.uo.nonce));
        }
    }
    hs.unique_seq_to_set();
    sn.unique_seq_to_set();
    lemma_sort_entries_sorted(s, p.base_fee);
    assert forall|h: OpHash|
        hash_resident(sort_entries(s, p.base_fee), h) <==> #[trigger] hash_resident(s, h) by {
        let sorted = sort_entries(s, p.base_fee);
        if hash_resident(sorted, h) {
            let i = choose|i: int| 0 <= i < sorted.len() && sorted[i].hash == h;
            lemma_sort_entries_membership(s, p.base_fee, sorted[i]);
            let j = choose|j: int| 0 <= j < s.len() && s[j] == sorted[i];
            assert(s[j].hash == h);
        }
        if hash_resident(s, h) {
            let i = choose|i: int| 0 <= i < s.len() && s[i].hash == h;
            lemma_sort_entries_membership(s, p.base_fee, s[i]);
            let j = choose|j: int| 0 <= j < sorted.len() && sorted[j] == s[i];
            assert(sorted[j].hash == h);
        }
    }
    assert forall|h: OpHash| #[trigger]
        hash_index(s).contains(h) <==> hash_resident(s, h) by {
        if hash_index(s).contains(h) {
            let i = choose|i: int| 0 <= i < hs.len() && hs[i] == h;
            assert(s[i].hash == h);
        }
        if hash_resident(s, h) {
            let i = choose|i: int| 0 <= i < s.len() && s[i].hash == h;
            assert(hs[i] == h);
            assert(hs.to_set().contains(h));
        }
    }
}

/// No resident operation references an address banned at `now`.
pub open spec fn banned_excluded(s: Seq<PoolEntry>, rep: ReputationTracker, now: u64) -> bool {
    forall|i: int, a: Address|
        0 <= i < s.len() && #[trigger] references(s[i].op, a) ==> !(rep.status_of(a, now)
            is Banned)
}

/// When the reputation gate finds no banned reference, none is banned.
pub proof fn lemma_first_banned_none(
    refs: Seq<(EntityKind, Address)>,
    rep: ReputationTracker,
    now: u64,
)
    requires
        first_banned(refs, rep, now) is None,
    ensures
        forall|k: int|
            0 <= k < refs.len() ==> !(rep.status_of((#[trigger] refs[k]).1, now)
                is Banned),
    decreases refs.len(),
{
    if refs.len() > 0 {
        lemma_first_banned_none(refs.drop_first(), rep, now);
        assert forall|k: int| 0 <= k < refs.len() implies !(rep.status_of(
            (#[trigger] refs[k]).1,
            now,
        ) is Banned) by {
            if k > 0 {
                assert(refs[k] == refs.drop_first()[k - 1]);
            }
        }
    }
}

/// Banned exclusion is preserved by a successful admission, as long as no
/// referenced address changes classification across it: the admission
/// checked the newcomer's references against the reputation it read, and
/// what remains resident already satisfied the exclusion.
pub proof fn lemma_banned_exclusion_preserved(
    p0: UoPool,
    rep0: ReputationTracker,
    op: PoolOperation,
    now: u64,
    s1: Seq<PoolEntry>,
    rep1: ReputationTracker,
)
    requires
        banned_excluded(p0.entries@, rep0, now),
        p0.admit_error(rep0, op, now) is None,
        forall|k: int|
            0 <= k < s1.len() ==> (#[trigger] s1[k]).op == op || exists|m: int|
                0 <= m < p0.entries@.len() && p0.entries@[m] == s1[k],
        forall|a: Address| #[trigger] rep1.status_of(a, now) == rep0.status_of(a, now),
    ensures
        banned_excluded(s1, rep1, now),
{
    assert(reputation_gate(ref_list(op), rep0, now, p0.entries@) is None);
    lemma_first_banned_none(ref_list(op), rep0, now);
    assert forall|i: int, a: Address|
        0 <= i < s1.len() && #[trigger] references(s1[i].op, a) implies !(rep1.status_of(a, now)
        is Banned) by {
        if s1[i].op == op {
            lemma_ref_list_references(op, a);
            let k = choose|k: int| 0 <= k < ref_list(op).len() && ref_list(op)[k].1 == a;
            assert(!(rep0.status_of(a, now) is Banned));
        } else {
            let m = choose|m: int| 0 <= m < p0.entries@.len() && p0.entries@[m] == s1[i];
            assert(references(p0.entries@[m].op, a));
            assert(!(rep0.status_of(a, now) is Banned));
        }
    }
}

/// Removing a mined set twice is removing it once: the second pass finds
/// nothing to remove and nothing to credit.
pub proof fn lemma_remove_mined_idempotent(s: Seq<PoolEntry>, hs: Seq<OpHash>)
    ensures
        remove_mined(remove_mined(s, hs), hs) == remove_mined(s, hs),
        select_mined(remove_mined(s, hs), hs) == Seq::<PoolEntry>::empty(),
    decreases s.len(),
{
    if s.len() == 0 {
    } else {
        lemma_remove_mined_idempotent(s.drop_first(), hs);
        let r = remove_mined(s, hs);
        if hs.contains(s[0].hash) {
        } else {
            let r1 = remove_mined(s.drop_first(), hs);
            assert(r == seq![s[0]] + r1);
            assert(r[0] == s[0]);
            assert(r.drop_first() =~= r1);
            assert(remove_mined(r, hs) =~= seq![s[0]] + remove_mined(r1, hs));
            assert(remove_mined(r, hs) =~= r);
        }
    }
}

/// Inserting a fresh operation and then removing it by its hash restores
/// the store exactly; with it, every derived index and per-entity count is
/// restored too.
pub proof fn lemma_insert_remove_round_trip(s: Seq<PoolEntry>, e: PoolEntry)
    requires
        forall|i: int| 0 <= i < s.len() ==> (#[trigger] s[i]).hash != e.hash,
    ensures
        remove_mined(s.push(e), seq![e.hash]) == s,
        select_mined(s.push(e), seq![e.hash]) == seq![e],
    decreases s.len(),
{
    let hs = seq![e.hash];
    assert(hs.contains(e.hash)) by {
        assert(hs[0] == e.hash);
    }
    if s.len() == 0 {
        assert(s.push(e)[0] == e);
        assert(s.push(e).drop_first() =~= Seq::<PoolEntry>::empty());
        assert(remove_mined(Seq::<PoolEntry>::empty(), hs) == Seq::<PoolEntry>::empty());
        assert(select_mined(Seq::<PoolEntry>::empty(), hs) == Seq::<PoolEntry>::empty());
        assert(remove_mined(s.push(e), hs) =~= s);
        assert(select_mined(s.push(e), hs) =~= seq![e]);
    } else {
        assert forall|i: int| 0 <= i < s.drop_first().len() implies (#[trigger] s.drop_first()[i]).hash
            != e.hash by {
            assert(s.drop_first()[i] == s[i + 1]);
        }
        lemma_insert_remove_round_trip(s.drop_first(), e);
        assert(s.push(e)[0] == s[0]);
        assert(s.push(e).drop_first() =~= s.drop_first().push(e));
        assert(!hs.contains(s[0].hash)) by {
            if hs.contains(s[0].hash) {
                let i = choose|i: int| 0 <= i < hs.len() && hs[i] == s[0].hash;
                assert(hs[0] == e.hash);
            }
        }
        assert(remove_mined(s.push(e), hs) =~= s);
        assert(select_mined(s.push(e), hs) =~= seq![e]);
    }
}

/// Clearing an already cleared pool changes nothing observable: both leave
/// an empty store and touch no other field.
pub proof fn lemma_clear_idempotent(a: UoPool, b: UoPool, c: UoPool)
    requires
        b.entries@.len() == 0,
        b == (UoPool { entries: b.entries, ..a }),
        c.entries@.len() == 0,
        c == (UoPool { entries: c.entries, ..b }),
    ensures
        c.entries@ == b.entries@,
        c.entry_point == b.entry_point,
        c.chain_id == b.chain_id,
        c.config == b.config,
        c.base_fee == b.base_fee,
        c.next_seq == b.next_seq,
{
    assert(c.entries@ =~= b.entries@);
}

/// Uniqueness: no two resident operations share a `(sender, nonce)` slot.
pub proof fn lemma_sender_nonce_unique(p: UoPool)
    requires
        p.wf(),
    ensures
        forall|i: int, j: int|
            0 <= i < j < p.entries@.len() ==> !(p.entries@[i].op.uo.sender
                == p.entries@[j].op.uo.sender && p.entries@[i].op.uo.nonce
                == p.entries@[j].op.uo.nonce),
{
}

/// Capacity: the pool never outgrows its configured cap.
pub proof fn lemma_capacity(p: UoPool)
    requires
        p.wf(),
    ensures
        p.entries@.len() <= p.config.max_pool_size,
{
}

} // verus!
