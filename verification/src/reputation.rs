//! Behavioural reputation of entity addresses: per-address counters of
//! admission attempts seen and operations included on chain, a decay rule,
//! and the throttled/banned classification computed on read. The table is
//! shared across all pools, keyed by address.

use vstd::prelude::*;

use crate::types::Address;

verus! {

/// Classification of an address, derived from its counters on read.
#[derive(Clone, Copy, PartialEq, Eq, Structural, Debug)]
pub enum ReputationStatus {
    Good,
    Throttled,
    Banned,
}

/// Per-address mutable record of behaviour.
#[derive(Clone, Copy, PartialEq, Eq, Structural, Debug)]
pub struct ReputationEntry {
    pub address: Address,
    pub ops_seen: u64,
    pub ops_included: u64,
    pub last_update: u64,
}

/// The slacks that drive classification and the decay horizon.
#[derive(Clone, Copy, PartialEq, Eq, Structural, Debug)]
pub struct ReputationParams {
    pub throttling_slack: u64,
    pub banning_slack: u64,
    pub decay_hours: u64,
}

/// The first entry of `s` with address `a`, if any.
pub open spec fn entry_for(s: Seq<ReputationEntry>, a: Address) -> Option<ReputationEntry>
    decreases s.len(),
{
    if s.len() == 0 {
        None
    } else if s[0].address == a {
        Some(s[0])
    } else {
        entry_for(s.drop_first(), a)
    }
}

/// Whole hours elapsed from `last` to `now`; zero when time went backwards.
pub open spec fn hours_between(last: u64, now: u64) -> nat {
    if now <= last {
        0
    } else {
        ((now - last) / 3600) as nat
    }
}

/// A counter after `hours` of decay against a horizon of `decay_hours`:
/// multiplied by `(1 - hours / decay_hours)`, clamped at zero.
pub open spec fn decayed(count: u64, hours: nat, decay_hours: u64) -> nat {
    if hours >= decay_hours {
        0
    } else {
        ((count * (decay_hours - hours)) / (decay_hours as int)) as nat
    }
}

impl ReputationParams {
    /// Classification from decayed counters: the strict excess of operations
    /// seen over operations included is held against the two slacks.
    pub open spec fn classify(self, seen: nat, included: nat) -> ReputationStatus {
        let diff = if seen >= included {
            seen - included
        } else {
            0
        };
        if diff > self.banning_slack {
            ReputationStatus::Banned
        } else if diff > self.throttling_slack {
            ReputationStatus::Throttled
        } else {
            ReputationStatus::Good
        }
    }
}

/// The process-wide reputation table.
pub struct ReputationTracker {
    pub params: ReputationParams,
    pub entries: Vec<ReputationEntry>,
}

impl ReputationTracker {
    /// Well-formed: one entry per address, and a positive decay horizon.
    pub open spec fn wf(self) -> bool {
        &&& self.params.decay_hours >= 1
        &&& forall|i: int, j: int|
            0 <= i < j < self.entries@.len() ==> self.entries@[i].address
                != self.entries@[j].address
    }

    /// The stored (undecayed) count of admission attempts seen for `a`.
    pub open spec fn seen_of(self, a: Address) -> u64 {
        match entry_for(self.entries@, a) {
            Some(e) => e.ops_seen,
            None => 0,
        }
    }

    /// The stored (undecayed) count of inclusions for `a`.
    pub open spec fn included_of(self, a: Address) -> u64 {
        match entry_for(self.entries@, a) {
            Some(e) => e.ops_included,
            None => 0,
        }
    }

    /// The decayed count of admission attempts seen for `a` at time `now`.
    pub open spec fn seen_at(self, a: Address, now: u64) -> nat {
        match entry_for(self.entries@, a) {
            Some(e) => decayed(e.ops_seen, hours_between(e.last_update, now), self.params.decay_hours),
            None => 0,
        }
    }

    /// The decayed count of inclusions for `a` at time `now`.
    pub open spec fn included_at(self, a: Address, now: u64) -> nat {
        match entry_for(self.entries@, a) {
            Some(e) => decayed(
                e.ops_included,
                hours_between(e.last_update, now),
                self.params.decay_hours,
            ),
            None => 0,
        }
    }

    /// Classification of `a` at time `now`, from decayed counters.
    pub open spec fn status_of(self, a: Address, now: u64) -> ReputationStatus {
        self.params.classify(self.seen_at(a, now), self.included_at(a, now))
    }

    pub fn new(params: ReputationParams) -> (r: ReputationTracker)
        requires
            params.decay_hours >= 1,
        ensures
            r.wf(),
            r.params == params,
            forall|a: Address| r.seen_of(a) == 0 && r.included_of(a) == 0,
            forall|a: Address, now: u64| r.status_of(a, now) == ReputationStatus::Good,
    {
        ReputationTracker { params, entries: Vec::new() }
    }

    /// Index of the entry for `a`, if one exists.
    fn find_index(&self, a: &Address) -> (r: Option<usize>)
        ensures
            match r {
                Some(i) => i < self.entries@.len() && self.entries@[i as int].address == *a
                    && entry_for(self.entries@, *a) == Some(self.entries@[i as int]),
                None => entry_for(self.entries@, *a) is None,
            },
    {
        let mut i: usize = 0;
        proof {
            assert(self.entries@.skip(0) =~= self.entries@);
        }
        while i < self.entries.len()
            invariant
                i <= self.entries@.len(),
                entry_for(self.entries@, *a) == entry_for(self.entries@.skip(i as int), *a),
                forall|j: int| 0 <= j < i ==> self.entries@[j].address != *a,
            decreases self.entries@.len() - i,
        {
            if self.entries[i].address == *a {
                proof {
                    lemma_entry_for_skip_head(self.entries@, i as int, *a);
                }
                return Some(i);
            }
            proof {
                lemma_entry_for_skip_head(self.entries@, i as int, *a);
            }
            i = i + 1;
        }
        proof {
            assert(self.entries@.skip(i as int) =~= Seq::<ReputationEntry>::empty());
        }
        None
    }

    /// Classification of `a` at time `now`; does not mutate the table.
    pub fn status(&self, a: &Address, now: u64) -> (r: ReputationStatus)
        requires
            self.wf(),
        ensures
            r == self.status_of(*a, now),
    {
        match self.find_index(a) {
            Some(i) => {
                let e = self.entries[i];
                let h = hours_elapsed(e.last_update, now);
                let seen = decay_count(e.ops_seen, h, self.params.decay_hours);
                let included = decay_count(e.ops_included, h, self.params.decay_hours);
                let diff = if seen >= included {
                    seen - included
                } else {
                    0
                };
                if diff > self.params.banning_slack {
                    ReputationStatus::Banned
                } else if diff > self.params.throttling_slack {
                    ReputationStatus::Throttled
                } else {
                    ReputationStatus::Good
                }
            },
            None => ReputationStatus::Good,
        }
    }

    /// Records one admission attempt referencing `a`: its seen-counter grows
    /// by one (saturating), all else is untouched.
    pub fn bump_seen(&mut self, a: &Address, now: u64)
        requires
            old(self).wf(),
        ensures
            final(self).wf(),
            final(self).params == old(self).params,
            final(self).seen_of(*a) as int == if old(self).seen_of(*a) == u64::MAX {
                u64::MAX as int
            } else {
                old(self).seen_of(*a) + 1
            },
            final(self).included_of(*a) == old(self).included_of(*a),
            forall|b: Address|
                b != *a ==> final(self).seen_of(b) == old(self).seen_of(b)
                    && final(self).included_of(b) == old(self).included_of(b),
            forall|b: Address|
                b != *a ==> #[trigger] entry_for(final(self).entries@, b) == entry_for(
                    old(self).entries@,
                    b,
                ),
            forall|b: Address| final(self).seen_of(b) >= old(self).seen_of(b),
    {
        match self.find_index(a) {
            Some(i) => {
                let mut e = self.entries[i];
                e.ops_seen = if e.ops_seen == u64::MAX {
                    u64::MAX
                } else {
                    e.ops_seen + 1
                };
                proof {
                    lemma_entry_for_update(self.entries@, i as int, e);
                }
                self.entries[i] = e;
            },
            None => {
                let e = ReputationEntry { address: *a, ops_seen: 1, ops_included: 0, last_update: now };
                proof {
                    lemma_entry_for_push(self.entries@, e);
                }
                self.entries.push(e);
            },
        }
    }

    /// Records one on-chain inclusion of an operation referencing `a`.
    pub fn bump_included(&mut self, a: &Address, now: u64)
        requires
            old(self).wf(),
        ensures
            final(self).wf(),
            final(self).params == old(self).params,
            final(self).included_of(*a) as int == if old(self).included_of(*a) == u64::MAX {
                u64::MAX as int
            } else {
                old(self).included_of(*a) + 1
            },
            final(self).seen_of(*a) == old(self).seen_of(*a),
            forall|b: Address|
                b != *a ==> final(self).seen_of(b) == old(self).seen_of(b)
                    && final(self).included_of(b) == old(self).included_of(b),
            forall|b: Address|
                b != *a ==> #[trigger] entry_for(final(self).entries@, b) == entry_for(
                    old(self).entries@,
                    b,
                ),
    {
        match self.find_index(a) {
            Some(i) => {
                let mut e = self.entries[i];
                e.ops_included = if e.ops_included == u64::MAX {
                    u64::MAX
                } else {
                    e.ops_included + 1
                };
                proof {
                    lemma_entry_for_update(self.entries@, i as int, e);
                }
                self.entries[i] = e;
            },
            None => {
                let e = ReputationEntry { address: *a, ops_seen: 0, ops_included: 1, last_update: now };
                proof {
                    lemma_entry_for_push(self.entries@, e);
                }
                self.entries.push(e);
            },
        }
    }

    /// Admin override: sets both counters for `a` directly. The entry's
    /// update time is set to `now`, so decay is bypassed until time passes.
    pub fn set_reputation(&mut self, a: &Address, ops_seen: u64, ops_included: u64, now: u64)
        requires
            old(self).wf(),
        ensures
            final(self).wf(),
            final(self).params == old(self).params,
            entry_for(final(self).entries@, *a) == Some(
                ReputationEntry { address: *a, ops_seen, ops_included, last_update: now },
            ),
            final(self).seen_of(*a) == ops_seen,
            final(self).included_of(*a) == ops_included,
            forall|b: Address|
                b != *a ==> #[trigger] entry_for(final(self).entries@, b) == entry_for(
                    old(self).entries@,
                    b,
                ),
    {
        let e = ReputationEntry { address: *a, ops_seen, ops_included, last_update: now };
        match self.find_index(a) {
            Some(i) => {
                proof {
                    lemma_entry_for_update(self.entries@, i as int, e);
                }
                self.entries[i] = e;
            },
            None => {
                proof {
                    lemma_entry_for_push(self.entries@, e);
                }
                self.entries.push(e);
            },
        }
    }

    /// The periodic decay tick: every entry's counters are decayed and its
    /// update time moved to `now`.
    pub fn tick(&mut self, now: u64)
        requires
            old(self).wf(),
        ensures
            final(self).wf(),
            final(self).params == old(self).params,
            final(self).entries@.len() == old(self).entries@.len(),
            forall|i: int|
                0 <= i < old(self).entries@.len() ==> final(self).entries@[i] == decay_entry(
                    old(self).entries@[i],
                    now,
                    old(self).params.decay_hours,
                ),
    {
        let mut i: usize = 0;
        while i < self.entries.len()
            invariant
                self.wf(),
                i <= self.entries@.len(),
                self.params == old(self).params,
                self.entries@.len() == old(self).entries@.len(),
                forall|j: int|
                    i <= j < self.entries@.len() ==> self.entries@[j] == old(self).entries@[j],
                forall|j: int|
                    0 <= j < i ==> self.entries@[j] == decay_entry(
                        old(self).entries@[j],
                        now,
                        old(self).params.decay_hours,
                    ),
            decreases self.entries@.len() - i,
        {
            let e = self.entries[i];
            let h = hours_elapsed(e.last_update, now);
            let e2 = ReputationEntry {
                address: e.address,
                ops_seen: decay_count(e.ops_seen, h, self.params.decay_hours),
                ops_included: decay_count(e.ops_included, h, self.params.decay_hours),
                last_update: now,
            };
            self.entries[i] = e2;
            i = i + 1;
        }
    }
}

/// An entry after one decay tick at time `now`.
pub open spec fn decay_entry(e: ReputationEntry, now: u64, decay_hours: u64) -> ReputationEntry {
    ReputationEntry {
        address: e.address,
        ops_seen: decayed(e.ops_seen, hours_between(e.last_update, now), decay_hours) as u64,
        ops_included: decayed(e.ops_included, hours_between(e.last_update, now), decay_hours) as u64,
        last_update: now,
    }
}

/// Whole hours elapsed from `last` to `now`.
pub fn hours_elapsed(last: u64, now: u64) -> (r: u64)
    ensures
        r as nat == hours_between(last, now),
{
    if now <= last {
        0
    } else {
        (now - last) / 3600
    }
}

/// A counter after `hours` of decay; always at most the counter itself.
pub fn decay_count(count: u64, hours: u64, decay_hours: u64) -> (r: u64)
    requires
        decay_hours >= 1,
    ensures
        r as nat == decayed(count, hours as nat, decay_hours),
        r <= count,
{
    if hours >= decay_hours {
        0
    } else {
        proof {
            assert((count as u128) * ((decay_hours - hours) as u128) <= 0xFFFF_FFFF_FFFF_FFFF_FFFF_FFFF_FFFF_FFFFu128)
                by (nonlinear_arith)
                requires
                    count <= 0xFFFF_FFFF_FFFF_FFFFu64,
                    hours < decay_hours <= 0xFFFF_FFFF_FFFF_FFFFu64,
            ;
        }
        let num: u128 = (count as u128) * ((decay_hours - hours) as u128);
        let q: u128 = num / (decay_hours as u128);
        proof {
            assert(q <= count) by (nonlinear_arith)
                requires
                    num == (count as u128) * ((decay_hours - hours) as u128),
                    q == num / (decay_hours as u128),
                    decay_hours >= 1,
                    hours < decay_hours,
            ;
            assert(q as nat == decayed(count, hours as nat, decay_hours)) by (nonlinear_arith)
                requires
                    num == (count as u128) * ((decay_hours - hours) as u128),
                    q == num / (decay_hours as u128),
                    decay_hours >= 1,
                    hours < decay_hours,
            ;
        }
        q as u64
    }
}

/// Stepping `entry_for` past a non-matching head, or stopping at a match.
proof fn lemma_entry_for_skip_head(s: Seq<ReputationEntry>, i: int, a: Address)
    requires
        0 <= i < s.len(),
    ensures
        s[i].address == a ==> entry_for(s.skip(i), a) == Some(s[i]),
        s[i].address != a ==> entry_for(s.skip(i), a) == entry_for(s.skip(i + 1), a),
{
    assert(s.skip(i).len() > 0);
    assert(s.skip(i)[0] == s[i]);
    assert(s.skip(i).drop_first() =~= s.skip(i + 1));
}

/// Updating the entry at `i` without changing its address changes only that
/// address's lookup.
proof fn lemma_entry_for_update(s: Seq<ReputationEntry>, i: int, e: ReputationEntry)
    requires
        0 <= i < s.len(),
        e.address == s[i].address,
        forall|p: int, q: int| 0 <= p < q < s.len() ==> s[p].address != s[q].address,
    ensures
        entry_for(s.update(i, e), e.address) == Some(e),
        forall|b: Address|
            b != e.address ==> #[trigger] entry_for(s.update(i, e), b) == entry_for(s, b),
    decreases s.len(),
{
    let t = s.update(i, e);
    if i == 0 {
        assert(t[0] == e);
        assert(t.drop_first() =~= s.drop_first());
        assert(entry_for(t, e.address) == Some(e));
        assert forall|b: Address| b != e.address implies #[trigger] entry_for(t, b) == entry_for(
            s,
            b,
        ) by {
            assert(t.drop_first() =~= s.drop_first());
        }
    } else {
        let s1 = s.drop_first();
        assert forall|p: int, q: int| 0 <= p < q < s1.len() implies s1[p].address
            != s1[q].address by {
            assert(s1[p] == s[p + 1]);
            assert(s1[q] == s[q + 1]);
        }
        assert(s1[i - 1] == s[i]);
        lemma_entry_for_update(s1, i - 1, e);
        assert(t[0] == s[0]);
        assert(t.drop_first() =~= s1.update(i - 1, e));
        assert(s[0].address != e.address);
        assert(entry_for(t, e.address) == entry_for(s1.update(i - 1, e), e.address));
        assert forall|b: Address| b != e.address implies #[trigger] entry_for(t, b) == entry_for(
            s,
            b,
        ) by {
            if s[0].address == b {
                assert(entry_for(t, b) == Some(s[0]));
                assert(entry_for(s, b) == Some(s[0]));
            } else {
                assert(entry_for(t, b) == entry_for(s1.update(i - 1, e), b));
                assert(entry_for(s, b) == entry_for(s1, b));
            }
        }
    }
}

/// Appending an entry for a fresh address changes only that address's lookup.
proof fn lemma_entry_for_push(s: Seq<ReputationEntry>, e: ReputationEntry)
    requires
        entry_for(s, e.address) is None,
    ensures
        entry_for(s.push(e), e.address) == Some(e),
        forall|b: Address| b != e.address ==> #[trigger] entry_for(s.push(e), b) == entry_for(s, b),
        forall|j: int| 0 <= j < s.len() ==> s[j].address != e.address,
    decreases s.len(),
{
    let t = s.push(e);
    if s.len() == 0 {
        assert(t[0] == e);
        assert(entry_for(t, e.address) == Some(e));
        assert forall|b: Address| b != e.address implies #[trigger] entry_for(t, b) == entry_for(
            s,
            b,
        ) by {
            assert(t.drop_first() =~= Seq::<ReputationEntry>::empty());
            assert(entry_for(t.drop_first(), b) is None);
            assert(entry_for(t, b) is None);
            assert(entry_for(s, b) is None);
        }
    } else {
        let s1 = s.drop_first();
        assert(s[0].address != e.address);
        lemma_entry_for_push(s1, e);
        assert(t[0] == s[0]);
        assert(t.drop_first() =~= s1.push(e));
        assert(entry_for(t, e.address) == entry_for(s1.push(e), e.address));
        assert forall|b: Address| b != e.address implies #[trigger] entry_for(t, b) == entry_for(
            s,
            b,
        ) by {
            if s[0].address == b {
                assert(entry_for(t, b) == Some(s[0]));
                assert(entry_for(s, b) == Some(s[0]));
            } else {
                assert(entry_for(t, b) == entry_for(s1.push(e), b));
                assert(entry_for(s, b) == entry_for(s1, b));
            }
        }
        assert forall|j: int| 0 <= j < s.len() implies s[j].address != e.address by {
            if j > 0 {
                assert(s[j] == s1[j - 1]);
            }
        }
    }
}

} // verus!
