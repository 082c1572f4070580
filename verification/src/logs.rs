//! Receipt-log selection for a user operation: inside one transaction many
//! operations emit events, and the logs belonging to one of them are the
//! stretch between the previous operation's event and its own. The scan
//! mirrors the event layout: the first topic names the event, the second
//! carries the operation hash.

use vstd::prelude::*;

use crate::types::{Address, OpHash};

verus! {

/// An emitted log: its topics, the emitting address, and the payload.
#[derive(Debug, PartialEq, Eq)]
pub struct Log {
    pub topics: Vec<OpHash>,
    pub address: Address,
    pub data: Vec<u8>,
}

/// The mathematical value of a `Log`.
pub struct LogModel {
    pub topics: Seq<OpHash>,
    pub address: Address,
    pub data: Seq<u8>,
}

impl View for Log {
    type V = LogModel;

    open spec fn view(&self) -> LogModel {
        LogModel { topics: self.topics@, address: self.address, data: self.data@ }
    }
}

impl Clone for Log {
    fn clone(&self) -> (r: Self)
        ensures
            r@ == self@,
    {
        let mut topics: Vec<OpHash> = Vec::new();
        let mut i: usize = 0;
        while i < self.topics.len()
            invariant
                i <= self.topics@.len(),
                topics@ == self.topics@.take(i as int),
            decreases self.topics@.len() - i,
        {
            topics.push(self.topics[i]);
            proof {
                assert(self.topics@.take(i + 1 as int) =~= self.topics@.take(i as int).push(
                    self.topics@[i as int],
                ));
            }
            i = i + 1;
        }
        proof {
            assert(self.topics@.take(self.topics@.len() as int) =~= self.topics@);
        }
        let mut data: Vec<u8> = Vec::new();
        let mut j: usize = 0;
        while j < self.data.len()
            invariant
                j <= self.data@.len(),
                data@ == self.data@.take(j as int),
            decreases self.data@.len() - j,
        {
            data.push(self.data[j]);
            proof {
                assert(self.data@.take(j + 1 as int) =~= self.data@.take(j as int).push(
                    self.data@[j as int],
                ));
            }
            j = j + 1;
        }
        proof {
            assert(self.data@.take(self.data@.len() as int) =~= self.data@);
        }
        Log { topics, address: self.address, data }
    }
}

/// A transaction receipt, reduced to what the selection reads.
#[derive(Debug)]
pub struct TransactionReceipt {
    pub logs: Vec<Log>,
}

/// The selection failed: the reference event is not in the receipt.
#[derive(Clone, Copy, PartialEq, Eq, Structural, Debug)]
pub enum LogFilterError {
    NoMatchingUserOp,
}

/// Whether `l` is the reference operation's own event: same event topic,
/// same operation hash, same emitting address.
pub open spec fn is_ref_user_op(l: Log, reference: Log) -> bool {
    l.topics@[0] == reference.topics@[0] && l.topics@[1] == reference.topics@[1] && l.address
        == reference.address
}

/// Whether `l` is a user-operation event of the same kind.
pub open spec fn is_user_op_event(l: Log, reference: Log) -> bool {
    l.topics@[0] == reference.topics@[0]
}

/// The scan over the logs: walks every index once; a foreign operation
/// event seen before the current end moves the start, the reference event
/// moves the end. Returns the final `(start, end)` pair.
pub open spec fn scan_bounds(
    logs: Seq<Log>,
    reference: Log,
    i: int,
    start: int,
    end: int,
) -> (int, int)
    decreases logs.len() - i,
{
    if i < 0 || i >= logs.len() {
        (start, end)
    } else {
        if i < end && is_user_op_event(logs[i], reference) && !is_ref_user_op(logs[i], reference) {
            scan_bounds(logs, reference, i + 1, i, end)
        } else if is_ref_user_op(logs[i], reference) {
            scan_bounds(logs, reference, i + 1, start, i)
        } else {
            scan_bounds(logs, reference, i + 1, start, end)
        }
    }
}

/// The scan keeps its bounds inside the log list, and a moved start always
/// sits strictly before the final end.
proof fn lemma_scan_bounds_props(logs: Seq<Log>, reference: Log, i: int, start: int, end: int)
    requires
        0 <= i,
        0 <= end < logs.len(),
        start == 0 || (0 <= start < i && start < end),
    ensures
        0 <= scan_bounds(logs, reference, i, start, end).1 < logs.len(),
        scan_bounds(logs, reference, i, start, end).0 == 0 || (0 <= scan_bounds(
            logs,
            reference,
            i,
            start,
            end,
        ).0 < scan_bounds(logs, reference, i, start, end).1),
    decreases logs.len() - i,
{
    if i < 0 || i >= logs.len() {
    } else {
        if i < end && is_user_op_event(logs[i], reference) && !is_ref_user_op(logs[i], reference) {
            lemma_scan_bounds_props(logs, reference, i + 1, i, end);
        } else if is_ref_user_op(logs[i], reference) {
            lemma_scan_bounds_props(logs, reference, i + 1, start, i);
        } else {
            lemma_scan_bounds_props(logs, reference, i + 1, start, end);
        }
    }
}

/// Selects the logs that belong to the reference operation: everything
/// between the previous operation event and the reference's own event,
/// inclusive. Fails when the reference event does not occur.
pub fn filter_receipt_logs_matching_user_op(reference_log: &Log, tx_receipt: &TransactionReceipt)
    -> (r: Result<Vec<Log>, LogFilterError>)
    requires
        tx_receipt.logs@.len() >= 1,
        reference_log.topics@.len() >= 2,
        forall|i: int| 0 <= i < tx_receipt.logs@.len() ==> (#[trigger] tx_receipt.logs@[i]).topics@.len()
            >= 2,
    ensures
        ({
            let logs = tx_receipt.logs@;
            let se = scan_bounds(logs, *reference_log, 0, 0, logs.len() - 1);
            &&& r is Ok <==> is_ref_user_op(logs[se.1], *reference_log)
            &&& r is Err ==> r->Err_0 == LogFilterError::NoMatchingUserOp
            &&& r is Ok ==> ({
                let lo = if se.0 == 0 {
                    0int
                } else {
                    se.0 + 1
                };
                &&& r->Ok_0@.len() == se.1 + 1 - lo
                &&& forall|k: int|
                    0 <= k < r->Ok_0@.len() ==> (#[trigger] r->Ok_0@[k])@ == logs[lo + k]@
            })
        }),
{
    let ghost lseq = tx_receipt.logs@;
    let mut start_idx: usize = 0;
    let mut end_idx: usize = tx_receipt.logs.len() - 1;
    let mut i: usize = 0;
    while i < tx_receipt.logs.len()
        invariant
            i <= lseq.len(),
            lseq.len() >= 1,
            tx_receipt.logs@ == lseq,
            reference_log.topics@.len() >= 2,
            forall|k: int| 0 <= k < lseq.len() ==> (#[trigger] lseq[k]).topics@.len() >= 2,
            start_idx < lseq.len(),
            end_idx < lseq.len(),
            scan_bounds(lseq, *reference_log, 0, 0, lseq.len() - 1) == scan_bounds(
                lseq,
                *reference_log,
                i as int,
                start_idx as int,
                end_idx as int,
            ),
        decreases lseq.len() - i,
    {
        proof {
            assert(lseq[i as int].topics@.len() >= 2);
        }
        let l = &tx_receipt.logs[i];
        let uo_event = l.topics[0] == reference_log.topics[0];
        let is_ref = uo_event && l.topics[1] == reference_log.topics[1] && l.address
            == reference_log.address;
        if i < end_idx && uo_event && !is_ref {
            start_idx = i;
        } else if is_ref {
            end_idx = i;
        }
        i = i + 1;
    }
    proof {
        lemma_scan_bounds_props(lseq, *reference_log, 0, 0, lseq.len() - 1);
        assert(scan_bounds(lseq, *reference_log, lseq.len() as int, start_idx as int, end_idx as int)
            == (start_idx as int, end_idx as int));
        assert(lseq[end_idx as int].topics@.len() >= 2);
    }
    let le = &tx_receipt.logs[end_idx];
    let final_is_ref = le.topics[0] == reference_log.topics[0] && le.topics[1]
        == reference_log.topics[1] && le.address == reference_log.address;
    if !final_is_ref {
        return Err(LogFilterError::NoMatchingUserOp);
    }
    let lo: usize = if start_idx == 0 {
        0
    } else {
        start_idx + 1
    };
    let mut out: Vec<Log> = Vec::new();
    let n: usize = tx_receipt.logs.len();
    let mut k: usize = lo;
    while k <= end_idx
        invariant
            lo <= k <= end_idx + 1,
            end_idx < n,
            n == lseq.len(),
            tx_receipt.logs@ == lseq,
            out@.len() == k - lo,
            forall|m: int| 0 <= m < out@.len() ==> (#[trigger] out@[m])@ == lseq[lo + m]@,
        decreases end_idx + 1 - k,
    {
        out.push(tx_receipt.logs[k].clone());
        k = k + 1;
    }
    Ok(out)
}

/// The logs whose second topic is the given operation hash, in order; the
/// candidates a revert-reason search walks.
pub fn logs_matching_op_hash(logs: &Vec<Log>, h: &OpHash) -> (r: Vec<Log>)
    requires
        forall|i: int| 0 <= i < logs@.len() ==> (#[trigger] logs@[i]).topics@.len() >= 2,
    ensures
        r@.map_values(|l: Log| l@) == matching_logs(logs@, *h),
{
    let mut out: Vec<Log> = Vec::new();
    let mut i: usize = 0;
    proof {
        assert(logs@.take(0) =~= Seq::<Log>::empty());
        assert(out@.map_values(|l: Log| l@) =~= matching_logs(logs@.take(0), *h));
    }
    while i < logs.len()
        invariant
            i <= logs@.len(),
            forall|k: int| 0 <= k < logs@.len() ==> (#[trigger] logs@[k]).topics@.len() >= 2,
            out@.map_values(|l: Log| l@) == matching_logs(logs@.take(i as int), *h),
        decreases logs@.len() - i,
    {
        proof {
            assert(logs@[i as int].topics@.len() >= 2);
            assert(logs@.take(i + 1 as int) =~= logs@.take(i as int).push(logs@[i as int]));
            lemma_matching_snoc(logs@.take(i as int), logs@[i as int], *h);
        }
        if logs[i].topics[1].hi == h.hi && logs[i].topics[1].lo == h.lo {
            proof {
                assert(logs@[i as int].topics@[1] == *h);
            }
            let ghost before = out@;
            out.push(logs[i].clone());
            proof {
                assert(out@.map_values(|l: Log| l@) =~= before.map_values(|l: Log| l@).push(
                    logs@[i as int]@,
                ));
            }
        }
        i = i + 1;
    }
    proof {
        assert(logs@.take(logs@.len() as int) =~= logs@);
    }
    out
}

/// The models of the logs whose second topic is `h`, in order.
pub open spec fn matching_logs(logs: Seq<Log>, h: OpHash) -> Seq<LogModel>
    decreases logs.len(),
{
    if logs.len() == 0 {
        Seq::empty()
    } else {
        let rest = matching_logs(logs.drop_first(), h);
        if logs[0].topics@[1] == h {
            seq![logs[0]@] + rest
        } else {
            rest
        }
    }
}

/// Extending the scanned prefix extends the match list by at most one.
proof fn lemma_matching_snoc(logs: Seq<Log>, x: Log, h: OpHash)
    ensures
        matching_logs(logs.push(x), h) == if x.topics@[1] == h {
            matching_logs(logs, h).push(x@)
        } else {
            matching_logs(logs, h)
        },
    decreases logs.len(),
{
    if logs.len() == 0 {
        assert(logs.push(x)[0] == x);
        assert(logs.push(x).drop_first() =~= Seq::<Log>::empty());
        assert(matching_logs(Seq::<Log>::empty(), h) == Seq::<LogModel>::empty());
        assert(matching_logs(logs, h) == Seq::<LogModel>::empty());
        if x.topics@[1] == h {
            assert(matching_logs(logs.push(x), h) =~= matching_logs(logs, h).push(x@));
        }
    } else {
        lemma_matching_snoc(logs.drop_first(), x, h);
        assert(logs.push(x)[0] == logs[0]);
        assert(logs.push(x).drop_first() =~= logs.drop_first().push(x));
        assert(matching_logs(logs.push(x), h) == (if logs[0].topics@[1] == h {
            seq![logs[0]@] + matching_logs(logs.drop_first().push(x), h)
        } else {
            matching_logs(logs.drop_first().push(x), h)
        }));
        assert(matching_logs(logs, h) == (if logs[0].topics@[1] == h {
            seq![logs[0]@] + matching_logs(logs.drop_first(), h)
        } else {
            matching_logs(logs.drop_first(), h)
        }));
        if x.topics@[1] == h {
            assert(matching_logs(logs.push(x), h) =~= matching_logs(logs, h).push(x@));
        }
    }
}

} // verus!
