//! What a record of what clients did promises.
//!
//! A history is believed as it stands, so each line has to say what was asked,
//! when, and what came of it, and a write has to be told from every other.

use vstd::prelude::*;

use crate::api::Response;
use crate::client::history::{
    entry_line, jsonl, op_value, pending_in, Entry, History, Op, Outcome,
};
use crate::client::kv::{merge, merged, workload_op, workload_value, Ended, Next};
use crate::client::{outcome_of, ClientError};
use crate::text::{decimal, hex, law_a_number_is_read_back, plain_bytes};
use crate::time::Duration;

verus! {

/// What is recorded of an operation is what was asked for, from when it began to when
/// it ended, and what came of it. Nothing else that was recorded is touched.
pub proof fn law_an_operation_is_recorded_as_it_went(
    op: Op,
    began: Duration,
    index: usize,
    outcome: Outcome,
    ended: Duration,
)
    ensures
        forall|h: &mut History, then: &mut History|
            #![trigger call_ensures(History::invoke, (h, op, began), index), call_ensures(History::complete, (then, index, outcome, ended), ())]
            {
                &&& call_ensures(History::invoke, (h, op, began), index)
                &&& *then == *final(h)
                &&& call_ensures(History::complete, (then, index, outcome, ended), ())
            } ==> {
                let entry = final(then)@[index as int];
                &&& index == h@.len()
                &&& final(then)@.len() == h@.len() + 1
                &&& entry.op == op
                &&& entry.invoked == began
                &&& entry.completed == Some(ended)
                &&& entry.outcome == outcome
                &&& forall|i: int|
                    0 <= i < h@.len() ==> #[trigger] final(then)@[i] == h@[i]
            },
{
}

/// How many operations are pending is how many have no outcome yet.
pub proof fn law_pending_operations_are_counted(h: &History, r: usize)
    requires
        call_ensures(History::pending, (h,), r),
    ensures
        r == h@.filter(|e: Entry| e.outcome is Pending).len(),
{
    lemma_pending(h@);
}

proof fn lemma_pending(entries: Seq<Entry>)
    ensures
        pending_in(entries) == entries.filter(|e: Entry| e.outcome is Pending).len(),
    decreases entries.len(),
{
    reveal(Seq::filter);
    if entries.len() > 0 {
        lemma_pending(entries.drop_last());
    }
}

/// What becomes of a result: an answer is an answer, a refusal is a refusal, and
/// whatever else went wrong leaves open whether the operation happened.
pub proof fn law_only_a_refusal_did_not_happen(
    result: &Result<Response, ClientError>,
    r: Outcome,
)
    requires
        call_ensures(outcome_of, (result,), r),
    ensures
        result is Ok ==> r is Answered && r->Answered_0@ == result->Ok_0@,
        result is Err && result->Err_0 is Refused ==> r is Refused,
        result is Err && !(result->Err_0 is Refused) ==> r is Unknown,
{
}

/// A line of a history says what was asked for and of which key, when it began and
/// ended in whole microseconds, and what came of it.
pub proof fn law_a_line_says_what_happened(entry: Entry)
    ensures
        ({
            let name = match entry.op {
                Op::Get(_) => "get"@,
                Op::Put(_, _) => "put"@,
                Op::Delete(_) => "delete"@,
                Op::Cas(_, _, _) => "cas"@,
                Op::Incr(_, _) => "incr"@,
            };
            let key = match entry.op {
                Op::Get(key) => key@,
                Op::Put(key, _) => key@,
                Op::Delete(key) => key@,
                Op::Cas(key, _, _) => key@,
                Op::Incr(key, _) => key@,
            };
            let outcome = match entry.outcome {
                Outcome::Answered(_) => "ok"@,
                Outcome::Refused => "refused"@,
                Outcome::Unknown => "unknown"@,
                Outcome::Pending => "pending"@,
            };
            let ended = match entry.completed {
                Some(at) => decimal(at@ / 1_000),
                None => "null"@,
            };
            jsonl(seq![entry]) == "{\"op\":\""@ + name + "\",\"key\":\""@ + hex(key)
                + "\",\"value\":"@ + op_value(entry.op) + (",\"invoked_us\":"@ + decimal(
                entry.invoked@ / 1_000,
            ) + ",\"completed_us\":"@ + ended + ",\"outcome\":\""@ + outcome + "\"}\n"@)
        }),
        entry.op matches Op::Put(_, value) ==> op_value(entry.op) == "\""@ + hex(value@) + "\""@,
        entry.op is Get || entry.op is Delete ==> op_value(entry.op) == "null"@,
{
    assert(seq![entry].drop_last() =~= Seq::empty());
    assert(jsonl(seq![entry].drop_last()) =~= Seq::empty());
    assert(jsonl(seq![entry]) =~= entry_line(entry));
}

/// The history of a workload is the clients' own, one after the other, and a workload
/// one of whose clients recorded nothing has none.
pub proof fn law_no_client_is_left_out(
    ended: Vec<Ended>,
    before: History,
    history: History,
    more: Vec<Ended>,
    r: Result<History, String>,
)
    requires
        call_ensures(merge, (ended,), Ok::<History, String>(before)),
        more@ == ended@.push(Ended::Recorded(history)),
        call_ensures(merge, (more,), r),
    ensures
        r is Ok,
        r->Ok_0@ == before@ + history@,
{
    assert(more@.drop_last() =~= ended@);
}

/// A workload is not judged by a part of it.
pub proof fn law_a_client_without_a_history_spoils_it(
    ended: Vec<Ended>,
    i: int,
    r: Result<History, String>,
)
    requires
        call_ensures(merge, (ended,), r),
        0 <= i < ended@.len(),
        !(ended@[i] is Recorded),
    ensures
        r is Err,
{
    lemma_spoiled(ended@, i);
}

proof fn lemma_spoiled(ended: Seq<Ended>, i: int)
    requires
        0 <= i < ended.len(),
        !(ended[i] is Recorded),
    ensures
        merged(ended) is Err,
    decreases ended.len(),
{
    if i < ended.len() - 1 {
        lemma_spoiled(ended.drop_last(), i);
    }
}

/// No two writes of a workload write the same value, so that a read tells which of
/// them it saw.
pub proof fn law_every_write_is_told_apart(
    id: u64,
    n: u64,
    keys: u64,
    one: Next,
    other_id: u64,
    other_n: u64,
    other_keys: u64,
    other: Next,
)
    requires
        call_ensures(workload_op, (id, n, keys), one),
        call_ensures(workload_op, (other_id, other_n, other_keys), other),
        one is Put,
        other is Put,
        one->value@ == other->value@,
    ensures
        id == other_id,
        n == other_n,
{
    let (x, y) = (workload_value(id, n), workload_value(other_id, other_n));
    reveal_strlit("c");
    reveal_strlit("-");
    law_a_number_is_read_back(id as nat);
    law_a_number_is_read_back(n as nat);
    law_a_number_is_read_back(other_id as nat);
    law_a_number_is_read_back(other_n as nat);
    lemma_same_text(id, n, other_id, other_n);
    let (a, b) = (decimal(id as nat), decimal(other_id as nat));
    let (p, q) = (decimal(n as nat), decimal(other_n as nat));
    let (la, lb) = (a.len() as int, b.len() as int);
    assert(x.len() == y.len());
    if la < lb {
        assert(x[1 + la] == '-');
        assert(y[1 + la] == b[la]);
    }
    if lb < la {
        assert(y[1 + lb] == '-');
        assert(x[1 + lb] == a[lb]);
    }
    assert(a =~= x.subrange(1, 1 + la));
    assert(b =~= y.subrange(1, 1 + lb));
    assert(p =~= x.skip(2 + la));
    assert(q =~= y.skip(2 + lb));
}

proof fn lemma_same_text(id: u64, n: u64, other_id: u64, other_n: u64)
    requires
        plain_bytes(workload_value(id, n)) == plain_bytes(workload_value(other_id, other_n)),
    ensures
        workload_value(id, n) == workload_value(other_id, other_n),
{
    let (x, y) = (workload_value(id, n), workload_value(other_id, other_n));
    reveal_strlit("c");
    reveal_strlit("-");
    law_a_number_is_read_back(id as nat);
    law_a_number_is_read_back(n as nat);
    law_a_number_is_read_back(other_id as nat);
    law_a_number_is_read_back(other_n as nat);
    lemma_plain(id, n);
    lemma_plain(other_id, other_n);
    assert(plain_bytes(x).len() == plain_bytes(y).len());
    assert forall|i: int| 0 <= i < x.len() implies x[i] == y[i] by {
        assert(plain_bytes(x)[i] == x[i] as u8);
        assert(plain_bytes(y)[i] == y[i] as u8);
    }
    assert(x =~= y);
}

proof fn lemma_plain(id: u64, n: u64)
    ensures
        forall|i: int|
            0 <= i < workload_value(id, n).len() ==> (#[trigger] workload_value(id, n)[i])
                <= '\x7f',
{
    let x = workload_value(id, n);
    reveal_strlit("c");
    reveal_strlit("-");
    law_a_number_is_read_back(id as nat);
    law_a_number_is_read_back(n as nat);
    let (a, p) = (decimal(id as nat), decimal(n as nat));
    assert forall|i: int| 0 <= i < x.len() implies (#[trigger] x[i]) <= '\x7f' by {
        if 1 <= i < 1 + a.len() {
            assert(x[i] == a[i - 1]);
        } else if i >= 2 + a.len() {
            assert(x[i] == p[i - 2 - a.len()]);
        }
    }
}

/// A workload reads and writes in turn, over the keys it was given.
pub proof fn law_a_workload_reads_and_writes_in_turn(id: u64, n: u64, keys: u64, r: Next)
    requires
        keys > 0,
        id.wrapping_mul(7) + n <= u64::MAX,
        call_ensures(workload_op, (id, n, keys), r),
    ensures
        r is Put <==> n % 2 == 0,
        exists|k: nat|
            k < keys && (match r {
                Next::Put { key, .. } => key@,
                Next::Get { key } => key@,
            }) == #[trigger] plain_bytes("k"@ + decimal(k)),
{
    let k = (id.wrapping_mul(7) + n) as nat % keys as nat;
    assert(k < keys);
    assert(plain_bytes("k"@ + decimal(k)) == plain_bytes("k"@ + decimal(k)));
}

} // verus!
