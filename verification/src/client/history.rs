//! What a client did, in the shape an external linearizability checker wants.
//!
//! An operation is two entries, not one: an *invocation* at the moment it was
//! sent and a *completion* at the moment its answer arrived. A checker needs
//! both because the operation could have taken effect anywhere between them.
//!
//! The third outcome is the one that matters and the one most recorders get
//! wrong. A request that timed out may or may not have applied — the answer was
//! lost, not the request — and a history that recorded it as a failure would be
//! claiming something the client cannot know. It is [`Outcome::Unknown`].
//!
//! Moments are measured from one start, which whoever holds the clock chose.

use vstd::prelude::*;
use vstd::string::*;

use crate::api::Response;
use crate::text::{decimal, hex, push_decimal, push_hex, push_signed, signed_decimal};
use crate::time::Duration;

verus! {

/// What a client asked for.
#[derive(Debug, PartialEq, Eq)]
pub enum Op {
    Get(Vec<u8>),
    Put(Vec<u8>, Vec<u8>),
    Delete(Vec<u8>),
    Cas(Vec<u8>, Option<Vec<u8>>, Option<Vec<u8>>),
    Incr(Vec<u8>, i64),
}

/// What came back.
#[derive(Debug, PartialEq, Eq)]
pub enum Outcome {
    /// The cluster answered, and this is what it said.
    Answered(Response),
    /// The cluster said no, definitely. A checker may treat this as not having
    /// happened.
    Refused,
    /// No answer arrived. It may or may not have happened, and a checker must
    /// consider both.
    Unknown,
    /// Still in flight when the history was taken.
    Pending,
}

/// One operation, from invocation to completion.
#[derive(Debug)]
pub struct Entry {
    pub op: Op,
    pub invoked: Duration,
    pub completed: Option<Duration>,
    pub outcome: Outcome,
}

/// Everything one client did, in order.
#[derive(Debug)]
pub struct History {
    entries: Vec<Entry>,
}

impl View for History {
    type V = Seq<Entry>;

    closed spec fn view(&self) -> Seq<Entry> {
        self.entries@
    }
}

/// How many operations are still in flight.
pub open spec fn pending_in(entries: Seq<Entry>) -> nat
    decreases entries.len(),
{
    if entries.len() == 0 {
        0
    } else {
        pending_in(entries.drop_last()) + (if entries.last().outcome is Pending {
            1nat
        } else {
            0
        })
    }
}

// ----------------------------------------------------------------- rendering

/// What a kind of operation is called.
pub open spec fn op_name(op: Op) -> Seq<char> {
    match op {
        Op::Get(_) => "get"@,
        Op::Put(_, _) => "put"@,
        Op::Delete(_) => "delete"@,
        Op::Cas(_, _, _) => "cas"@,
        Op::Incr(_, _) => "incr"@,
    }
}

/// The key an operation names.
pub open spec fn op_key(op: Op) -> Seq<u8> {
    match op {
        Op::Get(key) => key@,
        Op::Put(key, _) => key@,
        Op::Delete(key) => key@,
        Op::Cas(key, _, _) => key@,
        Op::Incr(key, _) => key@,
    }
}

/// Bytes as a JSON string. Hex rather than an attempt at text: a key is
/// arbitrary bytes, and a checker comparing values must not have them mangled by
/// an encoding decision made here.
pub open spec fn json_bytes(bytes: Seq<u8>) -> Seq<char> {
    "\""@ + hex(bytes) + "\""@
}

/// Bytes that may be absent, as JSON.
pub open spec fn json_optional(bytes: Option<Vec<u8>>) -> Seq<char> {
    match bytes {
        Some(bytes) => json_bytes(bytes@),
        None => "null"@,
    }
}

/// The value of an operation, as JSON.
pub open spec fn op_value(op: Op) -> Seq<char> {
    match op {
        Op::Get(_) => "null"@,
        Op::Put(_, value) => json_bytes(value@),
        Op::Delete(_) => "null"@,
        Op::Cas(_, expect, value) => "{\"expect\":"@ + json_optional(expect) + ",\"value\":"@
            + json_optional(value) + "}"@,
        Op::Incr(_, by) => signed_decimal(by as int),
    }
}

/// What an outcome is called.
pub open spec fn outcome_text(outcome: Outcome) -> Seq<char> {
    match outcome {
        Outcome::Answered(_) => "ok"@,
        Outcome::Refused => "refused"@,
        Outcome::Unknown => "unknown"@,
        Outcome::Pending => "pending"@,
    }
}

/// A moment in whole microseconds, as JSON.
pub open spec fn json_moment(at: Option<Duration>) -> Seq<char> {
    match at {
        Some(at) => decimal(at@ / 1_000),
        None => "null"@,
    }
}

/// What was asked for, as the first fields of a JSON object.
pub open spec fn asked_fields(op: Op) -> Seq<char> {
    "{\"op\":\""@ + op_name(op) + "\",\"key\":\""@ + hex(op_key(op)) + "\",\"value\":"@
        + op_value(op)
}

/// When, and what came of it, as the other fields.
pub open spec fn answered_fields(entry: Entry) -> Seq<char> {
    ",\"invoked_us\":"@ + decimal(entry.invoked@ / 1_000) + ",\"completed_us\":"@ + json_moment(
        entry.completed,
    ) + ",\"outcome\":\""@ + outcome_text(entry.outcome) + "\"}\n"@
}

/// An operation as one line of JSON.
pub open spec fn entry_line(entry: Entry) -> Seq<char> {
    asked_fields(entry.op) + answered_fields(entry)
}

/// A history as lines of JSON.
pub open spec fn jsonl(entries: Seq<Entry>) -> Seq<char>
    decreases entries.len(),
{
    if entries.len() == 0 {
        Seq::empty()
    } else {
        jsonl(entries.drop_last()) + entry_line(entries.last())
    }
}

fn push_json_bytes(out: &mut String, bytes: &[u8])
    ensures
        final(out)@ == old(out)@ + json_bytes(bytes@),
{
    out.append("\"");
    push_hex(out, bytes);
    out.append("\"");
    proof {
        assert(out@ =~= old(out)@ + json_bytes(bytes@));
    }
}

fn push_json_optional(out: &mut String, bytes: &Option<Vec<u8>>)
    ensures
        final(out)@ == old(out)@ + json_optional(*bytes),
{
    match bytes {
        Some(bytes) => push_json_bytes(out, bytes.as_slice()),
        None => out.append("null"),
    }
}

fn push_op_value(out: &mut String, op: &Op)
    ensures
        final(out)@ == old(out)@ + op_value(*op),
{
    match op {
        Op::Get(_) => {
            out.append("null");
        },
        Op::Put(_, value) => {
            push_json_bytes(out, value.as_slice());
        },
        Op::Delete(_) => {
            out.append("null");
        },
        Op::Cas(_, expect, value) => {
            out.append("{\"expect\":");
            push_json_optional(out, expect);
            out.append(",\"value\":");
            push_json_optional(out, value);
            out.append("}");
        },
        Op::Incr(_, by) => {
            push_signed(out, *by);
        },
    }
    proof {
        assert(out@ =~= old(out)@ + op_value(*op));
    }
}

fn push_asked(out: &mut String, op: &Op)
    ensures
        final(out)@ == old(out)@ + asked_fields(*op),
{
    out.append("{\"op\":\"");
    let (name, key) = match op {
        Op::Get(key) => ("get", key),
        Op::Put(key, _) => ("put", key),
        Op::Delete(key) => ("delete", key),
        Op::Cas(key, _, _) => ("cas", key),
        Op::Incr(key, _) => ("incr", key),
    };
    assert(name@ == op_name(*op) && key@ == op_key(*op));
    out.append(name);
    out.append("\",\"key\":\"");
    push_hex(out, key.as_slice());
    out.append("\",\"value\":");
    push_op_value(out, op);
    proof {
        assert(out@ =~= old(out)@ + asked_fields(*op));
    }
}

fn push_answered(out: &mut String, entry: &Entry)
    ensures
        final(out)@ == old(out)@ + answered_fields(*entry),
{
    out.append(",\"invoked_us\":");
    push_decimal(out, entry.invoked.as_nanos() / 1_000);
    out.append(",\"completed_us\":");
    match &entry.completed {
        Some(at) => push_decimal(out, at.as_nanos() / 1_000),
        None => out.append("null"),
    }
    out.append(",\"outcome\":\"");
    let name: &str = match &entry.outcome {
        Outcome::Answered(_) => "ok",
        Outcome::Refused => "refused",
        Outcome::Unknown => "unknown",
        Outcome::Pending => "pending",
    };
    out.append(name);
    out.append("\"}\n");
    proof {
        assert(out@ =~= old(out)@ + answered_fields(*entry));
    }
}

fn push_entry(out: &mut String, entry: &Entry)
    ensures
        final(out)@ == old(out)@ + entry_line(*entry),
{
    push_asked(out, &entry.op);
    push_answered(out, entry);
    proof {
        assert(out@ =~= old(out)@ + entry_line(*entry));
    }
}

impl History {
    pub fn new() -> (r: Self)
        ensures
            r@.len() == 0,
    {
        History { entries: Vec::new() }
    }

    /// Record an invocation, returning its index.
    pub fn invoke(&mut self, op: Op, now: Duration) -> (r: usize)
        ensures
            r == old(self)@.len(),
            final(self)@ == old(self)@.push(
                Entry { op, invoked: now, completed: None, outcome: Outcome::Pending },
            ),
    {
        let index: usize = self.entries.len();
        self.entries.push(Entry { op, invoked: now, completed: None, outcome: Outcome::Pending });
        index
    }

    /// Record a completion. An index nothing was recorded under is ignored.
    pub fn complete(&mut self, index: usize, outcome: Outcome, now: Duration)
        ensures
            index < old(self)@.len() ==> final(self)@ == old(self)@.update(
                index as int,
                Entry {
                    op: old(self)@[index as int].op,
                    invoked: old(self)@[index as int].invoked,
                    completed: Some(now),
                    outcome,
                },
            ),
            index >= old(self)@.len() ==> final(self)@ == old(self)@,
    {
        if index < self.entries.len() {
            let entry: Entry = self.entries.remove(index);
            let done = Entry {
                op: entry.op,
                invoked: entry.invoked,
                completed: Some(now),
                outcome,
            };
            self.entries.insert(index, done);
            proof {
                assert(self.entries@ =~= old(self)@.update(index as int, done));
            }
        }
    }

    pub fn entries(&self) -> (r: &[Entry])
        ensures
            r@ == self@,
    {
        self.entries.as_slice()
    }

    pub fn len(&self) -> (r: usize)
        ensures
            r == self@.len(),
    {
        self.entries.len()
    }

    pub fn is_empty(&self) -> (r: bool)
        ensures
            r == (self@.len() == 0),
    {
        self.entries.len() == 0
    }

    /// How many operations are still in flight.
    ///
    /// A history taken while requests are outstanding is not wrong, but a
    /// checker has to be told: an operation with no completion could have
    /// happened at any point after its invocation, including after every other
    /// operation in the history.
    pub fn pending(&self) -> (r: usize)
        ensures
            r == pending_in(self@),
    {
        let mut count: usize = 0;
        let mut i: usize = 0;
        proof {
            assert(self@.take(0) =~= Seq::empty());
        }
        while i < self.entries.len()
            invariant
                i <= self.entries@.len(),
                self.entries@ == self@,
                count == pending_in(self@.take(i as int)),
                count <= i,
            decreases self.entries@.len() - i,
        {
            proof {
                assert(self@.take(i + 1).drop_last() =~= self@.take(i as int));
            }
            match &self.entries[i].outcome {
                Outcome::Pending => {
                    count += 1;
                },
                _ => {},
            }
            i += 1;
        }
        proof {
            assert(self@.take(i as int) =~= self@);
        }
        count
    }

    /// Take in what another client did, after what this one did.
    pub fn absorb(&mut self, other: History)
        ensures
            final(self)@ == old(self)@ + other@,
    {
        let mut rest: Vec<Entry> = other.entries;
        self.entries.append(&mut rest);
    }

    /// Render as JSON lines, one object per entry.
    ///
    /// Line-delimited rather than one array, so a long run can be written as it
    /// happens and a truncated file is still readable up to its last whole
    /// line — which is what a history taken from a process that was killed
    /// looks like.
    pub fn to_jsonl(&self) -> (r: String)
        ensures
            r@ == jsonl(self@),
    {
        let mut out = String::new();
        let mut i: usize = 0;
        proof {
            assert(self@.take(0) =~= Seq::empty());
        }
        while i < self.entries.len()
            invariant
                i <= self.entries@.len(),
                self.entries@ == self@,
                out@ == jsonl(self@.take(i as int)),
            decreases self.entries@.len() - i,
        {
            push_entry(&mut out, &self.entries[i]);
            proof {
                assert(self@.take(i + 1).drop_last() =~= self@.take(i as int));
            }
            i += 1;
        }
        proof {
            assert(self@.take(i as int) =~= self@);
        }
        out
    }
}

/// A lost answer is not a refusal: the two are never written alike.
pub proof fn law_a_lost_answer_is_not_a_refusal(a: Outcome, b: Outcome)
    requires
        a is Unknown,
        b is Refused,
    ensures
        outcome_text(a) != outcome_text(b),
{
    reveal_strlit("unknown");
    reveal_strlit("refused");
    assert(outcome_text(a)[0] == 'u');
    assert(outcome_text(b)[0] == 'r');
}

/// The lines of two clients' histories are the lines of the one, and then those
/// of the other.
pub proof fn law_histories_merge_line_by_line(a: Seq<Entry>, b: Seq<Entry>)
    ensures
        jsonl(a + b) == jsonl(a) + jsonl(b),
    decreases b.len(),
{
    if b.len() == 0 {
        assert(a + b =~= a);
        assert(jsonl(a) + jsonl(b) =~= jsonl(a));
    } else {
        assert((a + b).drop_last() =~= a + b.drop_last());
        law_histories_merge_line_by_line(a, b.drop_last());
        assert(jsonl(a + b) =~= jsonl(a) + jsonl(b));
    }
}

} // verus!
