//! What the command-line client does and says.

use vstd::prelude::*;
use vstd::string::*;

use crate::client::history::History;
use crate::text::{decimal, plain_bytes, push_decimal, push_signed, signed_decimal, to_plain_bytes};

verus! {

/// The nonce of a workload's client. Two clients sharing a nonce share a session,
/// and the second one's writes are answered from a cache and never applied.
pub fn client_nonce(id: u64) -> (r: u64)
    requires
        id <= u64::MAX - 1_000,
    ensures
        r == 1_000 + id,
{
    1_000 + id
}

/// What one client of a workload does next.
#[derive(Debug, PartialEq, Eq)]
pub enum Next {
    Put { key: Vec<u8>, value: Vec<u8> },
    Get { key: Vec<u8> },
}

/// The key an operation of a workload names.
pub open spec fn workload_key(id: u64, n: u64, keys: u64) -> Seq<char> {
    "k"@ + decimal((id.wrapping_mul(7) + n) as nat % keys as nat)
}

/// A value nothing else will ever write, so the checker can tell which write a
/// read observed.
pub open spec fn workload_value(id: u64, n: u64) -> Seq<char> {
    "c"@ + decimal(id as nat) + "-"@ + decimal(n as nat)
}

/// What a client does as its operation number `n`: reads and writes in turn. A
/// write-only history is trivially linearizable, and a read-only one over a key
/// nobody writes is worse.
pub fn workload_op(id: u64, n: u64, keys: u64) -> (r: Next)
    requires
        keys > 0,
        id.wrapping_mul(7) + n <= u64::MAX,
    ensures
        match r {
            Next::Put { key, value } => {
                &&& n % 2 == 0
                &&& key@ == plain_bytes(workload_key(id, n, keys))
                &&& value@ == plain_bytes(workload_value(id, n))
            },
            Next::Get { key } => n % 2 == 1 && key@ == plain_bytes(workload_key(id, n, keys)),
        },
{
    let mut name = String::new();
    name.append("k");
    push_decimal(&mut name, (id.wrapping_mul(7) + n) % keys);
    proof {
        assert(name@ =~= workload_key(id, n, keys));
    }
    let key: Vec<u8> = to_plain_bytes(name.as_str());
    if n % 2 == 0 {
        let mut text = String::new();
        text.append("c");
        push_decimal(&mut text, id);
        text.append("-");
        push_decimal(&mut text, n);
        proof {
            assert(text@ =~= workload_value(id, n));
        }
        Next::Put { key, value: to_plain_bytes(text.as_str()) }
    } else {
        Next::Get { key }
    }
}

/// How a client's thread ended.
pub enum Ended {
    Recorded(History),
    /// It recorded nothing.
    Nothing,
    Panicked,
}

/// All the entries of some clients, one after the other, where every one of them
/// has some.
pub open spec fn merged(ended: Seq<Ended>) -> Result<
    Seq<crate::client::history::Entry>,
    Seq<char>,
>
    decreases ended.len(),
{
    if ended.len() == 0 {
        Ok(Seq::empty())
    } else {
        match merged(ended.drop_last()) {
            Err(why) => Err(why),
            Ok(before) => match ended.last() {
                Ended::Recorded(history) => Ok(before + history@),
                Ended::Nothing => Err("a client thread recorded nothing"@),
                Ended::Panicked => Err("a client thread panicked"@),
            },
        }
    }
}

/// One history of everything the clients did. A history with a client's
/// operations missing is not a history of this run.
pub fn merge(ended: Vec<Ended>) -> (r: Result<History, String>)
    ensures
        match merged(ended@) {
            Ok(entries) => if entries.len() == 0 {
                r matches Err(why) && why@ == "the workload recorded no operations at all"@
            } else {
                r matches Ok(history) && history@ == entries
            },
            Err(text) => r matches Err(why) && why@ == text,
        },
{
    let mut all = History::new();
    let ghost every = ended@;
    let ghost mut done: int = 0;
    let mut rest: Vec<Ended> = ended;
    proof {
        assert(every.take(0) =~= Seq::empty());
        assert(rest@ =~= every.skip(0));
        assert(all@ =~= Seq::empty());
    }
    while rest.len() > 0
        invariant
            0 <= done <= every.len(),
            every == ended@,
            rest@ == every.skip(done),
            merged(every.take(done)) == Ok::<Seq<crate::client::history::Entry>, Seq<char>>(all@),
        decreases rest@.len(),
    {
        let one: Ended = rest.remove(0);
        proof {
            assert(one == every[done]);
            assert(every.take(done + 1).drop_last() =~= every.take(done));
            assert(rest@ =~= every.skip(done + 1));
        }
        match one {
            Ended::Recorded(history) => {
                all.absorb(history);
            },
            Ended::Nothing => {
                proof {
                    lemma_merged_stops(every, done + 1);
                }
                return Err("a client thread recorded nothing".to_owned());
            },
            Ended::Panicked => {
                proof {
                    lemma_merged_stops(every, done + 1);
                }
                return Err("a client thread panicked".to_owned());
            },
        }
        proof {
            done = done + 1;
        }
    }
    proof {
        assert(every.take(done) =~= every);
    }
    if all.is_empty() {
        return Err("the workload recorded no operations at all".to_owned());
    }
    Ok(all)
}

proof fn lemma_merged_stops(ended: Seq<Ended>, n: int)
    requires
        0 <= n <= ended.len(),
        merged(ended.take(n)) is Err,
    ensures
        merged(ended) == merged(ended.take(n)),
    decreases ended.len() - n,
{
    if n == ended.len() {
        assert(ended.take(n) =~= ended);
    } else {
        assert(ended.take(n + 1).drop_last() =~= ended.take(n));
        lemma_merged_stops(ended, n + 1);
    }
}

/// What a workload recorded, for a person.
pub fn workload_summary(history: &History, clients: usize, keys: u64, out: &str) -> (r: String)
    ensures
        r@ == decimal(history@.len()) + " operations from "@ + decimal(clients as nat)
            + " clients over "@ + decimal(keys as nat) + " keys, "@ + decimal(
            crate::client::history::pending_in(history@),
        ) + " still pending, written to "@ + out@,
{
    let mut text = String::new();
    push_decimal(&mut text, history.len() as u64);
    text.append(" operations from ");
    push_decimal(&mut text, clients as u64);
    text.append(" clients over ");
    push_decimal(&mut text, keys);
    text.append(" keys, ");
    push_decimal(&mut text, history.pending() as u64);
    text.append(" still pending, written to ");
    text.append(out);
    proof {
        assert(text@ =~= decimal(history@.len()) + " operations from "@ + decimal(clients as nat)
            + " clients over "@ + decimal(keys as nat) + " keys, "@ + decimal(
            crate::client::history::pending_in(history@),
        ) + " still pending, written to "@ + out@);
    }
    text
}

/// What a `get` prints. An absent value is distinguishable from an empty one,
/// which is a legitimate thing to have stored.
pub fn get_text(value: Option<String>) -> (r: String)
    ensures
        match value {
            Some(text) => r@ == text@,
            None => r@ == "(absent)"@,
        },
{
    match value {
        Some(text) => text,
        None => "(absent)".to_owned(),
    }
}

/// What a compare and swap prints.
pub fn cas_text(outcome: Option<Option<String>>) -> (r: String)
    ensures
        match outcome {
            None => r@ == "ok"@,
            Some(None) => r@ == "mismatch: absent"@,
            Some(Some(actual)) => r@ == "mismatch: "@ + actual@,
        },
{
    match outcome {
        None => "ok".to_owned(),
        Some(None) => "mismatch: absent".to_owned(),
        Some(Some(actual)) => {
            let mut out = String::new();
            out.append("mismatch: ");
            out.append(actual.as_str());
            proof {
                assert(out@ =~= "mismatch: "@ + actual@);
            }
            out
        },
    }
}

/// What rows print as: a tab between a key and its value, a line feed between
/// rows.
pub open spec fn rows_text(rows: Seq<(String, String)>) -> Seq<char>
    decreases rows.len(),
{
    if rows.len() == 0 {
        Seq::empty()
    } else if rows.len() == 1 {
        rows[0].0@ + "\t"@ + rows[0].1@
    } else {
        rows_text(rows.drop_last()) + "\n"@ + rows.last().0@ + "\t"@ + rows.last().1@
    }
}

/// What a scan prints.
pub fn scan_text(rows: &[(String, String)]) -> (r: String)
    ensures
        r@ == rows_text(rows@),
{
    let mut out = String::new();
    let mut i: usize = 0;
    proof {
        assert(rows@.take(0) =~= Seq::empty());
    }
    while i < rows.len()
        invariant
            i <= rows@.len(),
            out@ == rows_text(rows@.take(i as int)),
        decreases rows@.len() - i,
    {
        proof {
            assert(rows@.take(i + 1).drop_last() =~= rows@.take(i as int));
        }
        if i > 0 {
            out.append("\n");
        }
        out.append(rows[i].0.as_str());
        out.append("\t");
        out.append(rows[i].1.as_str());
        proof {
            assert(out@ =~= rows_text(rows@.take(i + 1)));
        }
        i += 1;
    }
    proof {
        assert(rows@.take(i as int) =~= rows@);
    }
    out
}

/// What opening a session prints.
pub fn register_text(client: u64) -> (r: String)
    ensures
        r@ == "client "@ + decimal(client as nat),
{
    let mut out = String::new();
    out.append("client ");
    push_decimal(&mut out, client);
    proof {
        assert(out@ =~= "client "@ + decimal(client as nat));
    }
    out
}

/// What an increment prints.
pub fn incr_text(value: i64) -> (r: String)
    ensures
        r@ == signed_decimal(value as int),
{
    let mut out = String::new();
    push_signed(&mut out, value);
    proof {
        assert(out@ =~= signed_decimal(value as int));
    }
    out
}

} // verus!
