//! Two campaigns that break a cluster on purpose: one kills the leader and times
//! the recovery, one stops a follower and times the snapshot that brings it back.
//!
//! What each does next and what each reports is decided here; the processes, the
//! sockets and the clock are somebody else's.

use vstd::prelude::*;
use vstd::string::*;

use crate::bench::campaign::{median, median_of};
use crate::bench::failover::{
    push_tenths_of_ms, recoveries_of, samples_of, summarise, tenths_of_ms, Failover, Trial,
};
use crate::bench::histogram::{quantile_of, recorded};
use crate::le::{le64, push_le64};
use crate::lines::{
    begins, char_views, contains, drop_char, holds, lines_of, split_lines, starts_with, without,
};
use crate::text::{
    characters, decimal, fixed, is_digit, plain_bytes, push_decimal, push_fixed,
    push_zero_padded, round_wide, rounded, text_of, to_plain_bytes, zero_padded,
};
use crate::time::capped;

verus! {

// ----------------------------------------------------------------- failover

/// The session nonce of a trial. Trials are far enough apart that none reopens
/// another's session.
pub fn trial_nonce(trial: u64) -> (r: u64)
    requires
        trial <= 100_000_000_000_000_000,
    ensures
        r == 2_000_000 + trial * 97,
{
    2_000_000 + trial * 97
}

/// A failover campaign's report.
pub open spec fn failover_text(
    cluster_nodes: usize,
    tick_ms: u64,
    sync: Seq<char>,
    report: Failover,
) -> Seq<char> {
    "nodes        "@
        + decimal(cluster_nodes as nat)
        + "\ntick         "@
        + decimal(tick_ms as nat)
        + " ms\nsync         "@
        + sync
        + "\n\n"@
        + report.report()
        + "\nThe clock starts when the kill signal is sent and stops when a client's\nwrite is acknowledged — not when a new leader is elected. Election is an\ninternal event a client cannot observe, and it is strictly earlier: the\nnew leader must also commit its own term's no-op before it can serve.\n"@
}

/// A failover campaign's report.
pub fn failover_report(cluster_nodes: usize, tick_ms: u64, sync: &str, report: &Failover) -> (r:
    String)
    requires
        report.wf(),
    ensures
        r@ == failover_text(cluster_nodes, tick_ms, sync@, *report),
{
    let mut out = String::new();
    out.append("nodes        ");
    push_decimal(&mut out, cluster_nodes as u64);
    out.append("\ntick         ");
    push_decimal(&mut out, tick_ms);
    out.append(" ms\nsync         ");
    out.append(sync);
    out.append("\n\n");
    out.append(report.render().as_str());
    out.append("\nThe clock starts when the kill signal is sent and stops when a client's\nwrite is acknowledged — not when a new leader is elected. Election is an\ninternal event a client cannot observe, and it is strictly earlier: the\nnew leader must also commit its own term's no-op before it can serve.\n");
    proof {
        assert(out@ =~= failover_text(cluster_nodes, tick_ms, sync@, *report));
    }
    out
}

/// Whether a campaign succeeded. A report whose percentiles describe the draw
/// rather than the system is not a result.
pub fn failover_outcome(report: &Failover, trials: usize) -> (r: Result<(), String>)
    ensures
        r is Ok <==> report.recovered >= 100,
        r is Err ==> r->Err_0@ == "only "@ + decimal(report.recovered as nat)
            + " usable trials of "@ + decimal(trials as nat),
{
    if report.has_enough_trials() {
        return Ok(());
    }
    let mut out = String::new();
    out.append("only ");
    push_decimal(&mut out, report.recovered as u64);
    out.append(" usable trials of ");
    push_decimal(&mut out, trials as u64);
    proof {
        assert(out@ =~= "only "@ + decimal(report.recovered as nat) + " usable trials of "@
            + decimal(trials as nat));
    }
    Err(out)
}

/// What the line after some trials says of them.
pub open spec fn progress_text(trials: Seq<Trial>) -> Seq<char> {
    let recoveries = recoveries_of(trials);
    "  "@ + decimal(trials.len()) + " trials, "@ + decimal(recoveries.len())
        + " recovered, median "@ + tenths_of_ms(
        quantile_of(recorded(samples_of(recoveries)), 1, 2),
    ) + " ms"@
}

/// How far a campaign has got, said after every twentieth trial.
pub fn failover_progress(trials: &[Trial]) -> (r: Option<String>)
    ensures
        r is Some <==> trials@.len() > 0 && trials@.len() % 20 == 0,
        r is Some ==> r->Some_0@ == progress_text(trials@),
{
    if trials.len() == 0 || trials.len() % 20 != 0 {
        return None;
    }
    let so_far = summarise(trials);
    let mut out = String::new();
    out.append("  ");
    push_decimal(&mut out, so_far.trials as u64);
    out.append(" trials, ");
    push_decimal(&mut out, so_far.recovered as u64);
    out.append(" recovered, median ");
    push_tenths_of_ms(&mut out, so_far.median().as_nanos());
    out.append(" ms");
    proof {
        assert(out@ =~= progress_text(trials@));
    }
    Some(out)
}

// ---------------------------------------------------------------- snapshots

/// How much state a snapshot campaign builds, and out of what.
#[derive(Debug, Clone, Copy, PartialEq, Eq, Structural)]
pub struct Filling {
    pub state_bytes: usize,
    /// How long each value is.
    pub value_len: usize,
    /// How many values make up the state.
    pub values: usize,
}

/// A length between the shortest and the longest value a campaign writes.
pub open spec fn clamped(value_bytes: nat) -> nat {
    if value_bytes < 16 {
        16
    } else if value_bytes > 8_388_608 {
        8_388_608
    } else {
        value_bytes
    }
}

/// How many values it takes to make up so many bytes, and one in any case.
pub open spec fn values_for(state_bytes: nat, value_len: nat) -> nat {
    if state_bytes == 0 {
        1
    } else {
        (state_bytes + value_len - 1) as nat / value_len
    }
}

/// How fast something was transferred, in MiB a second to two places.
pub open spec fn transfer_rate(bytes: nat, millis: nat) -> Seq<char> {
    fixed(
        if millis == 0 {
            0
        } else {
            capped(rounded(bytes * 100_000, millis * 1_048_576, 25))
        },
        100,
        2,
    )
}

fn push_transfer_rate(out: &mut String, bytes: u64, millis: u64)
    ensures
        final(out)@ == old(out)@ + transfer_rate(bytes as nat, millis as nat),
{
    let parts: u64 = if millis == 0 {
        0
    } else {
        let num: u128 = bytes as u128 * 100_000;
        let den: u128 = millis as u128 * 1_048_576;
        let r: u128 = round_wide(num, den, 25);
        if r > u64::MAX as u128 {
            u64::MAX
        } else {
            r as u64
        }
    };
    push_fixed(out, parts, 100, 2);
}

impl Filling {
    pub fn of(state_bytes: usize, value_bytes: usize) -> (r: Self)
        ensures
            r.state_bytes == state_bytes,
            r.value_len == clamped(value_bytes as nat),
            r.values == values_for(state_bytes as nat, clamped(value_bytes as nat)),
            r.values * r.value_len >= state_bytes,
    {
        let value_len: usize = if value_bytes < 16 {
            16
        } else if value_bytes > 8_388_608 {
            8_388_608
        } else {
            value_bytes
        };
        let values: usize = if state_bytes == 0 {
            1
        } else {
            (state_bytes - 1) / value_len + 1
        };
        proof {
            let s = state_bytes as int;
            let v = value_len as int;
            if s > 0 {
                vstd::arithmetic::div_mod::lemma_div_plus_one(s - 1, v);
                assert(((s - 1) + v) / v == (s - 1) / v + 1);
                vstd::arithmetic::div_mod::lemma_fundamental_div_mod(s - 1, v);
                let d = (s - 1) / v;
                assert((d + 1) * v == v * d + v) by (nonlinear_arith);
                assert(0 <= (s - 1) % v < v);
            }
        }
        Filling { state_bytes, value_len, values }
    }

    /// How many entries a node logs before it takes a checkpoint of its own:
    /// more than this campaign writes, so that it is asked for.
    pub fn checkpoint_entries(&self) -> (r: u64)
        requires
            self.values + 10_000 <= u64::MAX,
        ensures
            r == self.values + 10_000,
    {
        self.values as u64 + 10_000
    }

    /// What the report says was asked for.
    pub open spec fn asked_text(self, sync: Seq<char>, runs: usize) -> Seq<char> {
        "requested state  "@
        + decimal(self.state_bytes as nat)
        + " bytes\nvalue            "@
        + decimal(self.value_len as nat)
        + " bytes\nvalues           "@
        + decimal(self.values as nat)
        + "\nnodes            3\nsync             "@
        + sync
        + "\nruns             "@
        + decimal(runs as nat)
        + ", median reported\n\n"@
    }

    /// What the report says was measured.
    pub open spec fn measured_text(
        self,
        creation: Seq<u64>,
        transfers: Seq<u64>,
        sizes: Seq<u64>,
    ) -> Seq<char> {
        "checkpoint       "@
        + decimal(median_of(creation) as nat)
        + " ms\ncheckpoint bytes "@
        + decimal(median_of(sizes) as nat)
        + "\ntransfer         "@
        + decimal(median_of(transfers) as nat)
        + " ms\ntransfer rate    "@ + transfer_rate(
            median_of(sizes) as nat,
            median_of(transfers) as nat,
        ) + " MiB/s\n\nThe transfer clock starts immediately before the compacted follower is\nrestarted and stops only after that real process publishes the received\ncheckpoint. The receiver uses the same resumable TCP path as production.\n"@
    }

    fn asked(&self, sync: &str, runs: usize) -> (r: String)
        ensures
            r@ == self.asked_text(sync@, runs),
    {
        let mut out = String::new();
        out.append("requested state  ");
        push_decimal(&mut out, self.state_bytes as u64);
        out.append(" bytes\nvalue            ");
        push_decimal(&mut out, self.value_len as u64);
        out.append(" bytes\nvalues           ");
        push_decimal(&mut out, self.values as u64);
        out.append("\nnodes            3\nsync             ");
        out.append(sync);
        out.append("\nruns             ");
        push_decimal(&mut out, runs as u64);
        out.append(", median reported\n\n");
        proof {
            assert(out@ =~= self.asked_text(sync@, runs));
        }
        out
    }

    /// A snapshot campaign's report: the median of what each run took.
    pub fn report(
        &self,
        sync: &str,
        runs: usize,
        creation_ms: &[u64],
        transfer_ms: &[u64],
        snapshot_sizes: &[u64],
    ) -> (r: String)
        ensures
            r@ == self.asked_text(sync@, runs) + self.measured_text(
                creation_ms@,
                transfer_ms@,
                snapshot_sizes@,
            ),
    {
        let create: u64 = median(creation_ms);
        let transfer: u64 = median(transfer_ms);
        let size: u64 = median(snapshot_sizes);
        let mut out = String::new();
        out.append("checkpoint       ");
        push_decimal(&mut out, create);
        out.append(" ms\ncheckpoint bytes ");
        push_decimal(&mut out, size);
        out.append("\ntransfer         ");
        push_decimal(&mut out, transfer);
        out.append(" ms\ntransfer rate    ");
        push_transfer_rate(&mut out, size, transfer);
        out.append(" MiB/s\n\nThe transfer clock starts immediately before the compacted follower is\nrestarted and stops only after that real process publishes the received\ncheckpoint. The receiver uses the same resumable TCP path as production.\n");
        proof {
            assert(out@ =~= self.measured_text(creation_ms@, transfer_ms@, snapshot_sizes@));
        }
        let mut text = self.asked(sync, runs);
        text.append(out.as_str());
        text
    }
}

/// The follower that is stopped: the first node that is not the leader.
pub fn laggard(leader: usize) -> (r: usize)
    ensures
        r == (if leader == 0 {
            1nat
        } else {
            0
        }),
{
    if leader == 0 {
        1
    } else {
        0
    }
}

// ------------------------------------------------------------------- filling

/// The text of the key a value is written under.
pub open spec fn snapshot_key_text(n: nat) -> Seq<char> {
    "snapshot-"@ + zero_padded(n, 10)
}

/// The key a value is written under.
pub fn snapshot_key(n: u64) -> (r: Vec<u8>)
    ensures
        r@ == plain_bytes(snapshot_key_text(n as nat)),
{
    let mut out = String::new();
    out.append("snapshot-");
    push_zero_padded(&mut out, n, 10);
    proof {
        assert(out@ =~= snapshot_key_text(n as nat));
    }
    to_plain_bytes(out.as_str())
}

/// One step of the generator a value is made of.
pub open spec fn stirred(state: u64) -> u64 {
    let a = state ^ (state << 13);
    let b = a ^ (a >> 7);
    b ^ (b << 17)
}

/// So many words of a value, as bytes.
pub open spec fn words_from(state: u64, n: nat) -> Seq<u8>
    decreases n,
{
    if n == 0 {
        Seq::empty()
    } else {
        le64(stirred(state)) + words_from(stirred(state), (n - 1) as nat)
    }
}

/// The bytes of a value: the words a seed gives, cut to the size.
pub open spec fn snapshot_bytes(size: nat, seed: u64) -> Seq<u8> {
    words_from(seed ^ 0x9e37_79b9_7f4a_7c15, (size + 7) as nat / 8).take(size as int)
}

proof fn lemma_words_len(state: u64, n: nat)
    ensures
        words_from(state, n).len() == 8 * n,
    decreases n,
{
    if n > 0 {
        lemma_words_len(stirred(state), (n - 1) as nat);
    }
}

/// A value nobody can compress.
pub fn snapshot_value(size: usize, seed: u64) -> (r: Vec<u8>)
    ensures
        r@ == snapshot_bytes(size as nat, seed),
        r@.len() == size,
{
    let mut state: u64 = seed ^ 0x9e37_79b9_7f4a_7c15;
    let mut bytes: Vec<u8> = Vec::new();
    let ghost all = words_from(state, (size as nat + 7) as nat / 8);
    let ghost mut left: nat = (size as nat + 7) as nat / 8;
    proof {
        lemma_words_len(state, left);
        assert(bytes@ + words_from(state, left) =~= all);
    }
    while bytes.len() < size
        invariant
            bytes@.len() <= size,
            all.len() == 8 * ((size as nat + 7) as nat / 8),
            bytes@.len() < size ==> bytes@ + words_from(state, left) == all,
            bytes@.len() < size ==> bytes@.len() + 8 * left == all.len(),
            bytes@ == all.take(bytes@.len() as int),
        decreases size - bytes@.len(),
    {
        state = state ^ (state << 13);
        state = state ^ (state >> 7);
        state = state ^ (state << 17);
        let mut word: Vec<u8> = Vec::new();
        push_le64(&mut word, state);
        let ghost before = bytes@;
        proof {
            assert(word@ =~= le64(state));
            lemma_words_len(state, (left - 1) as nat);
        }
        let mut i: usize = 0;
        while i < 8 && bytes.len() < size
            invariant
                i <= 8,
                word@.len() == 8,
                bytes@ == before + word@.take(i as int),
                before.len() < size,
                bytes@.len() <= size,
            decreases 8 - i,
        {
            bytes.push(word[i]);
            i += 1;
            proof {
                assert(bytes@ =~= before + word@.take(i as int));
            }
        }
        proof {
            left = (left - 1) as nat;
            assert(all =~= before + (le64(state) + words_from(state, left)));
            assert(bytes@ =~= all.take(bytes@.len() as int));
            if bytes@.len() < size {
                assert(word@.take(8) =~= word@);
                assert(bytes@ + words_from(state, left) =~= all);
            }
        }
    }
    bytes
}

/// What filling a state takes next.
#[derive(Debug, PartialEq, Eq)]
pub enum FillStep {
    /// Write this value.
    Submit { n: u64 },
    /// Collect what has finished.
    Poll,
    /// Every value is written.
    Filled,
    /// Time is up, and this is what to say.
    GaveUp(String),
}

/// Writing a state, one value after the other.
#[derive(Debug)]
pub struct Fill {
    total: u64,
    submitted: u64,
    completed: u64,
    offering: bool,
}

/// How far a state is written.
pub struct FillView {
    pub total: u64,
    pub submitted: u64,
    pub completed: u64,
    /// Whether values are being offered, rather than the time being looked at.
    pub offering: bool,
}

impl View for Fill {
    type V = FillView;

    closed spec fn view(&self) -> FillView {
        FillView {
            total: self.total,
            submitted: self.submitted,
            completed: self.completed,
            offering: self.offering,
        }
    }
}

impl FillView {
    pub open spec fn wf(self) -> bool {
        self.completed <= self.submitted <= self.total
    }

    /// Whether this round looks for something to offer: it is already offering,
    /// or there is something left and time to do it in.
    pub open spec fn busy(self, in_time: bool) -> bool {
        self.offering || (self.completed < self.total && in_time)
    }
}

impl Fill {
    pub fn new(total: u64) -> (r: Self)
        ensures
            r@ == (FillView { total, submitted: 0, completed: 0, offering: false }),
            r@.wf(),
    {
        Fill { total, submitted: 0, completed: 0, offering: false }
    }

    /// What to do next, told whether the pipeline is full and whether there is
    /// time left. The pipeline is filled before anything is collected.
    pub fn next(&mut self, full: bool, in_time: bool) -> (r: FillStep)
        requires
            old(self)@.wf(),
        ensures
            final(self)@.wf(),
            final(self)@.total == old(self)@.total,
            final(self)@.completed == old(self)@.completed,
            old(self)@.busy(in_time) && old(self)@.submitted < old(self)@.total && !full ==> {
                &&& r == (FillStep::Submit { n: old(self)@.submitted })
                &&& final(self)@.submitted == old(self)@.submitted + 1
                &&& final(self)@.offering
            },
            old(self)@.busy(in_time) && !(old(self)@.submitted < old(self)@.total && !full) ==> {
                &&& r == FillStep::Poll
                &&& final(self)@.submitted == old(self)@.submitted
                &&& !final(self)@.offering
            },
            !old(self)@.busy(in_time) ==> {
                &&& final(self)@ == old(self)@
                &&& (r is Filled <==> old(self)@.completed == old(self)@.total)
                &&& (r is GaveUp <==> old(self)@.completed < old(self)@.total)
                &&& r is GaveUp ==> r->GaveUp_0@ == "only "@ + decimal(
                    old(self)@.completed as nat,
                ) + " of "@ + decimal(old(self)@.total as nat) + " writes completed"@
            },
    {
        if !self.offering && !(self.completed < self.total && in_time) {
            if self.completed == self.total {
                return FillStep::Filled;
            }
            let mut out = String::new();
            out.append("only ");
            push_decimal(&mut out, self.completed);
            out.append(" of ");
            push_decimal(&mut out, self.total);
            out.append(" writes completed");
            proof {
                assert(out@ =~= "only "@ + decimal(self.completed as nat) + " of "@ + decimal(
                    self.total as nat,
                ) + " writes completed"@);
            }
            return FillStep::GaveUp(out);
        }
        if self.submitted < self.total && !full {
            let n: u64 = self.submitted;
            self.submitted = self.submitted + 1;
            self.offering = true;
            FillStep::Submit { n }
        } else {
            self.offering = false;
            FillStep::Poll
        }
    }

    /// One more value is written.
    pub fn completed_one(&mut self)
        requires
            old(self)@.wf(),
            old(self)@.completed < old(self)@.submitted,
        ensures
            final(self)@.wf(),
            final(self)@ == (FillView {
                completed: (old(self)@.completed + 1) as u64,
                ..old(self)@
            }),
    {
        self.completed = self.completed + 1;
    }
}

// -------------------------------------------------------------------- asking

/// A request to a node's admin port.
pub open spec fn admin_request_text(path: Seq<char>) -> Seq<char> {
    "POST "@ + path
        + " HTTP/1.1\r\nHost: keel\r\nConnection: close\r\nContent-Length: 0\r\n\r\n"@
}

/// A request to a node's admin port.
pub fn admin_request(path: &str) -> (r: String)
    ensures
        r@ == admin_request_text(path@),
{
    let mut out = String::new();
    out.append("POST ");
    out.append(path);
    out.append(
        " HTTP/1.1\r\nHost: keel\r\nConnection: close\r\nContent-Length: 0\r\n\r\n",
    );
    proof {
        assert(out@ =~= admin_request_text(path@));
    }
    out
}

/// What a node's admin port answered: accepted, or the first line of anything
/// else.
pub fn admin_reply(response: &str) -> (r: Result<(), String>)
    ensures
        r is Ok <==> begins(response@, "HTTP/1.1 202 Accepted"@),
        r is Err ==> r->Err_0@ == (if response@.len() == 0 {
            "no response"@
        } else {
            lines_of(response@)[0]
        }),
{
    let chars: Vec<char> = characters(response);
    let accepted: Vec<char> = characters("HTTP/1.1 202 Accepted");
    if starts_with(chars.as_slice(), accepted.as_slice()) {
        return Ok(());
    }
    let lines: Vec<Vec<char>> = split_lines(response);
    if lines.len() == 0 {
        proof {
            assert(char_views(lines@).len() == 0);
        }
        return Err("no response".to_owned());
    }
    proof {
        assert(char_views(lines@)[0] == lines@[0]@);
    }
    Err(text_of(lines[0].as_slice()))
}

/// Whether a directory's name is that of a published checkpoint: it begins with
/// a digit.
pub fn is_published(name: &str) -> (r: bool)
    ensures
        r == (name@.len() > 0 && is_digit(name@[0])),
{
    let chars: Vec<char> = characters(name);
    chars.len() > 0 && '0' <= chars[0] && chars[0] <= '9'
}

/// Whether a node's status says it is the leader. The field is matched with its
/// quotes and its colon, so that a node whose *leader hint* happens to hold the
/// word cannot be mistaken for the leader itself.
pub fn says_leader(status: &str) -> (r: bool)
    ensures
        r == holds(without(status@, ' '), "\"role\":\"leader\""@),
{
    let chars: Vec<char> = characters(status);
    let compact: Vec<char> = drop_char(chars.as_slice(), ' ');
    let field: Vec<char> = characters("\"role\":\"leader\"");
    contains(compact.as_slice(), field.as_slice())
}

} // verus!
