//! Driving the targets from a seed.
//!
//! The generator is deliberately not uniform. Uniformly random bytes fail the
//! first length check in every parser and never reach anything, so most inputs
//! are built around a plausible structure and corrupted, and only some are
//! noise.

use vstd::prelude::*;

use crate::api::{
    encode, Command, CommandView, Proposal, ProposalBody, ProposalBodyView, ProposalView, Response,
    ResponseView, MAX_PAYLOAD_BYTES,
};
use crate::fuzz::{every_target, first_segment, recovered_from, small, small_options, target_name, targets, Target};
use crate::fuzz::log_records;
use crate::le::{le32, push_le32};
use crate::log::durability::{law_headers_are_short, lemma_performed_in_turn};
use crate::log::error::ErrorView;
use crate::log::fs::{all_performed, effect_views, performed, Disk, Effect, EffectView};
use crate::log::journal::{batched, batches, header_record, opened, Log, LogView};
use crate::log::memory::{all_possible, lemma_possible_in_turn, possible, MemoryDisk};
use crate::log::record::RecordView;
use crate::log::recovery::{file_views, SegmentFile};
use crate::log::segment::segment_file;
use crate::net::frame::{self, framed};
use crate::net::MAX_FRAME_BYTES;
use crate::raft::{Entry, EntryPayload, EntryPayloadView, EntryView};
use crate::rng::{Rng, RngView};
use crate::text::{
    decimal, lemma_digits_of_a_small_number, lemma_digits_of_a_word, plain_bytes, push_decimal,
    ten_to, to_plain_bytes,
};
use crate::wire::{
    elements_encoding, lemma_varint_len, lemma_varint_widths, models, varint, Wire,
};

verus! {

/// What a smoke run did.
#[derive(Debug, Clone, Copy, PartialEq, Eq, Structural)]
pub struct SmokeReport {
    pub inputs: u64,
    /// Inputs that were a corrupted version of something structurally valid,
    /// rather than noise. An input that fails the first length check has not
    /// tested a parser, it has tested a length check.
    pub structured: u64,
}

/// A source after some draws.
pub open spec fn after(rng: RngView, n: nat) -> RngView
    decreases n,
{
    if n == 0 {
        rng
    } else {
        after(rng, (n - 1) as nat).moved()
    }
}

/// Random bytes.
pub open spec fn noise(rng: RngView, n: nat) -> Seq<u8>
    decreases n,
{
    if n == 0 {
        Seq::empty()
    } else {
        noise(rng, (n - 1) as nat).push(after(rng, (n - 1) as nat).number() as u8)
    }
}

/// One bit of some bytes flipped, where two draws say.
pub open spec fn flipped_once(rng: RngView, s: Seq<u8>) -> Seq<u8> {
    let at = rng.within(0, s.len() as u64) as int;
    let bit = rng.moved().within(0, 8) as u8;
    s.update(at, s[at] ^ (1u8 << bit))
}

/// Some bits of some bytes flipped.
pub open spec fn flipped(rng: RngView, s: Seq<u8>, flips: nat) -> Seq<u8>
    decreases flips,
{
    if flips == 0 {
        s
    } else {
        flipped_once(
            after(rng, (2 * (flips - 1)) as nat),
            flipped(rng, s, (flips - 1) as nat),
        )
    }
}

/// An input, whether it has structure, and the source after it.
pub struct GeneratedView {
    pub input: Seq<u8>,
    pub structured: bool,
    pub rng: RngView,
}

/// The next input a source gives.
pub open spec fn generated(rng: RngView, valid: Option<Seq<u8>>) -> GeneratedView {
    let shape = rng.within(0, 3);
    let r = rng.moved();
    if shape == 0 {
        let len = r.within(0, 512) as nat;
        GeneratedView {
            input: noise(r.moved(), len),
            structured: false,
            rng: after(r.moved(), len),
        }
    } else if shape == 1 {
        let len = r.within(0, 300) as nat;
        GeneratedView {
            input: le32(len as u32) + noise(r.moved(), len),
            structured: true,
            rng: after(r.moved(), len),
        }
    } else {
        match valid {
            None => GeneratedView { input: Seq::empty(), structured: false, rng: r },
            Some(s) => if s.len() == 0 {
                GeneratedView { input: s, structured: false, rng: r }
            } else {
                let flips = r.within(1, 5) as nat;
                GeneratedView {
                    input: flipped(r.moved(), s, flips),
                    structured: true,
                    rng: after(r.moved(), 2 * flips),
                }
            },
        }
    }
}

/// Add random bytes.
fn push_noise(rng: &mut Rng, out: &mut Vec<u8>, n: usize)
    ensures
        final(out)@ == old(out)@ + noise(old(rng)@, n as nat),
        final(rng)@ == after(old(rng)@, n as nat),
{
    let ghost begin = rng@;
    let ghost held = out@;
    let mut i: usize = 0;
    proof {
        assert(held + noise(begin, 0) =~= held);
    }
    while i < n
        invariant
            i <= n,
            begin == old(rng)@,
            held == old(out)@,
            rng@ == after(begin, i as nat),
            out@ == held + noise(begin, i as nat),
        decreases n - i,
    {
        let number: u64 = rng.next_u64();
        out.push(number as u8);
        i += 1;
        proof {
            assert(out@ =~= held + noise(begin, i as nat));
        }
    }
}

/// Flip some bits.
fn flip_bits(rng: &mut Rng, out: &mut Vec<u8>, flips: u64)
    requires
        old(out)@.len() > 0,
    ensures
        final(out)@ == flipped(old(rng)@, old(out)@, flips as nat),
        final(rng)@ == after(old(rng)@, 2 * flips as nat),
{
    let ghost begin = rng@;
    let ghost held = out@;
    let mut i: u64 = 0;
    while i < flips
        invariant
            i <= flips,
            begin == old(rng)@,
            held == old(out)@,
            held.len() > 0,
            out@.len() == held.len(),
            rng@ == after(begin, 2 * i as nat),
            out@ == flipped(begin, held, i as nat),
        decreases flips - i,
    {
        let ghost before = out@;
        let at: u64 = rng.range(0, out.len() as u64);
        let bit: u64 = rng.range(0, 8);
        let place: usize = at as usize;
        let byte: u8 = out[place] ^ (1u8 << (bit as u8));
        out.set(place, byte);
        i += 1;
        proof {
            assert(2 * i as nat - 1 == 2 * (i as nat - 1) + 1);
            assert(after(begin, (2 * (i - 1)) as nat).moved() == after(begin, (2 * i - 1) as nat));
            assert(out@ =~= flipped_once(after(begin, (2 * (i - 1)) as nat), before));
        }
    }
}

/// What valid bytes a generator was given.
pub open spec fn valid_view(valid: Option<&[u8]>) -> Option<Seq<u8>> {
    match valid {
        Some(s) => Some(s@),
        None => None,
    }
}

/// One pseudo-random input, and whether it has structure.
///
/// - *noise*: random bytes of a random length. It finds the length-handling
///   bugs.
/// - *framed*: a plausible length prefix followed by random bytes, so the parser
///   gets past its first check.
/// - *corrupted*: a valid encoding with some bits flipped, which is the only
///   shape that reaches the deep paths.
pub fn generate(rng: &mut Rng, seed_bytes: Option<&[u8]>) -> (r: (Vec<u8>, bool))
    ensures
        r.0@ == generated(old(rng)@, valid_view(seed_bytes)).input,
        r.1 == generated(old(rng)@, valid_view(seed_bytes)).structured,
        final(rng)@ == generated(old(rng)@, valid_view(seed_bytes)).rng,
{
    let shape: u64 = rng.range(0, 3);
    let mut out: Vec<u8> = Vec::new();
    if shape == 0 {
        let len: u64 = rng.range(0, 512);
        push_noise(rng, &mut out, len as usize);
        proof {
            assert(out@ =~= generated(old(rng)@, valid_view(seed_bytes)).input);
        }
        (out, false)
    } else if shape == 1 {
        let len: u64 = rng.range(0, 300);
        push_le32(&mut out, len as u32);
        push_noise(rng, &mut out, len as usize);
        proof {
            assert(out@ =~= generated(old(rng)@, valid_view(seed_bytes)).input);
        }
        (out, true)
    } else {
        match seed_bytes {
            None => (out, false),
            Some(valid) => {
                out.extend_from_slice(valid);
                proof {
                    assert(out@ =~= valid@);
                }
                if out.len() == 0 {
                    return (out, false);
                }
                let flips: u64 = rng.range(1, 5);
                flip_bits(rng, &mut out, flips);
                (out, true)
            },
        }
    }
}

/// Corrupting bytes does not change how many there are.
pub proof fn law_a_corrupted_input_keeps_its_length(rng: RngView, s: Seq<u8>, flips: nat)
    requires
        0 < s.len() <= u64::MAX,
    ensures
        flipped(rng, s, flips).len() == s.len(),
    decreases flips,
{
    if flips > 0 {
        law_a_corrupted_input_keeps_its_length(rng, s, (flips - 1) as nat);
    }
}

/// A corruption is never a no-op: a flipped bit is not the bit that was there.
pub proof fn law_a_flip_changes_the_bytes(rng: RngView, s: Seq<u8>)
    requires
        0 < s.len() <= u64::MAX,
    ensures
        flipped_once(rng, s) != s,
{
    let at = rng.within(0, s.len() as u64) as int;
    let bit = rng.moved().within(0, 8) as u8;
    let b = s[at];
    assert(bit < 8);
    assert(b ^ (1u8 << bit) != b) by (bit_vector)
        requires
            bit < 8,
    ;
    assert(flipped_once(rng, s)[at] != s[at]);
}

/// The proposal whose encoding is corrupted.
pub open spec fn sample_proposal() -> ProposalView {
    ProposalView {
        stamped_ms: 12,
        session: Some((3, 9)),
        body: ProposalBodyView::Command(
            CommandView::Put { key: seq![107u8], value: seq![118u8] },
        ),
    }
}

/// A payload that can be sent.
pub open spec fn sendable(s: Seq<u8>) -> Option<Seq<u8>> {
    if s.len() <= MAX_PAYLOAD_BYTES {
        Some(s)
    } else {
        None
    }
}

/// A valid encoding of what a target parses, where there is one.
pub open spec fn valid_for(target: Target) -> Option<Seq<u8>> {
    match target {
        Target::ApiProposal => sendable(Proposal::encoding(sample_proposal())),
        Target::ApiResponse => sendable(Response::encoding(ResponseView::Counter(7))),
        Target::NetFrames => Some(seq![3u8] + framed(seq![104u8, 101, 108, 108, 111])),
        _ => None,
    }
}

/// A valid encoding of what a target parses, to corrupt.
pub fn seed_bytes(target: Target) -> (r: Option<Vec<u8>>)
    ensures
        r is Some <==> valid_for(target) is Some,
        r matches Some(bytes) ==> valid_for(target) == Some(bytes@),
{
    match target {
        Target::ApiProposal => {
            let key: Vec<u8> = vec![107u8];
            let value: Vec<u8> = vec![118u8];
            let proposal = Proposal {
                stamped_ms: 12,
                session: Some((3, 9)),
                body: ProposalBody::Command(Command::Put { key, value }),
            };
            proof {
                assert(key@ =~= seq![107u8]);
                assert(value@ =~= seq![118u8]);
                assert(proposal.model() == sample_proposal());
            }
            match encode(&proposal) {
                Ok(bytes) => Some(bytes),
                Err(_) => None,
            }
        },
        Target::ApiResponse => {
            let response = Response::Counter(7);
            proof {
                assert(response.model() == ResponseView::Counter(7));
            }
            match encode(&response) {
                Ok(bytes) => Some(bytes),
                Err(_) => None,
            }
        },
        Target::NetFrames => {
            let hello: Vec<u8> = vec![104u8, 101u8, 108u8, 108u8, 111u8];
            proof {
                assert(hello@ =~= seq![104u8, 101, 108, 108, 111]);
            }
            match frame::encode(hello.as_slice(), MAX_FRAME_BYTES) {
                Ok(frame) => {
                    // Prefixed with a chunk size, because the target reads one.
                    let mut with_chunk: Vec<u8> = vec![3u8];
                    with_chunk.extend_from_slice(frame.as_slice());
                    proof {
                        assert(with_chunk@ =~= seq![3u8] + frame@);
                    }
                    Some(with_chunk)
                },
                Err(_) => None,
            }
        },
        _ => None,
    }
}

/// The encodings that some targets are seeded with, by name.
pub open spec fn corpus(targets: Seq<Target>) -> Seq<(Seq<char>, Seq<u8>)>
    decreases targets.len(),
{
    if targets.len() == 0 {
        Seq::empty()
    } else {
        let rest = corpus(targets.drop_last());
        match valid_for(targets.last()) {
            Some(bytes) => rest.push((target_name(targets.last()), bytes)),
            None => rest,
        }
    }
}

/// What a corpus holds.
pub open spec fn corpus_view(corpus: Seq<(&'static str, Vec<u8>)>) -> Seq<(Seq<char>, Seq<u8>)> {
    corpus.map_values(|one: (&'static str, Vec<u8>)| (one.0@, one.1@))
}

/// A valid encoding of each kind of thing a target parses, to corrupt.
pub fn seed_corpus() -> (r: Vec<(&'static str, Vec<u8>)>)
    ensures
        corpus_view(r@) == corpus(every_target()),
{
    let all: Vec<Target> = targets();
    let mut r: Vec<(&'static str, Vec<u8>)> = Vec::new();
    let mut i: usize = 0;
    proof {
        assert(corpus_view(r@) =~= corpus(all@.take(0)));
    }
    while i < all.len()
        invariant
            i <= all@.len(),
            corpus_view(r@) == corpus(all@.take(i as int)),
        decreases all@.len() - i,
    {
        let target: Target = all[i];
        let ghost before = corpus_view(r@);
        proof {
            assert(all@.take(i + 1).drop_last() =~= all@.take(i as int));
        }
        if let Some(bytes) = seed_bytes(target) {
            let ghost held = bytes@;
            r.push((target.name(), bytes));
            proof {
                assert(corpus_view(r@) =~= before.push((target_name(target), held)));
            }
        }
        i += 1;
    }
    proof {
        assert(all@.take(i as int) =~= all@);
    }
    r
}

/// How many of the next inputs a source gives have structure, and the source
/// after them.
pub open spec fn structured_in(rng: RngView, valid: Option<Seq<u8>>, n: nat) -> (nat, RngView)
    decreases n,
{
    if n == 0 {
        (0, rng)
    } else {
        let (count, r) = structured_in(rng, valid, (n - 1) as nat);
        let one = generated(r, valid);
        (
            if one.structured {
                count + 1
            } else {
                count
            },
            one.rng,
        )
    }
}

/// How many inputs of a run over some targets have structure.
pub open spec fn structured_over(root: RngView, targets: Seq<Target>, per_target: nat) -> nat
    decreases targets.len(),
{
    if targets.len() == 0 {
        0
    } else {
        structured_over(root, targets.drop_last(), per_target) + structured_in(
            root.labelled(target_name(targets.last())),
            valid_for(targets.last()),
            per_target,
        ).0
    }
}

/// No more inputs have structure than there are.
proof fn lemma_structured_at_most(rng: RngView, valid: Option<Seq<u8>>, n: nat)
    ensures
        structured_in(rng, valid, n).0 <= n,
    decreases n,
{
    if n > 0 {
        lemma_structured_at_most(rng, valid, (n - 1) as nat);
    }
}

/// Point generated inputs at one target: how many of them had structure.
fn drive(rng: &mut Rng, target: Target, valid: Option<&[u8]>, count: u64) -> (r: u64)
    ensures
        r == structured_in(old(rng)@, valid_view(valid), count as nat).0,
        r <= count,
{
    let ghost begin = rng@;
    let mut structured: u64 = 0;
    let mut i: u64 = 0;
    while i < count
        invariant
            i <= count,
            structured <= i,
            begin == old(rng)@,
            structured_in(begin, valid_view(valid), i as nat) == (structured as nat, rng@),
        decreases count - i,
    {
        let (input, has_structure) = generate(rng, valid);
        if has_structure {
            structured += 1;
        }
        let _ = target.feed(input.as_slice());
        i += 1;
    }
    structured
}

/// Run every target over `per_target` generated inputs.
///
/// It says what it did rather than only whether it survived: a run that executed
/// a million inputs and never got one past a length check is a run that proved
/// nothing, and only the counts can say so.
pub fn run(seed: u64, per_target: u64) -> (r: SmokeReport)
    requires
        per_target * every_target().len() <= u64::MAX,
    ensures
        r.inputs == per_target * every_target().len(),
        r.structured == structured_over(RngView::fresh(seed), every_target(), per_target as nat),
        r.structured <= r.inputs,
{
    let all: Vec<Target> = targets();
    let mut root = Rng::new(seed);
    let mut inputs: u64 = 0;
    let mut structured: u64 = 0;
    let mut i: usize = 0;
    while i < all.len()
        invariant
            i <= all@.len(),
            all@ == every_target(),
            all@.len() == 7,
            per_target * 7 <= u64::MAX,
            inputs == per_target * i,
            structured <= inputs,
            root@ == RngView::fresh(seed),
            structured == structured_over(root@, all@.take(i as int), per_target as nat),
        decreases all@.len() - i,
    {
        let target: Target = all[i];
        let mut rng = root.split(target.name());
        let valid: Option<Vec<u8>> = seed_bytes(target);
        proof {
            assert(all@.take(i + 1).drop_last() =~= all@.take(i as int));
            lemma_structured_at_most(rng@, valid_for(target), per_target as nat);
            assert(per_target * (i + 1) == per_target * i + per_target) by (nonlinear_arith);
            assert(per_target * (i + 1) <= per_target * 7) by (nonlinear_arith)
                requires
                    i + 1 <= 7,
            ;
        }
        let got: u64 = match &valid {
            Some(bytes) => drive(&mut rng, target, Some(bytes.as_slice()), per_target),
            None => drive(&mut rng, target, None, per_target),
        };
        inputs += per_target;
        structured += got;
        i += 1;
    }
    proof {
        assert(all@.take(i as int) =~= all@);
    }
    SmokeReport { inputs, structured }
}

// ------------------------------------------------------------------ checksum

/// What flipping one byte of a written log did to what came back.
#[derive(Debug, Clone, Copy, PartialEq, Eq, Structural)]
pub struct CorruptionOutcome {
    pub byte: usize,
    pub before: u8,
    pub after: u8,
    /// How many entries were written before the corruption.
    pub wrote: u64,
    /// The last index the log handed back after it.
    pub recovered: u64,
}

impl CorruptionOutcome {
    /// Whether the log handed back everything that was written despite the
    /// corruption, which is what a missing checksum looks like.
    pub fn accepted_the_corruption(&self) -> (r: bool)
        ensures
            r == (self.recovered == self.wrote),
    {
        self.recovered == self.wrote
    }
}

/// What one entry of the log under test holds.
pub open spec fn sample_payload(i: nat, seed: u64) -> Seq<char> {
    "value-"@ + decimal(i) + "-"@ + decimal(seed as nat)
}

/// The first entries of the log under test.
pub open spec fn sample_entries(n: nat, seed: u64) -> Seq<EntryView> {
    Seq::new(
        n,
        |i: int|
            EntryView {
                term: 1,
                index: (i + 1) as u64,
                payload: EntryPayloadView::Normal(
                    plain_bytes(sample_payload((i + 1) as nat, seed)),
                ),
            },
    )
}

/// How many entries the log under test has.
pub const SAMPLE_ENTRIES: u64 = 8;

/// The segment of a log with entries in it, as a directory then holds it.
pub open spec fn written(seed: u64) -> Option<Seq<u8>> {
    let (begun, fresh) = opened("log"@, Seq::empty(), small());
    match fresh {
        Err(_) => None,
        Ok((log, _)) => {
            let (full, failure) = log.appended(sample_entries(SAMPLE_ENTRIES as nat, seed));
            let effects = begun + full.synced().effects;
            let empty: Disk = Map::empty();
            let disk = all_performed(empty, effects);
            if failure is None && all_possible(empty, effects) && disk.contains_key(
                first_segment(),
            ) {
                Some(disk[first_segment()])
            } else {
                None
            }
        },
    }
}

/// The least a segment holds for a byte past its header to be one of a record.
pub const LEAST_SEGMENT: usize = 64;

/// Where the first byte that is corrupted can stand.
pub const PAST_THE_HEADER: u64 = 48;

/// What corrupting one byte of a segment does.
pub open spec fn corruption(segment: Seq<u8>, seed: u64, wrote: u64) -> CorruptionOutcome {
    let at = RngView::fresh(seed).within(PAST_THE_HEADER, segment.len() as u64);
    let after = segment[at as int] ^ 0x40;
    CorruptionOutcome {
        byte: at as usize,
        before: segment[at as int],
        after,
        wrote,
        recovered: match recovered_from(segment.update(at as int, after)) {
            Some(last) => last,
            None => 0,
        },
    }
}

/// The entries of the log under test are short, and not empty.
proof fn lemma_sample_len(n: nat, seed: u64, i: int)
    requires
        0 <= i < n <= SAMPLE_ENTRIES,
    ensures
        9 <= Entry::encoding(sample_entries(n, seed)[i]).len() <= 68,
{
    let payload = sample_payload((i + 1) as nat, seed);
    let e = sample_entries(n, seed)[i];
    reveal_strlit("value-");
    reveal_strlit("-");
    lemma_digits_of_a_word((i + 1) as u64);
    reveal_with_fuel(ten_to, 2);
    lemma_digits_of_a_small_number((i + 1) as nat, 1);
    lemma_digits_of_a_word(seed);
    lemma_varint_widths();
    lemma_varint_len(1, 5, 15);
    lemma_varint_len(1, 10, 1);
    lemma_varint_len((i + 1) as nat, 10, 1);
    lemma_varint_len(payload.len(), 10, 1);
    assert(9 <= payload.len() <= 28);
    let data = plain_bytes(payload);
    assert(e.payload == EntryPayloadView::Normal(data));
    let inner = EntryPayload::encoding(e.payload);
    assert(inner.len() == u32::encoding(1).len() + varint(data.len()).len() + data.len());
    assert(Entry::encoding(e).len() == varint(1).len() + varint((i + 1) as nat).len()
        + inner.len());
}

/// What entries come to, where each is of a bounded length.
proof fn lemma_entries_len(entries: Seq<EntryView>)
    requires
        forall|i: int|
            0 <= i < entries.len() ==> 9 <= Entry::encoding(#[trigger] entries[i]).len() <= 68,
    ensures
        9 * entries.len() <= elements_encoding::<Entry>(entries).len() <= 68 * entries.len(),
    decreases entries.len(),
{
    if entries.len() > 0 {
        let rest = entries.skip(1);
        assert(forall|i: int| 0 <= i < rest.len() ==> #[trigger] rest[i] == entries[i + 1]);
        lemma_entries_len(rest);
    }
}

/// The first entries of the log under test are one record of a bounded length.
proof fn lemma_sample_record(n: nat, seed: u64)
    requires
        n <= SAMPLE_ENTRIES,
    ensures
        9 * n <= RecordView::Entries(sample_entries(n, seed)).frame().len() <= 600,
{
    let entries = sample_entries(n, seed);
    assert forall|i: int| 0 <= i < n implies 9 <= Entry::encoding(#[trigger] entries[i]).len()
        <= 68 by {
        lemma_sample_len(n, seed, i);
    }
    lemma_entries_len(entries);
    lemma_varint_widths();
    lemma_varint_len(n, 10, 1);
    let record = RecordView::Entries(entries);
    assert(record.payload().len() == varint(n).len() + elements_encoding::<Entry>(entries).len());
    assert(record.frame().len() == 9 + record.payload().len());
}

/// The entries of the log under test are written as one record.
proof fn lemma_sample_is_one_batch(n: nat, seed: u64)
    requires
        n <= SAMPLE_ENTRIES,
    ensures
        batched(
            Seq::empty(),
            sample_entries(n, seed),
            sample_entries(SAMPLE_ENTRIES as nat, seed).skip(n as int),
            small().max_record_bytes,
        ) == Ok::<Seq<Seq<EntryView>>, nat>(
            seq![sample_entries(SAMPLE_ENTRIES as nat, seed)],
        ),
    decreases SAMPLE_ENTRIES - n,
{
    let all = sample_entries(SAMPLE_ENTRIES as nat, seed);
    let rest = all.skip(n as int);
    if n == SAMPLE_ENTRIES {
        assert(Seq::<Seq<EntryView>>::empty().push(all) =~= seq![all]);
    } else {
        assert(rest[0] == all[n as int]);
        assert(sample_entries(n, seed).push(rest[0]) =~= sample_entries(n + 1, seed));
        assert(rest.skip(1) =~= all.skip((n + 1) as int));
        lemma_sample_record(n + 1, seed);
        lemma_sample_is_one_batch(n + 1, seed);
    }
}

/// One effect more can be carried out where it can be after the others.
proof fn lemma_possible_push(disk: Disk, effects: Seq<EffectView>, e: EffectView)
    ensures
        all_possible(disk, effects.push(e)) == (all_possible(disk, effects) && possible(
            all_performed(disk, effects),
            e,
        )),
        all_performed(disk, effects.push(e)) == performed(all_performed(disk, effects), e),
{
    assert(effects.push(e).drop_last() =~= effects);
}

/// The log under test is always written, and its segment is long enough.
#[verifier::spinoff_prover]
#[verifier::rlimit(40)]
pub proof fn law_a_segment_is_always_written(seed: u64)
    ensures
        written(seed) is Some,
        written(seed)->0.len() >= LEAST_SEGMENT,
{
    let name = first_segment();
    let (begun, fresh) = opened("log"@, Seq::empty(), small());
    let header = header_record(0, 1);
    law_headers_are_short(29);
    assert(header.body().len() <= 29);
    assert(header.frame().len() == 8 + header.body().len());
    assert(segment_file(0) == name) by {
        reveal_strlit("seg-");
        reveal_strlit(".log");
        reveal_strlit("seg-0000000000.log");
        assert(segment_file(0) =~= name);
    }
    assert(fresh is Ok);
    let log = (fresh->Ok_0).0;
    let entries = sample_entries(SAMPLE_ENTRIES as nat, seed);
    let record = RecordView::Entries(entries);
    lemma_sample_record(SAMPLE_ENTRIES as nat, seed);
    assert(sample_entries(0, seed) =~= Seq::empty());
    assert(entries.skip(0) =~= entries);
    lemma_sample_is_one_batch(0, seed);
    let records = seq![entries];
    assert(records.skip(1) =~= Seq::empty());
    assert(log.segments[0].name == name);
    assert(log.current().name == name);
    let (full, failure) = log.appended(entries);
    assert(log.last_index == 0 && entries[0].index == 1);
    assert(batches(entries, log.opts.max_record_bytes) == Ok::<Seq<Seq<EntryView>>, nat>(records));
    let moved = LogView { last_index: entries.last().index, ..log.put(record) };
    assert(log.staged(record)->Ok_0 == log.put(record));
    assert(moved.staged_batches(records.skip(1)) == (moved, None::<ErrorView>));
    assert(log.staged_batches(records) == (moved, None::<ErrorView>));
    assert(failure is None);
    let write = EffectView::Write { name, offset: log.cursor, bytes: record.frame() };
    let sync = EffectView::Sync { name };
    assert(full.synced().effects =~= seq![write, sync]);
    let empty: Disk = Map::empty();
    let none = Seq::<EffectView>::empty();
    let create = EffectView::Create { name, allocate: 0 };
    let head = EffectView::Write { name, offset: 0, bytes: header.frame() };
    lemma_possible_push(empty, none, create);
    lemma_possible_push(empty, none.push(create), head);
    let two = none.push(create).push(head);
    lemma_possible_push(empty, two, sync);
    lemma_possible_push(empty, two.push(sync), EffectView::SyncDir);
    let four = two.push(sync).push(EffectView::SyncDir);
    assert(begun =~= four);
    lemma_possible_push(empty, four, write);
    lemma_possible_push(empty, four.push(write), sync);
    assert(begun + full.synced().effects =~= four.push(write).push(sync));
}

fn sample_log_entries(seed: u64) -> (r: Vec<Entry>)
    ensures
        models(r@) == sample_entries(SAMPLE_ENTRIES as nat, seed),
{
    let mut entries: Vec<Entry> = Vec::new();
    let mut i: u64 = 0;
    proof {
        assert(models(entries@) =~= sample_entries(0, seed));
    }
    while i < SAMPLE_ENTRIES
        invariant
            i <= SAMPLE_ENTRIES,
            models(entries@) == sample_entries(i as nat, seed),
        decreases SAMPLE_ENTRIES - i,
    {
        let ghost before = models(entries@);
        i += 1;
        let mut text = String::new();
        text.append("value-");
        push_decimal(&mut text, i);
        text.append("-");
        push_decimal(&mut text, seed);
        proof {
            assert(text@ =~= sample_payload(i as nat, seed));
        }
        let entry = Entry {
            term: 1,
            index: i,
            payload: EntryPayload::Normal(to_plain_bytes(text.as_str())),
        };
        entries.push(entry);
        proof {
            assert(models(entries@) =~= before.push(entry.model()));
            assert(models(entries@) =~= sample_entries(i as nat, seed));
        }
    }
    entries
}

/// Write a log with entries in it, and hand back its segment.
fn write_a_segment(seed: u64) -> (r: Result<Vec<u8>, String>)
    ensures
        r is Ok <==> written(seed) is Some,
        r matches Ok(bytes) ==> written(seed) == Some(bytes@),
{
    let files: Vec<SegmentFile> = Vec::new();
    let mut effects: Vec<Effect> = Vec::new();
    proof {
        assert(file_views(files@) =~= Seq::empty());
        assert(effect_views(effects@) =~= Seq::empty());
    }
    let mut log: Log = match Log::open("log", files, small_options(), &mut effects) {
        Ok((log, _)) => log,
        Err(e) => {
            return Err(e.message());
        },
    };
    let ghost begun = opened("log"@, Seq::empty(), small()).0;
    proof {
        assert(effect_views(effects@) =~= begun);
    }
    let entries = sample_log_entries(seed);
    match log.append(entries.as_slice()) {
        Ok(_) => {},
        Err(e) => {
            return Err(e.message());
        },
    }
    let _ = log.sync();
    let staged: Vec<Effect> = log.take_effects();
    let mut disk = MemoryDisk::new();
    let ghost empty: Disk = Map::empty();
    proof {
        lemma_possible_in_turn(empty, begun, effect_views(staged@));
        lemma_performed_in_turn(empty, begun, effect_views(staged@));
    }
    if !disk.perform_all(effects.as_slice()) {
        return Err("the directory cannot hold the log".to_owned());
    }
    if !disk.perform_all(staged.as_slice()) {
        return Err("the directory cannot hold the log".to_owned());
    }
    match disk.read("seg-0000000000.log") {
        Some(bytes) => Ok(bytes),
        None => Err("the log has no segment".to_owned()),
    }
}

/// Write a valid log segment, flip one byte of it past the header, and say what
/// the log recovers.
///
/// With the record checksum intact the corrupted record is rejected: the tail is
/// discarded and the entry does not come back. Corrupting a length or a header
/// would be caught by a structural check and would say nothing about the
/// checksum, which is the thing under test.
pub fn corrupt_a_valid_record(seed: u64) -> (r: Result<CorruptionOutcome, String>)
    ensures
        r == Ok::<CorruptionOutcome, String>(
            corruption(written(seed)->0, seed, SAMPLE_ENTRIES),
        ),
{
    proof {
        law_a_segment_is_always_written(seed);
    }
    let mut raw: Vec<u8> = match write_a_segment(seed) {
        Ok(raw) => raw,
        Err(why) => {
            return Err(why);
        },
    };
    if raw.len() < LEAST_SEGMENT {
        return Err("the segment is too small to corrupt meaningfully".to_owned());
    }
    let ghost segment = raw@;
    let mut rng = Rng::new(seed);
    let at: u64 = rng.range(PAST_THE_HEADER, raw.len() as u64);
    let place: usize = at as usize;
    let before: u8 = raw[place];
    let after: u8 = before ^ 0x40;
    raw.set(place, after);
    let recovered: u64 = match log_records(raw.as_slice()) {
        Some(last) => last,
        // A refusal to open is a rejection, and the strongest kind.
        None => 0,
    };
    Ok(CorruptionOutcome { byte: place, before, after, wrote: SAMPLE_ENTRIES, recovered })
}

/// The byte that is corrupted is past the header, in the segment, and no longer
/// what it was.
pub proof fn law_the_corruption_is_a_corruption(segment: Seq<u8>, seed: u64, wrote: u64)
    requires
        LEAST_SEGMENT <= segment.len() <= usize::MAX,
    ensures
        PAST_THE_HEADER <= corruption(segment, seed, wrote).byte < segment.len(),
        corruption(segment, seed, wrote).before
            == segment[corruption(segment, seed, wrote).byte as int],
        corruption(segment, seed, wrote).after != corruption(segment, seed, wrote).before,
{
    let b = corruption(segment, seed, wrote).before;
    assert(b ^ 0x40 != b) by (bit_vector);
}

} // verus!
