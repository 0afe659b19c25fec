//! Every target survives generated inputs, and a checksum demonstration that
//! says the harness would notice if one stopped catching things.

use keel::api::{encode, Command, Proposal, ProposalBody, Response};
use keel::fuzz::{
    api_proposal, api_response, log_records, net_frames, raft_message, smoke, targets, Target,
};
use keel::net::frame;
use keel::raft::{Message, MessageBody};
use keel::rng::Rng;

/// Every target survives a few thousand generated inputs.
#[test]
fn every_target_survives_a_smoke_run() {
    assert_eq!(targets().len(), 7, "the target list changed");
    let report = smoke::run(1, 400);
    assert_eq!(report.inputs, 400 * targets().len() as u64);
    // The counter that stops this being a test of a length check.
    assert!(
        report.structured > report.inputs / 4,
        "only {} of {} inputs had any structure; the generator is producing \
         noise that no parser gets past",
        report.structured,
        report.inputs
    );
}

/// The same run, twice, is the same run.
#[test]
fn a_smoke_run_is_a_pure_function_of_its_seed() {
    assert_eq!(smoke::run(7, 50), smoke::run(7, 50));
    assert_ne!(smoke::run(7, 50), smoke::run(8, 50));
}

/// Every target is reachable by name, so one that is written and never wired
/// into the list is a failure here rather than a silent omission.
#[test]
fn every_target_is_named_once() {
    let mut names: Vec<&str> = targets().iter().map(|t| t.name()).collect();
    names.sort_unstable();
    let unique = {
        let mut n = names.clone();
        n.dedup();
        n
    };
    assert_eq!(names, unique, "a target is listed twice");
    assert_eq!(
        names,
        vec![
            "api_proposal",
            "api_response",
            "core_events",
            "log_records",
            "net_frames",
            "raft_message",
            "store_snapshot",
        ]
    );
}

/// One byte flipped inside a written record, and the log must not hand the
/// record back.
///
/// A budget rather than one attempt: a flipped byte can land in padding, or in a
/// region a structural check rejects for another reason, and the claim is about
/// the checksum rather than about one offset.
#[test]
fn a_corrupted_record_is_rejected() {
    let budget = 60;
    let mut accepted = Vec::new();
    let mut examined = 0;
    for seed in 0..budget {
        let outcome = match smoke::corrupt_a_valid_record(seed) {
            Ok(outcome) => outcome,
            Err(_) => continue,
        };
        examined += 1;
        if outcome.accepted_the_corruption() {
            accepted.push(outcome);
        }
    }
    assert!(
        examined > budget / 2,
        "only {examined} of {budget} attempts produced a corruptible segment"
    );
    assert!(
        accepted.is_empty(),
        "the log handed back every entry despite a corrupted byte, in {} of \
         {examined} attempts: {:?}",
        accepted.len(),
        accepted.first()
    );
}

/// An intact segment gives everything back, so a log that rejected everything
/// would not do.
#[test]
fn an_intact_segment_is_not_a_corrupted_one() {
    let outcome = smoke::corrupt_a_valid_record(3).unwrap();
    assert_eq!(outcome.wrote, 8);
    assert_eq!(outcome.after, outcome.before ^ 0x40);
    assert!(outcome.byte >= 48);
    let intact = smoke::CorruptionOutcome { recovered: 8, ..outcome };
    assert!(intact.accepted_the_corruption());
}

#[test]
fn a_target_says_what_it_made_of_the_bytes() {
    let proposal = encode(&Proposal {
        stamped_ms: 12,
        session: Some((3, 9)),
        body: ProposalBody::Command(Command::Put { key: b"k".to_vec(), value: b"v".to_vec() }),
    })
    .unwrap();
    assert!(api_proposal(&proposal).0);
    assert_eq!(smoke::seed_bytes(Target::ApiProposal), Some(proposal));
    assert!(api_response(&encode(&Response::Counter(7)).unwrap()));
    assert!(!api_response(&[0xff]));
    let message = Message::new(1, 2, 3, MessageBody::VoteResp { granted: false });
    assert!(raft_message(&encode(&message).unwrap()));
    assert!(!raft_message(&[]));
    assert_eq!(log_records(b"not a segment"), Some(0));
    assert_eq!(Target::StoreSnapshot.feed(&[1, 2, 3]), None);
    let corpus = smoke::seed_corpus();
    let names: Vec<&str> = corpus.iter().map(|(name, _)| *name).collect();
    assert_eq!(names, vec!["api_proposal", "api_response", "net_frames"]);
    for (name, bytes) in &corpus {
        let target = targets().into_iter().find(|t| t.name() == *name).unwrap();
        assert_eq!(target.feed(bytes), Some(true), "{name}");
    }
}

/// However a stream is cut up, what comes out of it is the same.
#[test]
fn the_size_of_the_pieces_does_not_matter() {
    let mut stream = Vec::new();
    for payload in [&b"one"[..], b"", b"a longer one"] {
        stream.extend(frame::encode(payload, 64).unwrap());
    }
    for chunk in 0..=255u8 {
        let mut data = vec![chunk];
        data.extend_from_slice(&stream);
        let read = net_frames(&data);
        assert!(!read.refused);
        assert_eq!(read.frames, vec![b"one".to_vec(), Vec::new(), b"a longer one".to_vec()]);
    }
    let mut data = vec![3];
    data.extend_from_slice(&u32::MAX.to_le_bytes());
    assert!(net_frames(&data).refused);
    assert!(net_frames(&[]).frames.is_empty());
}

#[test]
fn a_generated_input_is_noise_or_has_structure() {
    let mut rng = Rng::new(5);
    let mut seen = [0; 3];
    for _ in 0..200 {
        let (input, structured) = smoke::generate(&mut rng, Some(&[1, 2, 3]));
        if !structured {
            assert!(input.len() < 512);
            seen[0] += 1;
        } else if input.len() == 3 {
            assert_ne!(input.len(), 0);
            seen[1] += 1;
        } else {
            let len = u32::from_le_bytes([input[0], input[1], input[2], input[3]]);
            assert_eq!(len as usize + 4, input.len());
            seen[2] += 1;
        }
    }
    assert!(seen.iter().all(|n| *n > 0), "{seen:?}");
}

// --------------------------------------------------------------------------- rng

/// The generator's first numbers, so that a seed written down stays worth
/// something.
#[test]
fn a_seed_gives_the_numbers_it_gave() {
    let mut rng = Rng::new(0);
    assert_eq!(rng.next_u64(), 0xe220_a839_7b1d_cdaf);
    assert_eq!(rng.next_u64(), 0x6e78_9e6a_a1b9_65f4);
    let mut a = Rng::new(7);
    let mut b = Rng::new(7);
    let _ = b.next_u64();
    assert_eq!(a.split("x").next_u64(), b.split("x").next_u64());
    assert_ne!(a.split("x").next_u64(), a.split("y").next_u64());
    for _ in 0..100 {
        assert!((3..9).contains(&a.range(3, 9)));
        assert!(a.chance(100));
        assert!(!a.chance(0));
    }
}
