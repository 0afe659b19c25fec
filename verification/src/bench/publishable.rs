//! The bar itself.
//!
//! A [`Publishable`] cannot be constructed except by [`Publishable::check`], and
//! `check` returns a [`Refusal`] for every condition under which a number would
//! mislead. That is the whole mechanism: the type is the proof, and a function
//! that needs one cannot be called without it.

use vstd::prelude::*;
use vstd::string::*;

use crate::bench::environment::{Environment, Filesystem};
use crate::log::fs::SyncMode;
use crate::text::{decimal, push_decimal};

verus! {

/// How much weight a number is allowed to carry.
#[derive(Debug, Clone, Copy, PartialEq, Eq, Structural)]
pub enum Tier {
    /// A real measurement on hardware that is not the reference platform: a
    /// laptop, a shared runner, a virtual machine whose neighbours are unknown.
    /// Reproducible, honest, and never headlined.
    Exploratory,
    /// Dedicated Linux hardware, stated in full, with nothing else running. The
    /// only tier a headline number may come from.
    Reference,
}

impl Tier {
    /// What the tier is called.
    pub open spec fn called(self) -> Seq<char> {
        match self {
            Tier::Exploratory => "Exploratory"@,
            Tier::Reference => "Reference"@,
        }
    }

    pub fn name(self) -> (r: &'static str)
        ensures
            r@ == self.called(),
    {
        match self {
            Tier::Exploratory => "Exploratory",
            Tier::Reference => "Reference",
        }
    }

    /// Whether a number from this tier may be quoted without its qualifier.
    pub fn may_be_headlined(self) -> (r: bool)
        ensures
            r == (self == Tier::Reference),
    {
        matches!(self, Tier::Reference)
    }
}

/// Why a run may not produce a published number.
#[derive(Debug, PartialEq, Eq)]
pub enum Refusal {
    FilesystemIsMemory(String),
    FilesystemUnknown,
    /// The sync mode, and what it does not promise.
    SyncNotDurable(&'static str, &'static str),
    HardwareNotStated,
    TooFewRuns(usize),
    TreeModified,
    CommitUnknown,
}

/// What a refusal says.
pub open spec fn refusal_text(e: Refusal) -> Seq<char> {
    match e {
        Refusal::FilesystemIsMemory(name) => "the data directory is on "@ + name@ + ", which is memory: an fsync there returns without doing anything, so this measures a memcpy rather than a durable write"@,
        Refusal::FilesystemUnknown => "the filesystem under the data directory could not be identified, so whether its fsync does anything is unknown"@,
        Refusal::SyncNotDurable(name, why) => "sync mode is "@ + name@ + ", not durable: "@ + why@ + ". A configuration that does not survive power loss may be measured and may not be published as a durability number"@,
        Refusal::HardwareNotStated => "the hardware was not stated. A throughput figure with no CPU, no memory and no filesystem behind it is not reproducible"@,
        Refusal::TooFewRuns(runs) => decimal(runs as nat) + " run(s): a single repetition says nothing about spread, and a number without spread invites a comparison it cannot support"@,
        Refusal::TreeModified => "the working tree is modified, so the commit this names is not the code that ran. A number that cannot identify what produced it is not reproducible, which is the same failure as an unstated CPU"@,
        Refusal::CommitUnknown => "the commit could not be determined, so nothing here can be attributed"@,
    }
}

impl Refusal {
    /// Why not, for a person.
    pub fn message(&self) -> (r: String)
        ensures
            r@ == refusal_text(*self),
    {
        let mut out = String::new();
        match self {
            Refusal::FilesystemIsMemory(name) => {
                out.append("the data directory is on ");
                out.append(name.as_str());
                out.append(", which is memory: an fsync there returns without doing anything, so this measures a memcpy rather than a durable write");
            },
            Refusal::FilesystemUnknown => {
                out.append("the filesystem under the data directory could not be identified, so whether its fsync does anything is unknown");
            },
            Refusal::SyncNotDurable(name, why) => {
                out.append("sync mode is ");
                out.append(name);
                out.append(", not durable: ");
                out.append(why);
                out.append(". A configuration that does not survive power loss may be measured and may not be published as a durability number");
            },
            Refusal::HardwareNotStated => {
                out.append("the hardware was not stated. A throughput figure with no CPU, no memory and no filesystem behind it is not reproducible");
            },
            Refusal::TooFewRuns(runs) => {
                push_decimal(&mut out, *runs as u64);
                out.append(" run(s): a single repetition says nothing about spread, and a number without spread invites a comparison it cannot support");
            },
            Refusal::TreeModified => {
                out.append("the working tree is modified, so the commit this names is not the code that ran. A number that cannot identify what produced it is not reproducible, which is the same failure as an unstated CPU");
            },
            Refusal::CommitUnknown => {
                out.append("the commit could not be determined, so nothing here can be attributed");
            },
        }
        proof {
            assert(out@ =~= refusal_text(*self));
        }
        out
    }
}

/// How many independent repetitions a published number needs.
///
/// Three: medians of three, with the spread stated. Two would let one outlier
/// decide the answer and give no way to notice.
pub const MINIMUM_RUNS: usize = 3;

/// What a sync mode is called, and what it does not promise.
pub open spec fn mode_words(mode: SyncMode) -> (Seq<char>, Seq<char>) {
    match mode {
        SyncMode::Durable => ("durable"@, ""@),
        SyncMode::Full => (
            "full"@,
            "it is measured against the mode that numbers are published in"@,
        ),
        SyncMode::Barrier => (
            "barrier"@,
            "writes are ordered but not made to survive power loss"@,
        ),
        SyncMode::Off => ("none"@, "writes are neither ordered nor durable"@),
    }
}

fn sync_mode_name(mode: SyncMode) -> (r: (&'static str, &'static str))
    ensures
        (r.0@, r.1@) == mode_words(mode),
{
    match mode {
        SyncMode::Durable => ("durable", ""),
        SyncMode::Full => (
            "full",
            "it is measured against the mode that numbers are published in",
        ),
        SyncMode::Barrier => ("barrier", "writes are ordered but not made to survive power loss"),
        SyncMode::Off => ("none", "writes are neither ordered nor durable"),
    }
}

/// Why a run in an environment may not be published, where it may not. The
/// hardware comes first: an environment nobody described cannot be checked for
/// anything else either.
pub open spec fn refused(
    environment: Environment,
    sync_mode: SyncMode,
    runs: usize,
    refusal: Refusal,
) -> bool {
    if !environment.described() {
        refusal is HardwareNotStated
    } else {
        match environment.filesystem {
            Filesystem::Memory(name) => refusal is FilesystemIsMemory
                && refusal->FilesystemIsMemory_0@ == name@,
            Filesystem::Unknown => refusal is FilesystemUnknown,
            Filesystem::Durable(_) => if environment.commit@.len() == 0 {
                refusal is CommitUnknown
            } else if environment.tree_modified {
                refusal is TreeModified
            } else if sync_mode != SyncMode::Durable {
                &&& refusal is SyncNotDurable
                &&& refusal->SyncNotDurable_0@ == mode_words(sync_mode).0
                &&& refusal->SyncNotDurable_1@ == mode_words(sync_mode).1
            } else {
                &&& runs < MINIMUM_RUNS
                &&& refusal == Refusal::TooFewRuns(runs)
            },
        }
    }
}

/// Whether a run in an environment may be published: on hardware somebody
/// described, on a filesystem that is not memory, at a commit that is known and
/// that the tree matches, durably, and often enough.
pub open spec fn may_be_published(
    environment: Environment,
    sync_mode: SyncMode,
    runs: usize,
) -> bool {
    &&& environment.described()
    &&& environment.filesystem is Durable
    &&& environment.commit@.len() > 0
    &&& !environment.tree_modified
    &&& sync_mode == SyncMode::Durable
    &&& runs >= MINIMUM_RUNS
}

/// Proof that a run may be published.
///
/// The only way to get one is [`Publishable::check`]. There is deliberately no
/// constructor, no `Default`, and no way to build one field by field, because
/// each of those is a way for a number to be written down without having passed
/// anything.
#[derive(Debug, PartialEq, Eq)]
pub struct Publishable {
    environment: Environment,
    tier: Tier,
    sync_mode: SyncMode,
    runs: usize,
}

/// What a [`Publishable`] stands for.
pub struct PublishableView {
    pub environment: Environment,
    pub tier: Tier,
    pub sync_mode: SyncMode,
    pub runs: usize,
}

impl View for Publishable {
    type V = PublishableView;

    closed spec fn view(&self) -> PublishableView {
        PublishableView {
            environment: self.environment,
            tier: self.tier,
            sync_mode: self.sync_mode,
            runs: self.runs,
        }
    }
}

/// What is said of a number that may not be headlined.
pub open spec fn headline_note(tier: Tier) -> Seq<char> {
    if tier == Tier::Reference {
        ""@
    } else {
        " — not a headline number; see BENCH.md for what that means"@
    }
}

impl PublishableView {
    /// The provenance block a published result carries.
    pub open spec fn header_text(self) -> Seq<char> {
        self.environment.header_text()
            + "\ntier:   "@
            + self.tier.called()
            + headline_note(self.tier)
            + "\nsync:   durable (F_FULLSYNC or fdatasync, per platform)\nruns:   "@
            + decimal(self.runs as nat)
    }
}

impl Publishable {
    /// Whether the run that this is proof of may be published.
    #[verifier::type_invariant]
    spec fn holds(self) -> bool {
        may_be_published(self.environment, self.sync_mode, self.runs)
    }

    pub fn check(environment: &Environment, tier: Tier, runs: usize) -> (r: Result<Self, Refusal>)
        ensures
            match r {
                Ok(p) => {
                    &&& may_be_published(*environment, SyncMode::Durable, runs)
                    &&& p@ == (PublishableView {
                        environment: *environment,
                        tier,
                        sync_mode: SyncMode::Durable,
                        runs,
                    })
                },
                Err(refusal) => {
                    &&& !may_be_published(*environment, SyncMode::Durable, runs)
                    &&& refused(*environment, SyncMode::Durable, runs, refusal)
                },
            },
    {
        Publishable::check_with_sync(environment, tier, SyncMode::Durable, runs)
    }

    /// The same, for a caller that wants to be explicit about the sync mode.
    pub fn check_with_sync(
        environment: &Environment,
        tier: Tier,
        sync_mode: SyncMode,
        runs: usize,
    ) -> (r: Result<Self, Refusal>)
        ensures
            match r {
                Ok(p) => {
                    &&& may_be_published(*environment, sync_mode, runs)
                    &&& p@ == (PublishableView { environment: *environment, tier, sync_mode, runs })
                },
                Err(refusal) => {
                    &&& !may_be_published(*environment, sync_mode, runs)
                    &&& refused(*environment, sync_mode, runs, refusal)
                },
            },
    {
        // Hardware first: reporting "tmpfs" for a host that was never probed
        // would be a confusing way to say "unprobed".
        if !environment.is_stated() {
            return Err(Refusal::HardwareNotStated);
        }
        match &environment.filesystem {
            Filesystem::Memory(name) => {
                return Err(Refusal::FilesystemIsMemory(name.clone()));
            },
            Filesystem::Unknown => {
                return Err(Refusal::FilesystemUnknown);
            },
            Filesystem::Durable(_) => {},
        }
        if environment.commit.as_str().is_empty() {
            return Err(Refusal::CommitUnknown);
        }
        if environment.tree_modified {
            return Err(Refusal::TreeModified);
        }
        if sync_mode != SyncMode::Durable {
            let (name, why) = sync_mode_name(sync_mode);
            return Err(Refusal::SyncNotDurable(name, why));
        }
        if runs < MINIMUM_RUNS {
            return Err(Refusal::TooFewRuns(runs));
        }
        Ok(Publishable { environment: environment.clone(), tier, sync_mode, runs })
    }

    pub fn tier(&self) -> (r: Tier)
        ensures
            r == self@.tier,
    {
        self.tier
    }

    pub fn runs(&self) -> (r: usize)
        ensures
            r == self@.runs,
    {
        self.runs
    }

    pub fn environment(&self) -> (r: &Environment)
        ensures
            *r == self@.environment,
    {
        &self.environment
    }

    /// The provenance block a published result carries. Whoever holds one of these
    /// holds a run that may be published.
    pub fn header(&self) -> (r: String)
        ensures
            r@ == self@.header_text(),
            may_be_published(self@.environment, self@.sync_mode, self@.runs),
    {
        proof {
            use_type_invariant(self);
        }
        let note = if self.tier.may_be_headlined() {
            ""
        } else {
            " — not a headline number; see BENCH.md for what that means"
        };
        let mut out = String::new();
        out.append(self.environment.render().as_str());
        out.append("\ntier:   ");
        out.append(self.tier.name());
        out.append(note);
        out.append("\nsync:   durable (F_FULLSYNC or fdatasync, per platform)\nruns:   ");
        push_decimal(&mut out, self.runs as u64);
        proof {
            assert(out@ =~= self@.header_text());
        }
        out
    }
}

/// A run that may be recorded and may not be published, with the reason it may
/// not stamped into it.
///
/// The second door, and it has to exist. An ablation measuring throughput
/// without a sync is not a mistake, it is the experiment. Without this, the only
/// way to record that arm would be to lower the bar.
#[derive(Debug, PartialEq, Eq)]
pub struct Admitted {
    environment: Environment,
    refusal: Refusal,
    /// Why this run was worth recording anyway.
    purpose: String,
}

/// What an [`Admitted`] stands for.
pub struct AdmittedView {
    pub environment: Environment,
    pub refusal: Refusal,
    pub purpose: Seq<char>,
}

impl View for Admitted {
    type V = AdmittedView;

    closed spec fn view(&self) -> AdmittedView {
        AdmittedView {
            environment: self.environment,
            refusal: self.refusal,
            purpose: self.purpose@,
        }
    }
}

impl AdmittedView {
    /// The provenance block a recorded result carries.
    pub open spec fn header_text(self) -> Seq<char> {
        self.environment.header_text()
            + "\ntier:   NOT PUBLISHABLE\nwhy:    "@
            + refusal_text(self.refusal)
            + "\nrecorded because: "@
            + self.purpose
    }
}

impl Admitted {
    /// Record a run that cannot be published, saying what it is for.
    ///
    /// `purpose` is not decoration. It is the difference between an arm of an
    /// ablation and a disk that would not go faster, and later it is the only
    /// thing that distinguishes them.
    pub fn new(environment: &Environment, refusal: Refusal, purpose: &str) -> (r: Self)
        ensures
            r@ == (AdmittedView { environment: *environment, refusal, purpose: purpose@ }),
    {
        Admitted { environment: environment.clone(), refusal, purpose: purpose.to_owned() }
    }

    pub fn refusal(&self) -> (r: &Refusal)
        ensures
            *r == self@.refusal,
    {
        &self.refusal
    }

    /// The provenance block a recorded result carries.
    pub fn header(&self) -> (r: String)
        ensures
            r@ == self@.header_text(),
    {
        let mut out = String::new();
        out.append(self.environment.render().as_str());
        out.append("\ntier:   NOT PUBLISHABLE\nwhy:    ");
        out.append(self.refusal.message().as_str());
        out.append("\nrecorded because: ");
        out.append(self.purpose.as_str());
        proof {
            assert(out@ =~= self@.header_text());
        }
        out
    }
}

/// A run that may be published is refused for no reason, and one that may not be
/// is refused for a reason.
pub proof fn law_a_run_is_published_or_refused(
    environment: Environment,
    sync_mode: SyncMode,
    runs: usize,
)
    ensures
        may_be_published(environment, sync_mode, runs) <==> !exists|refusal: Refusal|
            #[trigger] refused(environment, sync_mode, runs, refusal),
{
    let why = if !environment.described() {
        Refusal::HardwareNotStated
    } else {
        match environment.filesystem {
            Filesystem::Memory(name) => Refusal::FilesystemIsMemory(name),
            Filesystem::Unknown => Refusal::FilesystemUnknown,
            Filesystem::Durable(_) => if environment.commit@.len() == 0 {
                Refusal::CommitUnknown
            } else if environment.tree_modified {
                Refusal::TreeModified
            } else if sync_mode == SyncMode::Full {
                Refusal::SyncNotDurable(
                    "full",
                    "it is measured against the mode that numbers are published in",
                )
            } else if sync_mode == SyncMode::Barrier {
                Refusal::SyncNotDurable(
                    "barrier",
                    "writes are ordered but not made to survive power loss",
                )
            } else if sync_mode == SyncMode::Off {
                Refusal::SyncNotDurable("none", "writes are neither ordered nor durable")
            } else {
                Refusal::TooFewRuns(runs)
            },
        }
    };
    if !may_be_published(environment, sync_mode, runs) {
        assert(refused(environment, sync_mode, runs, why));
    }
}

/// A run is refused for one reason: two refusals of it say the same.
pub proof fn law_a_refusal_is_for_one_reason(
    environment: Environment,
    sync_mode: SyncMode,
    runs: usize,
    one: Refusal,
    other: Refusal,
)
    requires
        refused(environment, sync_mode, runs, one),
        refused(environment, sync_mode, runs, other),
    ensures
        refusal_text(one) == refusal_text(other),
{
}

} // verus!
