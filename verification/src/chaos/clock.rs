//! Moving a node's clock, and proving the move landed.
//!
//! A Raft node's timeouts are read off the monotonic clock, because that is the
//! clock that is not supposed to jump. The fault worth injecting is the one the
//! documentation says cannot happen: a monotonic clock that leaps forward.
//!
//! The mechanism is `libfaketime` with a timestamp file: the offset lives in a
//! file the preloaded library re-reads, so the jump happens at a moment the
//! schedule chooses rather than at process start.

use vstd::prelude::*;
use vstd::string::*;

use crate::chaos::ChaosError;
use crate::log::segment::{path_in, path_of};
use crate::text::{plus_decimal, push_plus};
use crate::time::Duration;

verus! {

/// A clock reading in milliseconds.
pub fn reading_ms(secs: u64, nanos: u64) -> (r: u64)
    requires
        secs <= 18_000_000_000_000_000,
    ensures
        r == secs * 1_000 + nanos / 1_000_000,
{
    secs * 1_000 + nanos / 1_000_000
}

/// Where the library lives, in the order the places are tried.
pub fn candidates() -> (r: Vec<&'static str>)
    ensures
        r@.len() == 5,
        r@[0]@ == "/usr/lib/x86_64-linux-gnu/faketime/libfaketime.so.1"@,
        r@[1]@ == "/usr/lib/aarch64-linux-gnu/faketime/libfaketime.so.1"@,
        r@[2]@ == "/usr/lib/faketime/libfaketime.so.1"@,
        r@[3]@ == "/usr/local/lib/faketime/libfaketime.so.1"@,
        r@[4]@ == "/usr/lib64/faketime/libfaketime.so.1"@,
{
    let mut r: Vec<&'static str> = Vec::new();
    r.push("/usr/lib/x86_64-linux-gnu/faketime/libfaketime.so.1");
    r.push("/usr/lib/aarch64-linux-gnu/faketime/libfaketime.so.1");
    r.push("/usr/lib/faketime/libfaketime.so.1");
    r.push("/usr/local/lib/faketime/libfaketime.so.1");
    r.push("/usr/lib64/faketime/libfaketime.so.1");
    r
}

/// A place the library might be, and whether it is there.
pub struct Place {
    pub path: String,
    pub exists: bool,
}

/// The first place that exists.
pub open spec fn first_existing(places: Seq<Place>) -> Option<Seq<char>>
    decreases places.len(),
{
    if places.len() == 0 {
        None
    } else if places[0].exists {
        Some(places[0].path@)
    } else {
        first_existing(places.skip(1))
    }
}

/// Where the library is. A place that was named is the only one looked at: a
/// name that is wrong is not made good by another.
pub open spec fn library_among(explicit: Option<Place>, places: Seq<Place>) -> Option<Seq<char>> {
    match explicit {
        Some(place) => if place.exists {
            Some(place.path@)
        } else {
            None
        },
        None => first_existing(places),
    }
}

/// Where the library is.
pub fn find_library(explicit: Option<Place>, places: &[Place]) -> (r: Option<String>)
    ensures
        r is Some <==> library_among(explicit, places@) is Some,
        r matches Some(path) ==> path@ == library_among(explicit, places@)->Some_0,
{
    let ghost found = library_among(explicit, places@);
    match explicit {
        Some(place) => {
            if place.exists {
                return Some(place.path);
            }
            return None;
        },
        None => {},
    }
    let mut i: usize = 0;
    proof {
        assert(places@.skip(0) =~= places@);
    }
    while i < places.len()
        invariant
            i <= places@.len(),
            found == library_among(explicit, places@),
            found == first_existing(places@.skip(i as int)),
        decreases places@.len() - i,
    {
        proof {
            assert(places@.skip(i as int)[0] == places@[i as int]);
            assert(places@.skip(i as int).skip(1) =~= places@.skip(i + 1));
        }
        if places[i].exists {
            return Some(places[i].path.clone());
        }
        i += 1;
    }
    proof {
        assert(places@.skip(i as int).len() == 0);
    }
    None
}

/// Why the clock nemesis is not available here.
#[derive(Debug, Clone, Copy, PartialEq, Eq, Structural)]
pub enum Unavailable {
    /// macOS: a property of the platform, not a missing package.
    SystemIntegrityProtection,
    /// Linux, but `libfaketime` is not installed.
    LibraryMissing,
}

/// Why the clock nemesis is not available, for a person.
pub open spec fn unavailable_text(why: Unavailable) -> Seq<char> {
    match why {
        Unavailable::SystemIntegrityProtection => "macOS strips DYLD_INSERT_LIBRARIES under System Integrity Protection, and does not interpose the commpage mach_absolute_time reads; run the clock nemesis in a Linux container"@,
        Unavailable::LibraryMissing => "libfaketime is not installed (apt-get install faketime), or set KEEL_FAKETIME_LIB to its .so"@,
    }
}

impl Unavailable {
    pub fn message(&self) -> (r: String)
        ensures
            r@ == unavailable_text(*self),
    {
        match self {
            Unavailable::SystemIntegrityProtection => "macOS strips DYLD_INSERT_LIBRARIES under System Integrity Protection, and does not interpose the commpage mach_absolute_time reads; run the clock nemesis in a Linux container".to_owned(),
            Unavailable::LibraryMissing => "libfaketime is not installed (apt-get install faketime), or set KEEL_FAKETIME_LIB to its .so".to_owned(),
        }
    }
}

/// The offset file, and the environment that makes a child read it.
pub struct Faketime {
    library: String,
    file: String,
    /// Cumulative, in seconds. Jumps compose: a schedule that jumps twice has
    /// moved the clock by the sum, which is what a reader of the log expects.
    offset_secs: i64,
}

/// Where an offset stands after a jump, in whole seconds.
pub open spec fn jumped(offset: int, delta: nat, forward: bool) -> int {
    if forward {
        offset + delta / 1_000_000_000
    } else {
        offset - delta / 1_000_000_000
    }
}

/// A jump back by as much as one forward restores the offset, and jumps by whole
/// seconds add up.
pub proof fn law_jumps_add_up(offset: int, a: nat, b: nat, forward: bool)
    requires
        a % 1_000_000_000 == 0,
    ensures
        jumped(jumped(offset, a, forward), a, !forward) == offset,
        jumped(jumped(offset, a, forward), b, forward) == jumped(offset, a + b, forward),
{
}

impl Faketime {
    pub closed spec fn library_of(&self) -> Seq<char> {
        self.library@
    }

    /// The file that holds the offset.
    pub closed spec fn file_of(&self) -> Seq<char> {
        self.file@
    }

    /// How far every faked clock is moved, in seconds.
    pub closed spec fn offset_of(&self) -> int {
        self.offset_secs as int
    }

    /// Whether a clock jump can be injected on this host at all, and why not.
    pub fn available(macos: bool, library: Option<String>) -> (r: Result<String, Unavailable>)
        ensures
            r is Ok <==> !macos && library is Some,
            r matches Ok(path) ==> Some(path) == library,
            r matches Err(why) ==> why == (if macos {
                Unavailable::SystemIntegrityProtection
            } else {
                Unavailable::LibraryMissing
            }),
    {
        if macos {
            return Err(Unavailable::SystemIntegrityProtection);
        }
        match library {
            Some(path) => Ok(path),
            None => Err(Unavailable::LibraryMissing),
        }
    }

    /// A clock that is where it was, with its offset file in a directory.
    pub fn new(dir: &str, available: Result<String, Unavailable>) -> (r: Result<Self, ChaosError>)
        ensures
            match available {
                Ok(library) => {
                    &&& r is Ok
                    &&& r->Ok_0.library_of() == library@
                    &&& r->Ok_0.file_of() == path_of(dir@, "faketime.offset"@)
                    &&& r->Ok_0.offset_of() == 0
                },
                Err(why) => {
                    &&& r is Err
                    &&& r->Err_0 is NoClockControl
                    &&& r->Err_0->NoClockControl_0@ == unavailable_text(why)
                },
            },
    {
        match available {
            Ok(library) => Ok(
                Faketime { library, file: path_in(dir, "faketime.offset"), offset_secs: 0 },
            ),
            Err(why) => Err(ChaosError::NoClockControl(why.message())),
        }
    }

    /// Where the offset is written.
    pub fn file(&self) -> (r: &str)
        ensures
            r@ == self.file_of(),
    {
        self.file.as_str()
    }

    /// What the offset file holds. A leading sign means an offset from the real
    /// clock rather than an absolute time.
    pub fn contents(&self) -> (r: String)
        ensures
            r@ == plus_decimal(self.offset_of()).push('\n'),
    {
        let mut out = String::new();
        push_plus(&mut out, self.offset_secs);
        out.push('\n');
        proof {
            assert(out@ =~= plus_decimal(self.offset_of()).push('\n'));
        }
        out
    }

    /// The variables a child must be started with for its clock to be
    /// controllable. Without the third the library caches the offset for ten
    /// seconds, and a jump would land long after the schedule said; without the
    /// fourth it leaves the monotonic clock alone, which is the one that matters.
    pub fn env(&self) -> (r: Vec<(String, String)>)
        ensures
            r@.len() == 4,
            r@[0].0@ == "LD_PRELOAD"@ && r@[0].1@ == self.library_of(),
            r@[1].0@ == "FAKETIME_TIMESTAMP_FILE"@ && r@[1].1@ == self.file_of(),
            r@[2].0@ == "FAKETIME_NO_CACHE"@ && r@[2].1@ == "1"@,
            r@[3].0@ == "FAKETIME_DONT_FAKE_MONOTONIC"@ && r@[3].1@ == "0"@,
    {
        let mut r: Vec<(String, String)> = Vec::new();
        r.push(("LD_PRELOAD".to_owned(), self.library.clone()));
        r.push(("FAKETIME_TIMESTAMP_FILE".to_owned(), self.file.clone()));
        r.push(("FAKETIME_NO_CACHE".to_owned(), "1".to_owned()));
        r.push(("FAKETIME_DONT_FAKE_MONOTONIC".to_owned(), "0".to_owned()));
        r
    }

    /// Move every faked clock by whole seconds, and say where it is now.
    pub fn jump(&mut self, delta: Duration, forward: bool) -> (r: i64)
        requires
            i64::MIN <= jumped(old(self).offset_of(), delta@, forward) <= i64::MAX,
        ensures
            final(self).library_of() == old(self).library_of(),
            final(self).file_of() == old(self).file_of(),
            final(self).offset_of() == jumped(old(self).offset_of(), delta@, forward),
            r == final(self).offset_of(),
    {
        let secs: i64 = (delta.as_nanos() / 1_000_000_000) as i64;
        if forward {
            self.offset_secs = self.offset_secs + secs;
        } else {
            self.offset_secs = self.offset_secs - secs;
        }
        self.offset_secs
    }

    pub fn offset_secs(&self) -> (r: i64)
        ensures
            r == self.offset_of(),
    {
        self.offset_secs
    }
}

/// What a probe saw across a jump.
#[derive(Debug, Clone, Copy, PartialEq, Eq, Structural)]
pub struct Observed {
    /// What the monotonic clock advanced by, as the probe read it.
    pub monotonic_delta_ms: u64,
    /// What actually elapsed, measured by a clock the jump did not touch.
    pub real_delta_ms: u64,
}

impl Observed {
    /// How far monotonic time outran real time.
    pub open spec fn excess(self) -> nat {
        if self.monotonic_delta_ms > self.real_delta_ms {
            (self.monotonic_delta_ms - self.real_delta_ms) as nat
        } else {
            0
        }
    }

    /// Whether the jump reached the monotonic clock.
    ///
    /// The test is a *discontinuity*, not a large delta: a probe that slept for
    /// ten seconds also reports ten seconds. What proves the jump is monotonic
    /// time outrunning real time by nine tenths of the amount asked for: the
    /// probe's own scheduling costs a few milliseconds, and the library's
    /// granularity is a second.
    pub fn confirms(&self, asked_ms: u64) -> (r: bool)
        ensures
            r == (self.excess() * 10 >= asked_ms * 9),
    {
        let excess: u64 = self.monotonic_delta_ms.saturating_sub(self.real_delta_ms);
        excess as u128 * 10 >= asked_ms as u128 * 9
    }
}

/// Elapsed time is not evidence: a probe that merely waited does not confirm a
/// jump, however long it waited.
pub proof fn law_waiting_is_not_a_jump(observed: Observed, asked_ms: u64)
    requires
        observed.monotonic_delta_ms <= observed.real_delta_ms,
        asked_ms > 0,
    ensures
        observed.excess() * 10 < asked_ms * 9,
{
}

} // verus!
