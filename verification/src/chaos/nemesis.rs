//! Stopping and killing real processes.
//!
//! Two faults, and they are not the same one. A kill is a crash: the process is
//! gone, and whatever it had not synced is lost. A stop is a *pause*, and it is
//! the meaner of the two: the process still holds its sockets open, so its peers
//! see a live connection that never answers, and then it resumes holding every
//! belief it had before.
//!
//! What is decided here is which signals a fault takes, and what is true of the
//! process afterwards. Sending them is somebody else's.

use vstd::prelude::*;
use vstd::string::*;

use crate::chaos::ChaosError;

verus! {

/// A signal, aimed at a node's whole process group.
#[derive(Debug, Clone, Copy, PartialEq, Eq, Structural)]
pub enum Signal {
    Stop,
    Continue,
    Kill,
}

/// What came of sending a signal.
#[derive(Debug)]
pub enum Sent {
    Delivered,
    /// There is no such process.
    Nobody,
    /// It failed otherwise, and this is what the system said.
    Failed(String),
}

/// One node under supervision.
#[derive(Debug)]
pub struct Process {
    pub name: String,
    pub stopped: bool,
    /// Every kill and every stop, counted. A chaos run that reports "no
    /// violations" without saying how many faults it injected has not said
    /// anything.
    pub kills: u64,
    pub stops: u64,
    pub starts: u64,
}

/// What a fault takes.
#[derive(Debug, Clone, Copy, PartialEq, Eq, Structural)]
pub enum Take {
    /// Nothing: it is so already.
    Nothing,
    /// This one signal.
    One(Signal),
    /// First the one, then the other.
    Both(Signal, Signal),
}

impl Process {
    pub fn new(name: &str) -> (r: Self)
        ensures
            r.name@ == name@,
            !r.stopped,
            r.kills == 0,
            r.stops == 0,
            r.starts == 0,
    {
        Process { name: name.to_owned(), stopped: false, kills: 0, stops: 0, starts: 0 }
    }

    /// Whether starting it means spawning it. One that runs is left alone.
    pub fn needs_spawn(&self, running: bool) -> (r: bool)
        ensures
            r == !running,
    {
        !running
    }

    /// It was spawned: a restart is another lifetime, and it is not paused.
    pub fn spawned(&mut self)
        requires
            old(self).starts < u64::MAX,
        ensures
            final(self).name == old(self).name,
            final(self).kills == old(self).kills,
            final(self).stops == old(self).stops,
            !final(self).stopped,
            final(self).starts == old(self).starts + 1,
    {
        self.stopped = false;
        self.starts = self.starts + 1;
    }

    /// What killing it takes. A paused process cannot be reaped: it has to be
    /// resumed to die, or waiting for its end would never return.
    pub fn kill(&self, running: bool) -> (r: Result<Take, ChaosError>)
        ensures
            r is Ok <==> running,
            r matches Ok(take) ==> take == (if self.stopped {
                Take::Both(Signal::Continue, Signal::Kill)
            } else {
                Take::One(Signal::Kill)
            }),
            r matches Err(e) ==> e is NotRunning && e->NotRunning_0@ == self.name@,
    {
        if !running {
            return Err(ChaosError::NotRunning(self.name.clone()));
        }
        if self.stopped {
            Ok(Take::Both(Signal::Continue, Signal::Kill))
        } else {
            Ok(Take::One(Signal::Kill))
        }
    }

    /// What pausing it takes. Its sockets stay open and unanswered.
    pub fn stop(&self, running: bool) -> (r: Result<Take, ChaosError>)
        ensures
            r is Ok <==> running,
            r matches Ok(take) ==> take == (if self.stopped {
                Take::Nothing
            } else {
                Take::One(Signal::Stop)
            }),
            r matches Err(e) ==> e is NotRunning && e->NotRunning_0@ == self.name@,
    {
        if !running {
            return Err(ChaosError::NotRunning(self.name.clone()));
        }
        if self.stopped {
            Ok(Take::Nothing)
        } else {
            Ok(Take::One(Signal::Stop))
        }
    }

    /// What resuming it takes. It still believes whatever it believed.
    pub fn resume(&self) -> (r: Take)
        ensures
            r == (if self.stopped {
                Take::One(Signal::Continue)
            } else {
                Take::Nothing
            }),
    {
        if self.stopped {
            Take::One(Signal::Continue)
        } else {
            Take::Nothing
        }
    }

    /// What is true of it once a signal was sent, or why it was not delivered.
    /// One that was not delivered changes nothing.
    pub fn signalled(&mut self, signal: Signal, sent: Sent) -> (r: Result<(), ChaosError>)
        requires
            old(self).kills < u64::MAX,
            old(self).stops < u64::MAX,
        ensures
            final(self).name == old(self).name,
            final(self).starts == old(self).starts,
            sent is Delivered ==> {
                &&& r is Ok
                &&& final(self).stopped == (match signal {
                    Signal::Stop => true,
                    Signal::Continue => false,
                    Signal::Kill => old(self).stopped,
                })
                &&& final(self).kills == old(self).kills + (if signal is Kill {
                    1int
                } else {
                    0
                })
                &&& final(self).stops == old(self).stops + (if signal is Stop {
                    1int
                } else {
                    0
                })
            },
            !(sent is Delivered) ==> {
                &&& r is Err
                &&& final(self).stopped == old(self).stopped
                &&& final(self).kills == old(self).kills
                &&& final(self).stops == old(self).stops
            },
            sent is Nobody ==> r->Err_0 is NotRunning && r->Err_0->NotRunning_0@
                == old(self).name@,
            sent matches Sent::Failed(why) ==> r->Err_0 is Io && r->Err_0->Io_0 == why,
    {
        match sent {
            Sent::Delivered => {},
            Sent::Nobody => {
                return Err(ChaosError::NotRunning(self.name.clone()));
            },
            Sent::Failed(why) => {
                return Err(ChaosError::Io(why));
            },
        }
        match signal {
            Signal::Stop => {
                self.stopped = true;
                self.stops = self.stops + 1;
            },
            Signal::Continue => {
                self.stopped = false;
            },
            Signal::Kill => {
                self.kills = self.kills + 1;
            },
        }
        Ok(())
    }

    /// Whether waiting for a node to be ready is over, and how it ended. A node
    /// that exits during startup is a different failure from one that is slow,
    /// and waiting the full timeout on it wastes the run's budget.
    pub fn waited(&self, ready: bool, running: bool, in_time: bool) -> (r: Option<
        Result<(), ChaosError>,
    >)
        ensures
            !in_time ==> r is Some && r->Some_0 is Err && r->Some_0->Err_0 is NeverReady
                && r->Some_0->Err_0->NeverReady_0@ == self.name@,
            in_time && ready ==> r is Some && r->Some_0 is Ok,
            in_time && !ready && !running ==> r is Some && r->Some_0 is Err
                && r->Some_0->Err_0 is DiedDuringStartup
                && r->Some_0->Err_0->DiedDuringStartup_0@ == self.name@,
            in_time && !ready && running ==> r is None,
    {
        if !in_time {
            return Some(Err(ChaosError::NeverReady(self.name.clone())));
        }
        if ready {
            return Some(Ok(()));
        }
        if !running {
            return Some(Err(ChaosError::DiedDuringStartup(self.name.clone())));
        }
        None
    }
}

} // verus!
