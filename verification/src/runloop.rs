use vstd::prelude::*;

verus! {

/// The run loop's life cycle: it runs cycles, is asked to stop, and stops.
#[derive(Clone, Copy, Debug, PartialEq, Eq, Structural)]
pub enum Phase {
    Running,
    Stopping,
    Stopped,
}

/// The cooperative shutdown state shared between the run loop and whatever
/// requests shutdown (an interrupt handler, an interactive quit command).
/// Starts in `Running`; a stop request moves it to `Stopping`; the loop
/// itself, once it has observed the request and let the current cycle
/// finish, moves it to `Stopped`.
pub struct CancellationState {
    pub phase: Phase,
}

impl CancellationState {
    /// A fresh state: the loop may run cycles.
    pub fn new() -> (c: CancellationState)
        ensures
            c.phase == Phase::Running,
    {
        CancellationState { phase: Phase::Running }
    }

    /// Requests shutdown. A running loop becomes stopping; a loop already
    /// stopping or stopped is left as it is.
    pub fn request_stop(&mut self)
        ensures
            final(self).phase == (if old(self).phase == Phase::Running {
                Phase::Stopping
            } else {
                old(self).phase
            }),
    {
        if self.phase == Phase::Running {
            self.phase = Phase::Stopping;
        }
    }

    /// Whether the loop may start another cycle: only while no stop has been
    /// requested. Once a stop request has been observed, no new cycle starts.
    pub fn should_start_cycle(&self) -> (r: bool)
        ensures
            r == (self.phase == Phase::Running),
    {
        match self.phase {
            Phase::Running => true,
            Phase::Stopping => false,
            Phase::Stopped => false,
        }
    }

    /// Records that the loop has wound down after observing a stop request.
    pub fn mark_stopped(&mut self)
        requires
            old(self).phase == Phase::Stopping,
        ensures
            final(self).phase == Phase::Stopped,
    {
        self.phase = Phase::Stopped;
    }
}

/// Whether one line read from standard input requests shutdown: exactly the
/// literal line `q` does.
pub fn is_quit_command(line: &Vec<u8>) -> (r: bool)
    ensures
        r == (line@ == seq![113u8]),
{
    if line.len() == 1 {
        let c = line[0];
        proof {
            if c == 113u8 {
                assert(line@ =~= seq![113u8]);
            }
        }
        c == 113u8
    } else {
        proof {
            assert(line@.len() != 1);
        }
        false
    }
}

} // verus!
