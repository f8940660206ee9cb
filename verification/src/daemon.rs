//! The daemon's shared control state and its start/stop admission rules:
//! start and stop sequences must never overlap, and a start is refused
//! while services already run.  Thread plumbing and persistence are
//! boundary work.
use vstd::prelude::*;

use crate::settings::StartSettings;

verus! {

/// The daemon's control state.
#[derive(Debug)]
pub struct State {
    pub token: String,
    pub services_running: bool,
    pub start_in_progress: bool,
    pub stop_in_progress: bool,
    pub start: StartSettings,
}

impl State {
    /// Admit a start request: refused while another operation runs or the
    /// services are already up; when admitted, the state is marked busy.
    pub fn begin_start(&mut self) -> (r: bool)
        ensures
            r == (!old(self).start_in_progress && !old(self).stop_in_progress && !old(
                self,
            ).services_running),
            r ==> final(self).start_in_progress,
            !r ==> *final(self) == *old(self),
            final(self).services_running == old(self).services_running,
            final(self).stop_in_progress == old(self).stop_in_progress,
            final(self).token == old(self).token,
    {
        if self.start_in_progress || self.stop_in_progress || self.services_running {
            return false;
        }
        self.start_in_progress = true;
        true
    }

    /// Admit a stop request: refused while another operation runs; when
    /// admitted, the running flag is cleared and the state marked busy.
    pub fn begin_stop(&mut self) -> (r: bool)
        ensures
            r == (!old(self).start_in_progress && !old(self).stop_in_progress),
            r ==> final(self).stop_in_progress && !final(self).services_running,
            !r ==> *final(self) == *old(self),
            final(self).start_in_progress == old(self).start_in_progress,
            final(self).token == old(self).token,
    {
        if self.stop_in_progress || self.start_in_progress {
            return false;
        }
        self.services_running = false;
        self.stop_in_progress = true;
        true
    }

    /// Record the outcome of a finished start sequence.
    pub fn finish_start(&mut self, ok: bool)
        ensures
            final(self).services_running == ok,
            !final(self).start_in_progress,
            final(self).stop_in_progress == old(self).stop_in_progress,
            final(self).token == old(self).token,
    {
        self.services_running = ok;
        self.start_in_progress = false;
    }

    /// Record that a stop sequence finished.
    pub fn finish_stop(&mut self)
        ensures
            !final(self).services_running,
            !final(self).stop_in_progress,
            final(self).start_in_progress == old(self).start_in_progress,
            final(self).token == old(self).token,
    {
        self.services_running = false;
        self.stop_in_progress = false;
    }
}

} // verus!
