use vstd::prelude::*;

verus! {

/// A child process started stopped, which is let go exactly once.
pub struct ProcessLauncher {
    pub pid: i32,
    paused: bool,
}

impl ProcessLauncher {
    pub closed spec fn spec_pid(&self) -> i32 {
        self.pid
    }

    pub closed spec fn spec_paused(&self) -> bool {
        self.paused
    }

    /// A launcher for the stopped child `pid`.
    pub fn stopped(pid: i32) -> (r: ProcessLauncher)
        ensures
            r.spec_pid() == pid,
            r.spec_paused(),
    {
        ProcessLauncher { pid, paused: true }
    }

    /// The child's process id.
    pub fn pid(&self) -> (r: i32)
        ensures
            r == self.spec_pid(),
    {
        self.pid
    }

    /// Whether the child still waits for its continue signal.
    pub fn is_paused(&self) -> (r: bool)
        ensures
            r == self.spec_paused(),
    {
        self.paused
    }

    /// Notes that the continue signal was delivered.
    pub fn mark_resumed(&mut self)
        ensures
            !final(self).spec_paused(),
            final(self).spec_pid() == old(self).spec_pid(),
    {
        self.paused = false;
    }
}

} // verus!
