//! Stopping a phase: on a timeout, or when the user asks for it.
use vstd::prelude::*;

verus! {

/// Stops the current phase on a timeout or when Ctrl-C is pressed.
///
/// The presses are counted for the whole process. Every terminator compares the count with the one
/// it saw at its last reset, so several of them can be in use without interfering with each other.
#[derive(Debug, Clone, Copy, PartialEq, Eq, Structural)]
pub struct CtrlCTerminator {
    /// When the time is up (ns), if there is a limit.
    pub timeout: Option<u128>,
    /// The presses at the last reset.
    pub ctrlc_count_at_reset: usize,
}

impl CtrlCTerminator {
    /// A terminator without a limit, given the presses so far.
    pub fn new(ctrlc_count: usize) -> (r: CtrlCTerminator)
        ensures
            r == (CtrlCTerminator { timeout: None, ctrlc_count_at_reset: ctrlc_count }),
    {
        CtrlCTerminator { timeout: None, ctrlc_count_at_reset: ctrlc_count }
    }

    /// Whether the phase has to stop at this time, after this many presses.
    pub open spec fn kills(self, now: u128, ctrlc_count: usize) -> bool {
        (self.timeout matches Some(t) && now > t) || ctrlc_count > self.ctrlc_count_at_reset
    }

    /// Whether the phase has to stop at this time, after this many presses.
    pub fn kill(&self, now: u128, ctrlc_count: usize) -> (r: bool)
        ensures
            r == self.kills(now, ctrlc_count),
    {
        let late: bool = match self.timeout {
            Some(t) => now > t,
            None => false,
        };
        late || ctrlc_count > self.ctrlc_count_at_reset
    }

    /// Sets a new limit, counted from now, and forgets the presses so far.
    pub fn new_timeout(&mut self, now: u128, ctrlc_count: usize, timeout: u128)
        requires
            now + timeout <= u128::MAX,
        ensures
            *final(self) == (CtrlCTerminator {
                timeout: Some((now + timeout) as u128),
                ctrlc_count_at_reset: ctrlc_count,
            }),
    {
        self.ctrlc_count_at_reset = ctrlc_count;
        self.timeout = Some(now + timeout);
    }

    /// When the time is up.
    pub fn timeout_at(&self) -> (r: Option<u128>)
        ensures
            r == self.timeout,
    {
        self.timeout
    }
}

/// **A press ends the current phase only**: right after a reset the terminator does not stop the
/// phase, however often the user pressed before; the next press does, and so does the time limit.
pub proof fn lemma_a_press_ends_one_phase(
    t: CtrlCTerminator,
    now: u128,
    later: u128,
    count: usize,
    later_count: usize,
)
    requires
        t.ctrlc_count_at_reset == count,
        t.timeout matches Some(at) && at >= now,
    ensures
        !t.kills(now, count),
        later_count > count ==> t.kills(later, later_count),
        later > t.timeout->0 ==> t.kills(later, later_count),
{
}

/// **Once stopped, stopped**: as time goes on and presses accumulate, a phase that has to stop never
/// has to go on.
pub proof fn lemma_kill_is_final(
    t: CtrlCTerminator,
    now: u128,
    later: u128,
    count: usize,
    later_count: usize,
)
    requires
        now <= later,
        count <= later_count,
        t.kills(now, count),
    ensures
        t.kills(later, later_count),
{
}

/// **A phase goes on until its time is up or the user asks for its end**: up to the limit itself, and forever
/// without one, as long as nobody presses.
pub proof fn lemma_a_phase_goes_on(t: CtrlCTerminator, now: u128, count: usize)
    requires
        count <= t.ctrlc_count_at_reset,
    ensures
        t.timeout is None ==> !t.kills(now, count),
        t.timeout matches Some(at) ==> (t.kills(now, count) <==> now > at),
{
}

} // verus!
