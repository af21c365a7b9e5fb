//! The lifecycle of an in-flight streaming search, and its cleanup.
//!
//! The transport owns the state and moves it forward on protocol
//! events; the lifecycle manager here only reads it to decide the
//! cleanup action, and guarantees that abandonment of a not-yet-
//! exhausted search happens at most once, on whichever path the
//! caller stops consuming.

use vstd::prelude::*;

verus! {

/// The state of an in-flight streaming search.
#[derive(Debug, Clone, Copy, PartialEq, Eq, Structural)]
pub enum StreamState {
    /// Not yet started.
    Fresh,
    /// Entries may still arrive.
    Active,
    /// The server signalled the normal end of results.
    Done,
    /// Explicitly finished or abandoned.
    Closed,
    /// A protocol error occurred; further interaction is unsafe.
    Error,
}

/// How far along the one-way lifecycle a state is.
pub open spec fn state_rank(s: StreamState) -> int {
    match s {
        StreamState::Fresh => 0,
        StreamState::Active => 1,
        StreamState::Done => 2,
        StreamState::Error => 2,
        StreamState::Closed => 3,
    }
}

/// The moves the transport may make: forward through the lifecycle,
/// never back, and never between the two terminal outcomes.
pub open spec fn transition_ok(from: StreamState, to: StreamState) -> bool {
    from == to || state_rank(from) < state_rank(to)
}

/// True when cleanup still has work to do from this state.
pub open spec fn spec_needs_cleanup(s: StreamState) -> bool {
    !(s is Done || s is Closed)
}

/// One run of the cleanup path over the model `(state, abandons)`:
/// nothing to do from `Done` or `Closed`; otherwise `finish` is
/// called and `observed` is the state the transport then reports;
/// a still-open operation (`Fresh` or `Active`) is abandoned exactly
/// once and the stream is closed.
pub open spec fn spec_cleanup(lc: (StreamState, int), observed: StreamState) -> (
    (StreamState, int),
    bool,
) {
    if !spec_needs_cleanup(lc.0) {
        (lc, false)
    } else if observed is Fresh || observed is Active {
        ((StreamState::Closed, lc.1 + 1), true)
    } else {
        ((observed, lc.1), false)
    }
}

/// Cleanup is idempotent: however the first run of the early-stop
/// path ended, a second run issues no abandon and leaves the abandon
/// count unchanged.
pub proof fn lemma_cleanup_idempotent(lc: (StreamState, int), s1: StreamState, s2: StreamState)
    requires
        transition_ok(lc.0, s1),
        transition_ok(spec_cleanup(lc, s1).0.0, s2),
    ensures
        !spec_cleanup(spec_cleanup(lc, s1).0, s2).1,
        spec_cleanup(spec_cleanup(lc, s1).0, s2).0.1 == spec_cleanup(lc, s1).0.1,
{
}

/// The lifecycle manager of one streaming search: it mirrors the
/// state the transport reports and counts the abandon requests that
/// cleanup issued.
pub struct StreamLifecycle {
    state: StreamState,
    abandons: u32,
}

impl View for StreamLifecycle {
    type V = (StreamState, int);

    closed spec fn view(&self) -> (StreamState, int) {
        (self.state, self.abandons as int)
    }
}

impl StreamLifecycle {
    /// The lifecycle invariant: an abandon is issued at most once,
    /// and only on the way to `Closed`.
    pub open spec fn wf(&self) -> bool {
        &&& 0 <= self@.1 <= 1
        &&& (self@.1 == 1 ==> self@.0 is Closed)
    }

    /// A fresh search: not yet started, nothing abandoned.
    pub fn new() -> (r: Self)
        ensures
            r@ == (StreamState::Fresh, 0int),
            r.wf(),
    {
        StreamLifecycle { state: StreamState::Fresh, abandons: 0 }
    }

    /// The state the stream is in.
    pub fn state(&self) -> (s: StreamState)
        ensures
            s == self@.0,
    {
        self.state
    }

    /// How many abandon requests cleanup has issued.
    pub fn abandon_count(&self) -> (n: u32)
        ensures
            n as int == self@.1,
    {
        self.abandons
    }

    /// Records a state change the transport reported; the lifecycle
    /// only moves forward.
    pub fn record_event(&mut self, to: StreamState)
        requires
            old(self).wf(),
            transition_ok(old(self)@.0, to),
            old(self)@.1 == 0,
        ensures
            final(self)@ == (to, old(self)@.1),
            final(self).wf(),
    {
        self.state = to;
    }

    /// Step one of cleanup: whether anything needs doing.  A stream
    /// that ended normally or was already closed needs no action.
    pub fn begin_cleanup(&self) -> (do_finish: bool)
        ensures
            do_finish == spec_needs_cleanup(self@.0),
    {
        match self.state {
            StreamState::Done => false,
            StreamState::Closed => false,
            _ => true,
        }
    }

    /// Steps two and three of cleanup: `finish` has been called on
    /// the transport and `observed` is the state it now reports.
    /// When the operation is still open (`Fresh` or `Active`), the
    /// one abandon request is issued and the stream is closed; a
    /// failure of that abandon call is the transport's to log, never
    /// to propagate.
    pub fn finish_observed(&mut self, observed: StreamState) -> (do_abandon: bool)
        requires
            old(self).wf(),
            spec_needs_cleanup(old(self)@.0),
            transition_ok(old(self)@.0, observed),
        ensures
            (final(self)@, do_abandon) == spec_cleanup(old(self)@, observed),
            do_abandon == (observed is Fresh || observed is Active),
            do_abandon ==> final(self)@ == (StreamState::Closed, old(self)@.1 + 1),
            !do_abandon ==> final(self)@ == (observed, old(self)@.1),
            final(self).wf(),
    {
        match observed {
            StreamState::Fresh | StreamState::Active => {
                self.state = StreamState::Closed;
                self.abandons = self.abandons + 1;
                true
            },
            _ => {
                self.state = observed;
                false
            },
        }
    }
}

} // verus!
