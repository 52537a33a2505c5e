//! The listener's bookkeeping: how many connections are open, whether
//! another may be served, and when accepting stops.

use vstd::prelude::*;

verus! {

/// What the listener does with a socket it has just accepted.
#[derive(Debug, Clone, Copy, PartialEq, Eq)]
pub enum Admission {
    /// Start a connection loop on it.
    Serve,
    /// Close it at once: the bound on open connections is reached, or the
    /// listener is shutting down.
    Refuse,
}

/// The listener's state as a mathematical value.
pub struct ListenerState {
    pub open: nat,
    pub limit: nat,
    pub accepting: bool,
}

/// The listener's count of open connections against its bound.
#[derive(Debug)]
pub struct Listener {
    open: usize,
    limit: usize,
    accepting: bool,
}

impl View for Listener {
    type V = ListenerState;

    closed spec fn view(&self) -> ListenerState {
        ListenerState {
            open: self.open as nat,
            limit: self.limit as nat,
            accepting: self.accepting,
        }
    }
}

impl Listener {
    /// The invariant of the type: never more connections than the bound.
    pub open spec fn wf(&self) -> bool {
        self@.open <= self@.limit
    }

    /// A listener that serves at most `limit` connections at a time.
    pub fn new(limit: usize) -> (l: Listener)
        ensures
            l@ == (ListenerState { open: 0, limit: limit as nat, accepting: true }),
            l.wf(),
    {
        Listener { open: 0, limit, accepting: true }
    }

    /// The number of connections being served.
    pub fn open_connections(&self) -> (n: usize)
        ensures
            n == self@.open,
    {
        self.open
    }

    /// Whether the accept loop goes on.
    pub fn is_accepting(&self) -> (b: bool)
        ensures
            b == self@.accepting,
    {
        self.accepting
    }

    /// Decides on a socket that was just accepted.
    ///
    /// It is served, and counted, exactly when the listener is still
    /// accepting and fewer connections than the bound are open.
    pub fn on_accept(&mut self) -> (a: Admission)
        requires
            old(self).wf(),
        ensures
            final(self).wf(),
            a == if old(self)@.accepting && old(self)@.open < old(self)@.limit {
                Admission::Serve
            } else {
                Admission::Refuse
            },
            final(self)@ == if a == Admission::Serve {
                ListenerState { open: old(self)@.open + 1, ..old(self)@ }
            } else {
                old(self)@
            },
    {
        if self.accepting && self.open < self.limit {
            self.open = self.open + 1;
            Admission::Serve
        } else {
            Admission::Refuse
        }
    }

    /// Notes that a served connection has ended, for whatever reason.
    pub fn on_connection_end(&mut self)
        requires
            old(self).wf(),
        ensures
            final(self).wf(),
            final(self)@ == (ListenerState {
                open: if old(self)@.open > 0 {
                    (old(self)@.open - 1) as nat
                } else {
                    0
                },
                ..old(self)@
            }),
    {
        if self.open > 0 {
            self.open = self.open - 1;
        }
    }

    /// Stops accepting: from now on every socket is refused. The count of
    /// open connections stays as it is. Each open connection is told of the
    /// shutdown at its next read and ends there; it is counted out when
    /// `on_connection_end` is called for it.
    pub fn shutdown(&mut self)
        requires
            old(self).wf(),
        ensures
            final(self).wf(),
            final(self)@ == (ListenerState { accepting: false, ..old(self)@ }),
    {
        self.accepting = false;
    }
}

} // verus!
