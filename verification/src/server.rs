//! The connection-acceptance engine, as its decision core: a state machine
//! stepped by the events the accept loop multiplexes over — an inbound
//! connection, an accept failure, a published TLS context, the shutdown
//! signal, a finished connection, the drain timeout — answering with the
//! action the loop performs. The loop itself only waits on sockets, timers
//! and channels and does what the machine says.
//!
//! Phases: `Listening` serves new connections; `Draining` (entered on the
//! shutdown signal) serves none but lets the outstanding ones finish;
//! `Stopped` is reached when the last outstanding connection closes or the
//! bounded drain timeout elapses. A TLS context update replaces the cached
//! generation in place and touches nothing else, so connections already
//! accepted keep the context they were accepted under.
use vstd::prelude::*;

verus! {

/// Where the acceptor stands.
#[derive(Clone, Copy, Debug, PartialEq, Eq, Structural)]
pub enum AcceptorPhase {
    /// Accepting and serving new connections.
    Listening,
    /// Shutdown signalled: no new connections, outstanding ones finish.
    Draining,
    /// Drain complete or timed out; the process may report stopped.
    Stopped,
}

/// How an accept call failed.
#[derive(Clone, Copy, Debug, PartialEq, Eq, Structural)]
pub enum AcceptErrorKind {
    ConnectionRefused,
    ConnectionAborted,
    ConnectionReset,
    ResourceExhausted,
    Other,
}

/// A per-connection failure of the peer, harmless to the listener.
pub open spec fn spec_is_connection_error(k: AcceptErrorKind) -> bool {
    k is ConnectionRefused || k is ConnectionAborted || k is ConnectionReset
}

/// Whether an accept failure concerns one peer only. Such failures are
/// ignored and the loop goes on at once; any other accept failure makes the
/// loop pause before retrying, so a resource shortage is not hot-spun on.
pub fn is_connection_error(kind: &AcceptErrorKind) -> (r: bool)
    ensures
        r == spec_is_connection_error(*kind),
{
    match kind {
        AcceptErrorKind::ConnectionRefused => true,
        AcceptErrorKind::ConnectionAborted => true,
        AcceptErrorKind::ConnectionReset => true,
        _ => false,
    }
}

/// What the accept loop observed.
pub enum AcceptorEvent {
    /// The listener accepted a new connection.
    Incoming,
    /// The listener's accept call failed.
    AcceptFailed(AcceptErrorKind),
    /// The credential provider published the TLS context of this generation.
    TlsUpdate(u64),
    /// The shutdown coordinator signalled termination.
    ShutdownSignal,
    /// One outstanding connection finished, however it ended.
    ConnClosed,
    /// The bounded drain wait elapsed with connections still open.
    DrainTimeout,
}

/// What the accept loop must do next.
pub enum AcceptorAction {
    /// Hand the connection to the handler, under this TLS generation.
    ServeConn(u64),
    /// Drop the connection without a response.
    RefuseConn,
    /// Log at low severity and continue at once.
    ContinueNow,
    /// Log at error severity and pause the accept loop briefly.
    PauseAccept,
    /// Nothing to perform.
    Ignore,
}

/// The acceptor's state: its phase, how many accepted connections are
/// still being served, and the TLS context generation new handshakes use.
pub struct Acceptor {
    pub phase: AcceptorPhase,
    pub outstanding: u64,
    pub tls_generation: u64,
}

/// The whole transition relation of the acceptor.
pub open spec fn next_acceptor(s: Acceptor, event: AcceptorEvent) -> (Acceptor, AcceptorAction) {
    match event {
        AcceptorEvent::Incoming => {
            if s.phase is Listening {
                (
                    Acceptor { outstanding: (s.outstanding + 1) as u64, ..s },
                    AcceptorAction::ServeConn(s.tls_generation),
                )
            } else {
                (s, AcceptorAction::RefuseConn)
            }
        },
        AcceptorEvent::AcceptFailed(k) => {
            if spec_is_connection_error(k) {
                (s, AcceptorAction::ContinueNow)
            } else {
                (s, AcceptorAction::PauseAccept)
            }
        },
        AcceptorEvent::TlsUpdate(g) => (Acceptor { tls_generation: g, ..s }, AcceptorAction::Ignore),
        AcceptorEvent::ShutdownSignal => {
            if s.phase is Listening {
                (Acceptor { phase: AcceptorPhase::Draining, ..s }, AcceptorAction::Ignore)
            } else {
                // a second signal while draining has no further effect
                (s, AcceptorAction::Ignore)
            }
        },
        AcceptorEvent::ConnClosed => {
            let left = (s.outstanding - 1) as u64;
            if s.phase is Draining && left == 0 {
                (
                    Acceptor { phase: AcceptorPhase::Stopped, outstanding: left, ..s },
                    AcceptorAction::Ignore,
                )
            } else {
                (Acceptor { outstanding: left, ..s }, AcceptorAction::Ignore)
            }
        },
        AcceptorEvent::DrainTimeout => {
            if s.phase is Draining {
                (Acceptor { phase: AcceptorPhase::Stopped, ..s }, AcceptorAction::Ignore)
            } else {
                (s, AcceptorAction::Ignore)
            }
        },
    }
}

impl Acceptor {
    /// A listening acceptor with no outstanding connections, caching the
    /// initial TLS context generation.
    pub fn new(tls_generation: u64) -> (r: Acceptor)
        ensures
            r.phase is Listening,
            r.outstanding == 0,
            r.tls_generation == tls_generation,
    {
        Acceptor { phase: AcceptorPhase::Listening, outstanding: 0, tls_generation }
    }

    /// Step the machine by one observed event.
    pub fn step(&mut self, event: &AcceptorEvent) -> (r: AcceptorAction)
        requires
            old(self).outstanding < u64::MAX,
            event is ConnClosed ==> old(self).outstanding > 0,
        ensures
            (*final(self), r) == next_acceptor(*old(self), *event),
    {
        match event {
            AcceptorEvent::Incoming => {
                if self.phase == AcceptorPhase::Listening {
                    let g = self.tls_generation;
                    self.outstanding = self.outstanding + 1;
                    AcceptorAction::ServeConn(g)
                } else {
                    AcceptorAction::RefuseConn
                }
            },
            AcceptorEvent::AcceptFailed(k) => {
                if is_connection_error(k) {
                    AcceptorAction::ContinueNow
                } else {
                    AcceptorAction::PauseAccept
                }
            },
            AcceptorEvent::TlsUpdate(g) => {
                self.tls_generation = *g;
                AcceptorAction::Ignore
            },
            AcceptorEvent::ShutdownSignal => {
                if self.phase == AcceptorPhase::Listening {
                    self.phase = AcceptorPhase::Draining;
                }
                AcceptorAction::Ignore
            },
            AcceptorEvent::ConnClosed => {
                self.outstanding = self.outstanding - 1;
                if self.phase == AcceptorPhase::Draining && self.outstanding == 0 {
                    self.phase = AcceptorPhase::Stopped;
                }
                AcceptorAction::Ignore
            },
            AcceptorEvent::DrainTimeout => {
                if self.phase == AcceptorPhase::Draining {
                    self.phase = AcceptorPhase::Stopped;
                }
                AcceptorAction::Ignore
            },
        }
    }
}

/// Shutdown drains: once the acceptor has left `Listening`, no event makes
/// it serve a new connection, and it never listens again.
pub proof fn lemma_draining_serves_nothing(s: Acceptor, event: AcceptorEvent)
    requires
        !(s.phase is Listening),
    ensures
        !(next_acceptor(s, event).1 is ServeConn),
        !(next_acceptor(s, event).0.phase is Listening),
{
}

/// The acceptor reaches `Stopped` only when the last outstanding
/// connection has closed while draining, or the drain timeout elapsed.
pub proof fn lemma_stop_needs_drain_or_timeout(s: Acceptor, event: AcceptorEvent)
    requires
        !(s.phase is Stopped),
        next_acceptor(s, event).0.phase is Stopped,
    ensures
        s.phase is Draining,
        (event is ConnClosed && next_acceptor(s, event).0.outstanding == 0) || (
        event is DrainTimeout),
{
}

/// A TLS context update is applied in place: it replaces the cached
/// generation for connections yet to come and touches neither the phase
/// nor the connections already being served.
pub proof fn lemma_rotation_touches_no_connection(s: Acceptor, g: u64)
    ensures
        next_acceptor(s, AcceptorEvent::TlsUpdate(g)).0 == (Acceptor { tls_generation: g, ..s }),
        next_acceptor(s, AcceptorEvent::TlsUpdate(g)).1 is Ignore,
{
}

/// Serving picks the cached generation: a connection accepted before an
/// update is served under the old context, one accepted after under the
/// new.
pub proof fn lemma_serve_uses_cached_generation(s: Acceptor)
    requires
        s.phase is Listening,
    ensures
        next_acceptor(s, AcceptorEvent::Incoming).1 == AcceptorAction::ServeConn(s.tls_generation),
{
}

} // verus!
