//! The credential provider, as its decision core: a state machine stepped
//! by the events the watcher task multiplexes over — a filesystem change on
//! the certificate or key path, the end of the quiescence delay, the
//! outcome of a reload — answering with the action the task performs.
//!
//! On a change the provider waits a short quiescence delay so that renewal
//! tooling finishes writing every file, then reloads; a failed reload is
//! retried with a fixed delay, indefinitely — after startup a certificate
//! outage degrades to serving with the last good context, never to a crash.
//! Each successful reload publishes a fresh context generation to the
//! single-slot, latest-value broadcast the acceptor consumes. Bursts of
//! filesystem events coalesce: while quiescing or reloading, another change
//! asks for nothing new.
use vstd::prelude::*;

verus! {

/// Paths of the PEM-encoded certificate chain and private key.
pub struct TlsConfig {
    pub key: String,
    pub cert: String,
}

/// Where the provider stands.
#[derive(Clone, Copy, Debug, PartialEq, Eq, Structural)]
pub enum CredPhase {
    /// A context is published; waiting for the files to change.
    Watching,
    /// A change was seen; waiting out the quiescence delay.
    Quiescing,
    /// Loading and parsing the files, retrying until they parse.
    Reloading,
}

/// What the watcher task observed.
pub enum CredEvent {
    /// A filesystem event on the certificate or key path.
    ChangeDetected,
    /// The quiescence delay elapsed.
    QuiesceElapsed,
    /// The files loaded and parsed into a usable context.
    ReloadSucceeded,
    /// The files could not be read or parsed.
    ReloadFailed,
}

/// What the watcher task must do next.
pub enum CredAction {
    /// Start the quiescence timer.
    StartQuiesceTimer,
    /// Read and parse the certificate and key files.
    AttemptReload,
    /// Publish the context of this generation to the acceptor.
    Publish(u64),
    /// Wait the fixed retry delay, then read and parse again.
    RetryReload,
    /// Nothing to perform.
    Ignore,
}

/// The provider's state: its phase and the generation of the context it
/// last published.
pub struct CredProvider {
    pub phase: CredPhase,
    pub published: u64,
}

/// The whole transition relation of the provider. It has no terminal
/// state: it lives for the process lifetime.
pub open spec fn next_provider(s: CredProvider, event: CredEvent) -> (CredProvider, CredAction) {
    match event {
        CredEvent::ChangeDetected => {
            if s.phase is Watching {
                (CredProvider { phase: CredPhase::Quiescing, ..s }, CredAction::StartQuiesceTimer)
            } else {
                // already quiescing or reloading: the burst coalesces
                (s, CredAction::Ignore)
            }
        },
        CredEvent::QuiesceElapsed => {
            if s.phase is Quiescing {
                (CredProvider { phase: CredPhase::Reloading, ..s }, CredAction::AttemptReload)
            } else {
                (s, CredAction::Ignore)
            }
        },
        CredEvent::ReloadSucceeded => {
            if s.phase is Reloading {
                let g = (s.published + 1) as u64;
                (
                    CredProvider { phase: CredPhase::Watching, published: g },
                    CredAction::Publish(g),
                )
            } else {
                (s, CredAction::Ignore)
            }
        },
        CredEvent::ReloadFailed => {
            if s.phase is Reloading {
                (s, CredAction::RetryReload)
            } else {
                (s, CredAction::Ignore)
            }
        },
    }
}

impl CredProvider {
    /// The provider right after the fatal-on-failure startup load
    /// published the first context.
    pub fn new() -> (r: CredProvider)
        ensures
            r.phase is Watching,
            r.published == 1,
    {
        CredProvider { phase: CredPhase::Watching, published: 1 }
    }

    /// Step the machine by one observed event.
    pub fn step(&mut self, event: &CredEvent) -> (r: CredAction)
        requires
            old(self).published < u64::MAX,
        ensures
            (*final(self), r) == next_provider(*old(self), *event),
    {
        match event {
            CredEvent::ChangeDetected => {
                if self.phase == CredPhase::Watching {
                    self.phase = CredPhase::Quiescing;
                    CredAction::StartQuiesceTimer
                } else {
                    CredAction::Ignore
                }
            },
            CredEvent::QuiesceElapsed => {
                if self.phase == CredPhase::Quiescing {
                    self.phase = CredPhase::Reloading;
                    CredAction::AttemptReload
                } else {
                    CredAction::Ignore
                }
            },
            CredEvent::ReloadSucceeded => {
                if self.phase == CredPhase::Reloading {
                    self.phase = CredPhase::Watching;
                    self.published = self.published + 1;
                    CredAction::Publish(self.published)
                } else {
                    CredAction::Ignore
                }
            },
            CredEvent::ReloadFailed => {
                if self.phase == CredPhase::Reloading {
                    CredAction::RetryReload
                } else {
                    CredAction::Ignore
                }
            },
        }
    }
}

/// A failed reload is never fatal: the provider keeps its published
/// context, stays in `Reloading`, and asks for another attempt after the
/// fixed delay.
pub proof fn lemma_reload_failure_never_fatal(s: CredProvider)
    requires
        s.phase is Reloading,
    ensures
        next_provider(s, CredEvent::ReloadFailed).0 == s,
        next_provider(s, CredEvent::ReloadFailed).1 is RetryReload,
{
}

/// The published context changes exactly on a successful reload, and then
/// to a fresh generation.
pub proof fn lemma_publish_only_on_success(s: CredProvider, event: CredEvent)
    requires
        s.published < u64::MAX,
    ensures
        next_provider(s, event).0.published == s.published || (s.phase is Reloading
            && event is ReloadSucceeded),
        (s.phase is Reloading && event is ReloadSucceeded) ==> {
            &&& next_provider(s, event).0.published == s.published + 1
            &&& next_provider(s, event).1 == CredAction::Publish((s.published + 1) as u64)
        },
{
}

} // verus!
