//! One agent session as a state machine: handshake, registration, and the
//! serial dispatch loop, modelled as a step function from state and event to
//! next state and action. The I/O around it performs each action and hands
//! back the event it observed; the machine decides everything else.
//!
//! Dispatch is strictly serial: responses share the agent's TCP stream with
//! no framing of their own, so the next request must not be written before
//! the previous response has been framed and delivered.
use vstd::prelude::*;

use crate::shared::TicketRequestHttp;
use crate::text::{find_char_from, find_from, lemma_find_from};
use crate::version::{parse_version, spec_parse_version, version_geq};

verus! {

/// The phases of an agent session.
pub enum SessionPhase {
    /// Connected; the handshake line has not been accepted yet.
    Handshake,
    /// Registered under a subdomain, waiting for tickets.
    Registered,
    /// One ticket in flight: its request written (or being written), its
    /// response not yet delivered.
    Dispatching,
    /// The session is ending; its registrations must be released.
    Closing,
    /// All resources released.
    Gone,
}

/// What the session observes.
pub enum SessionEvent {
    /// The first line read from the agent.
    HandshakeLine(String),
    /// The router registered this session under the given subdomain.
    Admitted(String),
    /// A ticket arrived from the agent inbox.
    TicketArrived(TicketRequestHttp),
    /// The in-flight request's bytes were written and flushed.
    WriteOk,
    /// Writing the in-flight request failed.
    WriteFailed,
    /// A complete response was framed off the agent's stream.
    ResponseFramed(Vec<u8>),
    /// The agent's stream ended or failed.
    StreamEnded,
    /// The agent inbox closed: unregistration was requested.
    InboxClosed,
    /// The session's registrations were released.
    TornDown,
}

/// What the session asks its surroundings to do next.
pub enum SessionAction {
    /// Reply with the version-rejection line and close.
    RejectVersion,
    /// Close the connection without a reply.
    CloseNow,
    /// Allocate a subdomain (the requested one when named), register the
    /// agent inbox, and reply with the allocated name.
    Allocate(Option<String>),
    /// Write these request bytes to the agent and flush.
    WriteRequest(Vec<u8>),
    /// Resolve this ticket id with the framed response bytes.
    ResolveTicket(String, Vec<u8>),
    /// Resolve this ticket id with the empty sentinel.
    ResolveEmpty(String),
    /// Unregister the agent and release its subdomain.
    Teardown,
    /// Nothing to perform.
    Proceed,
}

/// `a` is a prefix of `b`.
pub open spec fn is_prefix_of<A>(a: Seq<A>, b: Seq<A>) -> bool {
    a.len() <= b.len() && a == b.subrange(0, a.len() as int)
}

/// The version field of a handshake line: the whitespace-separated field
/// after the tag, when the line has one.
pub open spec fn handshake_version(s: Seq<char>) -> Option<Seq<char>> {
    let e1 = find_from(s, 0, ' ');
    if e1 < s.len() {
        Some(s.subrange(e1 + 1, find_from(s, e1 + 1, ' ')))
    } else {
        None
    }
}

/// The requested subdomain of a handshake line: its third field, if any.
pub open spec fn handshake_requested(s: Seq<char>) -> Option<Seq<char>> {
    let e1 = find_from(s, 0, ' ');
    if e1 < s.len() {
        let e2 = find_from(s, e1 + 1, ' ');
        if e2 < s.len() {
            Some(s.subrange(e2 + 1, find_from(s, e2 + 1, ' ')))
        } else {
            None
        }
    } else {
        None
    }
}

/// The handshake is malformed: the mandatory version field is missing, or
/// present but not MAJOR.MINOR.PATCH.
pub open spec fn version_malformed(line: Seq<char>) -> bool {
    match handshake_version(line) {
        Some(v) => spec_parse_version(v) is None,
        None => true,
    }
}

/// The line passes the version gate: its version field parses and is at
/// least the configured minimum.
pub open spec fn version_admits(line: Seq<char>, min: (int, int, int)) -> bool {
    match handshake_version(line) {
        None => false,
        Some(v) => match spec_parse_version(v) {
            Some(t) => version_geq(t, min),
            None => false,
        },
    }
}

/// One agent session. The ghost history records, in order, the request
/// byte-blocks taken from the inbox and those written to the agent.
pub struct AgentSession {
    pub min_major: u32,
    pub min_minor: u32,
    pub min_patch: u32,
    pub phase: SessionPhase,
    /// The allocated subdomain, once admitted.
    pub subdomain: Option<String>,
    /// The id of the ticket in flight.
    pub current: Option<String>,
    /// Whether the in-flight request has been written to the agent.
    pub wrote: bool,
    /// Request byte-blocks received from the inbox, in order.
    pub received: Ghost<Seq<Seq<u8>>>,
    /// Request byte-blocks written to the agent, in order.
    pub written: Ghost<Seq<Seq<u8>>>,
}

impl AgentSession {
    pub open spec fn min_spec(&self) -> (int, int, int) {
        (self.min_major as int, self.min_minor as int, self.min_patch as int)
    }

    /// The session invariant. In particular: what has been written is
    /// always what was received, save possibly the one in-flight ticket.
    pub open spec fn wf(&self) -> bool {
        match self.phase {
            SessionPhase::Dispatching => self.current is Some && (if self.wrote {
                self.written@ == self.received@
            } else {
                self.received@.len() > 0 && self.written@ == self.received@.drop_last()
            }),
            SessionPhase::Handshake | SessionPhase::Registered => self.current is None
                && self.written@ == self.received@,
            SessionPhase::Closing | SessionPhase::Gone => self.current is None && (self.written@
                == self.received@ || (self.received@.len() > 0 && self.written@
                == self.received@.drop_last())),
        }
    }

    /// A fresh session in the handshake phase, gated at the given minimum
    /// agent version.
    pub fn new(min_major: u32, min_minor: u32, min_patch: u32) -> (s: Self)
        ensures
            s.wf(),
            s.phase == SessionPhase::Handshake,
            s.received@ == Seq::<Seq<u8>>::empty(),
            s.written@ == Seq::<Seq<u8>>::empty(),
            s.min_spec() == (min_major as int, min_minor as int, min_patch as int),
    {
        AgentSession {
            min_major,
            min_minor,
            min_patch,
            phase: SessionPhase::Handshake,
            subdomain: None,
            current: None,
            wrote: false,
            received: Ghost(Seq::empty()),
            written: Ghost(Seq::empty()),
        }
    }

    /// Advances the session by one observed event and says what to do next.
    pub fn step(&mut self, event: SessionEvent) -> (a: SessionAction)
        requires
            old(self).wf(),
        ensures
            final(self).wf(),
            final(self).min_spec() == old(self).min_spec(),
            ({
                let pre = *old(self);
                let post = *final(self);
                match (pre.phase, event) {
                    (SessionPhase::Handshake, SessionEvent::HandshakeLine(line)) => {
                        if version_malformed(line@) {
                            &&& post.phase == SessionPhase::Closing
                            &&& a == SessionAction::CloseNow
                            &&& post.received@ == pre.received@
                            &&& post.written@ == pre.written@
                        } else if !version_admits(line@, pre.min_spec()) {
                            &&& post.phase == SessionPhase::Closing
                            &&& a == SessionAction::RejectVersion
                            &&& post.received@ == pre.received@
                            &&& post.written@ == pre.written@
                        } else {
                            &&& post.phase == SessionPhase::Handshake
                            &&& (match a {
                                SessionAction::Allocate(req) => (match (
                                    req,
                                    handshake_requested(line@),
                                ) {
                                    (Some(r), Some(w)) => r@ == w,
                                    (None, None) => true,
                                    _ => false,
                                }),
                                _ => false,
                            })
                            &&& post.received@ == pre.received@
                            &&& post.written@ == pre.written@
                        }
                    },
                    (SessionPhase::Handshake, SessionEvent::Admitted(name)) => {
                        &&& post.phase == SessionPhase::Registered
                        &&& post.subdomain == Some(name)
                        &&& a == SessionAction::Proceed
                        &&& post.received@ == pre.received@
                        &&& post.written@ == pre.written@
                    },
                    (SessionPhase::Handshake, SessionEvent::StreamEnded) => {
                        &&& post.phase == SessionPhase::Closing
                        &&& a == SessionAction::CloseNow
                        &&& post.received@ == pre.received@
                        &&& post.written@ == pre.written@
                    },
                    (SessionPhase::Registered, SessionEvent::TicketArrived(t)) => {
                        &&& post.phase == SessionPhase::Dispatching
                        &&& (match post.current {
                            Some(id) => id@ == t.name@,
                            None => false,
                        })
                        &&& !post.wrote
                        &&& post.received@ == pre.received@.push(t.data@)
                        &&& post.written@ == pre.written@
                        &&& (match a {
                            SessionAction::WriteRequest(d) => d@ == t.data@,
                            _ => false,
                        })
                    },
                    (SessionPhase::Registered, SessionEvent::InboxClosed) => {
                        &&& post.phase == SessionPhase::Closing
                        &&& a == SessionAction::Teardown
                        &&& post.received@ == pre.received@
                        &&& post.written@ == pre.written@
                    },
                    (SessionPhase::Registered, SessionEvent::StreamEnded) => {
                        &&& post.phase == SessionPhase::Closing
                        &&& a == SessionAction::Teardown
                        &&& post.received@ == pre.received@
                        &&& post.written@ == pre.written@
                    },
                    (SessionPhase::Dispatching, SessionEvent::WriteOk) => {
                        if !pre.wrote {
                            &&& post.phase == SessionPhase::Dispatching
                            &&& post.current == pre.current
                            &&& post.wrote
                            &&& post.received@ == pre.received@
                            &&& post.written@ == pre.written@.push(pre.received@.last())
                            &&& a == SessionAction::Proceed
                        } else {
                            &&& post == pre
                            &&& a == SessionAction::Proceed
                        }
                    },
                    (SessionPhase::Dispatching, SessionEvent::WriteFailed) => {
                        &&& post.phase == SessionPhase::Closing
                        &&& (match (a, pre.current) {
                            (SessionAction::ResolveEmpty(id), Some(cur)) => id@ == cur@,
                            _ => false,
                        })
                        &&& post.received@ == pre.received@
                        &&& post.written@ == pre.written@
                    },
                    (SessionPhase::Dispatching, SessionEvent::ResponseFramed(body)) => {
                        if pre.wrote {
                            &&& post.phase == SessionPhase::Registered
                            &&& (match (a, pre.current) {
                                (SessionAction::ResolveTicket(id, b), Some(cur)) => id@ == cur@
                                    && b@ == body@,
                                _ => false,
                            })
                            &&& post.received@ == pre.received@
                            &&& post.written@ == pre.written@
                        } else {
                            &&& post == pre
                            &&& a == SessionAction::Proceed
                        }
                    },
                    (SessionPhase::Dispatching, SessionEvent::StreamEnded) => {
                        &&& post.phase == SessionPhase::Closing
                        &&& (match (a, pre.current) {
                            (SessionAction::ResolveEmpty(id), Some(cur)) => id@ == cur@,
                            _ => false,
                        })
                        &&& post.received@ == pre.received@
                        &&& post.written@ == pre.written@
                    },
                    (SessionPhase::Closing, SessionEvent::TornDown) => {
                        &&& post.phase == SessionPhase::Gone
                        &&& a == SessionAction::Proceed
                        &&& post.received@ == pre.received@
                        &&& post.written@ == pre.written@
                    },
                    _ => post == pre && a == SessionAction::Proceed,
                }
            }),
    {
        match event {
            SessionEvent::HandshakeLine(line) => {
                if !matches!(self.phase, SessionPhase::Handshake) {
                    return SessionAction::Proceed;
                }
                let s: &str = line.as_str();
                let n = s.unicode_len();
                proof {
                    lemma_find_from(s@, 0, ' ');
                }
                let e1 = find_char_from(s, 0, ' ');
                if e1 >= n {
                    // No version field: the handshake is malformed.
                    self.phase = SessionPhase::Closing;
                    return SessionAction::CloseNow;
                }
                proof {
                    lemma_find_from(s@, e1 + 1 as int, ' ');
                }
                let e2 = find_char_from(s, e1 + 1, ' ');
                let vstr = s.substring_char(e1 + 1, e2);
                match parse_version(vstr) {
                    None => {
                        self.phase = SessionPhase::Closing;
                        SessionAction::CloseNow
                    },
                    Some(t) => {
                        let admits = t.0 > self.min_major || (t.0 == self.min_major && (t.1
                            > self.min_minor || (t.1 == self.min_minor && t.2 >= self.min_patch)));
                        if !admits {
                            self.phase = SessionPhase::Closing;
                            SessionAction::RejectVersion
                        } else if e2 < n {
                            proof {
                                lemma_find_from(s@, e2 + 1 as int, ' ');
                            }
                            let e3 = find_char_from(s, e2 + 1, ' ');
                            let req = s.substring_char(e2 + 1, e3);
                            SessionAction::Allocate(Some(req.to_owned()))
                        } else {
                            SessionAction::Allocate(None)
                        }
                    },
                }
            },
            SessionEvent::Admitted(name) => {
                if matches!(self.phase, SessionPhase::Handshake) {
                    self.phase = SessionPhase::Registered;
                    self.subdomain = Some(name);
                }
                SessionAction::Proceed
            },
            SessionEvent::TicketArrived(t) => {
                if matches!(self.phase, SessionPhase::Registered) {
                    self.phase = SessionPhase::Dispatching;
                    self.current = Some(t.name);
                    self.wrote = false;
                    proof {
                        self.received@ = self.received@.push(t.data@);
                        assert(self.received@.drop_last() =~= old(self).received@);
                    }
                    SessionAction::WriteRequest(t.data)
                } else {
                    SessionAction::Proceed
                }
            },
            SessionEvent::WriteOk => {
                if matches!(self.phase, SessionPhase::Dispatching) && !self.wrote {
                    self.wrote = true;
                    proof {
                        self.written@ = self.written@.push(self.received@.last());
                        assert(self.written@ =~= self.received@);
                    }
                }
                SessionAction::Proceed
            },
            SessionEvent::WriteFailed => {
                if matches!(self.phase, SessionPhase::Dispatching) {
                    self.phase = SessionPhase::Closing;
                    let cur = self.current.take();
                    match cur {
                        Some(id) => SessionAction::ResolveEmpty(id),
                        None => SessionAction::Proceed,
                    }
                } else {
                    SessionAction::Proceed
                }
            },
            SessionEvent::ResponseFramed(body) => {
                if matches!(self.phase, SessionPhase::Dispatching) && self.wrote {
                    self.phase = SessionPhase::Registered;
                    self.wrote = false;
                    let cur = self.current.take();
                    match cur {
                        Some(id) => SessionAction::ResolveTicket(id, body),
                        None => SessionAction::Proceed,
                    }
                } else {
                    SessionAction::Proceed
                }
            },
            SessionEvent::StreamEnded => {
                match self.phase {
                    SessionPhase::Handshake => {
                        self.phase = SessionPhase::Closing;
                        SessionAction::CloseNow
                    },
                    SessionPhase::Registered => {
                        self.phase = SessionPhase::Closing;
                        SessionAction::Teardown
                    },
                    SessionPhase::Dispatching => {
                        self.phase = SessionPhase::Closing;
                        let cur = self.current.take();
                        match cur {
                            Some(id) => SessionAction::ResolveEmpty(id),
                            None => SessionAction::Proceed,
                        }
                    },
                    _ => SessionAction::Proceed,
                }
            },
            SessionEvent::InboxClosed => {
                if matches!(self.phase, SessionPhase::Registered) {
                    self.phase = SessionPhase::Closing;
                    SessionAction::Teardown
                } else {
                    SessionAction::Proceed
                }
            },
            SessionEvent::TornDown => {
                if matches!(self.phase, SessionPhase::Closing) {
                    self.phase = SessionPhase::Gone;
                }
                SessionAction::Proceed
            },
        }
    }
}

/// The line written to an agent whose announced version is below the
/// minimum.
pub fn version_reject_reply() -> (r: &'static str)
    ensures
        r@ == "ERR001:request_higher_version"@,
{
    "ERR001:request_higher_version"
}

/// Serial dispatch: at every reachable session state, the sequence of
/// request byte-blocks written to the agent is a prefix of the sequence of
/// tickets taken from its inbox.
pub proof fn lemma_serial_dispatch(s: AgentSession)
    requires
        s.wf(),
    ensures
        is_prefix_of(s.written@, s.received@),
{
    if s.written@ == s.received@ {
        assert(s.written@ == s.received@.subrange(0, s.written@.len() as int)) by {
            assert(s.received@.subrange(0, s.received@.len() as int) =~= s.received@);
        }
    } else {
        assert(s.received@.len() > 0 && s.written@ == s.received@.drop_last());
        assert(s.received@.drop_last() =~= s.received@.subrange(
            0,
            s.received@.len() - 1,
        ));
    }
}

} // verus!
