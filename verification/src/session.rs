//! The per-connection session: one value of [`Session`] stands behind each
//! accepted connection and decides, frame by frame, what the connection's
//! runtime must do next.
//!
//! The session itself performs no I/O. Every entry point consumes one event
//! — a decoded request, a registry reply, a delivered room message, a clock
//! tick — and returns the list of [`SessionAction`] values the runtime has
//! to carry out in order: responses to write, registry operations to send,
//! or closing the connection. The liveness rule lives here too: the peer
//! must signal within [`TIMEOUT_TICKS`] of its last signal or the session
//! disconnects it.

use crate::codec::{ChatRequest, ChatResponse, RespV};
use crate::registry::SessionId;
use vstd::prelude::*;
use vstd::string::StringExecFns;

verus! {

/// Number of clock ticks between two server-initiated liveness probes.
pub const HB_INTERVAL_TICKS: u64 = 1;

/// A peer that stays silent for more than this many ticks is considered
/// dead and its session is closed.
pub const TIMEOUT_TICKS: u64 = 10;

/// Lifecycle of a session.
#[derive(PartialEq, Eq, Structural, Debug, Clone, Copy)]
pub enum SessionState {
    /// Accepted, waiting for the registry to assign an identity.
    Connecting,
    /// Registered; frames are processed.
    Active,
    /// A fatal condition occurred; the registry must still be notified.
    Stopping,
    /// The disconnect notice is out; nothing follows.
    Stopped,
}

/// One instruction handed back to the session's runtime, to be carried out
/// in the order returned.
#[derive(Debug, PartialEq, Eq)]
pub enum SessionAction {
    /// Encode this response and write it to the peer.
    Write(ChatResponse),
    /// Tell the registry to move the session into the room (fire-and-forget).
    TellJoin(SessionId, String),
    /// Tell the registry to broadcast text to a room, attributed to the
    /// session: identity, room name, text (fire-and-forget).
    TellMessage(SessionId, String, String),
    /// Ask the registry for the room listing (request/reply; the session
    /// defers further inbound frames until [`Session::on_room_list`]).
    AskListRooms,
    /// Tell the registry the session is gone (fire-and-forget, idempotent
    /// on the registry's side).
    TellDisconnect(SessionId),
    /// Close the connection and stop driving this session.
    Stop,
}

/// The per-connection state: identity, current room, the time of the last
/// liveness signal from the peer, and whether a listing query is
/// outstanding.
pub struct Session {
    /// Lifecycle state.
    pub state: SessionState,
    /// Identity the registry assigned; `0` is the sentinel before
    /// registration confirms.
    pub id: SessionId,
    /// The room this session currently sends to. Defaults to `Main`.
    pub room: String,
    /// Tick time of the peer's last inbound liveness signal.
    pub last_hb: u64,
    /// True while a room-listing reply is outstanding. Inbound frames and
    /// the liveness timer are deferred until it arrives: both share the
    /// session's single-threaded context, so the wait pauses them together.
    pub awaiting_list: bool,
}

impl Session {
    /// A session for a freshly accepted connection at tick time `now`: not
    /// yet registered, default room `Main`.
    pub fn new(now: u64) -> (s: Session)
        ensures
            s.state == SessionState::Connecting,
            s.id == 0,
            s.room@ == "Main"@,
            s.last_hb == now,
            !s.awaiting_list,
    {
        Session {
            state: SessionState::Connecting,
            id: 0,
            room: String::from_str("Main"),
            last_hb: now,
            awaiting_list: false,
        }
    }

    /// Registration succeeded: adopt the identity the registry assigned and
    /// start processing frames.
    pub fn on_registered(&mut self, id: SessionId)
        requires
            old(self).state == SessionState::Connecting,
        ensures
            final(self).state == SessionState::Active,
            final(self).id == id,
            final(self).room == old(self).room,
            final(self).last_hb == old(self).last_hb,
            final(self).awaiting_list == old(self).awaiting_list,
    {
        self.state = SessionState::Active;
        self.id = id;
    }

    /// Any fatal condition — registration failure, a malformed frame, a
    /// transport error, an explicit stop: the connection is to be closed.
    /// The registry is notified by [`Session::on_stopping`] afterwards.
    pub fn on_fatal(&mut self) -> (r: Vec<SessionAction>)
        ensures
            final(self).state == SessionState::Stopping,
            final(self).id == old(self).id,
            final(self).room == old(self).room,
            final(self).last_hb == old(self).last_hb,
            r@.len() == 1,
            r@[0] is Stop,
    {
        self.state = SessionState::Stopping;
        let mut r: Vec<SessionAction> = Vec::new();
        r.push(SessionAction::Stop);
        r
    }

    /// The session is stopping: send the registry its (idempotent)
    /// disconnect notice, fire-and-forget, and finish.
    pub fn on_stopping(&mut self) -> (r: Vec<SessionAction>)
        requires
            old(self).state == SessionState::Stopping,
        ensures
            final(self).state == SessionState::Stopped,
            final(self).id == old(self).id,
            r@.len() == 1,
            (r@[0] matches SessionAction::TellDisconnect(i) && i == old(self).id),
    {
        self.state = SessionState::Stopped;
        let mut r: Vec<SessionAction> = Vec::new();
        r.push(SessionAction::TellDisconnect(self.id));
        r
    }

    /// Act on one decoded request from the peer. Callers hold back further
    /// frames while a listing query is outstanding.
    ///
    /// `List` starts the listing query and defers the inbound stream;
    /// `Join` records the new room, tells the registry, and acknowledges
    /// locally at once; `Message` asks the registry to broadcast to the
    /// current room; `Ping` refreshes the liveness clock and answers
    /// nothing.
    pub fn handle_request(&mut self, req: ChatRequest, now: u64) -> (r: Vec<SessionAction>)
        requires
            old(self).state == SessionState::Active,
            !old(self).awaiting_list,
        ensures
            final(self).state == SessionState::Active,
            final(self).id == old(self).id,
            (match req {
                ChatRequest::List => {
                    &&& final(self).awaiting_list
                    &&& final(self).room == old(self).room
                    &&& final(self).last_hb == old(self).last_hb
                    &&& r@.len() == 1
                    &&& r@[0] is AskListRooms
                },
                ChatRequest::Join(name) => {
                    &&& !final(self).awaiting_list
                    &&& final(self).room@ == name@
                    &&& final(self).last_hb == old(self).last_hb
                    &&& r@.len() == 2
                    &&& (r@[0] matches SessionAction::TellJoin(i, n) && i == old(self).id && n@
                        == name@)
                    &&& (r@[1] matches SessionAction::Write(resp) && resp@ == RespV::Joined(
                        name@,
                    ))
                },
                ChatRequest::Message(text) => {
                    &&& !final(self).awaiting_list
                    &&& final(self).room == old(self).room
                    &&& final(self).last_hb == old(self).last_hb
                    &&& r@.len() == 1
                    &&& (r@[0] matches SessionAction::TellMessage(i, room, t) && i == old(
                        self,
                    ).id && room@ == old(self).room@ && t@ == text@)
                },
                ChatRequest::Ping => {
                    &&& !final(self).awaiting_list
                    &&& final(self).room == old(self).room
                    &&& final(self).last_hb == now
                    &&& r@.len() == 0
                },
            }),
    {
        match req {
            ChatRequest::List => {
                self.awaiting_list = true;
                let mut r: Vec<SessionAction> = Vec::new();
                r.push(SessionAction::AskListRooms);
                r
            },
            ChatRequest::Join(name) => {
                self.room = name.clone();
                let mut r: Vec<SessionAction> = Vec::new();
                r.push(SessionAction::TellJoin(self.id, name.clone()));
                r.push(SessionAction::Write(ChatResponse::Joined(name)));
                r
            },
            ChatRequest::Message(text) => {
                let mut r: Vec<SessionAction> = Vec::new();
                r.push(SessionAction::TellMessage(self.id, self.room.clone(), text));
                r
            },
            ChatRequest::Ping => {
                self.last_hb = now;
                Vec::new()
            },
        }
    }

    /// The registry's answer to the outstanding listing query: push the
    /// listing to the peer and resume processing inbound frames.
    pub fn on_room_list(&mut self, rooms: Vec<String>) -> (r: Vec<SessionAction>)
        requires
            old(self).state == SessionState::Active,
            old(self).awaiting_list,
        ensures
            final(self).state == SessionState::Active,
            final(self).id == old(self).id,
            final(self).room == old(self).room,
            final(self).last_hb == old(self).last_hb,
            !final(self).awaiting_list,
            r@.len() == 1,
            (r@[0] matches SessionAction::Write(resp) && resp@ == RespV::Rooms(
                rooms.deep_view(),
            )),
    {
        self.awaiting_list = false;
        let mut r: Vec<SessionAction> = Vec::new();
        r.push(SessionAction::Write(ChatResponse::Rooms(rooms)));
        r
    }

    /// A room message the registry delivered for this peer: push it out.
    /// This can arrive at any time relative to the session's own requests,
    /// and changes no session state.
    pub fn on_push(&self, text: String) -> (r: Vec<SessionAction>)
        ensures
            r@.len() == 1,
            (r@[0] matches SessionAction::Write(resp) && resp@ == RespV::Message(text@)),
    {
        let mut r: Vec<SessionAction> = Vec::new();
        r.push(SessionAction::Write(ChatResponse::Message(text)));
        r
    }

    /// The periodic server-side liveness check, run once every
    /// [`HB_INTERVAL_TICKS`] while no listing wait is outstanding (the
    /// timer shares the session's context and pauses during the wait). The session
    /// is found dead — disconnect, then stop — exactly when the peer's
    /// silence exceeds [`TIMEOUT_TICKS`]; otherwise the server probes the
    /// peer with its own ping.
    pub fn on_tick(&mut self, now: u64) -> (r: Vec<SessionAction>)
        requires
            old(self).state == SessionState::Active,
            !old(self).awaiting_list,
            old(self).last_hb <= now,
        ensures
            final(self).id == old(self).id,
            final(self).room == old(self).room,
            final(self).last_hb == old(self).last_hb,
            !final(self).awaiting_list,
            (if now - old(self).last_hb > TIMEOUT_TICKS {
                &&& final(self).state == SessionState::Stopping
                &&& r@.len() == 2
                &&& (r@[0] matches SessionAction::TellDisconnect(i) && i == old(self).id)
                &&& r@[1] is Stop
            } else {
                &&& final(self).state == SessionState::Active
                &&& r@.len() == 1
                &&& (r@[0] matches SessionAction::Write(resp) && resp@ == RespV::Ping)
            }),
    {
        if now - self.last_hb > TIMEOUT_TICKS {
            self.state = SessionState::Stopping;
            let mut r: Vec<SessionAction> = Vec::new();
            r.push(SessionAction::TellDisconnect(self.id));
            r.push(SessionAction::Stop);
            r
        } else {
            let mut r: Vec<SessionAction> = Vec::new();
            r.push(SessionAction::Write(ChatResponse::Ping));
            r
        }
    }
}

/// One liveness event on a session's timeline, at a tick time: a signal
/// from the peer, or the server's periodic check.
pub enum LiveEvent {
    Signal(u64),
    Check(u64),
}

/// True when every liveness check in `events`, replayed in order against a
/// session whose latest signal arrived at `last_hb`, finds the peer alive —
/// each check's condition is exactly the one [`Session::on_tick`] enforces.
pub open spec fn checks_pass(last_hb: u64, events: Seq<LiveEvent>) -> bool
    decreases events.len(),
{
    if events.len() == 0 {
        true
    } else {
        match events[0] {
            LiveEvent::Signal(t) => checks_pass(t, events.drop_first()),
            LiveEvent::Check(t) => last_hb <= t && t - last_hb <= TIMEOUT_TICKS && checks_pass(
                last_hb,
                events.drop_first(),
            ),
        }
    }
}

/// The timeline of a peer that signals before every check: one signal at
/// `rounds[i].0`, then the server's check at `rounds[i].1`.
pub open spec fn rounds_to_events(rounds: Seq<(u64, u64)>) -> Seq<LiveEvent>
    decreases rounds.len(),
{
    if rounds.len() == 0 {
        Seq::empty()
    } else {
        seq![
            LiveEvent::Signal(rounds.first().0),
            LiveEvent::Check(rounds.first().1),
        ] + rounds_to_events(rounds.drop_first())
    }
}

/// A peer that signals within the timeout window of every liveness check is
/// never disconnected, however long the timeline: every check passes. (A
/// peer that pings once per [`HB_INTERVAL_TICKS`] satisfies the premise
/// with room to spare, the window being [`TIMEOUT_TICKS`] wide.)
pub proof fn lemma_prompt_peer_stays_connected(last_hb: u64, rounds: Seq<(u64, u64)>)
    requires
        forall|i: int|
            0 <= i < rounds.len() ==> (#[trigger] rounds[i]).0 <= rounds[i].1 <= rounds[i].0
                + TIMEOUT_TICKS,
    ensures
        checks_pass(last_hb, rounds_to_events(rounds)),
    decreases rounds.len(),
{
    if rounds.len() > 0 {
        let ev = rounds_to_events(rounds);
        let tail = rounds_to_events(rounds.drop_first());
        let s = rounds.first().0;
        let c = rounds.first().1;
        assert(rounds[0] == rounds.first());
        lemma_prompt_peer_stays_connected(s, rounds.drop_first());
        assert(ev =~= seq![LiveEvent::Signal(s), LiveEvent::Check(c)] + tail);
        assert(ev[0] == LiveEvent::Signal(s));
        assert(ev.drop_first()[0] == LiveEvent::Check(c));
        assert(ev.drop_first().drop_first() =~= tail);
        assert(checks_pass(s, ev.drop_first())) by {
            assert(s <= c <= s + TIMEOUT_TICKS);
        }
        assert(checks_pass(last_hb, ev));
    } else {
        assert(rounds_to_events(rounds) =~= Seq::<LiveEvent>::empty());
        assert(checks_pass(last_hb, Seq::<LiveEvent>::empty()));
    }
}

/// A single liveness check disconnects the session exactly when the peer
/// has been silent for longer than the timeout window.
pub proof fn lemma_silence_beyond_window_disconnects(last_hb: u64, t: u64)
    requires
        last_hb <= t,
    ensures
        checks_pass(last_hb, seq![LiveEvent::Check(t)]) <==> t - last_hb <= TIMEOUT_TICKS,
{
    let ev = seq![LiveEvent::Check(t)];
    assert(ev.drop_first() =~= Seq::<LiveEvent>::empty());
    assert(checks_pass(last_hb, ev.drop_first()));
    assert(ev[0] == LiveEvent::Check(t));
}

} // verus!
