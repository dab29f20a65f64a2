use vstd::prelude::*;

use crate::addr::PeerAddr;
use crate::broker::CtrlEvent;
use crate::notice::{notice_text, PushEventType};

verus! {

/// The one structured message a connection sends before it is authenticated.
pub enum ClientActions {
    Authenticate { token: String },
}

/// One inbound event on a connection.
pub enum Inbound {
    /// A frame that is not text.
    NonText,
    /// A text frame, with the client action it decodes to, if it decodes to one.
    Text(Option<ClientActions>),
    /// The receive side ended or failed.
    End,
}

/// Where a connection stands.
#[derive(Clone, Copy, Debug, PartialEq, Eq, Structural)]
pub enum ConnState {
    Unauthenticated,
    Authenticated,
    Closed,
}

/// What the connection task does with an inbound event.
pub enum Action {
    /// Nothing.
    Ignore,
    /// Send this text on the connection's own sink, which it still holds.
    Reply(String),
    /// Check this token with the identity service, then call `verdict`.
    Verify(String),
    /// Hand the frame on to the application.
    Forward,
    /// Send `Forget` for this address to the broker, then stop.
    Forget(PeerAddr),
    /// Stop: the connection ended before it was registered.
    Close,
}

/// What a verdict of the identity service leads to.
pub enum Admission<S, I> {
    /// Send `track`, then `greeting`, to the broker; the sink goes with `track`.
    Admitted { track: CtrlEvent<S, I>, greeting: CtrlEvent<S, I> },
    /// Send `reply` on the sink, which stays with the connection.
    Rejected { sink: S, reply: String },
    /// The connection had no pending token check: the sink comes back as is.
    Stale(S),
}

/// A notification or a command that one verdict gives rise to, in order.
#[derive(Clone, Copy, Debug, PartialEq, Eq, Structural)]
pub enum Outcome {
    AuthErr,
    Track,
    AuthOk,
}

/// The state after `f` arrives in state `s`.
pub open spec fn next_state(s: ConnState, f: Inbound) -> ConnState {
    match f {
        Inbound::End => ConnState::Closed,
        _ => s,
    }
}

/// Whether `a` is what to do when `f` arrives on the connection at `addr` in
/// state `s`. Before authentication a text frame that is no client action is a
/// failed attempt, answered with an `auth_err` notification.
pub open spec fn responds(s: ConnState, addr: PeerAddr, f: Inbound, a: Action) -> bool {
    match s {
        ConnState::Unauthenticated => match f {
            Inbound::NonText => a is Ignore,
            Inbound::Text(None) => a matches Action::Reply(t) && t@ == notice_text(
                PushEventType::AuthErr,
            ),
            Inbound::Text(Some(ClientActions::Authenticate { token })) => a matches Action::Verify(
                t,
            ) && t == token,
            Inbound::End => a is Close,
        },
        ConnState::Authenticated => match f {
            Inbound::End => a matches Action::Forget(x) && x == addr,
            _ => a is Forward,
        },
        ConnState::Closed => a is Ignore,
    }
}

/// What one verdict of the identity service gives rise to in state `s`.
pub open spec fn verdict_outcomes(s: ConnState, ok: bool) -> Seq<Outcome> {
    if s != ConnState::Unauthenticated {
        Seq::empty()
    } else if ok {
        seq![Outcome::Track, Outcome::AuthOk]
    } else {
        seq![Outcome::AuthErr]
    }
}

/// The state after one verdict in state `s`.
pub open spec fn verdict_state(s: ConnState, ok: bool) -> ConnState {
    if s == ConnState::Unauthenticated && ok {
        ConnState::Authenticated
    } else {
        s
    }
}

/// The state after a run of verdicts, and what they gave rise to, in order.
pub open spec fn verdicts(s: ConnState, oks: Seq<bool>) -> (ConnState, Seq<Outcome>)
    decreases oks.len(),
{
    if oks.len() == 0 {
        (s, Seq::empty())
    } else {
        let (s1, out) = verdicts(s, oks.drop_last());
        let last = oks[oks.len() - 1];
        (verdict_state(s1, last), out + verdict_outcomes(s1, last))
    }
}

/// One connection, from its acceptance to its end: first the authentication
/// handshake, then the forwarding of its frames.
pub struct Session {
    addr: PeerAddr,
    state: ConnState,
}

impl Session {
    pub closed spec fn spec_addr(&self) -> PeerAddr {
        self.addr
    }

    pub closed spec fn spec_state(&self) -> ConnState {
        self.state
    }

    /// A new connection at `addr`, not yet authenticated.
    pub fn new(addr: PeerAddr) -> (r: Session)
        ensures
            r.spec_addr() == addr,
            r.spec_state() == ConnState::Unauthenticated,
    {
        Session { addr, state: ConnState::Unauthenticated }
    }

    pub fn addr(&self) -> (r: PeerAddr)
        ensures
            r == self.spec_addr(),
    {
        self.addr
    }

    pub fn state(&self) -> (r: ConnState)
        ensures
            r == self.spec_state(),
    {
        self.state
    }

    /// Takes one inbound event and says what to do with it.
    pub fn on_frame(&mut self, f: Inbound) -> (a: Action)
        ensures
            final(self).spec_addr() == old(self).spec_addr(),
            final(self).spec_state() == next_state(old(self).spec_state(), f),
            responds(old(self).spec_state(), old(self).spec_addr(), f, a),
    {
        let ended = matches!(f, Inbound::End);
        let a = match self.state {
            ConnState::Unauthenticated => match f {
                Inbound::NonText => Action::Ignore,
                Inbound::Text(None) => Action::Reply(PushEventType::AuthErr.notice()),
                Inbound::Text(Some(ClientActions::Authenticate { token })) => Action::Verify(token),
                Inbound::End => Action::Close,
            },
            ConnState::Authenticated => match f {
                Inbound::End => Action::Forget(self.addr),
                _ => Action::Forward,
            },
            ConnState::Closed => Action::Ignore,
        };
        if ended {
            self.state = ConnState::Closed;
        }
        a
    }

    /// Takes the identity service's verdict on the token of the last
    /// `Verify`, with the connection's sink. On success the peer is admitted:
    /// the sink goes to the broker with a Track, followed by an `auth_ok`
    /// notification sent through the broker. On failure the connection gets
    /// an `auth_err` notification and may try again.
    pub fn verdict<S, I, E>(&mut self, sink: S, verdict: Result<I, E>) -> (r: Admission<S, I>)
        ensures
            final(self).spec_addr() == old(self).spec_addr(),
            final(self).spec_state() == verdict_state(old(self).spec_state(), verdict is Ok),
            outcomes(r) == verdict_outcomes(old(self).spec_state(), verdict is Ok),
            r is Admitted <==> old(self).spec_state() == ConnState::Unauthenticated && verdict is Ok,
            r is Rejected <==> old(self).spec_state() == ConnState::Unauthenticated && verdict is Err,
            match r {
                Admission::Admitted { track, greeting } => verdict matches Ok(id) && track == (
                CtrlEvent::Track { addr: old(self).spec_addr(), sink, auth: id }) && (
                greeting matches CtrlEvent::SendTo { addr, message } && addr == old(
                    self,
                ).spec_addr() && message@ == notice_text(PushEventType::AuthOk)),
                Admission::Rejected { sink: back, reply } => back == sink && reply@ == notice_text(
                    PushEventType::AuthErr,
                ),
                Admission::Stale(back) => back == sink,
            },
    {
        if self.state != ConnState::Unauthenticated {
            return Admission::Stale(sink);
        }
        match verdict {
            Ok(id) => {
                self.state = ConnState::Authenticated;
                Admission::Admitted {
                    track: CtrlEvent::Track { addr: self.addr, sink, auth: id },
                    greeting: CtrlEvent::SendTo {
                        addr: self.addr,
                        message: PushEventType::AuthOk.notice(),
                    },
                }
            },
            Err(_) => Admission::Rejected { sink, reply: PushEventType::AuthErr.notice() },
        }
    }
}

/// What an admission gives rise to, in order.
pub open spec fn outcomes<S, I>(r: Admission<S, I>) -> Seq<Outcome> {
    match r {
        Admission::Admitted { .. } => seq![Outcome::Track, Outcome::AuthOk],
        Admission::Rejected { .. } => seq![Outcome::AuthErr],
        Admission::Stale(_) => Seq::empty(),
    }
}

proof fn lemma_failures(k: nat)
    ensures
        verdicts(ConnState::Unauthenticated, Seq::new(k, |i: int| false)) == (
            ConnState::Unauthenticated,
            Seq::new(k, |i: int| Outcome::AuthErr),
        ),
    decreases k,
{
    if k > 0 {
        lemma_failures((k - 1) as nat);
        let oks = Seq::new(k, |i: int| false);
        assert(oks.drop_last() =~= Seq::new((k - 1) as nat, |i: int| false));
        assert(Seq::new((k - 1) as nat, |i: int| Outcome::AuthErr) + seq![Outcome::AuthErr]
            =~= Seq::new(k, |i: int| Outcome::AuthErr));
    } else {
        assert(Seq::new(0, |i: int| false) =~= Seq::<bool>::empty());
        assert(Seq::new(0, |i: int| Outcome::AuthErr) =~= Seq::<Outcome>::empty());
    }
}

/// Once authenticated, a connection ignores any later answer of the identity
/// service: nothing more is tracked or notified.
pub proof fn lemma_admitted_once(oks: Seq<bool>)
    ensures
        verdicts(ConnState::Authenticated, oks) == (ConnState::Authenticated, Seq::<
            Outcome,
        >::empty()),
    decreases oks.len(),
{
    if oks.len() > 0 {
        lemma_admitted_once(oks.drop_last());
        assert(Seq::<Outcome>::empty() + Seq::<Outcome>::empty() =~= Seq::<Outcome>::empty());
    }
}

/// A connection whose first `k` attempts fail and whose next one succeeds is
/// tracked exactly once, after `k` `auth_err` notifications and before one
/// `auth_ok`; later verdicts change nothing.
pub proof fn lemma_retry_until_admitted(k: nat, later: Seq<bool>)
    ensures
        verdicts(ConnState::Unauthenticated, Seq::new(k, |i: int| false).push(true)) == (
            ConnState::Authenticated,
            Seq::new(k, |i: int| Outcome::AuthErr) + seq![Outcome::Track, Outcome::AuthOk],
        ),
        verdicts(ConnState::Unauthenticated, Seq::new(k, |i: int| false).push(true) + later) == (
            ConnState::Authenticated,
            Seq::new(k, |i: int| Outcome::AuthErr) + seq![Outcome::Track, Outcome::AuthOk],
        ),
    decreases later.len(),
{
    let first = Seq::new(k, |i: int| false).push(true);
    lemma_failures(k);
    assert(first.drop_last() =~= Seq::new(k, |i: int| false));
    if later.len() > 0 {
        lemma_retry_until_admitted(k, later.drop_last());
        assert((first + later).drop_last() =~= first + later.drop_last());
        let out = Seq::new(k, |i: int| Outcome::AuthErr) + seq![Outcome::Track, Outcome::AuthOk];
        assert(out + Seq::<Outcome>::empty() =~= out);
    } else {
        assert(first + later =~= first);
    }
}

} // verus!
