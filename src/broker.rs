use vstd::prelude::*;

use crate::addr::PeerAddr;
use crate::registry::{hands_out, Peer, Registry};

verus! {

/// A command to the broker, which owns the registry and applies commands one
/// at a time, in the order they arrive.
pub enum CtrlEvent<S, I> {
    /// Register a peer that has just authenticated.
    Track { addr: PeerAddr, sink: S, auth: I },
    /// Drop the peer at `addr`, if any.
    Forget { addr: PeerAddr },
    /// Send `message` to the peer at `addr`, if any.
    SendTo { addr: PeerAddr, message: String },
    /// Send the message to every registered peer.
    SendAll(String),
}

/// What the caller of `Registry::apply` has to do next.
pub enum Step<S, I> {
    /// These peers have left the registry: close their sinks.
    Release(Vec<Peer<S, I>>),
    /// Send `message` on the sink of each of `peers`, then hand them back with
    /// the outcomes through `Registry::settle`.
    Deliver { message: String, peers: Vec<Peer<S, I>> },
}

/// A value that external producers hand to the broker as a command.
pub trait IntoCtrlEvent<S, I>: Sized {
    spec fn spec_ctrl_event(self) -> CtrlEvent<S, I>;

    fn into_ctrl_event(self) -> (r: CtrlEvent<S, I>)
        ensures
            r == self.spec_ctrl_event(),
    ;
}

/// A notification string from a producer is broadcast verbatim.
impl<S, I> IntoCtrlEvent<S, I> for String {
    open spec fn spec_ctrl_event(self) -> CtrlEvent<S, I> {
        CtrlEvent::SendAll(self)
    }

    fn into_ctrl_event(self) -> (r: CtrlEvent<S, I>) {
        CtrlEvent::SendAll(self)
    }
}

/// The entry at `addr` in `m`, as a sequence of zero or one peer.
pub open spec fn entry_at<S, I>(m: Map<PeerAddr, Peer<S, I>>, addr: PeerAddr) -> Seq<Peer<S, I>> {
    if m.contains_key(addr) {
        seq![m[addr]]
    } else {
        Seq::empty()
    }
}

/// How `apply` of `ev` takes the registry from `m0` to `m1` and what it asks
/// the caller to do.
pub open spec fn applied<S, I>(
    m0: Map<PeerAddr, Peer<S, I>>,
    ev: CtrlEvent<S, I>,
    m1: Map<PeerAddr, Peer<S, I>>,
    step: Step<S, I>,
) -> bool {
    match ev {
        CtrlEvent::Track { addr, sink, auth } => {
            &&& m1 == m0.insert(addr, Peer { addr, sink, auth })
            &&& step matches Step::Release(r) && r@ == entry_at(m0, addr)
        },
        CtrlEvent::Forget { addr } => {
            &&& m1 == m0.remove(addr)
            &&& step matches Step::Release(r) && r@ == entry_at(m0, addr)
        },
        CtrlEvent::SendTo { addr, message } => {
            &&& m1 == m0.remove(addr)
            &&& if m0.contains_key(addr) {
                step matches Step::Deliver { message: m, peers } && m == message && peers@ == seq![
                    m0[addr],
                ]
            } else {
                step matches Step::Release(r) && r@.len() == 0
            }
        },
        CtrlEvent::SendAll(message) => {
            &&& m1 == Map::<PeerAddr, Peer<S, I>>::empty()
            &&& step matches Step::Deliver { message: m, peers } && m == message && hands_out(
                m0,
                peers@,
            ) && peers@.len() == m0.len()
        },
    }
}

fn zero_or_one<T>(x: Option<T>) -> (r: Vec<T>)
    ensures
        r@ == match x {
            Some(v) => seq![v],
            None => Seq::<T>::empty(),
        },
{
    let mut r: Vec<T> = Vec::new();
    match x {
        Some(v) => r.push(v),
        None => {},
    }
    r
}

impl<S, I> Registry<S, I> {
    /// Applies one command. A command that sends takes its peers out of the
    /// registry; `settle` puts back those whose send went through, so that a
    /// failed peer is gone once the command completes.
    pub fn apply(&mut self, ev: CtrlEvent<S, I>) -> (step: Step<S, I>)
        requires
            old(self).wf(),
        ensures
            final(self).wf(),
            applied(old(self)@, ev, final(self)@, step),
    {
        match ev {
            CtrlEvent::Track { addr, sink, auth } => {
                let old_peer = self.track(addr, sink, auth);
                Step::Release(zero_or_one(old_peer))
            },
            CtrlEvent::Forget { addr } => {
                let gone = self.forget(&addr);
                Step::Release(zero_or_one(gone))
            },
            CtrlEvent::SendTo { addr, message } => {
                match self.forget(&addr) {
                    Some(p) => Step::Deliver { message, peers: zero_or_one(Some(p)) },
                    None => Step::Release(Vec::new()),
                }
            },
            CtrlEvent::SendAll(message) => {
                let peers = self.take_all();
                Step::Deliver { message, peers }
            },
        }
    }
}

} // verus!
