use vstd::prelude::*;

use crate::addr::PeerAddr;
use crate::broker::{applied, CtrlEvent, Step};
use crate::registry::{addrs_of, hands_out, kept, keyed, Peer};

verus! {

/// The addresses of the peers of `p` whose send failed.
pub open spec fn failed_addrs<S, I>(p: Seq<Peer<S, I>>, ok: Seq<bool>) -> Set<PeerAddr> {
    Set::new(|a: PeerAddr| exists|i: int| 0 <= i < p.len() && p[i].addr == a && !ok[i])
}

/// The addresses of the peers of `p` whose send went through.
pub open spec fn delivered_addrs<S, I>(p: Seq<Peer<S, I>>, ok: Seq<bool>) -> Set<PeerAddr> {
    Set::new(|a: PeerAddr| exists|i: int| 0 <= i < p.len() && p[i].addr == a && ok[i])
}

/// `back` is `out` after the sends: the same peers in the same order, whose
/// sinks alone may have changed.
pub open spec fn same_peers<S, I>(out: Seq<Peer<S, I>>, back: Seq<Peer<S, I>>) -> bool {
    &&& back.len() == out.len()
    &&& forall|i: int| 0 <= i < out.len() ==> #[trigger] back[i].addr == out[i].addr && back[i].auth == out[i].auth
}

/// The identity registered under each address.
pub open spec fn identities<S, I>(m: Map<PeerAddr, Peer<S, I>>) -> Map<PeerAddr, I> {
    m.map_values(|p: Peer<S, I>| p.auth)
}

/// A plain key-value model of one command: Track inserts, Forget removes, and
/// a send removes the addresses in `failed`, whose send failed.
pub open spec fn model_step<S, I>(
    r: Map<PeerAddr, I>,
    ev: CtrlEvent<S, I>,
    failed: Set<PeerAddr>,
) -> Map<PeerAddr, I> {
    match ev {
        CtrlEvent::Track { addr, auth, .. } => r.insert(addr, auth),
        CtrlEvent::Forget { addr } => r.remove(addr),
        CtrlEvent::SendTo { addr, .. } => if failed.contains(addr) {
            r.remove(addr)
        } else {
            r
        },
        CtrlEvent::SendAll(_) => r.remove_keys(failed),
    }
}

/// The model after the commands `evs`, the `i`-th of which failed to reach
/// the addresses in `failed[i]`.
pub open spec fn replay<S, I>(
    r: Map<PeerAddr, I>,
    evs: Seq<CtrlEvent<S, I>>,
    failed: Seq<Set<PeerAddr>>,
) -> Map<PeerAddr, I>
    decreases evs.len(),
{
    if evs.len() == 0 || failed.len() < evs.len() {
        r
    } else {
        let n = evs.len() - 1;
        model_step(replay(r, evs.drop_last(), failed.drop_last()), evs[n], failed[n])
    }
}

/// Whether the command `ev`, with the failed sends `failed`, removes `a`:
/// an explicit Forget, or a failed send.
pub open spec fn drops<S, I>(ev: CtrlEvent<S, I>, failed: Set<PeerAddr>, a: PeerAddr) -> bool {
    match ev {
        CtrlEvent::Track { .. } => false,
        CtrlEvent::Forget { addr } => addr == a,
        CtrlEvent::SendTo { addr, .. } => addr == a && failed.contains(a),
        CtrlEvent::SendAll(_) => failed.contains(a),
    }
}

/// Whether `ev` is a Track for `a`.
pub open spec fn tracks<S, I>(ev: CtrlEvent<S, I>, a: PeerAddr) -> bool {
    ev matches CtrlEvent::Track { addr, .. } && addr == a
}

proof fn lemma_kept<S, I>(m0: Map<PeerAddr, Peer<S, I>>, s: Seq<Peer<S, I>>, ok: Seq<bool>)
    requires
        ok.len() == s.len(),
    ensures
        kept(m0, s, ok).dom() == m0.dom().union(delivered_addrs(s, ok)),
        forall|a: PeerAddr| #[trigger]
            kept(m0, s, ok).contains_key(a) ==> (m0.contains_key(a) && kept(m0, s, ok)[a]
                == m0[a]) || exists|i: int|
                0 <= i < s.len() && ok[i] && s[i].addr == a && kept(m0, s, ok)[a] == s[i],
    decreases s.len(),
{
    if s.len() > 0 {
        let n = s.len() - 1;
        let m1 = if ok[n] {
            m0.insert(s[n].addr, s[n])
        } else {
            m0
        };
        let k = kept(m0, s, ok);
        lemma_kept(m1, s.drop_last(), ok.drop_last());
        assert(k.dom() =~= m0.dom().union(delivered_addrs(s, ok))) by {
            assert forall|a: PeerAddr| delivered_addrs(s, ok).contains(a) implies k.dom().contains(
                a,
            ) by {
                let i = choose|i: int| 0 <= i < s.len() && s[i].addr == a && ok[i];
                if i < n {
                    assert(s.drop_last()[i].addr == a && ok.drop_last()[i]);
                    assert(delivered_addrs(s.drop_last(), ok.drop_last()).contains(a));
                }
            }
            assert forall|a: PeerAddr| delivered_addrs(s.drop_last(), ok.drop_last()).contains(
                a,
            ) implies delivered_addrs(s, ok).contains(a) by {
                let i = choose|i: int|
                    0 <= i < n && s.drop_last()[i].addr == a && ok.drop_last()[i];
                assert(s[i].addr == a && ok[i]);
            }
        }
        assert forall|a: PeerAddr| #[trigger]
            k.contains_key(a) implies (m0.contains_key(a) && k[a] == m0[a]) || exists|i: int|
                0 <= i < s.len() && ok[i] && s[i].addr == a && k[a] == s[i] by {
            if !(m1.contains_key(a) && k[a] == m1[a]) {
                let i = choose|i: int|
                    0 <= i < n && ok.drop_last()[i] && s.drop_last()[i].addr == a && k[a]
                        == s.drop_last()[i];
                assert(ok[i] && s[i].addr == a && k[a] == s[i]);
            } else if ok[n] && a == s[n].addr {
                assert(k[a] == s[n]);
            }
        }
    } else {
        assert(delivered_addrs(s, ok) =~= Set::empty());
        assert(m0.dom().union(Set::empty()) =~= m0.dom());
    }
}

/// A broadcast to the `n` registered peers of `m` sends to exactly `n` peers,
/// one per address. Once the peers are given back, those whose send failed
/// are gone, and every other peer is still registered with its identity.
pub proof fn lemma_delivery_outcome<S, I>(
    m: Map<PeerAddr, Peer<S, I>>,
    out: Seq<Peer<S, I>>,
    back: Seq<Peer<S, I>>,
    ok: Seq<bool>,
)
    requires
        keyed(m),
        m.dom().finite(),
        hands_out(m, out),
        same_peers(out, back),
        ok.len() == back.len(),
    ensures
        out.len() == m.len(),
        failed_addrs(back, ok).subset_of(m.dom()),
        kept(Map::empty(), back, ok).dom() == m.dom().difference(failed_addrs(back, ok)),
        forall|a: PeerAddr| #[trigger]
            kept(Map::empty(), back, ok).contains_key(a) ==> kept(Map::empty(), back, ok)[a].addr
                == a && kept(Map::empty(), back, ok)[a].auth == m[a].auth,
{
    addrs_of(out).unique_seq_to_set();
    let k = kept(Map::<PeerAddr, Peer<S, I>>::empty(), back, ok);
    lemma_kept(Map::<PeerAddr, Peer<S, I>>::empty(), back, ok);
    assert(addrs_of(back) =~= addrs_of(out));
    assert forall|a: PeerAddr| failed_addrs(back, ok).contains(a) implies m.dom().contains(a) by {
        let i = choose|i: int| 0 <= i < back.len() && back[i].addr == a && !ok[i];
        assert(addrs_of(out)[i] == a);
    }
    assert forall|a: PeerAddr|
        k.dom().contains(a) <==> m.dom().difference(failed_addrs(back, ok)).contains(a) by {
        if k.dom().contains(a) {
            let i = choose|i: int| 0 <= i < back.len() && back[i].addr == a && ok[i];
            assert(addrs_of(out)[i] == a);
            if failed_addrs(back, ok).contains(a) {
                let j = choose|j: int| 0 <= j < back.len() && back[j].addr == a && !ok[j];
                assert(addrs_of(out)[j] == a);
            }
        }
        if m.dom().difference(failed_addrs(back, ok)).contains(a) {
            assert(addrs_of(out).to_set().contains(a));
            let i = choose|i: int| 0 <= i < out.len() && addrs_of(out)[i] == a;
            assert(back[i].addr == a);
            assert(ok[i]);
            assert(delivered_addrs(back, ok).contains(a));
        }
    }
    assert(k.dom() =~= m.dom().difference(failed_addrs(back, ok)));
    assert forall|a: PeerAddr| #[trigger] k.contains_key(a) implies k[a].addr == a && k[a].auth
        == m[a].auth by {
        let i = choose|i: int| 0 <= i < back.len() && ok[i] && back[i].addr == a && k[a] == back[i];
        assert(addrs_of(out)[i] == a);
        assert(m[out[i].addr] == out[i]);
    }
}

/// The registry once the command that produced `step` has completed: after
/// `settle` with the peers given back and their outcomes, where it sent.
pub open spec fn after_cycle<S, I>(
    m1: Map<PeerAddr, Peer<S, I>>,
    step: Step<S, I>,
    back: Seq<Peer<S, I>>,
    ok: Seq<bool>,
) -> Map<PeerAddr, Peer<S, I>> {
    match step {
        Step::Deliver { .. } => kept(m1, back, ok),
        Step::Release(_) => m1,
    }
}

/// One command, carried through `apply`, the sends it asks for and `settle`,
/// leaves the identities of the registry where the plain key-value model
/// leaves them.
pub proof fn lemma_command_cycle<S, I>(
    m0: Map<PeerAddr, Peer<S, I>>,
    ev: CtrlEvent<S, I>,
    m1: Map<PeerAddr, Peer<S, I>>,
    step: Step<S, I>,
    back: Seq<Peer<S, I>>,
    ok: Seq<bool>,
)
    requires
        keyed(m0),
        m0.dom().finite(),
        applied(m0, ev, m1, step),
        ok.len() == back.len(),
        step matches Step::Deliver { peers, .. } ==> same_peers(peers@, back),
    ensures
        identities(after_cycle(m1, step, back, ok)) == model_step(
            identities(m0),
            ev,
            failed_addrs(back, ok),
        ),
{
    let f = failed_addrs(back, ok);
    match ev {
        CtrlEvent::Track { addr, sink, auth } => {
            assert(identities(m1) =~= identities(m0).insert(addr, auth));
        },
        CtrlEvent::Forget { addr } => {
            assert(identities(m1) =~= identities(m0).remove(addr));
        },
        CtrlEvent::SendTo { addr, message } => {
            if m0.contains_key(addr) {
                reveal_with_fuel(kept, 2);
                assert(back[0].addr == addr && back[0].auth == m0[addr].auth);
                let k = kept(m1, back, ok);
                if ok[0] {
                    assert(!f.contains(addr));
                    assert(identities(k) =~= identities(m0));
                } else {
                    assert(f.contains(addr));
                    assert(identities(k) =~= identities(m0).remove(addr));
                }
            } else {
                assert(identities(m1) =~= identities(m0));
                assert(identities(m0).remove(addr) =~= identities(m0));
            }
        },
        CtrlEvent::SendAll(message) => {
            let peers = step->peers;
            lemma_delivery_outcome(m0, peers@, back, ok);
            let k = kept(m1, back, ok);
            assert(identities(k) =~= identities(m0).remove_keys(f));
        },
    }
}

/// After a run of commands from an empty registry, an address is registered
/// exactly when some command tracked it and no later command dropped it,
/// by a Forget or by a failed send.
pub proof fn lemma_replay_membership<S, I>(
    evs: Seq<CtrlEvent<S, I>>,
    failed: Seq<Set<PeerAddr>>,
    a: PeerAddr,
)
    requires
        failed.len() == evs.len(),
    ensures
        replay(Map::<PeerAddr, I>::empty(), evs, failed).contains_key(a) <==> exists|i: int|
            0 <= i < evs.len() && #[trigger] tracks(evs[i], a) && forall|j: int|
                i < j < evs.len() ==> !drops(evs[j], failed[j], a),
    decreases evs.len(),
{
    if evs.len() > 0 {
        let n = evs.len() - 1;
        let pe = evs.drop_last();
        let pf = failed.drop_last();
        lemma_replay_membership(pe, pf, a);
        let r = replay(Map::<PeerAddr, I>::empty(), pe, pf);
        let big = replay(Map::<PeerAddr, I>::empty(), evs, failed);
        assert(big == model_step(r, evs[n], failed[n]));
        if tracks(evs[n], a) {
            assert(big.contains_key(a));
            assert(forall|j: int| n < j < evs.len() ==> !drops(evs[j], failed[j], a));
        } else if drops(evs[n], failed[n], a) {
            assert(!big.contains_key(a));
            assert forall|i: int| 0 <= i < evs.len() && #[trigger] tracks(evs[i], a) implies !(
            forall|j: int| i < j < evs.len() ==> !drops(evs[j], failed[j], a)) by {
                assert(i != n);
                assert(i < n && drops(evs[n], failed[n], a));
            }
        } else {
            assert(big.contains_key(a) == r.contains_key(a));
            if r.contains_key(a) {
                let i = choose|i: int|
                    0 <= i < pe.len() && #[trigger] tracks(pe[i], a) && forall|j: int|
                        i < j < pe.len() ==> !drops(pe[j], pf[j], a);
                assert(tracks(evs[i], a));
                assert forall|j: int| i < j < evs.len() implies !drops(evs[j], failed[j], a) by {
                    if j < n {
                        assert(pe[j] == evs[j] && pf[j] == failed[j]);
                    }
                }
            }
            if big.contains_key(a) {
            } else {
                assert forall|i: int| 0 <= i < evs.len() && #[trigger] tracks(evs[i], a) implies !(
                forall|j: int| i < j < evs.len() ==> !drops(evs[j], failed[j], a)) by {
                    assert(i < n);
                    assert(tracks(pe[i], a));
                    let j = choose|j: int| i < j < pe.len() && drops(pe[j], pf[j], a);
                    assert(drops(evs[j], failed[j], a));
                }
            }
        }
    }
}

/// Over a whole run of commands, each carried through `apply`, its sends and
/// `settle`, the identities of the registry end where the plain key-value
/// model ends after replaying the same commands with the same failed sends.
/// `states[i]` is the registry before command `i`, `mids[i]` the registry
/// after `apply`, and `backs[i]`, `oks[i]` the peers given back to `settle`
/// with their outcomes.
pub proof fn lemma_replay_matches_model<S, I>(
    evs: Seq<CtrlEvent<S, I>>,
    states: Seq<Map<PeerAddr, Peer<S, I>>>,
    mids: Seq<Map<PeerAddr, Peer<S, I>>>,
    steps: Seq<Step<S, I>>,
    backs: Seq<Seq<Peer<S, I>>>,
    oks: Seq<Seq<bool>>,
)
    requires
        states.len() == evs.len() + 1,
        mids.len() == evs.len(),
        steps.len() == evs.len(),
        backs.len() == evs.len(),
        oks.len() == evs.len(),
        forall|i: int|
            0 <= i < evs.len() ==> {
                &&& keyed(#[trigger] states[i])
                &&& states[i].dom().finite()
                &&& applied(states[i], evs[i], mids[i], steps[i])
                &&& oks[i].len() == backs[i].len()
                &&& steps[i] matches Step::Deliver { peers, .. } ==> same_peers(peers@, backs[i])
                &&& states[i + 1] == after_cycle(mids[i], steps[i], backs[i], oks[i])
            },
    ensures
        identities(states[evs.len() as int]) == replay(
            identities(states[0]),
            evs,
            Seq::new(evs.len(), |i: int| failed_addrs(backs[i], oks[i])),
        ),
    decreases evs.len(),
{
    let n = evs.len();
    let failed = Seq::new(n, |i: int| failed_addrs(backs[i], oks[i]));
    if n > 0 {
        let k = n - 1;
        lemma_replay_matches_model(
            evs.drop_last(),
            states.drop_last(),
            mids.drop_last(),
            steps.drop_last(),
            backs.drop_last(),
            oks.drop_last(),
        );
        assert(keyed(states[k]));
        lemma_command_cycle(states[k], evs[k], mids[k], steps[k], backs[k], oks[k]);
        let pf = Seq::new(k as nat, |i: int| failed_addrs(backs.drop_last()[i], oks.drop_last()[i]));
        assert(failed.drop_last() =~= pf);
    }
}

/// A Forget for an address that is not registered changes nothing and
/// releases nothing; a second Forget for the same address is such a Forget.
pub proof fn lemma_forget_absent<S, I>(
    m0: Map<PeerAddr, Peer<S, I>>,
    addr: PeerAddr,
    m1: Map<PeerAddr, Peer<S, I>>,
    step: Step<S, I>,
)
    requires
        applied(m0, CtrlEvent::Forget { addr }, m1, step),
    ensures
        !m1.contains_key(addr),
        !m0.contains_key(addr) ==> m1 == m0,
        !m0.contains_key(addr) ==> (step matches Step::Release(r) && r@.len() == 0),
        m1.remove(addr) == m1,
{
    assert(m1.remove(addr) =~= m1);
    if !m0.contains_key(addr) {
        assert(m1 =~= m0);
    }
}

} // verus!
