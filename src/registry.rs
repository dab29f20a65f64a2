use vstd::prelude::*;

use crate::addr::PeerAddr;

verus! {

/// One registered connection: its address, the handle that sends to it and the
/// identity that authenticated it.
pub struct Peer<S, I> {
    pub addr: PeerAddr,
    pub sink: S,
    pub auth: I,
}

/// The addresses of a sequence of peers, in order.
pub open spec fn addrs_of<S, I>(p: Seq<Peer<S, I>>) -> Seq<PeerAddr> {
    p.map_values(|x: Peer<S, I>| x.addr)
}

/// `p` holds every entry of `m`, each once.
pub open spec fn hands_out<S, I>(m: Map<PeerAddr, Peer<S, I>>, p: Seq<Peer<S, I>>) -> bool {
    &&& addrs_of(p).no_duplicates()
    &&& addrs_of(p).to_set() == m.dom()
    &&& forall|i: int| 0 <= i < p.len() ==> m[#[trigger] p[i].addr] == p[i]
}

/// Every entry of `m` is stored under its own address.
pub open spec fn keyed<S, I>(m: Map<PeerAddr, Peer<S, I>>) -> bool {
    forall|a: PeerAddr| #[trigger] m.contains_key(a) ==> m[a].addr == a
}

/// The registry that results from putting back, last first, each peer of `p`
/// whose send went through (`ok[i]`) into `m`.
pub open spec fn kept<S, I>(
    m: Map<PeerAddr, Peer<S, I>>,
    p: Seq<Peer<S, I>>,
    ok: Seq<bool>,
) -> Map<PeerAddr, Peer<S, I>>
    decreases p.len(),
{
    if p.len() == 0 {
        m
    } else {
        let n = p.len() - 1;
        let m1 = if ok[n] {
            m.insert(p[n].addr, p[n])
        } else {
            m
        };
        kept(m1, p.drop_last(), ok.drop_last())
    }
}

/// The peers of `p` whose send failed, last first.
pub open spec fn dropped<S, I>(p: Seq<Peer<S, I>>, ok: Seq<bool>) -> Seq<Peer<S, I>>
    decreases p.len(),
{
    if p.len() == 0 {
        Seq::empty()
    } else {
        let n = p.len() - 1;
        let head = if ok[n] {
            Seq::empty()
        } else {
            seq![p[n]]
        };
        head + dropped(p.drop_last(), ok.drop_last())
    }
}

proof fn lemma_remove_unique(s: Seq<PeerAddr>, i: int)
    requires
        s.no_duplicates(),
        0 <= i < s.len(),
    ensures
        s.remove(i).no_duplicates(),
        s.remove(i).to_set() == s.to_set().remove(s[i]),
{
    let r = s.remove(i);
    assert forall|a: PeerAddr| r.to_set().contains(a) <==> s.to_set().remove(s[i]).contains(a) by {
        if r.to_set().contains(a) {
            let k = choose|k: int| 0 <= k < r.len() && r[k] == a;
            if k < i {
                assert(s[k] == a);
            } else {
                assert(s[k + 1] == a);
            }
        }
        if s.to_set().remove(s[i]).contains(a) {
            let k = choose|k: int| 0 <= k < s.len() && s[k] == a;
            if k < i {
                assert(r[k] == a);
            } else {
                assert(r[k - 1] == a);
            }
        }
    }
    assert(r.to_set() =~= s.to_set().remove(s[i]));
}

proof fn lemma_push_unique(s: Seq<PeerAddr>, a: PeerAddr)
    requires
        s.no_duplicates(),
        !s.to_set().contains(a),
    ensures
        s.push(a).no_duplicates(),
        s.push(a).to_set() == s.to_set().insert(a),
{
    let r = s.push(a);
    assert forall|i: int, j: int| 0 <= i < r.len() && 0 <= j < r.len() && i != j implies r[i]
        != r[j] by {
        if i == s.len() {
            assert(s.to_set().contains(s[j]));
        } else if j == s.len() {
            assert(s.to_set().contains(s[i]));
        }
    }
    assert forall|b: PeerAddr| r.to_set().contains(b) <==> s.to_set().insert(a).contains(b) by {
        if r.to_set().contains(b) && b != a {
            let k = choose|k: int| 0 <= k < r.len() && r[k] == b;
            assert(s[k] == b);
        }
        if s.to_set().contains(b) {
            let k = choose|k: int| 0 <= k < s.len() && s[k] == b;
            assert(r[k] == b);
        }
        if b == a {
            assert(r[s.len() as int] == a);
        }
    }
    assert(r.to_set() =~= s.to_set().insert(a));
}

/// The peer registry: at most one peer per address. Its view maps each
/// registered address to its peer.
pub struct Registry<S, I> {
    peers: Vec<Peer<S, I>>,
    model: Ghost<Map<PeerAddr, Peer<S, I>>>,
}

impl<S, I> Registry<S, I> {
    pub closed spec fn view(&self) -> Map<PeerAddr, Peer<S, I>> {
        self.model@
    }

    pub closed spec fn wf(&self) -> bool {
        &&& addrs_of(self.peers@).no_duplicates()
        &&& self.model@.dom() == addrs_of(self.peers@).to_set()
        &&& forall|i: int|
            0 <= i < self.peers@.len() ==> self.model@[#[trigger] self.peers@[i].addr]
                == self.peers@[i]
    }

    /// A well-formed registry stores each peer under its own address.
    pub proof fn lemma_keyed(&self)
        requires
            self.wf(),
        ensures
            keyed(self@),
            self@.dom().finite(),
    {
        assert forall|a: PeerAddr| #[trigger] self@.contains_key(a) implies self@[a].addr == a by {
            assert(addrs_of(self.peers@).to_set().contains(a));
            let i = choose|i: int| 0 <= i < self.peers@.len() && addrs_of(self.peers@)[i] == a;
            assert(self.peers@[i].addr == a);
        }
    }

    proof fn lemma_entry_registered(&self, i: int)
        requires
            self.wf(),
            0 <= i < self.peers@.len(),
        ensures
            self@.contains_key(self.peers@[i].addr),
    {
        assert(addrs_of(self.peers@)[i] == self.peers@[i].addr);
        assert(addrs_of(self.peers@).to_set().contains(self.peers@[i].addr));
    }

    pub fn new() -> (r: Self)
        ensures
            r.wf(),
            r@ == Map::<PeerAddr, Peer<S, I>>::empty(),
    {
        let r = Registry { peers: Vec::new(), model: Ghost(Map::empty()) };
        assert(addrs_of(r.peers@).to_set() =~= Set::empty());
        r
    }

    fn position(&self, addr: &PeerAddr) -> (r: Option<usize>)
        requires
            self.wf(),
        ensures
            match r {
                Some(i) => i < self.peers@.len() && self.peers@[i as int].addr == *addr
                    && self@.contains_key(*addr),
                None => !self@.contains_key(*addr),
            },
    {
        let mut i: usize = 0;
        while i < self.peers.len()
            invariant
                self.wf(),
                i <= self.peers@.len(),
                forall|k: int| 0 <= k < i ==> self.peers@[k].addr != *addr,
            decreases self.peers@.len() - i,
        {
            if self.peers[i].addr.same(addr) {
                proof {
                    self.lemma_entry_registered(i as int);
                }
                return Some(i);
            }
            i = i + 1;
        }
        proof {
            if self@.contains_key(*addr) {
                assert(addrs_of(self.peers@).to_set().contains(*addr));
                let k = choose|k: int|
                    0 <= k < self.peers@.len() && addrs_of(self.peers@)[k] == *addr;
                assert(self.peers@[k].addr == *addr);
            }
        }
        None
    }

    fn take_at(&mut self, i: usize) -> (r: Peer<S, I>)
        requires
            old(self).wf(),
            i < old(self).peers@.len(),
        ensures
            final(self).wf(),
            r == old(self).peers@[i as int],
            old(self)@.contains_key(r.addr),
            r == old(self)@[r.addr],
            final(self)@ == old(self)@.remove(r.addr),
    {
        proof {
            self.lemma_entry_registered(i as int);
            lemma_remove_unique(addrs_of(self.peers@), i as int);
            assert(addrs_of(self.peers@.remove(i as int)) =~= addrs_of(self.peers@).remove(i as int));
        }
        let ghost before = self.peers@;
        let r = self.peers.remove(i);
        self.model = Ghost(self.model@.remove(r.addr));
        proof {
            assert(addrs_of(before)[i as int] == r.addr);
            assert(self.model@.dom() =~= addrs_of(self.peers@).to_set());
            assert forall|k: int| 0 <= k < self.peers@.len() implies self.model@[
                #[trigger] self.peers@[k].addr] == self.peers@[k] by {
                if k < i {
                    assert(self.peers@[k] == before[k]);
                    assert(addrs_of(before)[k] != addrs_of(before)[i as int]);
                } else {
                    assert(self.peers@[k] == before[k + 1]);
                    assert(addrs_of(before)[k + 1] != addrs_of(before)[i as int]);
                }
            }
        }
        r
    }

    fn put(&mut self, peer: Peer<S, I>)
        requires
            old(self).wf(),
            !old(self)@.contains_key(peer.addr),
        ensures
            final(self).wf(),
            final(self)@ == old(self)@.insert(peer.addr, peer),
    {
        proof {
            lemma_push_unique(addrs_of(self.peers@), peer.addr);
            assert(addrs_of(self.peers@.push(peer)) =~= addrs_of(self.peers@).push(peer.addr));
        }
        let ghost before = self.peers@;
        let ghost a = peer.addr;
        self.peers.push(peer);
        self.model = Ghost(self.model@.insert(a, self.peers@.last()));
        proof {
            assert(self.model@.dom() =~= addrs_of(self.peers@).to_set());
            assert forall|k: int| 0 <= k < self.peers@.len() implies self.model@[
                #[trigger] self.peers@[k].addr] == self.peers@[k] by {
                if k < before.len() {
                    assert(self.peers@[k] == before[k]);
                    assert(addrs_of(before).to_set().contains(addrs_of(before)[k]));
                }
            }
        }
    }

    /// Registers `sink` and `auth` under `addr`, in place of any peer that was
    /// registered there; that peer, if any, is handed back to be closed.
    pub fn track(&mut self, addr: PeerAddr, sink: S, auth: I) -> (r: Option<Peer<S, I>>)
        requires
            old(self).wf(),
        ensures
            final(self).wf(),
            final(self)@ == old(self)@.insert(addr, Peer { addr, sink, auth }),
            match r {
                Some(p) => old(self)@.contains_key(addr) && p == old(self)@[addr],
                None => !old(self)@.contains_key(addr),
            },
    {
        let replaced = match self.position(&addr) {
            Some(i) => Some(self.take_at(i)),
            None => None,
        };
        self.put(Peer { addr, sink, auth });
        proof {
            if replaced.is_some() {
                assert(self@ =~= old(self)@.insert(addr, Peer { addr, sink, auth }));
            }
        }
        replaced
    }

    /// Removes the peer registered under `addr`, if any, and hands it back.
    /// Nothing changes where no peer is registered there.
    pub fn forget(&mut self, addr: &PeerAddr) -> (r: Option<Peer<S, I>>)
        requires
            old(self).wf(),
        ensures
            final(self).wf(),
            final(self)@ == old(self)@.remove(*addr),
            match r {
                Some(p) => old(self)@.contains_key(*addr) && p == old(self)@[*addr],
                None => !old(self)@.contains_key(*addr) && final(self)@ == old(self)@,
            },
    {
        match self.position(addr) {
            Some(i) => Some(self.take_at(i)),
            None => {
                assert(self@ =~= self@.remove(*addr));
                None
            },
        }
    }

    /// The number of registered peers.
    pub fn len(&self) -> (r: usize)
        requires
            self.wf(),
        ensures
            r == self@.len(),
    {
        proof {
            addrs_of(self.peers@).unique_seq_to_set();
        }
        self.peers.len()
    }

    /// The registered addresses, each once.
    pub fn addresses(&self) -> (r: Vec<PeerAddr>)
        requires
            self.wf(),
        ensures
            r@.no_duplicates(),
            r@.to_set() == self@.dom(),
            r@.len() == self@.len(),
    {
        let mut r: Vec<PeerAddr> = Vec::new();
        let mut i: usize = 0;
        while i < self.peers.len()
            invariant
                self.wf(),
                i <= self.peers@.len(),
                r@ == addrs_of(self.peers@).take(i as int),
            decreases self.peers@.len() - i,
        {
            r.push(self.peers[i].addr);
            i = i + 1;
            assert(r@ =~= addrs_of(self.peers@).take(i as int));
        }
        proof {
            assert(r@ =~= addrs_of(self.peers@));
            r@.unique_seq_to_set();
        }
        r
    }

    /// Hands out every registered peer, each once, and leaves the registry
    /// empty until they are given back.
    pub fn take_all(&mut self) -> (r: Vec<Peer<S, I>>)
        requires
            old(self).wf(),
        ensures
            final(self).wf(),
            final(self)@ == Map::<PeerAddr, Peer<S, I>>::empty(),
            hands_out(old(self)@, r@),
            r@.len() == old(self)@.len(),
    {
        proof {
            addrs_of(self.peers@).unique_seq_to_set();
        }
        let mut r: Vec<Peer<S, I>> = Vec::new();
        std::mem::swap(&mut r, &mut self.peers);
        self.model = Ghost(Map::empty());
        assert(addrs_of(self.peers@).to_set() =~= Set::empty());
        r
    }

    /// Gives back the peers handed out for one delivery. `delivered[i]` tells
    /// whether the send to `peers[i]` went through: those peers are registered
    /// again, the others are handed back to be closed.
    pub fn settle(&mut self, peers: Vec<Peer<S, I>>, delivered: Vec<bool>) -> (r: Vec<Peer<S, I>>)
        requires
            old(self).wf(),
            peers@.len() == delivered@.len(),
        ensures
            final(self).wf(),
            final(self)@ == kept(old(self)@, peers@, delivered@),
            r@ == dropped(peers@, delivered@),
    {
        let ghost p0 = peers@;
        let ghost ok0 = delivered@;
        let mut peers = peers;
        let mut delivered = delivered;
        let mut evicted: Vec<Peer<S, I>> = Vec::new();
        assert(evicted@ + dropped(peers@, delivered@) =~= dropped(p0, ok0));
        while peers.len() > 0
            invariant
                self.wf(),
                peers@.len() == delivered@.len(),
                kept(self@, peers@, delivered@) == kept(old(self)@, p0, ok0),
                evicted@ + dropped(peers@, delivered@) == dropped(p0, ok0),
            decreases peers@.len(),
        {
            let ghost pb = peers@;
            let ghost okb = delivered@;
            let ghost eb = evicted@;
            let p = peers.pop().unwrap();
            let ok = delivered.pop().unwrap();
            assert(peers@ =~= pb.drop_last());
            assert(delivered@ =~= okb.drop_last());
            if ok {
                let _ = self.track(p.addr, p.sink, p.auth);
                assert(eb + dropped(peers@, delivered@) =~= eb + dropped(pb, okb));
            } else {
                evicted.push(p);
                assert(evicted@ + dropped(peers@, delivered@) =~= eb + dropped(pb, okb));
            }
        }
        assert(evicted@ =~= evicted@ + dropped(peers@, delivered@));
        evicted
    }

    /// The identity registered under `addr`, if any.
    pub fn auth_of(&self, addr: &PeerAddr) -> (r: Option<&I>)
        requires
            self.wf(),
        ensures
            match r {
                Some(x) => self@.contains_key(*addr) && *x == self@[*addr].auth,
                None => !self@.contains_key(*addr),
            },
    {
        match self.position(addr) {
            Some(i) => Some(&self.peers[i].auth),
            None => None,
        }
    }

    /// Whether a peer is registered under `addr`.
    pub fn contains(&self, addr: &PeerAddr) -> (r: bool)
        requires
            self.wf(),
        ensures
            r == self@.contains_key(*addr),
    {
        self.position(addr).is_some()
    }
}

} // verus!
