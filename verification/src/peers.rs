//! The set of known peer addresses, in the order in which they were learnt.

use vstd::prelude::*;
use vstd::string::StringExecFns;

use crate::codec::list_bytes;
use crate::storage::{load_peers, peers_at, peers_key, put_into, save_peers, Storage};
use crate::text::{append_decimal, decimal, position, texts};

verus! {

/// The peers after `addr` was added: at the end, unless it is known
/// already.
pub open spec fn joined(peers: Seq<Seq<char>>, addr: Seq<char>) -> Seq<Seq<char>> {
    if peers.contains(addr) {
        peers
    } else {
        peers.push(addr)
    }
}

/// The peers after a list of addresses was added in order.
pub open spec fn joined_all(peers: Seq<Seq<char>>, addrs: Seq<Seq<char>>) -> Seq<Seq<char>>
    decreases addrs.len(),
{
    if addrs.len() == 0 {
        peers
    } else {
        joined(joined_all(peers, addrs.drop_last()), addrs.last())
    }
}

/// The peers without `addr`.
pub open spec fn parted(peers: Seq<Seq<char>>, addr: Seq<char>) -> Seq<Seq<char>> {
    if peers.contains(addr) {
        peers.remove(peers.index_of(addr))
    } else {
        peers
    }
}

/// Adding is idempotent: the first add of an unknown address makes the set
/// one larger, the first add of a known one changes nothing, and a second
/// add of the same address never changes anything. No address is ever
/// listed twice.
pub proof fn lemma_add_peer_idempotent(peers: Seq<Seq<char>>, addr: Seq<char>)
    requires
        peers.no_duplicates(),
    ensures
        joined(peers, addr).no_duplicates(),
        joined(peers, addr).contains(addr),
        joined(peers, addr).len() == peers.len() + (if peers.contains(addr) {
            0int
        } else {
            1int
        }),
        joined(joined(peers, addr), addr) == joined(peers, addr),
{
    let j = joined(peers, addr);
    if !peers.contains(addr) {
        assert(j[peers.len() as int] == addr);
        assert forall|a: int, b: int| 0 <= a < j.len() && 0 <= b < j.len() && a != b implies j[a]
            != j[b] by {
            if a < peers.len() && b < peers.len() {
                assert(peers[a] != peers[b]);
            } else if a < peers.len() {
                assert(peers.contains(peers[a]));
            } else {
                assert(peers.contains(peers[b]));
            }
        }
    }
}

/// Adding a list keeps the set free of repeats, and never shrinks it.
pub proof fn lemma_joined_all(peers: Seq<Seq<char>>, addrs: Seq<Seq<char>>)
    requires
        peers.no_duplicates(),
    ensures
        joined_all(peers, addrs).no_duplicates(),
        joined_all(peers, addrs).len() >= peers.len(),
        joined_all(peers, addrs).len() <= peers.len() + addrs.len(),
    decreases addrs.len(),
{
    if addrs.len() > 0 {
        lemma_joined_all(peers, addrs.drop_last());
        lemma_add_peer_idempotent(joined_all(peers, addrs.drop_last()), addrs.last());
    }
}

/// One numbered line of text for each peer, numbered from zero.
pub open spec fn peer_lines(peers: Seq<Seq<char>>) -> Seq<char>
    decreases peers.len(),
{
    if peers.len() == 0 {
        Seq::empty()
    } else {
        peer_lines(peers.drop_last()) + "  ["@ + decimal((peers.len() - 1) as nat) + "] "@
            + peers.last() + "\n"@
    }
}

/// The known peers.
#[derive(Debug)]
pub struct PeerManager {
    peers: Vec<String>,
}

impl View for PeerManager {
    type V = Seq<Seq<char>>;

    closed spec fn view(&self) -> Seq<Seq<char>> {
        texts(self.peers@)
    }
}

impl PeerManager {
    /// What every set of peers keeps: no address is listed twice.
    #[verifier::type_invariant]
    pub open spec fn wf(&self) -> bool {
        self@.no_duplicates()
    }

    /// No peers.
    pub fn new() -> (r: Self)
        ensures
            r@ == Seq::<Seq<char>>::empty(),
    {
        let peers: Vec<String> = Vec::new();
        assert(texts(peers@) =~= Seq::<Seq<char>>::empty());
        PeerManager { peers }
    }

    /// The number of peers. None is listed twice.
    pub fn len(&self) -> (n: usize)
        ensures
            n == self@.len(),
            self@.no_duplicates(),
    {
        proof {
            use_type_invariant(self);
        }
        self.peers.len()
    }

    /// Whether `addr` is known.
    pub fn contains(&self, addr: &str) -> (r: bool)
        ensures
            r == self@.contains(addr@),
    {
        match position(&self.peers, addr) {
            Some(i) => {
                assert(self@[i as int] == addr@);
                true
            },
            None => {
                assert forall|j: int| 0 <= j < self@.len() implies self@[j] != addr@ by {
                    assert(self@[j] == self.peers[j]@);
                }
                false
            },
        }
    }

    /// Adds `addr` unless it is known already.
    pub fn add_peer(&mut self, addr: String)
        ensures
            final(self)@ == joined(old(self)@, addr@),
            final(self)@.no_duplicates(),
    {
        proof {
            use_type_invariant(&*self);
            lemma_add_peer_idempotent(self@, addr@);
        }
        if !self.contains(addr.as_str()) {
            let mut peers: Vec<String> = Vec::new();
            std::mem::swap(&mut peers, &mut self.peers);
            assert(texts(self.peers@) =~= Seq::<Seq<char>>::empty());
            peers.push(addr);
            assert(texts(peers@) =~= old(self)@.push(addr@));
            self.peers = peers;
        }
    }

    /// Forgets `addr` if it is known.
    pub fn remove_peer(&mut self, addr: &str)
        ensures
            final(self)@ == parted(old(self)@, addr@),
            final(self)@.no_duplicates(),
    {
        proof {
            use_type_invariant(&*self);
        }
        let ghost p = self@;
        match position(&self.peers, addr) {
            Some(i) => {
                proof {
                    assert(p[i as int] == addr@);
                    let k = p.index_of(addr@);
                    assert(p[k] == addr@);
                    assert(k == i);
                }
                let mut peers: Vec<String> = Vec::new();
                std::mem::swap(&mut peers, &mut self.peers);
                assert(texts(self.peers@) =~= Seq::<Seq<char>>::empty());
                let _ = peers.remove(i);
                assert(texts(peers@) =~= p.remove(i as int));
                proof {
                    let r = p.remove(i as int);
                    assert forall|a: int, b: int|
                        0 <= a < r.len() && 0 <= b < r.len() && a != b implies r[a] != r[b] by {
                        let pa = if a < i {
                            a
                        } else {
                            a + 1
                        };
                        let pb = if b < i {
                            b
                        } else {
                            b + 1
                        };
                        assert(r[a] == p[pa] && r[b] == p[pb]);
                    }
                }
                self.peers = peers;
            },
            None => {
                assert forall|j: int| 0 <= j < p.len() implies p[j] != addr@ by {
                    assert(p[j] == self.peers[j]@);
                }
            },
        }
    }

    /// Adds the addresses in order, each unless it is known already, and
    /// says how many were new.
    pub fn merge(&mut self, addrs: &Vec<String>) -> (added: usize)
        ensures
            final(self)@ == joined_all(old(self)@, texts(addrs@)),
            added == final(self)@.len() - old(self)@.len(),
            final(self)@.no_duplicates(),
    {
        let ghost all = texts(addrs@);
        let before = self.len();
        let mut i: usize = 0;
        assert(all.subrange(0, 0) =~= Seq::<Seq<char>>::empty());
        while i < addrs.len()
            invariant
                i <= addrs.len(),
                all == texts(addrs@),
                self@ == joined_all(old(self)@, all.subrange(0, i as int)),
                self@.no_duplicates(),
                old(self)@.no_duplicates(),
                before == old(self)@.len(),
            decreases addrs.len() - i,
        {
            assert(all.subrange(0, i + 1).drop_last() =~= all.subrange(0, i as int));
            assert(all.subrange(0, i + 1).last() == addrs[i as int]@);
            self.add_peer(addrs[i].clone());
            i = i + 1;
        }
        assert(all.subrange(0, i as int) =~= all);
        proof {
            lemma_joined_all(old(self)@, all);
        }
        self.len() - before
    }

    /// A copy of the peers, in the order in which they were learnt.
    pub fn list(&self) -> (r: Vec<String>)
        ensures
            texts(r@) == self@,
    {
        let mut out: Vec<String> = Vec::new();
        let mut i: usize = 0;
        while i < self.peers.len()
            invariant
                i <= self.peers.len(),
                out.len() == i,
                forall|j: int| 0 <= j < i ==> out[j]@ == self.peers[j]@,
            decreases self.peers.len() - i,
        {
            out.push(self.peers[i].clone());
            i = i + 1;
        }
        assert(texts(out@) =~= self@);
        out
    }

    /// The peers as lines of text for a reader: a heading, then one numbered
    /// line for each peer.
    pub fn display_peers(&self) -> (r: String)
        ensures
            r@ == "已知节点列表:\n"@ + peer_lines(self@),
    {
        let mut out = String::from_str("已知节点列表:\n");
        let ghost head = out@;
        let mut i: usize = 0;
        assert(self@.subrange(0, 0) =~= Seq::<Seq<char>>::empty());
        assert(out@ =~= head + peer_lines(self@.subrange(0, 0)));
        while i < self.peers.len()
            invariant
                i <= self.peers.len(),
                out@ == head + peer_lines(self@.subrange(0, i as int)),
            decreases self.peers.len() - i,
        {
            out.append("  [");
            append_decimal(&mut out, i as u64);
            out.append("] ");
            out.append(self.peers[i].as_str());
            out.append("\n");
            assert(self@.subrange(0, i + 1).drop_last() =~= self@.subrange(0, i as int));
            assert(self@.subrange(0, i + 1).last() == self.peers[i as int]@);
            i = i + 1;
            assert(out@ =~= head + peer_lines(self@.subrange(0, i as int)));
        }
        assert(self@.subrange(0, i as int) =~= self@);
        out
    }

    /// Keeps the peer list in the store.
    pub fn save_to_db(&self, db: &mut Storage)
        ensures
            final(db)@ == put_into(old(db)@, peers_key(), list_bytes(self@)),
            peers_at(final(db)@.image) == self@,
    {
        save_peers(db, &self.peers);
    }

    /// The peers that the store keeps, each once.
    pub fn load_from_db(db: &Storage) -> (r: Self)
        ensures
            r@ == joined_all(Seq::empty(), peers_at(db@.image)),
    {
        let stored = load_peers(db);
        let mut r = PeerManager::new();
        let _ = r.merge(&stored);
        r
    }
}

impl Default for PeerManager {
    fn default() -> (r: Self)
        ensures
            r@ == Seq::<Seq<char>>::empty(),
    {
        PeerManager::new()
    }
}

} // verus!
