//! What is known of each connected peer.
use crate::block::{HeaderView, IndexedHeader};
use std::collections::HashMap;
use vstd::prelude::*;

verus! {

/// The number by which the network names a peer.
pub type PeerId = usize;

/// How synchronizing with a peer stands.
#[derive(Clone, Copy, Debug, PartialEq, Eq, Structural)]
pub struct PeerState {
    pub sync_started: bool,
    /// How long the peer has to deliver its headers, in milliseconds.
    pub headers_sync_timeout: u64,
    /// The peer is not disconnected for being slow.
    pub protect: bool,
}

/// The state of each peer, the best header that it announced, and the last header that it is
/// known to share.
#[verifier::ext_equal]
pub struct PeersView {
    pub state: Map<PeerId, PeerState>,
    pub best_known: Map<PeerId, HeaderView>,
    pub last_common: Map<PeerId, IndexedHeader>,
}

impl PeersView {
    /// No peer is known.
    pub open spec fn none() -> PeersView {
        PeersView { state: Map::empty(), best_known: Map::empty(), last_common: Map::empty() }
    }

    pub open spec fn with_connected(self, peer: PeerId, timeout: u64, protect: bool) -> PeersView {
        PeersView {
            state: self.state.insert(
                peer,
                PeerState { sync_started: true, headers_sync_timeout: timeout, protect },
            ),
            ..self
        }
    }

    /// The peer announced a header: it counts if it is better than the best one so far.
    pub open spec fn with_header(self, peer: PeerId, view: HeaderView) -> PeersView {
        if self.best_known.contains_key(peer) && !view.better_than(self.best_known[peer]) {
            self
        } else {
            PeersView { best_known: self.best_known.insert(peer, view), ..self }
        }
    }

    pub open spec fn with_last_common(self, peer: PeerId, header: IndexedHeader) -> PeersView {
        PeersView { last_common: self.last_common.insert(peer, header), ..self }
    }

    pub open spec fn without(self, peer: PeerId) -> PeersView {
        PeersView {
            state: self.state.remove(peer),
            best_known: self.best_known.remove(peer),
            last_common: self.last_common.remove(peer),
        }
    }

    /// The peer is one with which synchronizing has started.
    pub open spec fn syncs_with(self, peer: PeerId) -> bool {
        self.state.contains_key(peer) && self.state[peer].sync_started
    }
}

/// The peers that are connected.
pub struct Peers {
    state: HashMap<PeerId, PeerState>,
    best_known_headers: HashMap<PeerId, HeaderView>,
    last_common_headers: HashMap<PeerId, IndexedHeader>,
}

impl View for Peers {
    type V = PeersView;

    closed spec fn view(&self) -> PeersView {
        PeersView {
            state: self.state@,
            best_known: self.best_known_headers@,
            last_common: self.last_common_headers@,
        }
    }
}

impl Default for Peers {
    fn default() -> (r: Peers)
        ensures
            r@ == PeersView::none(),
    {
        Peers {
            state: HashMap::new(),
            best_known_headers: HashMap::new(),
            last_common_headers: HashMap::new(),
        }
    }
}

impl Peers {
    /// Whether no peer is connected.
    pub fn is_empty(&self) -> (r: bool)
        ensures
            r == self@.state.is_empty(),
    {
        self.state.is_empty()
    }

    /// The state of a peer.
    pub fn state(&self, peer: PeerId) -> (r: Option<PeerState>)
        ensures
            match r {
                Some(state) => self@.state.contains_key(peer) && state == self@.state[peer],
                None => !self@.state.contains_key(peer),
            },
    {
        match self.state.get(&peer) {
            Some(state) => Some(*state),
            None => None,
        }
    }

    /// The best header that a peer announced.
    pub fn best_known_header(&self, peer: PeerId) -> (r: Option<HeaderView>)
        ensures
            match r {
                Some(view) => self@.best_known.contains_key(peer) && view
                    == self@.best_known[peer],
                None => !self@.best_known.contains_key(peer),
            },
    {
        match self.best_known_headers.get(&peer) {
            Some(view) => Some(*view),
            None => None,
        }
    }

    /// The last header that a peer is known to share.
    pub fn last_common_header(&self, peer: PeerId) -> (r: Option<IndexedHeader>)
        ensures
            match r {
                Some(header) => self@.last_common.contains_key(peer) && header
                    == self@.last_common[peer],
                None => !self@.last_common.contains_key(peer),
            },
    {
        match self.last_common_headers.get(&peer) {
            Some(header) => Some(*header),
            None => None,
        }
    }

    /// Starts synchronizing with a peer.
    pub fn on_connected(&mut self, peer: PeerId, headers_sync_timeout: u64, protect: bool)
        ensures
            final(self)@ == old(self)@.with_connected(peer, headers_sync_timeout, protect),
    {
        self.state.insert(
            peer,
            PeerState { sync_started: true, headers_sync_timeout, protect },
        );
    }

    /// Forgets a peer.
    pub fn disconnected(&mut self, peer: PeerId)
        ensures
            final(self)@ == old(self)@.without(peer),
    {
        self.state.remove(&peer);
        self.best_known_headers.remove(&peer);
        self.last_common_headers.remove(&peer);
    }

    /// Notes a header that a peer announced.
    pub fn new_header_received(&mut self, peer: PeerId, view: &HeaderView)
        ensures
            final(self)@ == old(self)@.with_header(peer, *view),
    {
        let replace = match self.best_known_headers.get(&peer) {
            Some(best) => view.is_better_than(best),
            None => true,
        };
        if replace {
            self.best_known_headers.insert(peer, *view);
        }
    }

    /// Notes the last header that a peer shares.
    pub fn set_last_common_header(&mut self, peer: PeerId, header: &IndexedHeader)
        ensures
            final(self)@ == old(self)@.with_last_common(peer, *header),
    {
        self.last_common_headers.insert(peer, *header);
    }

    /// The peers with which synchronizing has started, each of them once.
    pub fn sync_started(&self) -> (r: Vec<PeerId>)
        ensures
            r@.no_duplicates(),
            forall|peer: PeerId| #[trigger] r@.contains(peer) <==> self@.syncs_with(peer),
    {
        let mut r: Vec<PeerId> = Vec::new();
        for peer in it: self.state.keys()
            invariant
                it.seq().no_duplicates(),
                it.seq().unref().to_set() == self.state@.dom(),
                r@.no_duplicates(),
                forall|j: int|
                    0 <= j < r@.len() ==> self@.syncs_with(#[trigger] r@[j]) && it.seq().take(
                        it.index() as int,
                    ).contains(&r@[j]),
                forall|i: int|
                    0 <= i < it.index() && self@.syncs_with(*#[trigger] it.seq()[i])
                        ==> r@.contains(*it.seq()[i]),
        {
            let ghost done = it.index() as int;
            let ghost all = it.seq();
            let ghost listed = r@;
            assert(peer == all[done]);
            assert(self.state@.contains_key(*peer)) by {
                assert(all.unref()[done] == *peer);
                assert(all.unref().to_set().contains(*peer));
            }
            match self.state.get(peer) {
                Some(state) => {
                    if state.sync_started {
                        assert(!listed.contains(*peer)) by {
                            if listed.contains(*peer) {
                                let j = choose|j: int| 0 <= j < listed.len() && listed[j] == *peer;
                                assert(all.take(done).contains(&listed[j]));
                                let k = choose|k: int|
                                    0 <= k < done && all.take(done)[k] == &listed[j];
                                assert(all[k] == all[done]);
                            }
                        }
                        r.push(*peer);
                        assert(r@[listed.len() as int] == *peer);
                    }
                },
                None => {},
            }
            proof {
                assert forall|j: int| 0 <= j < r@.len() implies self@.syncs_with(
                    #[trigger] r@[j],
                ) && all.take(done + 1).contains(&r@[j]) by {
                    if j < listed.len() {
                        assert(r@[j] == listed[j]);
                        let k = choose|k: int| 0 <= k < done && all.take(done)[k] == &listed[j];
                        assert(all.take(done + 1)[k] == &r@[j]);
                    } else {
                        assert(all.take(done + 1)[done] == &r@[j]);
                    }
                }
                assert forall|i: int| 0 <= i < done + 1 && self@.syncs_with(
                    *#[trigger] all[i],
                ) implies r@.contains(*all[i]) by {
                    if i < done {
                        assert(listed.contains(*all[i]));
                        let j = choose|j: int| 0 <= j < listed.len() && listed[j] == *all[i];
                        assert(r@[j] == *all[i]);
                    }
                }
            }
        }
        proof {
            assert forall|peer: PeerId| #[trigger] r@.contains(peer) <==> self@.syncs_with(
                peer,
            ) by {
                if self@.syncs_with(peer) {
                    assert(self.state@.dom().contains(peer));
                }
            }
        }
        r
    }
}

/// Synchronizing has started with a peer from the moment it connects, with the time it has and
/// its protection noted. Nothing else of the peers changes.
pub proof fn law_connected_peer_is_noted(
    peers: PeersView,
    peer: PeerId,
    timeout: u64,
    protect: bool,
)
    ensures
        ({
            let after = peers.with_connected(peer, timeout, protect);
            &&& after.state.contains_key(peer)
            &&& after.state[peer].sync_started
            &&& after.state[peer].headers_sync_timeout == timeout
            &&& after.state[peer].protect == protect
            &&& after.state.remove(peer) == peers.state.remove(peer)
            &&& after.best_known == peers.best_known
            &&& after.last_common == peers.last_common
        }),
{
    let after = peers.with_connected(peer, timeout, protect);
    assert(after.state.remove(peer) =~= peers.state.remove(peer));
}

/// Of a peer that is gone nothing is left, and nothing else of the peers changes.
pub proof fn law_gone_peer_is_forgotten(peers: PeersView, peer: PeerId)
    ensures
        ({
            let after = peers.without(peer);
            &&& !after.state.contains_key(peer)
            &&& !after.best_known.contains_key(peer)
            &&& !after.last_common.contains_key(peer)
            &&& forall|other: PeerId|
                #![trigger after.state.contains_key(other)]
                #![trigger after.best_known.contains_key(other)]
                #![trigger after.last_common.contains_key(other)]
                other != peer ==> {
                    &&& after.state.contains_key(other) == peers.state.contains_key(other)
                    &&& after.state.contains_key(other) ==> after.state[other]
                        == peers.state[other]
                    &&& after.best_known.contains_key(other) == peers.best_known.contains_key(
                        other,
                    )
                    &&& after.best_known.contains_key(other) ==> after.best_known[other]
                        == peers.best_known[other]
                    &&& after.last_common.contains_key(other) == peers.last_common.contains_key(
                        other,
                    )
                    &&& after.last_common.contains_key(other) ==> after.last_common[other]
                        == peers.last_common[other]
                }
        }),
{
}

/// A header that a peer announces is its best one if it had none, or has less work behind its best
/// one. Nothing else of the peers changes.
pub proof fn law_announced_header_is_noted(peers: PeersView, peer: PeerId, view: HeaderView)
    ensures
        ({
            let after = peers.with_header(peer, view);
            &&& after.best_known.contains_key(peer)
            &&& !peers.best_known.contains_key(peer) ==> after.best_known[peer] == view
            &&& peers.best_known.contains_key(peer) && view.better_than(peers.best_known[peer])
                ==> after.best_known[peer] == view
            &&& peers.best_known.contains_key(peer) && !view.better_than(peers.best_known[peer])
                ==> after.best_known[peer] == peers.best_known[peer]
            &&& after.best_known.remove(peer) == peers.best_known.remove(peer)
            &&& after.state == peers.state
            &&& after.last_common == peers.last_common
        }),
{
    let after = peers.with_header(peer, view);
    assert(after.best_known.remove(peer) =~= peers.best_known.remove(peer));
}

/// The last header that a peer shares is the one noted last, and nothing else of the peers
/// changes.
pub proof fn law_shared_header_is_noted(peers: PeersView, peer: PeerId, header: IndexedHeader)
    ensures
        ({
            let after = peers.with_last_common(peer, header);
            &&& after.last_common.contains_key(peer)
            &&& after.last_common[peer] == header
            &&& after.last_common.remove(peer) == peers.last_common.remove(peer)
            &&& after.state == peers.state
            &&& after.best_known == peers.best_known
        }),
{
    let after = peers.with_last_common(peer, header);
    assert(after.last_common.remove(peer) =~= peers.last_common.remove(peer));
}

/// Synchronizing goes on with the connected peers for which it has started, and no others.
pub proof fn law_started_peers(peers: PeersView, peer: PeerId)
    ensures
        peers.state.contains_key(peer) ==> peers.syncs_with(peer)
            == peers.state[peer].sync_started,
        !peers.state.contains_key(peer) ==> !peers.syncs_with(peer),
{
}

/// At first no peer is known.
pub proof fn law_no_peers_at_first(peer: PeerId)
    ensures
        !PeersView::none().state.contains_key(peer),
        !PeersView::none().best_known.contains_key(peer),
        !PeersView::none().last_common.contains_key(peer),
{
}

} // verus!
