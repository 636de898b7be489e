//! What a node does as peers come and go and its timers run out.
use crate::block::IndexedHeader;
use crate::hash::H256;
use crate::locator::law_tip_can_be_located;
use crate::message::{concat_hashes, Outgoing, SyncMessage};
use crate::peers::PeerId;
use crate::synchronizer::{SyncView, Synchronizer};
use vstd::prelude::*;

verus! {

/// The number by which the network names a timer.
pub type TimerToken = usize;

/// The timer that has headers asked for.
pub const SEND_GET_HEADERS_TOKEN: TimerToken = 0;

/// The timer that has blocks fetched.
pub const BLOCK_FETCH_TOKEN: TimerToken = 1;

/// What is to be done when a timer runs out.
#[derive(Debug)]
pub enum TimerAction {
    /// No peer is connected: nothing.
    Idle,
    /// These requests for headers are to be sent.
    SendGetHeaders(Vec<Outgoing>),
    /// Blocks are to be fetched from these peers.
    FetchBlocks(Vec<PeerId>),
}

impl SyncView {
    /// A peer that this node connected to, if `originated` says so, is protected while there is
    /// room.
    pub open spec fn protects(self, originated: Option<bool>) -> bool {
        originated == Some(true) && self.protected < self.config.max_outbound_peers_to_protect
    }

    /// Synchronizing with `peer` has started at the time `now`.
    pub open spec fn with_session(self, peer: PeerId, originated: Option<bool>, now: u64)
        -> SyncView {
        let protect = self.protects(originated);
        SyncView {
            protected: if protect {
                (self.protected + 1) as usize
            } else {
                self.protected
            },
            peers: self.peers.with_connected(
                peer,
                self.config.headers_sync_timeout(self.chain.tip().timestamp, now) as u64,
                protect,
            ),
            n_sync: if self.n_sync == usize::MAX {
                0
            } else {
                (self.n_sync + 1) as usize
            },
            ..self
        }
    }

    /// Synchronizing is to start with a peer that connects at the time `now`: while a node is
    /// catching up, it does so with one peer.
    pub open spec fn starts_session(self, now: u64) -> bool {
        self.n_sync == 0 || !self.is_catching_up(now)
    }
}

/// No more peers are protected than the settings allow, whoever connects.
pub proof fn law_protected_peers_are_bounded(
    view: SyncView,
    peer: PeerId,
    originated: Option<bool>,
    now: u64,
)
    requires
        view.protected <= view.config.max_outbound_peers_to_protect,
    ensures
        ({
            let after = view.with_session(peer, originated, now);
            &&& after.protected <= after.config.max_outbound_peers_to_protect
            &&& after.peers.state[peer].protect ==> originated == Some(true)
            &&& after.protected == view.protected + (if after.peers.state[peer].protect {
                1int
            } else {
                0
            })
        }),
{
}

/// A peer with which synchronizing starts, whether this node made the connection, where that is
/// known, and the time.
pub type SessionStart = (PeerId, Option<bool>, u64);

/// Synchronizing has started with these peers, one after the other.
pub open spec fn with_sessions(view: SyncView, sessions: Seq<SessionStart>) -> SyncView
    decreases sessions.len(),
{
    if sessions.len() == 0 {
        view
    } else {
        let (peer, originated, now) = sessions.last();
        with_sessions(view, sessions.drop_last()).with_session(peer, originated, now)
    }
}

/// How many of the connections this node made.
pub open spec fn outbound_count(sessions: Seq<SessionStart>) -> nat {
    sessions.filter(|session: SessionStart| session.1 == Some(true)).len()
}

/// Over any run of sessions, outbound peers are protected for as long as there is room, and every
/// session is counted. From a new node on, the protected peers number the smaller of the outbound
/// sessions and the most that the settings allow, and the count is that of the sessions.
pub proof fn law_sessions_are_counted(view: SyncView, sessions: Seq<SessionStart>)
    requires
        view.protected <= view.config.max_outbound_peers_to_protect,
        view.n_sync + sessions.len() <= usize::MAX,
    ensures
        ({
            let after = with_sessions(view, sessions);
            let room = view.config.max_outbound_peers_to_protect as int;
            let wanted = view.protected + outbound_count(sessions);
            &&& after.config == view.config
            &&& after.chain == view.chain
            &&& after.protected == (if wanted < room {
                wanted
            } else {
                room
            })
            &&& after.n_sync == view.n_sync + sessions.len()
        }),
    decreases sessions.len(),
{
    reveal(Seq::filter);
    if sessions.len() > 0 {
        law_sessions_are_counted(view, sessions.drop_last());
    }
}

/// Once synchronizing has started with a peer, it starts with no other while the node is
/// catching up.
pub proof fn law_one_session_while_catching_up(
    view: SyncView,
    peer: PeerId,
    originated: Option<bool>,
    now: u64,
    later: u64,
)
    requires
        view.n_sync < usize::MAX,
        view.is_catching_up(later),
    ensures
        !view.with_session(peer, originated, now).starts_session(later),
{
}

/// A peer that connects is one to synchronize with, until it is gone. Other peers, and what they
/// announced, are not touched by its coming and going.
pub proof fn law_peers_come_and_go(
    view: SyncView,
    peer: PeerId,
    originated: Option<bool>,
    now: u64,
)
    ensures
        ({
            let with = view.with_session(peer, originated, now).peers;
            let gone = with.without(peer);
            &&& with.syncs_with(peer)
            &&& !gone.syncs_with(peer)
            &&& !gone.best_known.contains_key(peer)
            &&& !gone.last_common.contains_key(peer)
            &&& gone == view.peers.without(peer)
            &&& forall|other: PeerId|
                other != peer ==> {
                    &&& #[trigger] with.syncs_with(other) == view.peers.syncs_with(other)
                    &&& gone.syncs_with(other) == view.peers.syncs_with(other)
                }
        }),
{
    let with = view.with_session(peer, originated, now).peers;
    assert(with.without(peer) =~= view.peers.without(peer));
}

/// The messages are one for each peer with which synchronizing has started, and ask it for the
/// headers after `locator`.
pub open spec fn asks_each(view: SyncView, messages: Seq<Outgoing>, locator: Seq<H256>) -> bool {
    &&& forall|i: int|
        0 <= i < messages.len() ==> (#[trigger] messages[i]).asks_headers(
            messages[i].peer,
            locator,
        ) && view.peers.syncs_with(messages[i].peer)
    &&& forall|i: int, j: int|
        0 <= i < j < messages.len() ==> (#[trigger] messages[i]).peer != (
        #[trigger] messages[j]).peer
    &&& forall|peer: PeerId| #[trigger]
        view.peers.syncs_with(peer) ==> exists|i: int|
            0 <= i < messages.len() && (#[trigger] messages[i]).peer == peer
}

/// The request asks `peer` for the blocks, or there is none where there are none to fetch.
pub open spec fn fetches(
    request: Option<Outgoing>,
    peer: PeerId,
    blocks: Option<Seq<H256>>,
) -> bool {
    match blocks {
        Some(hashes) => request matches Some(message) && message.asks_blocks(peer, hashes),
        None => request is None,
    }
}

/// Where the peers to fetch blocks from are each asked for what is to be fetched from them, a
/// peer gets exactly one request if synchronizing with it has started and there is something to
/// fetch, for just that, and else none.
pub proof fn law_each_peer_is_asked_once(
    view: SyncView,
    peers: Seq<PeerId>,
    to_fetch: spec_fn(PeerId) -> Option<Seq<H256>>,
    requests: Seq<Option<Outgoing>>,
    peer: PeerId,
)
    requires
        peers.no_duplicates(),
        forall|p: PeerId| #[trigger] peers.contains(p) <==> view.peers.syncs_with(p),
        requests.len() == peers.len(),
        forall|i: int|
            0 <= i < peers.len() ==> fetches(
                #[trigger] requests[i],
                peers[i],
                to_fetch(peers[i]),
            ),
    ensures
        view.peers.syncs_with(peer) && to_fetch(peer) is Some ==> exists|i: int|
            0 <= i < requests.len() && fetches(#[trigger] requests[i], peer, to_fetch(peer))
                && requests[i] is Some,
        forall|i: int|
            0 <= i < requests.len() && (#[trigger] requests[i] matches Some(message)
                && message.peer == peer) ==> view.peers.syncs_with(peer) && to_fetch(peer) is Some
                && fetches(requests[i], peer, to_fetch(peer)),
        forall|i: int, j: int|
            0 <= i < j < requests.len() && (#[trigger] requests[i] matches Some(a) && a.peer
                == peer) ==> !(#[trigger] requests[j] matches Some(b) && b.peer == peer),
{
    if view.peers.syncs_with(peer) && to_fetch(peer) is Some {
        assert(peers.contains(peer));
        let k = choose|k: int| 0 <= k < peers.len() && peers[k] == peer;
        assert(fetches(requests[k], peer, to_fetch(peer)));
    }
    assert forall|i: int|
        0 <= i < requests.len() && (#[trigger] requests[i] matches Some(message) && message.peer
            == peer) implies view.peers.syncs_with(peer) && to_fetch(peer) is Some && fetches(
        requests[i],
        peer,
        to_fetch(peer),
    ) by {
        assert(peers.contains(peers[i]));
    }
}

impl Synchronizer {
    /// The request that asks `peer` for the headers after `tip`.
    pub fn send_getheaders_to_peer(&self, peer: PeerId, tip: &IndexedHeader) -> (r: Outgoing)
        requires
            self.wf(),
            self@.can_locate(*tip),
        ensures
            r.asks_headers(peer, self@.locator(*tip)),
    {
        let locator_hash = self.get_locator(tip);
        let block_locator_hashes = concat_hashes(locator_hash.as_slice());
        Outgoing {
            peer,
            packet_id: 0,
            message: SyncMessage::GetHeaders {
                version: 0,
                block_locator_hashes,
                hash_stop: None,
            },
        }
    }

    /// The requests that ask every peer with which synchronizing has started for the headers
    /// after the tip.
    pub fn send_getheaders_to_all(&self) -> (r: Vec<Outgoing>)
        requires
            self.wf(),
        ensures
            asks_each(self@, r@, self@.locator(self@.chain.tip())),
    {
        let peers = self.peers.sync_started();
        let tip = self.tip_header();
        proof {
            law_tip_can_be_located(self@);
        }
        let mut messages: Vec<Outgoing> = Vec::new();
        let mut i: usize = 0;
        while i < peers.len()
            invariant
                self.wf(),
                tip == self@.chain.tip(),
                self@.can_locate(tip),
                i <= peers@.len(),
                messages@.len() == i,
                peers@.no_duplicates(),
                forall|peer: PeerId| #[trigger]
                    peers@.contains(peer) <==> self@.peers.syncs_with(peer),
                forall|k: int|
                    0 <= k < i ==> (#[trigger] messages@[k]).asks_headers(
                        peers@[k],
                        self@.locator(tip),
                    ),
            decreases peers@.len() - i,
        {
            messages.push(self.send_getheaders_to_peer(peers[i], &tip));
            i = i + 1;
        }
        proof {
            assert forall|k: int| 0 <= k < messages@.len() implies self@.peers.syncs_with(
                (#[trigger] messages@[k]).peer,
            ) by {
                assert(peers@.contains(peers@[k]));
            }
            assert forall|peer: PeerId| #[trigger] self@.peers.syncs_with(peer) implies exists|
                k: int,
            |
                0 <= k < messages@.len() && (#[trigger] messages@[k]).peer == peer by {
                assert(peers@.contains(peer));
                let k = choose|k: int| 0 <= k < peers@.len() && peers@[k] == peer;
                assert(messages@[k].peer == peer);
            }
        }
        messages
    }

    /// The peers to fetch blocks from, each of them once: those with which synchronizing has
    /// started.
    pub fn find_blocks_to_fetch(&self) -> (r: Vec<PeerId>)
        ensures
            r@.no_duplicates(),
            forall|peer: PeerId| #[trigger]
                r@.contains(peer) <==> self@.peers.syncs_with(peer),
    {
        self.peers.sync_started()
    }

    /// The request that asks `peer` for the blocks `v_fetch`.
    pub fn send_getblocks(&self, v_fetch: &[H256], peer: PeerId) -> (r: Outgoing)
        ensures
            r.asks_blocks(peer, v_fetch@),
    {
        let block_hashes = concat_hashes(v_fetch);
        Outgoing { peer, packet_id: 0, message: SyncMessage::GetBlocks { block_hashes } }
    }

    /// The request to send `peer` once it has been found out which blocks to fetch from it: one
    /// for these blocks, and none where there are none to fetch.
    pub fn fetch_request(&self, peer: PeerId, blocks: &Option<Vec<H256>>) -> (r: Option<Outgoing>)
        ensures
            match *blocks {
                Some(v_fetch) => fetches(r, peer, Some(v_fetch@)),
                None => fetches(r, peer, None),
            },
    {
        match blocks {
            Some(v_fetch) => Some(self.send_getblocks(v_fetch.as_slice(), peer)),
            None => None,
        }
    }

    /// Starts synchronizing with a peer, and gives the request for headers to send it.
    /// `originated` says whether this node made the connection, where that is known.
    pub fn on_connected(&mut self, peer: PeerId, originated: Option<bool>, now: u64) -> (r:
        Outgoing)
        requires
            old(self).wf(),
            old(self)@.config.headers_sync_timeout(old(self)@.chain.tip().timestamp, now)
                <= u64::MAX,
        ensures
            final(self).wf(),
            final(self)@ == old(self)@.with_session(peer, originated, now),
            r.asks_headers(peer, old(self)@.locator(old(self)@.chain.tip())),
    {
        let tip = self.tip_header();
        proof {
            law_tip_can_be_located(self@);
        }
        let timeout: u64 = self.get_headers_sync_timeout(&tip, now);
        let request = self.send_getheaders_to_peer(peer, &tip);
        let outbound = match originated {
            Some(originated) => originated,
            None => false,
        };
        let protect_outbound = outbound && self.outbound_peers_with_protect
            < self.config.max_outbound_peers_to_protect;
        if protect_outbound {
            self.outbound_peers_with_protect = self.outbound_peers_with_protect + 1;
        }
        self.peers.on_connected(peer, timeout, protect_outbound);
        self.n_sync = self.n_sync.wrapping_add(1);
        request
    }

    /// Whether synchronizing is to start with a peer that connects at the time `now`.
    pub fn starts_session(&self, now: u64) -> (r: bool)
        requires
            self.wf(),
        ensures
            r == self@.starts_session(now),
    {
        self.n_sync == 0 || !self.is_initial_block_download(now)
    }

    /// A peer connects. Gives the request for headers to send it, if synchronizing with it is to
    /// start.
    pub fn connected(&mut self, peer: PeerId, originated: Option<bool>, now: u64) -> (r: Option<
        Outgoing,
    >)
        requires
            old(self).wf(),
            old(self)@.starts_session(now) ==> old(self)@.config.headers_sync_timeout(
                old(self)@.chain.tip().timestamp,
                now,
            ) <= u64::MAX,
        ensures
            final(self).wf(),
            match r {
                Some(request) => {
                    &&& old(self)@.starts_session(now)
                    &&& final(self)@ == old(self)@.with_session(peer, originated, now)
                    &&& request.asks_headers(peer, old(self)@.locator(old(self)@.chain.tip()))
                },
                None => !old(self)@.starts_session(now) && final(self)@ == old(self)@,
            },
    {
        if self.starts_session(now) {
            Some(self.on_connected(peer, originated, now))
        } else {
            None
        }
    }

    /// A peer is gone.
    pub fn disconnected(&mut self, peer: PeerId)
        requires
            old(self).wf(),
        ensures
            final(self).wf(),
            final(self)@ == (SyncView { peers: old(self)@.peers.without(peer), ..old(self)@ }),
    {
        self.peers.disconnected(peer);
    }

    /// A timer has run out.
    pub fn timeout(&self, token: TimerToken) -> (r: TimerAction)
        requires
            self.wf(),
            !self@.peers.state.is_empty() ==> token == SEND_GET_HEADERS_TOKEN || token
                == BLOCK_FETCH_TOKEN,
        ensures
            match r {
                TimerAction::Idle => self@.peers.state.is_empty(),
                TimerAction::SendGetHeaders(messages) => {
                    &&& !self@.peers.state.is_empty()
                    &&& token == SEND_GET_HEADERS_TOKEN
                    &&& asks_each(self@, messages@, self@.locator(self@.chain.tip()))
                },
                TimerAction::FetchBlocks(peers) => {
                    &&& !self@.peers.state.is_empty()
                    &&& token == BLOCK_FETCH_TOKEN
                    &&& peers@.no_duplicates()
                    &&& forall|peer: PeerId| #[trigger]
                        peers@.contains(peer) <==> self@.peers.syncs_with(peer)
                },
            },
    {
        if self.peers.is_empty() {
            TimerAction::Idle
        } else if token == SEND_GET_HEADERS_TOKEN {
            TimerAction::SendGetHeaders(self.send_getheaders_to_all())
        } else {
            TimerAction::FetchBlocks(self.find_blocks_to_fetch())
        }
    }
}

/// Synchronizing starts with a peer that connects if it has started with none yet, or the tip is
/// no older than the settings allow; and not otherwise.
pub proof fn law_when_sessions_start(view: SyncView, now: u64)
    requires
        view.chain.main.len() > 0,
    ensures
        view.n_sync == 0 ==> view.starts_session(now),
        view.n_sync > 0 ==> (view.starts_session(now) <==> now <= view.chain.entries[
        view.chain.main[view.chain.main.len() - 1]].header.timestamp + view.config.max_tip_age),
{
}

/// A session is noted with the peer: the time that the peer has from the tip on, and its
/// protection, which an outbound peer has while fewer are protected than the settings allow. The
/// session is counted, and so is the protection. Nothing else changes.
pub proof fn law_session_is_noted(
    view: SyncView,
    peer: PeerId,
    originated: Option<bool>,
    now: u64,
)
    requires
        view.chain.main.len() > 0,
        view.config.headers_sync_timeout(
            view.chain.entries[view.chain.main[view.chain.main.len() - 1]].header.timestamp,
            now,
        ) <= u64::MAX,
        0 <= view.config.headers_sync_timeout(
            view.chain.entries[view.chain.main[view.chain.main.len() - 1]].header.timestamp,
            now,
        ),
    ensures
        ({
            let after = view.with_session(peer, originated, now);
            let protect = originated == Some(true) && view.protected
                < view.config.max_outbound_peers_to_protect;
            &&& after.peers.state.contains_key(peer)
            &&& after.peers.state[peer].sync_started
            &&& after.peers.state[peer].protect == protect
            &&& after.peers.state[peer].headers_sync_timeout == view.config.headers_sync_timeout(
                view.chain.entries[view.chain.main[view.chain.main.len() - 1]].header.timestamp,
                now,
            )
            &&& after.peers.state.remove(peer) == view.peers.state.remove(peer)
            &&& after.peers.best_known == view.peers.best_known
            &&& after.peers.last_common == view.peers.last_common
            &&& after.protected == view.protected + (if protect {
                1int
            } else {
                0
            })
            &&& view.n_sync < usize::MAX ==> after.n_sync == view.n_sync + 1
            &&& after == (SyncView {
                peers: after.peers,
                protected: after.protected,
                n_sync: after.n_sync,
                ..view
            })
        }),
{
    let after = view.with_session(peer, originated, now);
    assert(after.peers.state.remove(peer) =~= view.peers.state.remove(peer));
}

/// Where headers are asked for, every connected peer for which synchronizing has started gets one
/// request with the hashes of the locator in their order, and no other peer gets any.
pub proof fn law_every_started_peer_is_asked(
    view: SyncView,
    messages: Seq<Outgoing>,
    locator: Seq<H256>,
    peer: PeerId,
)
    requires
        asks_each(view, messages, locator),
    ensures
        view.peers.state.contains_key(peer) && view.peers.state[peer].sync_started ==> exists|
            i: int,
        |
            0 <= i < messages.len() && (#[trigger] messages[i]).peer == peer,
        forall|i: int|
            0 <= i < messages.len() ==> {
                let asked = (#[trigger] messages[i]).peer;
                &&& view.peers.state.contains_key(asked)
                &&& view.peers.state[asked].sync_started
                &&& messages[i].asks_headers(asked, locator)
            },
        forall|i: int, j: int|
            0 <= i < j < messages.len() ==> (#[trigger] messages[i]).peer != (
            #[trigger] messages[j]).peer,
{
    if view.peers.state.contains_key(peer) && view.peers.state[peer].sync_started {
        assert(view.peers.syncs_with(peer));
    }
    assert forall|i: int| 0 <= i < messages.len() implies {
        let asked = (#[trigger] messages[i]).peer;
        &&& view.peers.state.contains_key(asked)
        &&& view.peers.state[asked].sync_started
        &&& messages[i].asks_headers(asked, locator)
    } by {
        assert(view.peers.syncs_with(messages[i].peer));
    }
}

/// A request for blocks is made exactly where there are some to fetch, and asks the peer for them.
pub proof fn law_what_is_fetched(request: Option<Outgoing>, peer: PeerId, hashes: Seq<H256>)
    ensures
        fetches(request, peer, None) ==> request is None,
        fetches(request, peer, Some(hashes)) ==> (request matches Some(message)
            && message.asks_blocks(peer, hashes)),
{
}

} // verus!
