//! Headers that peers send.
use crate::block::{law_preference_is_a_strict_order, HeaderView, IndexedHeader};
use crate::difficulty::{
    lemma_u256_sum, lemma_value_injective, u256_add, u256_overflowing_add, u256_sum,
};
use crate::hash::H256;
use crate::peers::PeerId;
use crate::synchronizer::{header_view_in, SyncView, Synchronizer};
use vstd::arithmetic::power2::pow2;
use vstd::prelude::*;

verus! {

impl SyncView {
    /// The work of the chain that ends in `header` can be counted, if its parent is known.
    pub open spec fn work_fits(self, header: IndexedHeader) -> bool {
        self.header_view(header.parent_hash) matches Some(parent)
            ==> parent.total_difficulty.value() + header.difficulty.value() < pow2(256)
    }

    /// `header` with the work behind it, if its parent is known.
    pub open spec fn view_of(self, header: IndexedHeader) -> Option<HeaderView> {
        match self.header_view(header.parent_hash) {
            Some(parent) => Some(
                HeaderView {
                    header,
                    total_difficulty: u256_sum(parent.total_difficulty, header.difficulty),
                },
            ),
            None => None,
        }
    }

    /// `peer` has sent `header`. It counts if its parent is known: it is filed, it becomes the
    /// best one if it is better, and so it does for the peer.
    pub open spec fn with_header(self, header: IndexedHeader, peer: PeerId) -> SyncView {
        match self.view_of(header) {
            Some(view) => SyncView {
                headers: self.headers.insert(header.hash, view),
                best: if view.better_than(self.best) {
                    view
                } else {
                    self.best
                },
                peers: self.peers.with_header(peer, view),
                ..self
            },
            None => self,
        }
    }
}

/// Filing a header keeps what a node knows in order.
pub proof fn law_header_keeps_order(view: SyncView, header: IndexedHeader, peer: PeerId)
    requires
        view.wf(),
        view.agrees_on(header),
    ensures
        view.with_header(header, peer).wf(),
{
    let after = view.with_header(header, peer);
    match view.view_of(header) {
        Some(new) => {
            assert forall|hash: H256| after.headers.contains_key(hash) implies (
            #[trigger] header_view_in(
                after.headers,
                after.chain,
                after.headers[hash].header.parent_hash,
            )) is Some by {
                if hash == header.hash {
                    assert(view.header_view(header.parent_hash) is Some);
                } else {
                    assert(header_view_in(
                        view.headers,
                        view.chain,
                        view.headers[hash].header.parent_hash,
                    ) is Some);
                }
            }
            assert forall|hash: H256| #[trigger] after.headers.contains_key(
                hash,
            ) implies !after.headers[hash].better_than(after.best) by {
                law_preference_is_a_strict_order(after.headers[hash], new, view.best);
                law_preference_is_a_strict_order(new, new, new);
            }
        },
        None => {},
    }
}

/// The best header known never gets worse, and no header that was filed is better than it.
pub proof fn law_best_header_only_improves(view: SyncView, header: IndexedHeader, peer: PeerId)
    requires
        view.wf(),
    ensures
        ({
            let after = view.with_header(header, peer);
            &&& after.best == view.best || after.best.better_than(view.best)
            &&& after.best.total_difficulty.value() >= view.best.total_difficulty.value()
            &&& view.view_of(header) matches Some(new) ==> !new.better_than(after.best)
        }),
{
    match view.view_of(header) {
        Some(new) => {
            law_preference_is_a_strict_order(new, new, new);
        },
        None => {},
    }
}

/// The best header of a peer never gets worse, no header that it sent is better than it, and
/// those of other peers are not touched.
pub proof fn law_best_header_of_peer_only_improves(
    view: SyncView,
    header: IndexedHeader,
    peer: PeerId,
)
    ensures
        ({
            let before = view.peers.best_known;
            let after = view.with_header(header, peer).peers.best_known;
            &&& before.contains_key(peer) ==> after.contains_key(peer) && (after[peer]
                == before[peer] || after[peer].better_than(before[peer]))
            &&& view.view_of(header) matches Some(new) ==> after.contains_key(peer)
                && !new.better_than(after[peer])
            &&& after.remove(peer) == before.remove(peer)
        }),
{
    let before = view.peers.best_known;
    let after = view.with_header(header, peer).peers.best_known;
    match view.view_of(header) {
        Some(new) => law_preference_is_a_strict_order(new, new, new),
        None => {},
    }
    assert(after.remove(peer) =~= before.remove(peer));
}

/// A header that is sent again changes nothing, unless it names itself as its parent.
pub proof fn law_header_sent_again_changes_nothing(
    view: SyncView,
    header: IndexedHeader,
    peer: PeerId,
)
    requires
        header.parent_hash != header.hash,
    ensures
        view.with_header(header, peer).with_header(header, peer) == view.with_header(header, peer),
{
    let once = view.with_header(header, peer);
    match view.view_of(header) {
        Some(new) => {
            law_preference_is_a_strict_order(new, new, new);
            assert(once.headers.insert(header.hash, new) =~= once.headers);
        },
        None => {},
    }
}

/// A header that counted is found under its hash from then on, with the work of its parent and
/// its own. One whose parent is not known changes nothing.
pub proof fn law_header_is_found(view: SyncView, header: IndexedHeader, peer: PeerId)
    requires
        view.work_fits(header),
    ensures
        ({
            let after = view.with_header(header, peer);
            match view.header_view(header.parent_hash) {
                Some(parent) => {
                    &&& after.header(header.hash) == Some(header)
                    &&& after.header_view(header.hash) matches Some(new) && new.header == header
                        && new.total_difficulty.value() == parent.total_difficulty.value()
                        + header.difficulty.value()
                },
                None => after == view,
            }
        }),
{
    match view.header_view(header.parent_hash) {
        Some(parent) => lemma_u256_sum(parent.total_difficulty, header.difficulty),
        None => {},
    }
}

impl Synchronizer {
    /// Whether the work of the chain that ends in `header` can be counted in 256 bits. It can,
    /// as far as is known, where the parent is not known.
    pub fn difficulty_fits(&self, header: &IndexedHeader) -> (r: bool)
        ensures
            r == self@.work_fits(*header),
    {
        match self.get_header_view(&header.parent_hash) {
            Some(parent) => {
                let (_sum, carried) = u256_overflowing_add(
                    parent.total_difficulty,
                    header.difficulty,
                );
                !carried
            },
            None => true,
        }
    }

    /// Files a header that `peer` sent, if its parent is known.
    pub fn insert_header_view(&mut self, header: &IndexedHeader, peer: PeerId)
        requires
            old(self).wf(),
            old(self)@.agrees_on(*header),
            old(self)@.work_fits(*header),
        ensures
            final(self).wf(),
            final(self)@ == old(self)@.with_header(*header, peer),
    {
        proof {
            law_header_keeps_order(self@, *header, peer);
        }
        if let Some(parent_view) = self.get_header_view(&header.parent_hash) {
            let total_difficulty = u256_add(parent_view.total_difficulty, header.difficulty);
            proof {
                let sum = u256_sum(parent_view.total_difficulty, header.difficulty);
                lemma_u256_sum(parent_view.total_difficulty, header.difficulty);
                lemma_value_injective(sum, total_difficulty);
            }
            let header_view = HeaderView::new(*header, total_difficulty);
            if header_view.is_better_than(&self.best_known_header) {
                self.best_known_header = header_view;
            }
            self.peers.new_header_received(peer, &header_view);
            self.header_map.insert(header.hash, header_view);
        }
    }
}

/// A header whose parent is known, among the filed headers or else among the stored blocks on the
/// main chain or beside it, is filed with the parent's work and its own together. It becomes the
/// best one, and the best one of the peer, where it is better. Nothing else changes.
pub proof fn law_header_is_filed_with_its_work(
    view: SyncView,
    header: IndexedHeader,
    peer: PeerId,
    parent: HeaderView,
)
    requires
        if view.headers.contains_key(header.parent_hash) {
            view.headers[header.parent_hash] == parent
        } else {
            &&& view.chain.entries.contains_key(header.parent_hash)
            &&& view.chain.entries[header.parent_hash].header == parent.header
            &&& view.chain.entries[header.parent_hash].total_difficulty == Some(
                parent.total_difficulty,
            )
        },
        parent.total_difficulty.value() + header.difficulty.value() < pow2(256),
    ensures
        ({
            let after = view.with_header(header, peer);
            let filed = after.headers[header.hash];
            &&& after.headers.contains_key(header.hash)
            &&& filed.header == header
            &&& filed.total_difficulty.value() == parent.total_difficulty.value()
                + header.difficulty.value()
            &&& after.headers.remove(header.hash) == view.headers.remove(header.hash)
            &&& filed.better_than(view.best) ==> after.best == filed
            &&& !filed.better_than(view.best) ==> after.best == view.best
            &&& after.peers.best_known.contains_key(peer)
            &&& !view.peers.best_known.contains_key(peer) || filed.better_than(
                view.peers.best_known[peer],
            ) ==> after.peers.best_known[peer] == filed
            &&& view.peers.best_known.contains_key(peer) && !filed.better_than(
                view.peers.best_known[peer],
            ) ==> after.peers.best_known[peer] == view.peers.best_known[peer]
            &&& after.peers.best_known.remove(peer) == view.peers.best_known.remove(peer)
            &&& after.peers.state == view.peers.state
            &&& after.peers.last_common == view.peers.last_common
            &&& after.chain == view.chain
            &&& after.status == view.status
            &&& after.orphans == view.orphans
            &&& after.n_sync == view.n_sync
            &&& after.protected == view.protected
            &&& after.config == view.config
        }),
{
    let after = view.with_header(header, peer);
    lemma_u256_sum(parent.total_difficulty, header.difficulty);
    assert(view.header_view(header.parent_hash) == Some(parent));
    assert(after.headers.remove(header.hash) =~= view.headers.remove(header.hash));
    assert(after.peers.best_known.remove(peer) =~= view.peers.best_known.remove(peer));
}

/// A header whose parent is neither filed nor stored with its work changes nothing.
pub proof fn law_header_without_parent_is_left(
    view: SyncView,
    header: IndexedHeader,
    peer: PeerId,
)
    requires
        !view.headers.contains_key(header.parent_hash),
        view.chain.entries.contains_key(header.parent_hash) ==> view.chain.entries[
        header.parent_hash].total_difficulty is None,
    ensures
        view.with_header(header, peer) == view,
        view.work_fits(header),
{
}

/// The work of a header can be counted where the parent's work and its own together are below
/// 2^256, and not otherwise.
pub proof fn law_when_work_can_be_counted(
    view: SyncView,
    header: IndexedHeader,
    parent: HeaderView,
)
    requires
        view.header_view(header.parent_hash) == Some(parent),
    ensures
        view.work_fits(header) <==> parent.total_difficulty.value() + header.difficulty.value()
            < pow2(256),
{
}

} // verus!
