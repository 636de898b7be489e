//! What holds of waiting blocks while blocks are taken in.
use crate::block::BlockView;
use crate::hash::H256;
use crate::import::{BlockOutcome, PendingView};
use crate::peers::PeerId;
use crate::pool::{lists, reached, takes_descendants, waiting, Orphans};
use crate::status::BlockStatus;
use crate::synchronizer::SyncView;
use vstd::prelude::*;

verus! {

/// The block is among those that wait.
pub open spec fn is_waiting(orphans: Orphans, block: BlockView) -> bool {
    waiting(orphans, block.header.parent_hash).contains(block)
}

/// Some block waits for the block `hash`.
pub open spec fn is_awaited(orphans: Orphans, hash: H256) -> bool {
    waiting(orphans, hash).len() > 0
}

/// A hash tells the parent: waiting blocks of the same hash have the same parent, and so has
/// `block`.
pub open spec fn hash_tells_parent(orphans: Orphans, block: BlockView) -> bool {
    &&& forall|a: BlockView, b: BlockView|
        #![trigger is_waiting(orphans, a), is_waiting(orphans, b)]
        is_waiting(orphans, a) && is_waiting(orphans, b) && a.header.hash == b.header.hash
            ==> a.header.parent_hash == b.header.parent_hash
    &&& forall|a: BlockView| #[trigger]
        is_waiting(orphans, a) && a.header.hash == block.header.hash ==> a.header.parent_hash
            == block.header.parent_hash
}

/// No block of the list follows itself or a later one, and none of them is awaited.
pub open spec fn is_in_line(orphans: Orphans, blocks: Seq<BlockView>) -> bool {
    &&& forall|i: int|
        0 <= i < blocks.len() ==> !is_awaited(orphans, (#[trigger] blocks[i]).header.hash)
    &&& forall|i: int, j: int|
        0 <= i <= j < blocks.len() ==> (#[trigger] blocks[i]).header.parent_hash != (
        #[trigger] blocks[j]).header.hash
}

/// The pending block and those to try after it.
pub open spec fn line_of(pending: PendingView) -> Seq<BlockView> {
    seq![pending.block] + pending.rest
}

impl SyncView {
    /// Whatever blocks wait for, the outputs after it are not known: no block waits that could
    /// be tried.
    pub open spec fn is_settled(self) -> bool {
        forall|hash: H256| #[trigger]
            is_awaited(self.orphans, hash) ==> !self.chain.has_outputs(hash)
    }

    /// No block waits that could be tried, and the pending block, if there is one, can be.
    pub open spec fn is_in_step(self, pending: Option<PendingView>) -> bool {
        &&& self.is_settled()
        &&& pending matches Some(p) ==> {
            &&& self.chain.has_outputs(p.block.header.parent_hash)
            &&& !p.first ==> is_in_line(self.orphans, line_of(p))
        }
    }

    /// A block of this hash and parent waits, is pending or is to be tried.
    pub open spec fn keeps(self, pending: Option<PendingView>, hash: H256, parent: H256) -> bool {
        ||| lists(waiting(self.orphans, parent), hash)
        ||| pending matches Some(p) && exists|i: int|
            0 <= i < line_of(p).len() && (#[trigger] line_of(p)[i]).header.hash == hash
                && line_of(p)[i].header.parent_hash == parent
    }

    /// The parent of each block of the list is in the list before it, is `root`, or has known
    /// outputs.
    pub open spec fn is_ready(self, root: H256, blocks: Seq<BlockView>) -> bool {
        forall|i: int|
            0 <= i < blocks.len() ==> reached(
                root,
                blocks.take(i),
                (#[trigger] blocks[i]).header.parent_hash,
            ) || self.chain.has_outputs(blocks[i].header.parent_hash)
    }
}

/// A block that arrives while nothing is pending leaves no block waiting that could be tried.
pub proof fn law_arrival_keeps_step(view: SyncView, peer: PeerId, block: BlockView)
    requires
        view.is_in_step(None),
    ensures
        ({
            let (after, next) = view.on_block(peer, block);
            after.is_in_step(next)
        }),
{
    let (after, next) = view.on_block(peer, block);
    if !view.chain.has_outputs(block.header.parent_hash) {
        lemma_waiting_keeps_settled(view, block);
    }
}

proof fn lemma_waiting_keeps_settled(view: SyncView, block: BlockView)
    requires
        view.is_settled(),
        !view.chain.has_outputs(block.header.parent_hash),
    ensures
        view.with_waiting(block).is_settled(),
        forall|hash: H256| #[trigger]
            is_awaited(view.with_waiting(block).orphans, hash) ==> is_awaited(view.orphans, hash)
                || hash == block.header.parent_hash,
{
    let after = view.with_waiting(block);
    assert forall|hash: H256| #[trigger] is_awaited(after.orphans, hash) implies is_awaited(
        view.orphans,
        hash,
    ) || hash == block.header.parent_hash by {
        if hash != block.header.parent_hash {
            assert(waiting(after.orphans, hash) == waiting(view.orphans, hash));
        }
    }
}

proof fn lemma_next_keeps_step(view: SyncView, peer: PeerId, rest: Seq<BlockView>)
    requires
        view.is_settled(),
        is_in_line(view.orphans, rest),
    ensures
        ({
            let (after, next) = view.next_of(peer, rest);
            after.is_in_step(next)
        }),
    decreases rest.len(),
{
    if rest.len() > 0 {
        if view.chain.has_outputs(rest[0].header.parent_hash) {
            let next = view.next_of(peer, rest).1->0;
            assert(line_of(next) =~= rest);
        } else {
            lemma_waiting_keeps_settled(view, rest[0]);
            let back = view.with_waiting(rest[0]);
            let tail = rest.skip(1);
            assert forall|i: int| 0 <= i < tail.len() implies !is_awaited(
                back.orphans,
                (#[trigger] tail[i]).header.hash,
            ) by {
                assert(tail[i] == rest[i + 1]);
                assert(rest[0].header.parent_hash != rest[i + 1].header.hash);
            }
            assert forall|i: int, j: int| 0 <= i <= j < tail.len() implies (
            #[trigger] tail[i]).header.parent_hash != (#[trigger] tail[j]).header.hash by {
                assert(tail[i] == rest[i + 1] && tail[j] == rest[j + 1]);
            }
            lemma_next_keeps_step(back, peer, tail);
        }
    }
}

/// Storing a block that none waits for leaves no block waiting that could be tried.
proof fn lemma_outcome_keeps_settled<V, C>(
    view: SyncView,
    peer: PeerId,
    block: BlockView,
    outcome: BlockOutcome<V, C>,
    left: Orphans,
)
    requires
        view.is_settled(),
        forall|hash: H256| #[trigger]
            is_awaited(left, hash) ==> is_awaited(view.orphans, hash),
        view.accepts(block, outcome) ==> !is_awaited(left, block.header.hash),
    ensures
        (SyncView { orphans: left, ..view.with_outcome(peer, block, outcome) }).is_settled(),
{
    let met = SyncView { orphans: left, ..view.with_outcome(peer, block, outcome) };
    assert forall|hash: H256| #[trigger] is_awaited(met.orphans, hash) implies !met.chain
        .has_outputs(hash) by {
        assert(is_awaited(view.orphans, hash));
    }
}

/// Whatever comes of a pending block, no block is left waiting that could be tried: one whose
/// parent is accepted is tried in its turn.
pub proof fn law_outcome_keeps_step<V, C>(
    view: SyncView,
    pending: PendingView,
    outcome: BlockOutcome<V, C>,
    after: SyncView,
    next: Option<PendingView>,
)
    requires
        view.is_in_step(Some(pending)),
        hash_tells_parent(view.orphans, pending.block),
        view.on_outcome(pending, outcome, after, next),
    ensures
        after.is_in_step(next),
{
    let PendingView { peer, block, first, rest } = pending;
    let met = view.with_outcome(peer, block, outcome);
    if !first {
        let line = line_of(pending);
        assert(line[0] == block);
        lemma_outcome_keeps_settled(view, peer, block, outcome, view.orphans);
        assert(met =~= SyncView { orphans: view.orphans, ..met });
        assert forall|i: int| 0 <= i < rest.len() implies !is_awaited(
            met.orphans,
            (#[trigger] rest[i]).header.hash,
        ) by {
            assert(rest[i] == line[i + 1]);
        }
        assert forall|i: int, j: int| 0 <= i <= j < rest.len() implies (
        #[trigger] rest[i]).header.parent_hash != (#[trigger] rest[j]).header.hash by {
            assert(rest[i] == line[i + 1] && rest[j] == line[j + 1]);
        }
        lemma_next_keeps_step(met, peer, rest);
    } else if view.accepts(block, outcome) {
        let root = block.header.hash;
        let (taken, left) = choose|taken: Seq<BlockView>, left: Orphans|
            {
                &&& #[trigger] takes_descendants(view.orphans, root, taken, left)
                &&& (after, next) == (SyncView { orphans: left, ..met }).next_of(peer, taken)
            };
        assert forall|hash: H256| #[trigger] is_awaited(left, hash) implies is_awaited(
            view.orphans,
            hash,
        ) && !reached(root, taken, hash) by {
            assert(left.contains_key(hash));
        }
        lemma_outcome_keeps_settled(view, peer, block, outcome, left);
        lemma_taken_in_line(view, block, taken, left);
        lemma_next_keeps_step(SyncView { orphans: left, ..met }, peer, taken);
    } else {
        assert(met == view);
    }
}

/// The blocks that waited for an accepted one come up with no one after its child.
proof fn lemma_taken_in_line(view: SyncView, block: BlockView, taken: Seq<BlockView>, left: Orphans)
    requires
        view.is_settled(),
        view.chain.has_outputs(block.header.parent_hash),
        hash_tells_parent(view.orphans, block),
        takes_descendants(view.orphans, block.header.hash, taken, left),
    ensures
        is_in_line(left, taken),
{
    let root = block.header.hash;
    assert forall|i: int| 0 <= i < taken.len() implies !is_awaited(
        left,
        (#[trigger] taken[i]).header.hash,
    ) by {
        assert(lists(taken, taken[i].header.hash));
    }
    assert forall|i: int, j: int| 0 <= i <= j < taken.len() implies (
    #[trigger] taken[i]).header.parent_hash != (#[trigger] taken[j]).header.hash by {
        assert(is_waiting(view.orphans, taken[j]));
        assert(is_awaited(view.orphans, taken[j].header.parent_hash));
        if taken[i].header.parent_hash == taken[j].header.hash {
            let parents = taken.take(i);
            assert(reached(root, parents, taken[i].header.parent_hash));
            if taken[j].header.hash != root {
                let k = choose|k: int|
                    0 <= k < parents.len() && (#[trigger] parents[k]).header.hash
                        == taken[j].header.hash;
                assert(taken[k] == parents[k]);
                assert(is_waiting(view.orphans, taken[k]));
            }
        }
    }
}

/// Putting a block among those that wait loses none of them.
proof fn lemma_waiting_keeps(view: SyncView, block: BlockView, hash: H256, parent: H256)
    ensures
        lists(waiting(view.orphans, parent), hash) ==> lists(
            waiting(view.with_waiting(block).orphans, parent),
            hash,
        ),
        lists(
            waiting(view.with_waiting(block).orphans, block.header.parent_hash),
            block.header.hash,
        ),
{
    let key = block.header.parent_hash;
    let old_list = waiting(view.orphans, key);
    let new_list = waiting(view.with_waiting(block).orphans, key);
    if lists(old_list, block.header.hash) {
        let c = choose|c: int|
            0 <= c < old_list.len() && (#[trigger] old_list[c]).header.hash == block.header.hash;
        assert(new_list == old_list.update(c, block));
        assert(new_list[c].header.hash == block.header.hash);
    } else {
        assert(new_list[old_list.len() as int] == block);
    }
    if lists(waiting(view.orphans, parent), hash) && parent == key {
        let i = choose|i: int|
            0 <= i < old_list.len() && (#[trigger] old_list[i]).header.hash == hash;
        assert(new_list[i].header.hash == hash);
    }
}

proof fn lemma_next_keeps(
    view: SyncView,
    peer: PeerId,
    rest: Seq<BlockView>,
    hash: H256,
    parent: H256,
)
    requires
        lists(waiting(view.orphans, parent), hash) || exists|i: int|
            0 <= i < rest.len() && (#[trigger] rest[i]).header.hash == hash
                && rest[i].header.parent_hash == parent,
    ensures
        ({
            let (after, next) = view.next_of(peer, rest);
            after.keeps(next, hash, parent)
        }),
    decreases rest.len(),
{
    if rest.len() > 0 {
        if view.chain.has_outputs(rest[0].header.parent_hash) {
            let next = view.next_of(peer, rest).1->0;
            assert(line_of(next) =~= rest);
        } else {
            lemma_waiting_keeps(view, rest[0], hash, parent);
            let tail = rest.skip(1);
            if !lists(waiting(view.orphans, parent), hash) {
                let i = choose|i: int|
                    0 <= i < rest.len() && (#[trigger] rest[i]).header.hash == hash
                        && rest[i].header.parent_hash == parent;
                if i > 0 {
                    assert(tail[i - 1] == rest[i]);
                }
            }
            lemma_next_keeps(view.with_waiting(rest[0]), peer, tail, hash, parent);
        }
    }
}

/// No block is lost when one arrives: that one is pending or waits, and those that waited
/// still wait.
pub proof fn law_arrival_loses_no_block(
    view: SyncView,
    peer: PeerId,
    block: BlockView,
    hash: H256,
    parent: H256,
)
    requires
        view.keeps(None, hash, parent) || hash == block.header.hash && parent
            == block.header.parent_hash,
    ensures
        ({
            let (after, next) = view.on_block(peer, block);
            after.keeps(next, hash, parent)
        }),
{
    let (after, next) = view.on_block(peer, block);
    if view.chain.has_outputs(block.header.parent_hash) {
        assert(line_of(next->0)[0] == block);
    } else {
        lemma_waiting_keeps(view, block, hash, parent);
    }
}

/// No block is lost when a pending one has been dealt with: every other that waited or was to
/// be tried still waits, is pending or is to be tried.
pub proof fn law_outcome_loses_no_block<V, C>(
    view: SyncView,
    pending: PendingView,
    outcome: BlockOutcome<V, C>,
    after: SyncView,
    next: Option<PendingView>,
    hash: H256,
    parent: H256,
)
    requires
        view.wf(),
        pending.first ==> pending.rest.len() == 0,
        view.on_outcome(pending, outcome, after, next),
        view.keeps(Some(pending), hash, parent),
        hash != pending.block.header.hash,
    ensures
        after.keeps(next, hash, parent),
{
    let PendingView { peer, block, first, rest } = pending;
    let met = view.with_outcome(peer, block, outcome);
    if !lists(waiting(view.orphans, parent), hash) {
        let line = line_of(pending);
        let i = choose|i: int|
            0 <= i < line.len() && (#[trigger] line[i]).header.hash == hash
                && line[i].header.parent_hash == parent;
        assert(i > 0 && rest[i - 1] == line[i]);
    }
    if !first {
        lemma_next_keeps(met, peer, rest, hash, parent);
    } else if view.accepts(block, outcome) {
        let root = block.header.hash;
        let (taken, left) = choose|taken: Seq<BlockView>, left: Orphans|
            {
                &&& #[trigger] takes_descendants(view.orphans, root, taken, left)
                &&& (after, next) == (SyncView { orphans: left, ..met }).next_of(peer, taken)
            };
        let list = waiting(view.orphans, parent);
        let k = choose|k: int| 0 <= k < list.len() && (#[trigger] list[k]).header.hash == hash;
        if reached(root, taken, parent) {
            assert(taken.contains(waiting(view.orphans, parent)[k]));
            let w = choose|w: int| 0 <= w < taken.len() && taken[w] == list[k];
            assert(taken[w].header.hash == hash);
            assert(view.orphans.contains_key(parent));
        } else {
            assert(waiting(left, parent) == list);
        }
        lemma_next_keeps(SyncView { orphans: left, ..met }, peer, taken, hash, parent);
    }
}

/// The next block to try is one of those that were to be tried, and fewer are left.
proof fn lemma_next_shrinks(view: SyncView, peer: PeerId, rest: Seq<BlockView>)
    ensures
        view.next_of(peer, rest).1 matches Some(next) ==> !next.first && next.peer == peer
            && next.rest.len() < rest.len(),
    decreases rest.len(),
{
    if rest.len() > 0 && !view.chain.has_outputs(rest[0].header.parent_hash) {
        lemma_next_shrinks(view.with_waiting(rest[0]), peer, rest.skip(1));
    }
}

/// Taking in a block comes to an end: once those that waited for it are tried, every outcome
/// leaves fewer to try.
pub proof fn law_import_ends<V, C>(
    view: SyncView,
    pending: PendingView,
    outcome: BlockOutcome<V, C>,
    after: SyncView,
    next: Option<PendingView>,
)
    requires
        view.on_outcome(pending, outcome, after, next),
    ensures
        next matches Some(n) ==> {
            &&& !n.first
            &&& n.peer == pending.peer
            &&& !pending.first ==> n.rest.len() < pending.rest.len()
        },
{
    let PendingView { peer, block, first, rest } = pending;
    let met = view.with_outcome(peer, block, outcome);
    if !first {
        lemma_next_shrinks(met, peer, rest);
    } else if view.accepts(block, outcome) {
        let (taken, left) = choose|taken: Seq<BlockView>, left: Orphans|
            {
                &&& #[trigger] takes_descendants(view.orphans, block.header.hash, taken, left)
                &&& (after, next) == (SyncView { orphans: left, ..met }).next_of(peer, taken)
            };
        lemma_next_shrinks(SyncView { orphans: left, ..met }, peer, taken);
    }
}

/// The line moves up by one: nothing goes back to wait.
proof fn lemma_ready_line_moves(view: SyncView, peer: PeerId, root: H256, rest: Seq<BlockView>)
    requires
        view.chain.has_outputs(root),
        view.is_ready(root, rest),
    ensures
        view.next_of(peer, rest) == (
            view,
            if rest.len() == 0 {
                None
            } else {
                Some(PendingView { peer, block: rest[0], first: false, rest: rest.skip(1) })
            },
        ),
        rest.len() > 0 ==> view.is_ready(rest[0].header.hash, rest.skip(1)),
{
    if rest.len() > 0 {
        assert(rest.take(0) =~= Seq::<BlockView>::empty());
        assert(!lists(rest.take(0), rest[0].header.parent_hash));
        assert(view.chain.has_outputs(rest[0].header.parent_hash));
        let tail = rest.skip(1);
        let head = rest[0].header.hash;
        assert forall|i: int| 0 <= i < tail.len() implies reached(
            head,
            tail.take(i),
            (#[trigger] tail[i]).header.parent_hash,
        ) || view.chain.has_outputs(tail[i].header.parent_hash) by {
            let parent = tail[i].header.parent_hash;
            assert(tail[i] == rest[i + 1]);
            assert(reached(root, rest.take(i + 1), parent) || view.chain.has_outputs(parent));
            if !view.chain.has_outputs(parent) {
                let before = rest.take(i + 1);
                let k = choose|k: int|
                    0 <= k < before.len() && (#[trigger] before[k]).header.hash == parent;
                if k > 0 {
                    assert(tail.take(i)[k - 1].header.hash == parent);
                }
            }
        }
    }
}

/// An accepted block brings in all that waited for it: as long as each of them is accepted in
/// its turn, the next one is tried next, and none goes back to wait.
pub proof fn law_accepted_block_brings_its_descendants<V, C>(
    view: SyncView,
    pending: PendingView,
    outcome: BlockOutcome<V, C>,
    after: SyncView,
    next: Option<PendingView>,
)
    requires
        view.wf(),
        view.chain.entries.contains_key(pending.block.header.hash) ==> view.chain.has_outputs(
            pending.block.header.hash,
        ),
        view.accepts(pending.block, outcome),
        !pending.first ==> view.is_ready(pending.block.header.hash, pending.rest),
        view.on_outcome(pending, outcome, after, next),
    ensures
        after.chain.has_outputs(pending.block.header.hash),
        next matches Some(n) ==> after.chain.has_outputs(n.block.header.parent_hash)
            && after.is_ready(n.block.header.hash, n.rest),
        !pending.first ==> {
            &&& after.orphans == view.orphans
            &&& next == (if pending.rest.len() == 0 {
                None
            } else {
                Some(
                    PendingView {
                        peer: pending.peer,
                        block: pending.rest[0],
                        first: false,
                        rest: pending.rest.skip(1),
                    },
                )
            })
        },
        pending.first ==> takes_descendants(
            view.orphans,
            pending.block.header.hash,
            match next {
                Some(n) => line_of(n),
                None => seq![],
            },
            after.orphans,
        ),
{
    let PendingView { peer, block, first, rest } = pending;
    let root = block.header.hash;
    let met = view.with_outcome(peer, block, outcome);
    assert(met.chain.has_outputs(root));
    if !first {
        assert forall|i: int| 0 <= i < rest.len() implies reached(
            root,
            rest.take(i),
            (#[trigger] rest[i]).header.parent_hash,
        ) || met.chain.has_outputs(rest[i].header.parent_hash) by {
            assert(reached(root, rest.take(i), rest[i].header.parent_hash)
                || view.chain.has_outputs(rest[i].header.parent_hash));
        }
        lemma_ready_line_moves(met, peer, root, rest);
    } else {
        let (taken, left) = choose|taken: Seq<BlockView>, left: Orphans|
            {
                &&& #[trigger] takes_descendants(view.orphans, root, taken, left)
                &&& (after, next) == (SyncView { orphans: left, ..met }).next_of(peer, taken)
            };
        let opened = SyncView { orphans: left, ..met };
        lemma_ready_line_moves(opened, peer, root, taken);
        match next {
            Some(n) => assert(line_of(n) =~= taken),
            None => assert(taken =~= seq![]),
        }
    }
}

/// An accepted block is stored and known to be, it is the last one that its sender is known to
/// share, and it is not taken in again: it is no longer one that was asked for. Blocks that were
/// stored before stay as they were.
pub proof fn law_accepted_block_is_settled<V, C>(
    view: SyncView,
    peer: PeerId,
    block: BlockView,
    outcome: BlockOutcome<V, C>,
)
    requires
        view.accepts(block, outcome),
    ensures
        ({
            let after = view.with_outcome(peer, block, outcome);
            let hash = block.header.hash;
            &&& after.chain.entries.contains_key(hash)
            &&& after.status_of(hash) == BlockStatus::BLOCK_HAVE_MASK()
            &&& after.status_of(hash) != BlockStatus::VALID_MASK()
            &&& after.peers.last_common.contains_key(peer)
            &&& after.peers.last_common[peer] == block.header
            &&& view.chain.entries.submap_of(after.chain.entries)
        }),
{
}

/// A block that is not accepted changes nothing of what is known.
pub proof fn law_refused_block_changes_nothing<V, C>(
    view: SyncView,
    peer: PeerId,
    block: BlockView,
    outcome: BlockOutcome<V, C>,
)
    requires
        !view.accepts(block, outcome),
    ensures
        view.with_outcome(peer, block, outcome) == view,
{
}

} // verus!
