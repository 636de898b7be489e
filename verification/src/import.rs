//! Taking in blocks: verifying and processing is done outside, one block at a time.
use crate::block::{BlockView, IndexedBlock, IndexedHeader};
use crate::chain::{law_storing_keeps_chain, ChainError};
use crate::difficulty::U256;
use crate::hash::H256;
use crate::peers::PeerId;
use crate::pool::{
    law_descendants_are_taken, law_orphan_is_found_under_its_parent, law_taken_blocks_descend,
    takes_descendants, views, with_orphan, Orphans,
};
use crate::status::BlockStatus;
use crate::synchronizer::{header_view_in, SyncView, Synchronizer};
use vstd::prelude::*;

verus! {

/// Why a block is not accepted. `V` is what verification reports, `C` what the chain does.
#[derive(Clone, Copy, Debug, PartialEq, Eq)]
pub enum AcceptBlockError<V, C> {
    /// The block is not valid.
    Verification(V),
    /// The chain does not take the block.
    Chain(C),
    /// The chain has processed the block, and the store refuses it: the block's parent is not
    /// stored, or its number does not follow the parent's.
    Misplaced(ChainError),
}

/// What came of verifying a block and handing it to the chain. `V` is what verification reports
/// of a failure, `C` what the chain does.
#[derive(Clone, Copy, Debug)]
pub enum BlockOutcome<V, C> {
    /// The block is not valid.
    VerificationFailed(V),
    /// The block is valid, and the chain could not process it.
    ProcessingFailed(C),
    /// The chain has processed the block.
    Processed {
        /// The work of the chain that ends in the block.
        total_difficulty: U256,
        /// The root over the outputs that exist after the block.
        output_root: H256,
        /// The main chain now ends in the block.
        new_tip: bool,
    },
}

/// A block that is to be verified and handed to the chain, and the blocks to try after it.
pub struct PendingBlock {
    pub peer: PeerId,
    pub block: IndexedBlock,
    /// The block is the one that arrived, not one that waited for it.
    pub first: bool,
    /// The blocks to try afterwards, the next one last.
    pub rest: Vec<IndexedBlock>,
}

/// What a pending block stands for: `rest` are the blocks to try afterwards, the next one first.
#[verifier::ext_equal]
pub struct PendingView {
    pub peer: PeerId,
    pub block: BlockView,
    pub first: bool,
    pub rest: Seq<BlockView>,
}

impl View for PendingBlock {
    type V = PendingView;

    open spec fn view(&self) -> PendingView {
        PendingView {
            peer: self.peer,
            block: self.block@,
            first: self.first,
            rest: views(self.rest@).reverse(),
        }
    }
}

/// What a possible pending block stands for.
pub open spec fn pending_view(pending: Option<PendingBlock>) -> Option<PendingView> {
    match pending {
        Some(pending) => Some(pending@),
        None => None,
    }
}

impl SyncView {
    /// The block is stored, or follows a stored parent.
    pub open spec fn has_place(self, header: IndexedHeader) -> bool {
        self.chain.entries.contains_key(header.hash) || self.chain.extends(header)
    }

    /// The outcome makes the block one of the chain.
    pub open spec fn accepts<V, C>(self, block: BlockView, outcome: BlockOutcome<V, C>) -> bool {
        outcome is Processed && self.has_place(block.header)
    }

    /// Whether the outcome makes the block one of the chain, and if not, why. The error is the
    /// one that verification or the chain has reported.
    pub open spec fn acceptance<V, C>(
        self,
        block: BlockView,
        outcome: BlockOutcome<V, C>,
    ) -> Result<(), AcceptBlockError<V, C>> {
        match outcome {
            BlockOutcome::VerificationFailed(e) => Err(AcceptBlockError::Verification(e)),
            BlockOutcome::ProcessingFailed(e) => Err(AcceptBlockError::Chain(e)),
            BlockOutcome::Processed { .. } => if self.has_place(block.header) {
                Ok(())
            } else if self.chain.entries.contains_key(block.header.parent_hash) {
                Err(AcceptBlockError::Misplaced(ChainError::WrongNumber))
            } else {
                Err(AcceptBlockError::Misplaced(ChainError::UnknownParent))
            },
        }
    }

    /// `peer` sent the block and the chain took it: it is stored, and the last one that the
    /// peer is known to share.
    pub open spec fn with_accepted(
        self,
        peer: PeerId,
        block: BlockView,
        total_difficulty: U256,
        output_root: H256,
        new_tip: bool,
    ) -> SyncView {
        let hash = block.header.hash;
        SyncView {
            chain: if self.chain.entries.contains_key(hash) {
                self.chain
            } else {
                self.chain.with_block(block, total_difficulty, output_root, new_tip)
            },
            status: self.status.insert(hash, BlockStatus::BLOCK_HAVE_MASK()),
            peers: self.peers.with_last_common(peer, block.header),
            ..self
        }
    }

    /// The block that `peer` sent has come to `outcome`.
    pub open spec fn with_outcome<V, C>(
        self,
        peer: PeerId,
        block: BlockView,
        outcome: BlockOutcome<V, C>,
    ) -> SyncView {
        match outcome {
            BlockOutcome::Processed { total_difficulty, output_root, new_tip } => if self.accepts(
                block,
                outcome,
            ) {
                self.with_accepted(peer, block, total_difficulty, output_root, new_tip)
            } else {
                self
            },
            _ => self,
        }
    }

    pub open spec fn with_waiting(self, block: BlockView) -> SyncView {
        SyncView { orphans: with_orphan(self.orphans, block), ..self }
    }

    /// A block arrives: it is tried if the outputs before it are known, else it waits.
    pub open spec fn on_block(self, peer: PeerId, block: BlockView) -> (
        SyncView,
        Option<PendingView>,
    ) {
        if self.chain.has_outputs(block.header.parent_hash) {
            (self, Some(PendingView { peer, block, first: true, rest: seq![] }))
        } else {
            (self.with_waiting(block), None)
        }
    }

    /// The blocks of `rest` come up in turn: the first one before which the outputs are known
    /// is tried, and those ahead of it go back to wait.
    pub open spec fn next_of(self, peer: PeerId, rest: Seq<BlockView>) -> (
        SyncView,
        Option<PendingView>,
    )
        decreases rest.len(),
    {
        if rest.len() == 0 {
            (self, None)
        } else if self.chain.has_outputs(rest[0].header.parent_hash) {
            (
                self,
                Some(PendingView { peer, block: rest[0], first: false, rest: rest.skip(1) }),
            )
        } else {
            self.with_waiting(rest[0]).next_of(peer, rest.skip(1))
        }
    }

    /// A pending block has come to `outcome`. If it is the one that arrived and it was accepted,
    /// those that wait for it or its descendants are tried next; if it is one of these, the
    /// rest of them are, whatever the outcome.
    pub open spec fn on_outcome<V, C>(
        self,
        pending: PendingView,
        outcome: BlockOutcome<V, C>,
        after: SyncView,
        next: Option<PendingView>,
    ) -> bool {
        let met = self.with_outcome(pending.peer, pending.block, outcome);
        if !pending.first {
            (after, next) == met.next_of(pending.peer, pending.rest)
        } else if self.accepts(pending.block, outcome) {
            exists|taken: Seq<BlockView>, left: Orphans|
                {
                    &&& #[trigger] takes_descendants(
                        self.orphans,
                        pending.block.header.hash,
                        taken,
                        left,
                    )
                    &&& (after, next) == (SyncView { orphans: left, ..met }).next_of(
                        pending.peer,
                        taken,
                    )
                }
        } else {
            (after, next) == (met, None::<PendingView>)
        }
    }
}

/// An outcome keeps what a node knows in order.
pub proof fn lemma_outcome_keeps_order<V, C>(
    view: SyncView,
    peer: PeerId,
    block: BlockView,
    outcome: BlockOutcome<V, C>,
)
    requires
        view.wf(),
        outcome is Processed ==> view.agrees_on(block.header),
    ensures
        view.with_outcome(peer, block, outcome).wf(),
{
    let after = view.with_outcome(peer, block, outcome);
    if let BlockOutcome::Processed { total_difficulty, output_root, new_tip } = outcome {
        if view.accepts(block, outcome) && !view.chain.entries.contains_key(block.header.hash) {
            law_storing_keeps_chain(view.chain, block, total_difficulty, output_root, new_tip);
            assert forall|hash: H256| after.headers.contains_key(hash) implies (
            #[trigger] header_view_in(
                after.headers,
                after.chain,
                after.headers[hash].header.parent_hash,
            )) is Some by {
                assert(header_view_in(
                    view.headers,
                    view.chain,
                    view.headers[hash].header.parent_hash,
                ) is Some);
            }
        }
    }
}

impl Synchronizer {
    /// Whether a block with this header is stored, or follows a stored parent. A block that does
    /// not is misplaced, whatever the chain makes of it.
    pub fn has_place(&self, header: &IndexedHeader) -> (r: bool)
        ensures
            r == self@.has_place(*header),
    {
        if self.chain.block_header(&header.hash).is_some() {
            return true;
        }
        match self.chain.block_header(&header.parent_hash) {
            Some(parent) => header.number > 0 && parent.number == header.number - 1,
            None => false,
        }
    }

    /// Takes note of what came of verifying and processing a block that `peer` sent.
    pub fn accept_block<V, C>(
        &mut self,
        peer: PeerId,
        block: IndexedBlock,
        outcome: BlockOutcome<V, C>,
    ) -> (r: Result<(), AcceptBlockError<V, C>>)
        requires
            old(self).wf(),
            outcome is Processed ==> old(self)@.agrees_on(block.header),
        ensures
            final(self).wf(),
            final(self)@ == old(self)@.with_outcome(peer, block@, outcome),
            r == old(self)@.acceptance(block@, outcome),
            r is Ok <==> old(self)@.accepts(block@, outcome),
    {
        proof {
            lemma_outcome_keeps_order(self@, peer, block@, outcome);
        }
        match outcome {
            BlockOutcome::VerificationFailed(e) => Err(AcceptBlockError::Verification(e)),
            BlockOutcome::ProcessingFailed(e) => Err(AcceptBlockError::Chain(e)),
            BlockOutcome::Processed { total_difficulty, output_root, new_tip } => {
                let header = block.header;
                match self.chain.store(block, total_difficulty, output_root, new_tip) {
                    Ok(()) => {
                        self.mark_block_stored(header.hash);
                        self.peers.set_last_common_header(peer, &header);
                        Ok(())
                    },
                    Err(e) => Err(AcceptBlockError::Misplaced(e)),
                }
            },
        }
    }

    /// Starts taking in a block that `peer` sent. The pending block, if there is one, is to be
    /// verified and handed to the chain; `resume_import` takes what came of that.
    pub fn insert_new_block(&mut self, peer: PeerId, block: IndexedBlock) -> (r: Option<
        PendingBlock,
    >)
        requires
            old(self).wf(),
        ensures
            final(self).wf(),
            (final(self)@, pending_view(r)) == old(self)@.on_block(peer, block@),
    {
        if self.chain.output_root(&block.header.parent_hash).is_some() {
            let r = PendingBlock { peer, block, first: true, rest: Vec::new() };
            assert(r@.rest =~= seq![]);
            Some(r)
        } else {
            self.orphan_block_pool.insert(block);
            None
        }
    }

    /// Goes on to the next of the blocks that are to be tried, which `queue` holds with the next
    /// one last.
    fn next_pending(&mut self, peer: PeerId, queue: Vec<IndexedBlock>) -> (r: Option<PendingBlock>)
        requires
            old(self).wf(),
        ensures
            final(self).wf(),
            (final(self)@, pending_view(r)) == old(self)@.next_of(peer, views(queue@).reverse()),
    {
        let ghost whole = self@.next_of(peer, views(queue@).reverse());
        let mut rest = queue;
        loop
            invariant
                self.wf(),
                self@.next_of(peer, views(rest@).reverse()) == whole,
                whole == old(self)@.next_of(peer, views(queue@).reverse()),
            decreases rest@.len(),
        {
            let ghost left = views(rest@).reverse();
            match rest.pop() {
                Some(block) => {
                    proof {
                        assert(left[0] == block@);
                        assert(views(rest@).reverse() =~= left.skip(1));
                    }
                    if self.chain.output_root(&block.header.parent_hash).is_some() {
                        return Some(PendingBlock { peer, block, first: false, rest });
                    }
                    self.orphan_block_pool.insert(block);
                },
                None => {
                    return None;
                },
            }
        }
    }

    /// Goes on with taking in blocks after a pending one has come to `outcome`. The blocks that
    /// waited for one that is accepted come next, parents before their children.
    pub fn resume_import<V, C>(
        &mut self,
        pending: PendingBlock,
        outcome: BlockOutcome<V, C>,
    ) -> (r: Option<PendingBlock>)
        requires
            old(self).wf(),
            outcome is Processed ==> old(self)@.agrees_on(pending.block.header),
        ensures
            final(self).wf(),
            old(self)@.on_outcome(pending@, outcome, final(self)@, pending_view(r)),
    {
        let ghost before = self@;
        let ghost was = pending@;
        let PendingBlock { peer, block, first, rest } = pending;
        let hash = block.header.hash;
        let accept_ret = self.accept_block(peer, block, outcome);
        if !first {
            return self.next_pending(peer, rest);
        }
        match accept_ret {
            Ok(()) => {
                let ghost met = self@;
                let mut removed: Vec<IndexedBlock> = self.orphan_block_pool.remove_blocks_by_parent(
                    &hash,
                );
                let ghost taken = views(removed@);
                let ghost left = self@;
                let mut queue: Vec<IndexedBlock> = Vec::new();
                while removed.len() > 0
                    invariant
                        self.wf(),
                        self@ == left,
                        taken =~= views(removed@) + views(queue@).reverse(),
                    decreases removed@.len(),
                {
                    let ghost held = views(removed@);
                    let ghost queued = views(queue@);
                    if let Some(orphan) = removed.pop() {
                        proof {
                            assert(held =~= views(removed@).push(orphan@));
                        }
                        queue.push(orphan);
                        proof {
                            assert(views(queue@) =~= queued.push(held.last()));
                            assert(views(queue@).reverse() =~= seq![held.last()]
                                + queued.reverse());
                        }
                    }
                }
                assert(views(queue@).reverse() =~= taken);
                assert(takes_descendants(before.orphans, hash, taken, left.orphans));
                assert(left =~= SyncView { orphans: left.orphans, ..met });
                self.next_pending(peer, queue)
            },
            Err(_) => None,
        }
    }

    /// Takes in a block that `peer` sent, if it was asked for and its header is valid.
    pub fn process_new_block(&mut self, peer: PeerId, block: IndexedBlock) -> (r: Option<
        PendingBlock,
    >)
        requires
            old(self).wf(),
        ensures
            final(self).wf(),
            (final(self)@, pending_view(r)) == ({
                let noted = old(self)@.with_status_noted(block.header.hash);
                if old(self)@.status_of(block.header.hash) == BlockStatus::VALID_MASK() {
                    noted.on_block(peer, block@)
                } else {
                    (noted, None)
                }
            }),
    {
        let status = self.get_block_status(&block.header.hash);
        if status == BlockStatus::VALID_MASK() {
            self.insert_new_block(peer, block)
        } else {
            None
        }
    }
}

/// Every processed block that is stored already, or whose parent is stored and has the number
/// before its own, is accepted, whatever else its header holds. A new one is stored whole, and
/// ends the main chain where it is the new tip. It is noted as stored, and as the last one that
/// its sender shares. Nothing else changes.
pub proof fn law_processed_block_is_accepted<V, C>(
    view: SyncView,
    peer: PeerId,
    block: BlockView,
    outcome: BlockOutcome<V, C>,
    work: U256,
    root: H256,
    tip: bool,
)
    requires
        outcome == (BlockOutcome::<V, C>::Processed {
            total_difficulty: work,
            output_root: root,
            new_tip: tip,
        }),
        view.chain.entries.contains_key(block.header.hash) || view.chain.entries.contains_key(
            block.header.parent_hash,
        ) && view.chain.entries[block.header.parent_hash].header.number + 1 == block.header.number,
    ensures
        view.has_place(block.header),
        view.accepts(block, outcome),
        view.acceptance(block, outcome) is Ok,
        ({
            let after = view.with_outcome(peer, block, outcome);
            let hash = block.header.hash;
            &&& view.chain.entries.contains_key(hash) ==> after.chain == view.chain
            &&& !view.chain.entries.contains_key(hash) ==> {
                &&& after.chain.entries.contains_key(hash)
                &&& after.chain.entries[hash].header == block.header
                &&& after.chain.entries[hash].body == Some(block.body)
                &&& after.chain.entries[hash].total_difficulty == Some(work)
                &&& after.chain.entries[hash].output_root == Some(root)
                &&& after.chain.entries.remove(hash) == view.chain.entries.remove(hash)
                &&& tip ==> after.chain.main.last() == hash && after.chain.tip_difficulty == work
                &&& !tip ==> after.chain.main == view.chain.main && after.chain.tip_difficulty
                    == view.chain.tip_difficulty
            }
            &&& after.status.contains_key(hash)
            &&& after.status[hash].bits == 8 | 16
            &&& after.status.remove(hash) == view.status.remove(hash)
            &&& after.peers.last_common.contains_key(peer)
            &&& after.peers.last_common[peer] == block.header
            &&& after.peers.last_common.remove(peer) == view.peers.last_common.remove(peer)
            &&& after.peers.state == view.peers.state
            &&& after.peers.best_known == view.peers.best_known
            &&& after.headers == view.headers
            &&& after.best == view.best
            &&& after.orphans == view.orphans
            &&& after.n_sync == view.n_sync
            &&& after.protected == view.protected
            &&& after.config == view.config
        }),
{
    let after = view.with_outcome(peer, block, outcome);
    let hash = block.header.hash;
    assert(24u32 == 8u32 | 16u32) by (bit_vector);
    assert(after.chain.entries.remove(hash) =~= view.chain.entries.remove(hash));
    assert(after.status.remove(hash) =~= view.status.remove(hash));
    assert(after.peers.last_common.remove(peer) =~= view.peers.last_common.remove(peer));
}

/// A block that failed is refused with the error that was reported, and one that was processed is
/// refused only where it is not stored and does not follow a stored parent. Nothing changes then.
pub proof fn law_refused_block_is_reported<V, C>(
    view: SyncView,
    peer: PeerId,
    block: BlockView,
    outcome: BlockOutcome<V, C>,
)
    ensures
        outcome matches BlockOutcome::VerificationFailed(e) ==> {
            &&& view.acceptance(block, outcome) matches Err(AcceptBlockError::Verification(x))
            &&& x == e
        },
        outcome matches BlockOutcome::ProcessingFailed(e) ==> {
            &&& view.acceptance(block, outcome) matches Err(AcceptBlockError::Chain(x))
            &&& x == e
        },
        outcome is Processed && !view.chain.entries.contains_key(block.header.hash)
            && !view.chain.entries.contains_key(block.header.parent_hash) ==> {
            &&& view.acceptance(block, outcome) matches Err(AcceptBlockError::Misplaced(x))
            &&& x == ChainError::UnknownParent
        },
        outcome is Processed && !view.chain.entries.contains_key(block.header.hash)
            && view.chain.entries.contains_key(block.header.parent_hash) && view.chain.entries[
        block.header.parent_hash].header.number + 1 != block.header.number ==> {
            &&& view.acceptance(block, outcome) matches Err(AcceptBlockError::Misplaced(x))
            &&& x == ChainError::WrongNumber
        },
        view.acceptance(block, outcome) is Err ==> view.with_outcome(peer, block, outcome) == view,
        view.acceptance(block, outcome) is Ok <==> view.accepts(block, outcome),
        !view.chain.entries.contains_key(block.header.hash) && !(view.chain.entries.contains_key(
            block.header.parent_hash,
        ) && view.chain.entries[block.header.parent_hash].header.number + 1
            == block.header.number) ==> !view.has_place(block.header),
{
}

/// Whatever block comes to an outcome, the one that arrived or one that waited for it, the outcome
/// is noted in the same way: apart from the waiting blocks, the node is as the outcome of that
/// block alone leaves it. The next block to try is of the same sender.
pub proof fn law_every_outcome_is_noted<V, C>(
    view: SyncView,
    pending: PendingView,
    outcome: BlockOutcome<V, C>,
    after: SyncView,
    next: Option<PendingView>,
)
    requires
        view.on_outcome(pending, outcome, after, next),
    ensures
        ({
            let met = view.with_outcome(pending.peer, pending.block, outcome);
            &&& after.chain == met.chain
            &&& after.status == met.status
            &&& after.headers == met.headers
            &&& after.best == met.best
            &&& after.n_sync == met.n_sync
            &&& after.peers == met.peers
            &&& after.config == met.config
            &&& after.protected == met.protected
        }),
        next matches Some(n) ==> n.peer == pending.peer && !n.first
            && after.chain.entries.contains_key(n.block.header.parent_hash)
            && after.chain.entries[n.block.header.parent_hash].output_root is Some,
{
    let PendingView { peer, block, first, rest } = pending;
    let met = view.with_outcome(peer, block, outcome);
    if !first {
        lemma_next_leaves_the_rest(met, peer, rest);
    } else if view.accepts(block, outcome) {
        let (taken, left) = choose|taken: Seq<BlockView>, left: Orphans|
            {
                &&& #[trigger] takes_descendants(view.orphans, block.header.hash, taken, left)
                &&& (after, next) == (SyncView { orphans: left, ..met }).next_of(peer, taken)
            };
        lemma_next_leaves_the_rest(SyncView { orphans: left, ..met }, peer, taken);
    }
}

/// Going on to the next block changes nothing but what waits.
proof fn lemma_next_leaves_the_rest(view: SyncView, peer: PeerId, rest: Seq<BlockView>)
    ensures
        ({
            let (after, next) = view.next_of(peer, rest);
            &&& after == (SyncView { orphans: after.orphans, ..view })
            &&& next matches Some(n) ==> n.peer == peer && !n.first && view.chain.has_outputs(
                n.block.header.parent_hash,
            )
        }),
    decreases rest.len(),
{
    if rest.len() > 0 && !view.chain.has_outputs(rest[0].header.parent_hash) {
        lemma_next_leaves_the_rest(view.with_waiting(rest[0]), peer, rest.skip(1));
    }
}

/// A block arrives. If a root over the outputs is stored with its parent, it is to be tried at
/// once, alone, and nothing changes; else it waits under its parent, and nothing is to be tried.
pub proof fn law_arriving_block_is_tried_or_waits(view: SyncView, peer: PeerId, block: BlockView)
    ensures
        ({
            let (after, next) = view.on_block(peer, block);
            let parent = block.header.parent_hash;
            if view.chain.entries.contains_key(parent) && view.chain.entries[parent].output_root
                is Some {
                &&& after == view
                &&& next matches Some(p)
                &&& p.peer == peer
                &&& p.block == block
                &&& p.first
                &&& p.rest.len() == 0
            } else {
                &&& next is None
                &&& after.orphans.contains_key(parent)
                &&& after.orphans[parent].contains(block)
                &&& after.orphans.remove(parent) == view.orphans.remove(parent)
                &&& view.orphans.contains_key(parent) ==> forall|x: BlockView|
                    x.header.hash != block.header.hash && #[trigger] view.orphans[parent].contains(
                        x,
                    ) ==> after.orphans[parent].contains(x)
                &&& after == (SyncView { orphans: after.orphans, ..view })
            }
        }),
{
    law_orphan_is_found_under_its_parent(view.orphans, block);
}

/// Of the blocks to try, the next one is the first for whose parent a root over the outputs is
/// stored. Those after it are kept in their order to be tried later, and those before it wait.
pub proof fn law_next_block_to_try(view: SyncView, peer: PeerId, rest: Seq<BlockView>, i: int)
    requires
        0 <= i <= rest.len(),
        forall|j: int|
            0 <= j < i ==> !(view.chain.entries.contains_key(
                (#[trigger] rest[j]).header.parent_hash,
            ) && view.chain.entries[rest[j].header.parent_hash].output_root is Some),
        i < rest.len() ==> view.chain.entries.contains_key(rest[i].header.parent_hash)
            && view.chain.entries[rest[i].header.parent_hash].output_root is Some,
    ensures
        ({
            let (after, next) = view.next_of(peer, rest);
            &&& i == rest.len() ==> next is None
            &&& i < rest.len() ==> next == Some(
                PendingView { peer, block: rest[i], first: false, rest: rest.skip(i + 1) },
            )
            &&& i == 0 ==> after == view
            &&& after == (SyncView { orphans: after.orphans, ..view })
        }),
    decreases i,
{
    if i > 0 {
        assert(!view.chain.has_outputs(rest[0].header.parent_hash));
        let tail = rest.skip(1);
        assert forall|j: int| 0 <= j < i - 1 implies !(view.chain.entries.contains_key(
            (#[trigger] tail[j]).header.parent_hash,
        ) && view.chain.entries[tail[j].header.parent_hash].output_root is Some) by {
            assert(tail[j] == rest[j + 1]);
        }
        law_next_block_to_try(view.with_waiting(rest[0]), peer, tail, i - 1);
        if i < rest.len() {
            assert(tail.skip(i) =~= rest.skip(i + 1));
        }
    } else if rest.len() > 0 {
        assert(rest.skip(1) =~= rest.skip(i + 1));
    }
}

/// A block that arrived and was refused brings in no other, and nothing changes. One that waited
/// and was refused changes nothing but that the next of those to try comes up.
pub proof fn law_refused_block_brings_nothing<V, C>(
    view: SyncView,
    pending: PendingView,
    outcome: BlockOutcome<V, C>,
    after: SyncView,
    next: Option<PendingView>,
)
    requires
        view.on_outcome(pending, outcome, after, next),
        view.acceptance(pending.block, outcome) is Err,
    ensures
        pending.first ==> after == view && next is None,
        !pending.first && pending.rest.len() == 0 ==> after == view && next is None,
        !pending.first && pending.rest.len() > 0 && view.chain.entries.contains_key(
            pending.rest[0].header.parent_hash,
        ) && view.chain.entries[pending.rest[0].header.parent_hash].output_root is Some ==> after
            == view && (next matches Some(n) && n.block == pending.rest[0] && n.rest
            == pending.rest.skip(1)),
{
    law_refused_block_is_reported(view, pending.peer, pending.block, outcome);
}

/// After a block that arrived was accepted, the blocks that come up are those that were waiting
/// for it or its descendants, and no others; whatever waited for anything else still does.
pub proof fn law_accepted_block_leaves_others_waiting<V, C>(
    view: SyncView,
    pending: PendingView,
    outcome: BlockOutcome<V, C>,
    after: SyncView,
    next: Option<PendingView>,
    block: BlockView,
)
    requires
        view.wf(),
        pending.first,
        view.accepts(pending.block, outcome),
        view.on_outcome(pending, outcome, after, next),
        next matches Some(n) && (block == n.block || n.rest.contains(block)),
    ensures
        view.orphans.contains_key(block.header.parent_hash),
        view.orphans[block.header.parent_hash].contains(block),
{
    let root = pending.block.header.hash;
    let met = view.with_outcome(pending.peer, pending.block, outcome);
    let (taken, left) = choose|taken: Seq<BlockView>, left: Orphans|
        {
            &&& #[trigger] takes_descendants(view.orphans, root, taken, left)
            &&& (after, next) == (SyncView { orphans: left, ..met }).next_of(pending.peer, taken)
        };
    lemma_next_is_of_rest(SyncView { orphans: left, ..met }, pending.peer, taken, block);
    let i = choose|i: int| 0 <= i < taken.len() && taken[i] == block;
    law_taken_blocks_descend(view.orphans, root, taken, left);
    assert(taken[i].header.parent_hash == block.header.parent_hash);
}

proof fn lemma_next_is_of_rest(
    view: SyncView,
    peer: PeerId,
    rest: Seq<BlockView>,
    block: BlockView,
)
    requires
        view.next_of(peer, rest).1 matches Some(n) && (block == n.block || n.rest.contains(block)),
    ensures
        rest.contains(block),
    decreases rest.len(),
{
    let next = view.next_of(peer, rest).1->0;
    let tail = rest.skip(1);
    if view.chain.has_outputs(rest[0].header.parent_hash) {
        if block == next.block {
            assert(rest[0] == block);
        } else {
            let k = choose|k: int| 0 <= k < tail.len() && tail[k] == block;
            assert(rest[k + 1] == block);
        }
    } else {
        lemma_next_is_of_rest(view.with_waiting(rest[0]), peer, tail, block);
        let k = choose|k: int| 0 <= k < tail.len() && tail[k] == block;
        assert(rest[k + 1] == block);
    }
}

/// A block that is taken in hand has every block of a line of waiting ones that leads on from it
/// come up in its turn, once it is accepted.
pub proof fn law_accepted_block_calls_up_its_line<V, C>(
    view: SyncView,
    pending: PendingView,
    outcome: BlockOutcome<V, C>,
    after: SyncView,
    next: Option<PendingView>,
    line: Seq<BlockView>,
)
    requires
        pending.first,
        view.accepts(pending.block, outcome),
        view.chain.entries.contains_key(pending.block.header.hash) ==> view.chain.entries[
        pending.block.header.hash].output_root is Some,
        view.on_outcome(pending, outcome, after, next),
        line.len() > 0,
        line[0].header.parent_hash == pending.block.header.hash,
        forall|i: int, j: int|
            0 <= i && j == i + 1 && j < line.len() ==> (#[trigger] line[j]).header.parent_hash == (
            #[trigger] line[i]).header.hash,
        forall|i: int|
            0 <= i < line.len() ==> view.orphans.contains_key(
                (#[trigger] line[i]).header.parent_hash,
            ) && view.orphans[line[i].header.parent_hash].contains(line[i]),
    ensures
        next matches Some(n) && forall|i: int|
            0 <= i < line.len() ==> n.block == #[trigger] line[i] || n.rest.contains(line[i]),
{
    let root = pending.block.header.hash;
    let met = view.with_outcome(pending.peer, pending.block, outcome);
    let (taken, left) = choose|taken: Seq<BlockView>, left: Orphans|
        {
            &&& #[trigger] takes_descendants(view.orphans, root, taken, left)
            &&& (after, next) == (SyncView { orphans: left, ..met }).next_of(pending.peer, taken)
        };
    let opened = SyncView { orphans: left, ..met };
    law_descendants_are_taken(view.orphans, root, taken, left, line);
    assert(taken.contains(line[0]));
    law_taken_blocks_descend(view.orphans, root, taken, left);
    assert(taken.len() > 0);
    assert(taken[0].header.parent_hash == root);
    assert(opened.chain.has_outputs(root));
    let n = next->0;
    assert(n.block == taken[0] && n.rest == taken.skip(1));
    assert forall|i: int| 0 <= i < line.len() implies n.block == #[trigger] line[i]
        || n.rest.contains(line[i]) by {
        let w = choose|w: int| 0 <= w < taken.len() && taken[w] == line[i];
        if w > 0 {
            assert(n.rest[w - 1] == line[i]);
        }
    }
}

/// A pending block stands for itself, for the peer that sent it, and for the blocks to try after
/// it, the last of its list first.
pub proof fn law_what_a_pending_block_stands_for(pending: PendingBlock, i: int)
    requires
        0 <= i < pending.rest@.len(),
    ensures
        pending@.peer == pending.peer,
        pending@.first == pending.first,
        pending@.block.header == pending.block.header,
        pending@.block.body == pending.block.body@,
        pending@.rest.len() == pending.rest@.len(),
        pending@.rest[i].header == pending.rest@[pending.rest@.len() - 1 - i].header,
        pending@.rest[i].body == pending.rest@[pending.rest@.len() - 1 - i].body@,
{
}

} // verus!
