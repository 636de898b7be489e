//! What becomes of the blocks that arrive, whatever their order.
use crate::block::BlockView;
use crate::chain::{law_storing_keeps_chain, ChainView};
use crate::hash::H256;
use crate::import::{law_every_outcome_is_noted, BlockOutcome, PendingView};
use crate::peers::PeerId;
use crate::pool::{lists, takes_descendants, waiting, with_orphan, Orphans};
use crate::synchronizer::SyncView;
use crate::waiting::{
    is_awaited, is_waiting, law_arrival_loses_no_block, law_outcome_loses_no_block, line_of,
};
use vstd::prelude::*;

verus! {

/// The blocks of the list have arrived.
pub open spec fn all_arrived(blocks: Seq<BlockView>, arrived: Set<BlockView>) -> bool {
    forall|i: int| 0 <= i < blocks.len() ==> arrived.contains(#[trigger] blocks[i])
}

/// The blocks that wait have arrived.
pub open spec fn waiting_arrived(orphans: Orphans, arrived: Set<BlockView>) -> bool {
    forall|block: BlockView| #[trigger] is_waiting(orphans, block) ==> arrived.contains(block)
}

impl SyncView {
    /// Every block that has arrived is stored, waits, is pending or is to be tried.
    pub open spec fn accounts_for(
        self,
        pending: Option<PendingView>,
        arrived: Set<BlockView>,
    ) -> bool {
        forall|block: BlockView| #[trigger]
            arrived.contains(block) ==> self.chain.entries.contains_key(block.header.hash)
                || self.keeps(pending, block.header.hash, block.header.parent_hash)
    }

    /// The stored blocks are those of `base` and others that have arrived, and the outputs after
    /// each are known.
    pub open spec fn grew_from(self, base: ChainView, arrived: Set<BlockView>) -> bool {
        &&& self.chain.genesis() == base.genesis()
        &&& forall|hash: H256| #[trigger]
            base.entries.contains_key(hash) ==> self.chain.entries.contains_key(hash)
        &&& forall|hash: H256| #[trigger]
            self.chain.entries.contains_key(hash) ==> self.chain.has_outputs(hash) && (
            base.entries.contains_key(hash) || exists|block: BlockView| #[trigger]
                arrived.contains(block) && block.header == self.chain.entries[hash].header)
    }

    /// Nothing is stored, waits or is to be tried but blocks of `base` and those that have
    /// arrived.
    pub open spec fn stems_from(
        self,
        pending: Option<PendingView>,
        base: ChainView,
        arrived: Set<BlockView>,
    ) -> bool {
        &&& self.grew_from(base, arrived)
        &&& waiting_arrived(self.orphans, arrived)
        &&& pending matches Some(p) ==> all_arrived(line_of(p), arrived)
    }
}

/// A node whose chain is `base` has taken in nothing yet.
pub proof fn law_nothing_arrived_yet(view: SyncView, base: ChainView)
    requires
        view.chain == base,
        view.orphans == Map::<H256, Seq<BlockView>>::empty(),
        forall|hash: H256| #[trigger]
            base.entries.contains_key(hash) ==> base.has_outputs(hash),
    ensures
        view.is_in_step(None),
        view.accounts_for(None, Set::empty()),
        view.stems_from(None, base, Set::empty()),
{
}

/// A block that is put among those that wait is the only one added.
proof fn lemma_one_more_waits(orphans: Orphans, block: BlockView, arrived: Set<BlockView>)
    requires
        waiting_arrived(orphans, arrived),
        arrived.contains(block),
    ensures
        waiting_arrived(with_orphan(orphans, block), arrived),
{
    let after = with_orphan(orphans, block);
    let key = block.header.parent_hash;
    let siblings = waiting(orphans, key);
    assert forall|x: BlockView| #[trigger] is_waiting(after, x) implies arrived.contains(x) by {
        let list = waiting(after, x.header.parent_hash);
        let i = choose|i: int| 0 <= i < list.len() && list[i] == x;
        if x.header.parent_hash != key {
            assert(list == waiting(orphans, x.header.parent_hash));
            assert(is_waiting(orphans, x));
        } else if x != block {
            assert(siblings[i] == x);
            assert(is_waiting(orphans, x));
        }
    }
}

proof fn lemma_next_stems(
    view: SyncView,
    peer: PeerId,
    rest: Seq<BlockView>,
    base: ChainView,
    arrived: Set<BlockView>,
)
    requires
        view.stems_from(None, base, arrived),
        all_arrived(rest, arrived),
    ensures
        ({
            let (after, next) = view.next_of(peer, rest);
            after.stems_from(next, base, arrived) && after.chain == view.chain
        }),
    decreases rest.len(),
{
    if rest.len() > 0 {
        if view.chain.has_outputs(rest[0].header.parent_hash) {
            let next = view.next_of(peer, rest).1->0;
            assert(line_of(next) =~= rest);
        } else {
            lemma_one_more_waits(view.orphans, rest[0], arrived);
            lemma_next_stems(view.with_waiting(rest[0]), peer, rest.skip(1), base, arrived);
        }
    }
}

/// A block that arrives while nothing is pending is accounted for, and so are those before it.
pub proof fn law_arrival_is_accounted_for(
    view: SyncView,
    peer: PeerId,
    block: BlockView,
    base: ChainView,
    arrived: Set<BlockView>,
)
    requires
        view.accounts_for(None, arrived),
        view.stems_from(None, base, arrived),
    ensures
        ({
            let (after, next) = view.on_block(peer, block);
            &&& after.accounts_for(next, arrived.insert(block))
            &&& after.stems_from(next, base, arrived.insert(block))
        }),
{
    let (after, next) = view.on_block(peer, block);
    let all = arrived.insert(block);
    assert forall|x: BlockView| #[trigger] all.contains(x) implies after.chain.entries.contains_key(
        x.header.hash,
    ) || after.keeps(next, x.header.hash, x.header.parent_hash) by {
        if x == block || !view.chain.entries.contains_key(x.header.hash) {
            if x != block {
                assert(arrived.contains(x));
            }
            law_arrival_loses_no_block(view, peer, block, x.header.hash, x.header.parent_hash);
        }
    }
    assert forall|hash: H256| #[trigger] view.chain.entries.contains_key(
        hash,
    ) && !base.entries.contains_key(hash) implies exists|x: BlockView| #[trigger]
        all.contains(x) && x.header == view.chain.entries[hash].header by {
        let x = choose|x: BlockView| #[trigger]
            arrived.contains(x) && x.header == view.chain.entries[hash].header;
        assert(all.contains(x));
    }
    assert(after.grew_from(base, all));
    assert(waiting_arrived(view.orphans, all)) by {
        assert forall|x: BlockView| #[trigger] is_waiting(view.orphans, x) implies all.contains(
            x,
        ) by {
            assert(arrived.contains(x));
        }
    }
    if !view.chain.has_outputs(block.header.parent_hash) {
        lemma_one_more_waits(view.orphans, block, all);
    }
}

/// Whatever comes of a pending block, nothing is stored, waits or is to be tried but blocks that
/// were there or have arrived, unchanged.
pub proof fn law_outcome_brings_nothing_new<V, C>(
    view: SyncView,
    pending: PendingView,
    outcome: BlockOutcome<V, C>,
    after: SyncView,
    next: Option<PendingView>,
    base: ChainView,
    arrived: Set<BlockView>,
)
    requires
        view.wf(),
        view.on_outcome(pending, outcome, after, next),
        view.stems_from(Some(pending), base, arrived),
    ensures
        after.stems_from(next, base, arrived),
{
    let PendingView { peer, block, first, rest } = pending;
    let met = view.with_outcome(peer, block, outcome);
    let line = line_of(pending);
    assert(line[0] == block);
    assert(arrived.contains(block));
    assert(met.grew_from(base, arrived)) by {
        if let BlockOutcome::Processed { total_difficulty, output_root, new_tip } = outcome {
            if view.accepts(block, outcome) && !view.chain.entries.contains_key(
                block.header.hash,
            ) {
                law_storing_keeps_chain(view.chain, block, total_difficulty, output_root, new_tip);
            }
        }
        assert forall|hash: H256| #[trigger] met.chain.entries.contains_key(
            hash,
        ) implies met.chain.has_outputs(hash) && (base.entries.contains_key(hash) || exists|
            x: BlockView,
        | #[trigger]
            arrived.contains(x) && x.header == met.chain.entries[hash].header) by {
            if view.chain.entries.contains_key(hash) {
                assert(met.chain.entries[hash] == view.chain.entries[hash]);
                assert(view.chain.has_outputs(hash));
            }
        }
    }
    if !first {
        assert forall|i: int| 0 <= i < rest.len() implies arrived.contains(#[trigger] rest[i]) by {
            assert(line[i + 1] == rest[i]);
        }
        lemma_next_stems(met, peer, rest, base, arrived);
    } else if view.accepts(block, outcome) {
        let (taken, left) = choose|taken: Seq<BlockView>, left: Orphans|
            {
                &&& #[trigger] takes_descendants(view.orphans, block.header.hash, taken, left)
                &&& (after, next) == (SyncView { orphans: left, ..met }).next_of(peer, taken)
            };
        assert forall|i: int| 0 <= i < taken.len() implies arrived.contains(
            #[trigger] taken[i],
        ) by {
            assert(is_waiting(view.orphans, taken[i]));
        }
        assert forall|x: BlockView| #[trigger] is_waiting(left, x) implies arrived.contains(x) by {
            assert(is_waiting(view.orphans, x));
        }
        lemma_next_stems(SyncView { orphans: left, ..met }, peer, taken, base, arrived);
    }
}

/// As long as pending blocks are accepted, every block that has arrived is accounted for.
pub proof fn law_acceptance_is_accounted_for<V, C>(
    view: SyncView,
    pending: PendingView,
    outcome: BlockOutcome<V, C>,
    after: SyncView,
    next: Option<PendingView>,
    base: ChainView,
    arrived: Set<BlockView>,
)
    requires
        view.wf(),
        pending.first ==> pending.rest.len() == 0,
        view.accepts(pending.block, outcome),
        view.on_outcome(pending, outcome, after, next),
        view.accounts_for(Some(pending), arrived),
        view.stems_from(Some(pending), base, arrived),
    ensures
        after.accounts_for(next, arrived),
        after.stems_from(next, base, arrived),
{
    law_outcome_brings_nothing_new(view, pending, outcome, after, next, base, arrived);
    law_every_outcome_is_noted(view, pending, outcome, after, next);
    assert forall|x: BlockView| #[trigger] arrived.contains(
        x,
    ) implies after.chain.entries.contains_key(x.header.hash) || after.keeps(
        next,
        x.header.hash,
        x.header.parent_hash,
    ) by {
        if x.header.hash != pending.block.header.hash && !view.chain.entries.contains_key(
            x.header.hash,
        ) {
            law_outcome_loses_no_block(
                view,
                pending,
                outcome,
                after,
                next,
                x.header.hash,
                x.header.parent_hash,
            );
        }
    }
}

/// A block that one node stores is stored by another that started from the same chain and has
/// taken in the same blocks.
proof fn lemma_stored_by_both(
    a: SyncView,
    b: SyncView,
    base: ChainView,
    arrived: Set<BlockView>,
    hash: H256,
)
    requires
        a.wf(),
        b.is_settled(),
        base.wf(),
        b.accounts_for(None, arrived),
        a.grew_from(base, arrived),
        b.grew_from(base, arrived),
        a.chain.entries.contains_key(hash),
    ensures
        b.chain.entries.contains_key(hash),
    decreases a.chain.entries[hash].header.number,
{
    assert(a.chain.is_placed(hash));
    if !base.entries.contains_key(hash) {
        let block = choose|block: BlockView| #[trigger]
            arrived.contains(block) && block.header == a.chain.entries[hash].header;
        let parent = block.header.parent_hash;
        if block.header.number == 0 {
            assert(base.entries.contains_key(base.main[0]));
        } else {
            lemma_stored_by_both(a, b, base, arrived, parent);
            if !b.chain.entries.contains_key(hash) {
                assert(lists(waiting(b.orphans, parent), hash));
                assert(is_awaited(b.orphans, parent));
            }
        }
    }
}

/// The order in which blocks arrive does not matter: two nodes that started from the same chain,
/// have taken in the same blocks and have none left to try store the same ones. The others wait
/// in both.
pub proof fn law_order_of_arrival_does_not_matter(
    a: SyncView,
    b: SyncView,
    base: ChainView,
    arrived: Set<BlockView>,
)
    requires
        base.wf(),
        a.wf(),
        a.is_in_step(None),
        a.accounts_for(None, arrived),
        a.stems_from(None, base, arrived),
        b.wf(),
        b.is_in_step(None),
        b.accounts_for(None, arrived),
        b.stems_from(None, base, arrived),
    ensures
        a.chain.entries.dom() == b.chain.entries.dom(),
        forall|block: BlockView| #[trigger]
            arrived.contains(block) && !a.chain.entries.contains_key(block.header.hash) ==> {
                let parent = block.header.parent_hash;
                &&& lists(waiting(a.orphans, parent), block.header.hash)
                &&& lists(waiting(b.orphans, parent), block.header.hash)
            },
{
    assert forall|hash: H256|
        a.chain.entries.contains_key(hash) <==> b.chain.entries.contains_key(hash) by {
        if a.chain.entries.contains_key(hash) {
            lemma_stored_by_both(a, b, base, arrived, hash);
        }
        if b.chain.entries.contains_key(hash) {
            lemma_stored_by_both(b, a, base, arrived, hash);
        }
    }
    assert(a.chain.entries.dom() =~= b.chain.entries.dom());
}

} // verus!
