//! What holds where every header's number follows its parent's.
use crate::ancestry::{
    lemma_ancestor_adds, lemma_ancestor_is_filed, lemma_header_is_filed, lemma_part_until_is_unique,
};
use crate::block::{BlockView, IndexedHeader};
use crate::chain::law_storing_keeps_chain;
use crate::hash::H256;
use crate::import::BlockOutcome;
use crate::peers::PeerId;
use crate::synchronizer::SyncView;
use vstd::prelude::*;

verus! {

impl SyncView {
    /// The header known under `hash` follows a known parent, or is that of the genesis block.
    pub open spec fn follows(self, hash: H256) -> bool {
        let header = self.header(hash)->0;
        &&& header.number == 0 ==> hash == self.chain.genesis()
        &&& header.number > 0 ==> self.header(header.parent_hash) is Some && self.header(
            header.parent_hash,
        )->0.number + 1 == header.number
    }

    /// Every known header follows a known parent, or is that of the genesis block.
    pub open spec fn is_numbered(self) -> bool {
        forall|hash: H256| self.header(hash) is Some ==> #[trigger] self.follows(hash)
    }

    /// From the header known under `hash` on, numbers fall by one from header to parent, as far
    /// as parents are known.
    pub open spec fn counts_down(self, hash: H256) -> bool
        decreases self.header(hash)->0.number,
    {
        match self.header(hash) {
            Some(header) => header.number > 0 ==> match self.header(header.parent_hash) {
                Some(parent) => parent.number + 1 == header.number && self.counts_down(
                    header.parent_hash,
                ),
                None => true,
            },
            None => true,
        }
    }

    /// The ancestors of the header known under `hash` are known down to the genesis block, and
    /// their numbers fall by one.
    pub open spec fn is_rooted(self, hash: H256) -> bool
        decreases self.header(hash)->0.number,
    {
        match self.header(hash) {
            Some(header) => if header.number == 0 {
                hash == self.chain.genesis()
            } else {
                self.header(header.parent_hash) matches Some(parent) && parent.number + 1
                    == header.number && self.is_rooted(header.parent_hash)
            },
            None => false,
        }
    }
}

/// Where every known header follows a known parent, every known header goes back to the genesis
/// block.
pub proof fn law_numbered_headers_are_rooted(view: SyncView, hash: H256)
    requires
        view.is_numbered(),
        view.header(hash) is Some,
    ensures
        view.is_rooted(hash),
    decreases view.header(hash)->0.number,
{
    assert(view.follows(hash));
    if view.header(hash)->0.number > 0 {
        law_numbered_headers_are_rooted(view, view.header(hash)->0.parent_hash);
    }
}

/// The header of every stored block goes back to the genesis block.
pub proof fn law_stored_headers_are_rooted(view: SyncView, hash: H256)
    requires
        view.wf(),
        view.chain.entries.contains_key(hash),
    ensures
        view.header(hash) == Some(view.chain.entries[hash].header),
        view.is_rooted(hash),
    decreases view.chain.entries[hash].header.number,
{
    assert(view.chain.is_placed(hash));
    if view.headers.contains_key(hash) {
        assert(view.headers[hash].header == view.chain.entries[hash].header);
    }
    if view.chain.entries[hash].header.number > 0 {
        law_stored_headers_are_rooted(view, view.chain.entries[hash].header.parent_hash);
    }
}

/// Where numbers fall by one, they do so in going up from the header.
proof fn lemma_counting_ancestor(view: SyncView, header: IndexedHeader, steps: nat)
    requires
        view.wf(),
        view.header(header.hash) == Some(header),
        view.counts_down(header.hash),
        steps <= header.number,
    ensures
        view.ancestor(header, steps) matches Some(x) ==> x.number == header.number - steps
            && view.header(x.hash) == Some(x),
    decreases steps,
{
    if steps > 0 {
        match view.header(header.parent_hash) {
            Some(parent) => {
                lemma_header_is_filed(view, header.parent_hash);
                lemma_counting_ancestor(view, parent, (steps - 1) as nat);
            },
            None => {},
        }
    }
}

/// A node that knows no headers but those of its blocks has them numbered.
pub proof fn law_stored_headers_are_numbered(view: SyncView)
    requires
        view.wf(),
        view.headers == Map::<H256, crate::block::HeaderView>::empty(),
    ensures
        view.is_numbered(),
{
    assert forall|hash: H256| view.header(hash) is Some implies #[trigger] view.follows(hash) by {
        assert(view.chain.is_placed(hash));
    }
}

/// A header once known stays as it is, whatever headers arrive.
pub proof fn law_header_leaves_others(
    view: SyncView,
    header: IndexedHeader,
    peer: PeerId,
    hash: H256,
)
    requires
        view.agrees_on(header),
        view.header(hash) is Some,
    ensures
        view.with_header(header, peer).header(hash) == view.header(hash),
{
}

/// A header once known stays as it is, whatever blocks are stored.
pub proof fn law_block_leaves_headers<V, C>(
    view: SyncView,
    peer: PeerId,
    block: BlockView,
    outcome: BlockOutcome<V, C>,
    hash: H256,
)
    requires
        outcome is Processed ==> view.agrees_on(block.header),
        view.header(hash) is Some,
    ensures
        view.with_outcome(peer, block, outcome).header(hash) == view.header(hash),
{
}

/// Filing a header whose number follows its parent's keeps headers numbered.
pub proof fn law_header_keeps_numbering(view: SyncView, header: IndexedHeader, peer: PeerId)
    requires
        view.wf(),
        view.is_numbered(),
        view.agrees_on(header),
        view.header(header.parent_hash) matches Some(parent) ==> parent.number + 1
            == header.number,
    ensures
        view.with_header(header, peer).is_numbered(),
{
    let after = view.with_header(header, peer);
    assert forall|hash: H256| after.header(hash) is Some implies #[trigger] after.follows(hash) by {
        if hash == header.hash && view.view_of(header) is Some {
            assert(view.header_view(header.parent_hash) is Some);
            assert(view.header(header.parent_hash) is Some);
            law_header_leaves_others(view, header, peer, header.parent_hash);
        } else {
            assert(view.follows(hash));
            if view.header(hash)->0.number > 0 {
                law_header_leaves_others(view, header, peer, view.header(hash)->0.parent_hash);
            }
        }
    }
}

/// Storing a block keeps headers numbered.
pub proof fn law_block_keeps_numbering<V, C>(
    view: SyncView,
    peer: PeerId,
    block: BlockView,
    outcome: BlockOutcome<V, C>,
)
    requires
        view.wf(),
        view.is_numbered(),
        outcome is Processed ==> view.agrees_on(block.header),
    ensures
        view.with_outcome(peer, block, outcome).is_numbered(),
{
    let after = view.with_outcome(peer, block, outcome);
    if let BlockOutcome::Processed { total_difficulty, output_root, new_tip } = outcome {
        if view.accepts(block, outcome) && !view.chain.entries.contains_key(block.header.hash) {
            law_storing_keeps_chain(view.chain, block, total_difficulty, output_root, new_tip);
        }
    }
    assert forall|hash: H256| after.header(hash) is Some implies #[trigger] after.follows(hash) by {
        if view.header(hash) is Some {
            assert(view.follows(hash));
            law_block_leaves_headers(view, peer, block, outcome, hash);
            if view.header(hash)->0.number > 0 {
                law_block_leaves_headers(
                    view,
                    peer,
                    block,
                    outcome,
                    view.header(hash)->0.parent_hash,
                );
            }
        } else {
            let parent = block.header.parent_hash;
            assert(hash == block.header.hash);
            assert(view.chain.entries.contains_key(parent));
            assert(view.chain.is_placed(parent));
            if view.headers.contains_key(parent) {
                assert(view.headers[parent].header == view.chain.entries[parent].header);
            }
            law_block_leaves_headers(view, peer, block, outcome, parent);
        }
    }
}

/// From a header that goes back to the genesis block, going up `steps` times lowers the number
/// by `steps`, and can be done down to the genesis block.
proof fn lemma_rooted_ancestor(view: SyncView, header: IndexedHeader, steps: nat)
    requires
        view.wf(),
        view.is_rooted(header.hash),
        view.header(header.hash) == Some(header),
        steps <= header.number,
    ensures
        view.ancestor(header, steps) matches Some(x) && x.number == header.number - steps
            && view.header(x.hash) == Some(x) && view.is_rooted(x.hash) && (x.number == 0
            ==> x.hash == view.chain.genesis()),
    decreases steps,
{
    if steps > 0 {
        let parent = view.header(header.parent_hash)->0;
        lemma_header_is_filed(view, header.parent_hash);
        lemma_rooted_ancestor(view, parent, (steps - 1) as nat);
    }
}

/// A block that goes back to the genesis block has an ancestor at every height up to its own,
/// the ancestor has the number of that height, and at height 0 it is the genesis block.
pub proof fn law_ancestor_has_number(view: SyncView, base: H256, number: int)
    requires
        view.wf(),
        view.is_rooted(base),
        0 <= number <= view.header(base)->0.number,
    ensures
        view.ancestor_at(base, number) matches Some(x) && x.number == number && (number == 0
            ==> x.hash == view.chain.genesis()),
{
    let header = view.header(base)->0;
    lemma_header_is_filed(view, base);
    lemma_rooted_ancestor(view, header, (header.number - number) as nat);
}

/// Where the numbers behind a block fall by one, its ancestor at a height has the number of that
/// height, the ancestor of an ancestor is an ancestor, and the next one down is the parent. Where
/// an ancestor is not known, no further one is.
pub proof fn law_ancestor_of_ancestor(view: SyncView, base: H256, upper: int, lower: int)
    requires
        view.wf(),
        view.header(base) is Some,
        view.counts_down(base),
        0 <= lower <= upper <= view.header(base)->0.number,
    ensures
        match view.ancestor_at(base, upper) {
            Some(x) => {
                &&& x.number == upper
                &&& view.ancestor_at(x.hash, lower) == view.ancestor_at(base, lower)
                &&& upper > 0 ==> view.ancestor_at(base, upper - 1) == view.header(x.parent_hash)
                &&& upper > 0 ==> (view.ancestor_at(base, upper - 1) matches Some(next)
                    ==> next.hash == x.parent_hash)
            },
            None => view.ancestor_at(base, lower) is None,
        },
{
    let header = view.header(base)->0;
    lemma_header_is_filed(view, base);
    let steps = (header.number - upper) as nat;
    lemma_counting_ancestor(view, header, steps);
    lemma_ancestor_adds(view, header, steps, (upper - lower) as nat);
    if upper > 0 {
        lemma_ancestor_adds(view, header, steps, 1);
        reveal_with_fuel(SyncView::ancestor, 2);
        match view.ancestor(header, steps) {
            Some(x) => lemma_header_is_filed(view, x.parent_hash),
            None => {},
        }
    }
}

/// Two headers of the same number that go back to the genesis block part up to some height, if not above the genesis
/// block.
proof fn lemma_parting_exists(view: SyncView, a: IndexedHeader, b: IndexedHeader, from: nat)
    requires
        view.wf(),
        view.is_rooted(a.hash),
        view.is_rooted(b.hash),
        view.header(a.hash) == Some(a),
        view.header(b.hash) == Some(b),
        a.number == b.number,
        from <= a.number,
        forall|k: nat| k < from ==> #[trigger] view.apart(a, b, k),
    ensures
        exists|steps: nat| steps <= a.number && #[trigger] view.part_until(a, b, steps),
    decreases a.number - from,
{
    if view.apart(a, b, from) {
        lemma_rooted_ancestor(view, a, from);
        lemma_rooted_ancestor(view, b, from);
        if from < a.number {
            lemma_parting_exists(view, a, b, from + 1);
        }
    } else {
        assert(view.part_until(a, b, from));
    }
}

/// The last header that two chains share is found, where both go back to the genesis block: it
/// is an ancestor of both, and above it the chains differ.
pub proof fn law_last_common_is_latest(view: SyncView, last: IndexedHeader, best: IndexedHeader)
    requires
        view.wf(),
        view.is_rooted(last.hash),
        view.is_rooted(best.hash),
        view.header(last.hash) == Some(last),
        view.header(best.hash) == Some(best),
        best.number >= last.number,
    ensures
        view.can_fix_common(last, best),
        ({
            &&& view.fixed_common(last, best) matches Some(common)
            &&& common.number <= last.number
            &&& view.ancestor_at(last.hash, common.number as int) == Some(common)
            &&& view.ancestor_at(best.hash, common.number as int) == Some(common)
            &&& forall|n: int|
                common.number < n <= last.number ==> #[trigger] view.ancestor_at(last.hash, n)
                    != view.ancestor_at(best.hash, n)
        }),
{
    let down = (best.number - last.number) as nat;
    lemma_rooted_ancestor(view, best, down);
    let right = view.ancestor(best, down)->0;
    if right.hash == last.hash {
        assert(right == last);
        assert(view.ancestor(last, 0) == Some(last));
    } else {
        lemma_parting_exists(view, last, right, 0);
        let steps = choose|steps: nat|
            steps <= last.number && #[trigger] view.part_until(last, right, steps);
        assert forall|k: nat| k < steps implies {
            &&& (#[trigger] view.ancestor(last, k))->0.number > 0
            &&& view.ancestor(right, k)->0.number > 0
        } by {
            lemma_rooted_ancestor(view, last, k);
            lemma_rooted_ancestor(view, right, k);
        }
        assert(view.walk_ends(last, right));
        let chosen = choose|steps: nat| #[trigger] view.part_until(last, right, steps);
        lemma_part_until_is_unique(view, last, right, steps, chosen);
        lemma_rooted_ancestor(view, last, steps);
        lemma_rooted_ancestor(view, right, steps);
        let common = view.ancestor(last, steps)->0;
        lemma_ancestor_adds(view, best, down, steps);
        assert forall|n: int| common.number < n <= last.number implies #[trigger] view.ancestor_at(
            last.hash,
            n,
        ) != view.ancestor_at(best.hash, n) by {
            let k = (last.number - n) as nat;
            assert(view.apart(last, right, k));
            lemma_ancestor_adds(view, best, down, k);
        }
    }
}

/// Between two headers of the same number it does not matter which one is asked about first.
pub proof fn law_last_common_is_symmetric(view: SyncView, a: IndexedHeader, b: IndexedHeader)
    requires
        view.wf(),
        view.header(a.hash) == Some(a),
        view.header(b.hash) == Some(b),
        a.number == b.number,
        view.can_fix_common(a, b),
    ensures
        view.can_fix_common(b, a),
        view.fixed_common(a, b) == view.fixed_common(b, a),
{
    assert(view.ancestor(a, 0) == Some(a));
    assert(view.ancestor(b, 0) == Some(b));
    if a.hash != b.hash {
        let steps = choose|steps: nat|
            {
                &&& #[trigger] view.part_until(a, b, steps)
                &&& forall|k: nat|
                    k < steps ==> {
                        &&& (#[trigger] view.ancestor(a, k))->0.number > 0
                        &&& view.ancestor(b, k)->0.number > 0
                    }
            };
        assert forall|k: nat| k < steps implies #[trigger] view.apart(b, a, k) by {
            assert(view.apart(a, b, k));
        }
        assert(view.part_until(b, a, steps));
        assert forall|k: nat| k < steps implies {
            &&& (#[trigger] view.ancestor(b, k))->0.number > 0
            &&& view.ancestor(a, k)->0.number > 0
        } by {
            assert(view.ancestor(a, k)->0.number > 0);
        }
        assert(view.walk_ends(b, a));
        let one = choose|steps: nat| #[trigger] view.part_until(a, b, steps);
        let two = choose|steps: nat| #[trigger] view.part_until(b, a, steps);
        lemma_part_until_is_unique(view, a, b, steps, one);
        lemma_part_until_is_unique(view, b, a, steps, two);
        lemma_ancestor_is_filed(view, a, steps);
        lemma_ancestor_is_filed(view, b, steps);
    }
}

} // verus!
