//! Blocks that wait for their parents.
use crate::block::{BlockView, IndexedBlock};
use crate::hash::H256;
use crate::table::HashTable;
use vstd::prelude::*;

verus! {

/// What the blocks of a list hold.
pub open spec fn views(blocks: Seq<IndexedBlock>) -> Seq<BlockView> {
    Seq::new(blocks.len(), |i: int| blocks[i]@)
}

/// A block with this hash is in the list.
pub open spec fn lists(blocks: Seq<BlockView>, hash: H256) -> bool {
    exists|i: int| 0 <= i < blocks.len() && (#[trigger] blocks[i]).header.hash == hash
}

/// The list with `block` in it, in place of the one with the same hash if there is one, else at
/// the end.
pub open spec fn put(blocks: Seq<BlockView>, block: BlockView) -> Seq<BlockView> {
    if lists(blocks, block.header.hash) {
        let i = choose|i: int|
            0 <= i < blocks.len() && (#[trigger] blocks[i]).header.hash == block.header.hash;
        blocks.update(i, block)
    } else {
        blocks.push(block)
    }
}

/// The waiting blocks by the hash of the parent that they wait for.
pub type Orphans = Map<H256, Seq<BlockView>>;

/// The blocks that wait for `parent`.
pub open spec fn waiting(orphans: Orphans, parent: H256) -> Seq<BlockView> {
    if orphans.contains_key(parent) {
        orphans[parent]
    } else {
        seq![]
    }
}

/// The waiting blocks with one more of them.
pub open spec fn with_orphan(orphans: Orphans, block: BlockView) -> Orphans {
    let parent = block.header.parent_hash;
    orphans.insert(parent, put(waiting(orphans, parent), block))
}

/// Every block waits for its own parent, and no two that wait for the same parent have the same
/// hash.
pub open spec fn orphans_wf(orphans: Orphans) -> bool {
    forall|parent: H256| #[trigger]
        orphans.contains_key(parent) ==> {
            &&& forall|i: int|
                0 <= i < orphans[parent].len() ==> (
                #[trigger] orphans[parent][i]).header.parent_hash == parent
            &&& forall|i: int, j: int|
                0 <= i < j < orphans[parent].len() ==> (
                #[trigger] orphans[parent][i]).header.hash != (
                #[trigger] orphans[parent][j]).header.hash
        }
}

/// `hash` is `root`, or the hash of one of the blocks.
pub open spec fn reached(root: H256, blocks: Seq<BlockView>, hash: H256) -> bool {
    hash == root || lists(blocks, hash)
}

/// `taken` lists the waiting blocks that descend from `root`, each of them once and after its
/// parent, and `left` holds the others.
pub open spec fn takes_descendants(
    before: Orphans,
    root: H256,
    taken: Seq<BlockView>,
    left: Orphans,
) -> bool {
    &&& forall|i: int|
        0 <= i < taken.len() ==> reached(
            root,
            taken.take(i),
            (#[trigger] taken[i]).header.parent_hash,
        )
    &&& forall|i: int|
        0 <= i < taken.len() ==> waiting(before, taken[i].header.parent_hash).contains(
            #[trigger] taken[i],
        )
    &&& forall|i: int, j: int|
        0 <= i < j < taken.len() ==> (#[trigger] taken[i]).header.hash != (
        #[trigger] taken[j]).header.hash || taken[i].header.parent_hash
            != taken[j].header.parent_hash
    &&& forall|parent: H256, k: int|
        reached(root, taken, parent) && 0 <= k < waiting(before, parent).len()
            ==> taken.contains(#[trigger] waiting(before, parent)[k])
    &&& left == before.remove_keys(Set::new(|hash: H256| reached(root, taken, hash)))
}

/// Putting a block among those that wait keeps them in order.
pub proof fn lemma_with_orphan_wf(orphans: Orphans, block: BlockView)
    requires
        orphans_wf(orphans),
    ensures
        orphans_wf(with_orphan(orphans, block)),
{
    let parent = block.header.parent_hash;
    let siblings = waiting(orphans, parent);
    let after = with_orphan(orphans, block);
    assert forall|p: H256| #[trigger] after.contains_key(p) implies {
        &&& forall|i: int|
            0 <= i < after[p].len() ==> (#[trigger] after[p][i]).header.parent_hash == p
        &&& forall|i: int, j: int|
            0 <= i < j < after[p].len() ==> (#[trigger] after[p][i]).header.hash != (
            #[trigger] after[p][j]).header.hash
    } by {
        if p != parent {
            assert(orphans.contains_key(p));
        } else if orphans.contains_key(parent) {
            assert(siblings == orphans[parent]);
        }
    }
}

/// The pool of blocks that arrived before their parents.
pub struct OrphanBlockPool {
    blocks: HashTable<Vec<IndexedBlock>>,
}

impl View for OrphanBlockPool {
    type V = Orphans;

    closed spec fn view(&self) -> Orphans {
        Map::new(
            |parent: H256| self.blocks@.contains_key(parent),
            |parent: H256| views(self.blocks@[parent]@),
        )
    }
}

impl OrphanBlockPool {
    pub open spec fn wf(&self) -> bool {
        orphans_wf(self@)
    }

    /// An empty pool, for about `_capacity` blocks.
    pub fn with_capacity(_capacity: usize) -> (r: Self)
        ensures
            r.wf(),
            r@ == Map::<H256, Seq<BlockView>>::empty(),
    {
        let r = OrphanBlockPool { blocks: HashTable::new() };
        assert(r@ =~= Map::<H256, Seq<BlockView>>::empty());
        r
    }

    /// Lets a block wait for its parent.
    pub fn insert(&mut self, block: IndexedBlock)
        requires
            old(self).wf(),
        ensures
            final(self).wf(),
            final(self)@ == with_orphan(old(self)@, block@),
    {
        let ghost before = self@;
        let ghost added = block@;
        let parent = block.header.parent_hash;
        let hash = block.header.hash;
        let mut siblings: Vec<IndexedBlock> = match self.blocks.remove(&parent) {
            Some(siblings) => siblings,
            None => Vec::new(),
        };
        let ghost held = views(siblings@);
        assert(held =~= waiting(before, parent));
        let mut i: usize = 0;
        while i < siblings.len() && siblings[i].header.hash != hash
            invariant
                i <= siblings@.len(),
                held == views(siblings@),
                forall|j: int| 0 <= j < i ==> (#[trigger] held[j]).header.hash != hash,
            decreases siblings@.len() - i,
        {
            assert(held[i as int].header.hash != hash);
            i = i + 1;
        }
        if i < siblings.len() {
            proof {
                assert(held[i as int].header.hash == hash);
                assert(lists(held, hash));
                let c = choose|c: int|
                    0 <= c < held.len() && (#[trigger] held[c]).header.hash == added.header.hash;
                assert(before.contains_key(parent));
                assert(c == i);
            }
            siblings[i] = block;
            assert(views(siblings@) =~= held.update(i as int, added));
        } else {
            siblings.push(block);
            assert(views(siblings@) =~= held.push(added));
        }
        assert(views(siblings@) == put(held, added));
        self.blocks.insert(parent, siblings);
        proof {
            assert(self@ =~= with_orphan(before, added));
            lemma_with_orphan_wf(before, added);
        }
    }

    /// Takes out the blocks that wait for `parent`.
    fn take_children(&mut self, parent: &H256) -> (r: Vec<IndexedBlock>)
        ensures
            views(r@) == waiting(old(self)@, *parent),
            final(self)@ == old(self)@.remove(*parent),
            r@.len() > 0 ==> final(self).blocks.size() < old(self).blocks.size(),
            final(self).blocks.size() <= old(self).blocks.size(),
    {
        let r = match self.blocks.remove(parent) {
            Some(children) => children,
            None => Vec::new(),
        };
        assert(views(r@) =~= waiting(old(self)@, *parent));
        assert(self@ =~= old(self)@.remove(*parent));
        r
    }

    /// Takes out every block that descends from the block `hash`, parents before their
    /// children.
    pub fn remove_blocks_by_parent(&mut self, hash: &H256) -> (r: Vec<IndexedBlock>)
        requires
            old(self).wf(),
        ensures
            final(self).wf(),
            takes_descendants(old(self)@, *hash, views(r@), final(self)@),
    {
        let ghost before = self@;
        let ghost root = *hash;
        let mut removed: Vec<IndexedBlock> = self.take_children(hash);
        let mut i: usize = 0;
        proof {
            let taken = views(removed@);
            assert(taken.take(0) =~= Seq::<BlockView>::empty());
            assert(self@ =~= before.remove_keys(
                Set::new(|h: H256| reached(root, taken.take(0), h)),
            ));
        }
        while i < removed.len()
            invariant
                orphans_wf(before),
                i <= removed@.len(),
                takes_part(before, root, views(removed@), i as int, self@),
            decreases self.blocks.size(), removed@.len() - i,
        {
            let ghost was = self@;
            let ghost taken = views(removed@);
            let parent: H256 = removed[i].header.hash;
            let mut children: Vec<IndexedBlock> = self.take_children(&parent);
            let ghost kids = views(children@);
            removed.append(&mut children);
            i = i + 1;
            proof {
                assert(views(removed@) =~= taken + kids);
                lemma_takes_more(before, root, taken, i - 1, was, kids, self@);
            }
        }
        proof {
            let taken = views(removed@);
            assert(taken.take(i as int) =~= taken);
            assert forall|p: H256| #[trigger] self@.contains_key(p) implies before.contains_key(p)
                && before[p] == self@[p] by {}
        }
        removed
    }
}

/// As `takes_descendants`, where the children of the first `done` blocks have been taken.
spec fn takes_part(
    before: Orphans,
    root: H256,
    taken: Seq<BlockView>,
    done: int,
    left: Orphans,
) -> bool {
    &&& forall|i: int|
        0 <= i < taken.len() ==> reached(
            root,
            taken.take(i),
            (#[trigger] taken[i]).header.parent_hash,
        ) && reached(root, taken.take(done), taken[i].header.parent_hash)
    &&& forall|i: int|
        0 <= i < taken.len() ==> waiting(before, taken[i].header.parent_hash).contains(
            #[trigger] taken[i],
        )
    &&& forall|i: int, j: int|
        0 <= i < j < taken.len() ==> (#[trigger] taken[i]).header.hash != (
        #[trigger] taken[j]).header.hash || taken[i].header.parent_hash
            != taken[j].header.parent_hash
    &&& forall|parent: H256, k: int|
        reached(root, taken.take(done), parent) && 0 <= k < waiting(before, parent).len()
            ==> taken.contains(#[trigger] waiting(before, parent)[k])
    &&& left == before.remove_keys(Set::new(|hash: H256| reached(root, taken.take(done), hash)))
}

proof fn lemma_takes_more(
    before: Orphans,
    root: H256,
    taken: Seq<BlockView>,
    done: int,
    left: Orphans,
    kids: Seq<BlockView>,
    after: Orphans,
)
    requires
        orphans_wf(before),
        0 <= done < taken.len(),
        takes_part(before, root, taken, done, left),
        kids == waiting(left, taken[done].header.hash),
        after == left.remove(taken[done].header.hash),
    ensures
        takes_part(before, root, taken + kids, done + 1, after),
{
    let all = taken + kids;
    let key = taken[done].header.hash;
    let one = taken.take(done);
    let two = all.take(done + 1);
    assert(two =~= one.push(taken[done]));
    assert forall|h: H256| reached(root, two, h) <==> reached(root, one, h) || h == key by {
        if reached(root, one, h) && h != root {
            let w = choose|w: int| 0 <= w < one.len() && (#[trigger] one[w]).header.hash == h;
            assert(two[w].header.hash == h);
        }
        assert(two[done].header.hash == key);
        if reached(root, two, h) && h != root {
            let w = choose|w: int| 0 <= w < two.len() && (#[trigger] two[w]).header.hash == h;
            if w < done {
                assert(one[w].header.hash == h);
            }
        }
    }
    assert(after =~= before.remove_keys(Set::new(|h: H256| reached(root, two, h))));
    if kids.len() > 0 {
        assert(left.contains_key(key));
        assert(before.contains_key(key) && kids == before[key] && !reached(root, one, key));
    }
    assert forall|i: int| 0 <= i < all.len() implies reached(
        root,
        all.take(i),
        (#[trigger] all[i]).header.parent_hash,
    ) && reached(root, two, all[i].header.parent_hash) && waiting(
        before,
        all[i].header.parent_hash,
    ).contains(all[i]) by {
        if i < taken.len() {
            assert(all.take(i) =~= taken.take(i));
            assert(all[i] == taken[i]);
        } else {
            assert(all[i] == kids[i - taken.len()]);
            assert(kids[i - taken.len()].header.parent_hash == key);
            assert(all.take(i)[done].header.hash == key);
        }
    }
    assert forall|i: int, j: int| 0 <= i < j < all.len() implies (
    #[trigger] all[i]).header.hash != (#[trigger] all[j]).header.hash
        || all[i].header.parent_hash != all[j].header.parent_hash by {
        if j >= taken.len() {
            assert(all[j] == kids[j - taken.len()]);
            assert(all[j].header.parent_hash == key);
            if i < taken.len() {
                assert(all[i] == taken[i]);
                assert(reached(root, one, taken[i].header.parent_hash));
            } else {
                assert(all[i] == kids[i - taken.len()]);
            }
        } else {
            assert(all[i] == taken[i] && all[j] == taken[j]);
        }
    }
    assert forall|parent: H256, k: int|
        reached(root, two, parent) && 0 <= k < waiting(before, parent).len() implies all.contains(
        #[trigger] waiting(before, parent)[k],
    ) by {
        let b = waiting(before, parent)[k];
        if reached(root, one, parent) {
            assert(taken.contains(b));
            let w = choose|w: int| 0 <= w < taken.len() && taken[w] == b;
            assert(all[w] == b);
        } else {
            assert(left.contains_key(key));
            assert(kids == waiting(before, parent));
            assert(all[taken.len() + k] == b);
        }
    }
}

/// A block that is put among those that wait is found under its parent. Of those that waited only
/// one of the same hash and parent is replaced, and none is added but the block.
pub proof fn law_orphan_is_found_under_its_parent(orphans: Orphans, block: BlockView)
    ensures
        ({
            let after = with_orphan(orphans, block);
            let parent = block.header.parent_hash;
            &&& after.contains_key(parent)
            &&& after[parent].contains(block)
            &&& after.remove(parent) == orphans.remove(parent)
            &&& orphans.contains_key(parent) ==> forall|x: BlockView|
                x.header.hash != block.header.hash && #[trigger] orphans[parent].contains(x)
                    ==> after[parent].contains(x)
            &&& forall|x: BlockView|
                x != block && #[trigger] after[parent].contains(x) ==> orphans.contains_key(parent)
                    && orphans[parent].contains(x)
        }),
{
    let after = with_orphan(orphans, block);
    let parent = block.header.parent_hash;
    let siblings = waiting(orphans, parent);
    let list = after[parent];
    assert(after.remove(parent) =~= orphans.remove(parent));
    if lists(siblings, block.header.hash) {
        let c = choose|c: int|
            0 <= c < siblings.len() && (#[trigger] siblings[c]).header.hash == block.header.hash;
        assert(list == siblings.update(c, block));
        assert(list[c] == block);
    } else {
        assert(list == siblings.push(block));
        assert(list[siblings.len() as int] == block);
    }
    assert forall|x: BlockView|
        x.header.hash != block.header.hash && #[trigger] siblings.contains(x) implies list.contains(
        x,
    ) by {
        let i = choose|i: int| 0 <= i < siblings.len() && siblings[i] == x;
        assert(list[i] == x);
    }
    assert forall|x: BlockView| x != block && #[trigger] list.contains(x) implies siblings.contains(
        x,
    ) by {
        let i = choose|i: int| 0 <= i < list.len() && list[i] == x;
        assert(siblings[i] == x);
    }
}

/// Every waiting block that a line of waiting blocks leads to from the root is taken.
pub proof fn law_descendants_are_taken(
    before: Orphans,
    root: H256,
    taken: Seq<BlockView>,
    left: Orphans,
    line: Seq<BlockView>,
)
    requires
        takes_descendants(before, root, taken, left),
        line.len() > 0,
        line[0].header.parent_hash == root,
        forall|i: int, j: int|
            0 <= i && j == i + 1 && j < line.len() ==> (#[trigger] line[j]).header.parent_hash == (
            #[trigger] line[i]).header.hash,
        forall|i: int|
            0 <= i < line.len() ==> before.contains_key((#[trigger] line[i]).header.parent_hash)
                && before[line[i].header.parent_hash].contains(line[i]),
    ensures
        forall|i: int| 0 <= i < line.len() ==> taken.contains(#[trigger] line[i]),
    decreases line.len(),
{
    let last = line.last();
    let parent = last.header.parent_hash;
    if line.len() > 1 {
        let shorter = line.drop_last();
        law_descendants_are_taken(before, root, taken, left, shorter);
        let up = line[line.len() - 2];
        assert(shorter[shorter.len() - 1] == up);
        assert(taken.contains(up));
        let w = choose|w: int| 0 <= w < taken.len() && taken[w] == up;
        assert(line[line.len() - 1].header.parent_hash == line[line.len() - 2].header.hash);
        assert(taken[w].header.hash == parent);
    }
    assert(line[line.len() - 1] == last);
    assert(reached(root, taken, parent));
    let k = choose|k: int| 0 <= k < before[parent].len() && before[parent][k] == last;
    assert(taken.contains(waiting(before, parent)[k]));
    assert forall|i: int| 0 <= i < line.len() implies taken.contains(#[trigger] line[i]) by {
        if i < line.len() - 1 {
            assert(line.drop_last()[i] == line[i]);
        }
    }
}

/// A block that is taken was waiting, it is taken once, and its parent is the root or was taken
/// before it.
pub proof fn law_taken_blocks_descend(
    before: Orphans,
    root: H256,
    taken: Seq<BlockView>,
    left: Orphans,
)
    requires
        takes_descendants(before, root, taken, left),
    ensures
        taken.no_duplicates(),
        forall|i: int|
            0 <= i < taken.len() ==> {
                let parent = (#[trigger] taken[i]).header.parent_hash;
                &&& before.contains_key(parent)
                &&& before[parent].contains(taken[i])
                &&& parent == root || exists|j: int|
                    0 <= j < i && (#[trigger] taken[j]).header.hash == parent
            },
{
    assert forall|i: int| 0 <= i < taken.len() implies {
        let parent = (#[trigger] taken[i]).header.parent_hash;
        &&& before.contains_key(parent)
        &&& before[parent].contains(taken[i])
        &&& parent == root || exists|j: int|
            0 <= j < i && (#[trigger] taken[j]).header.hash == parent
    } by {
        let parent = taken[i].header.parent_hash;
        assert(waiting(before, parent).contains(taken[i]));
        assert(reached(root, taken.take(i), parent));
        if parent != root {
            let j = choose|j: int|
                0 <= j < taken.take(i).len() && (#[trigger] taken.take(i)[j]).header.hash == parent;
            assert(taken[j].header.hash == parent);
        }
    }
}

/// What waits for neither the root nor a taken block is left as it was, and nothing else is.
pub proof fn law_others_are_left(
    before: Orphans,
    root: H256,
    taken: Seq<BlockView>,
    left: Orphans,
    parent: H256,
)
    requires
        takes_descendants(before, root, taken, left),
    ensures
        parent == root ==> !left.contains_key(parent),
        forall|i: int|
            0 <= i < taken.len() && (#[trigger] taken[i]).header.hash == parent
                ==> !left.contains_key(parent),
        left.contains_key(parent) ==> before.contains_key(parent) && left[parent]
            == before[parent],
        before.contains_key(parent) && parent != root && (forall|i: int|
            0 <= i < taken.len() ==> (#[trigger] taken[i]).header.hash != parent)
            ==> left.contains_key(parent),
{
    assert forall|i: int| 0 <= i < taken.len() && (#[trigger] taken[i]).header.hash == parent implies
        !left.contains_key(parent) by {
        assert(lists(taken, parent));
    }
}

/// The blocks that wait for a parent are those filed under it, and a list holds a hash where one
/// of its blocks has it.
pub proof fn law_what_waits_for_a_parent(orphans: Orphans, parent: H256, i: int)
    ensures
        orphans.contains_key(parent) ==> waiting(orphans, parent) == orphans[parent],
        !orphans.contains_key(parent) ==> waiting(orphans, parent).len() == 0,
        0 <= i < waiting(orphans, parent).len() ==> lists(
            waiting(orphans, parent),
            waiting(orphans, parent)[i].header.hash,
        ),
{
}

} // verus!
