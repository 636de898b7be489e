//! Walking from headers to their ancestors.
use crate::block::{BlockNumber, IndexedHeader};
use crate::chain::{lemma_lineage, lemma_main_is_lineage, lineage};
use crate::hash::H256;
use crate::synchronizer::{SyncView, Synchronizer};
use vstd::prelude::*;

verus! {

impl SyncView {
    /// The header that is reached from `header` by going to the parent `steps` times.
    pub open spec fn ancestor(self, header: IndexedHeader, steps: nat) -> Option<IndexedHeader>
        decreases steps,
    {
        if steps == 0 {
            Some(header)
        } else {
            match self.header(header.parent_hash) {
                Some(parent) => self.ancestor(parent, (steps - 1) as nat),
                None => None,
            }
        }
    }

    /// The ancestor of the block `base` that stands at height `number`, by the number of `base`.
    pub open spec fn ancestor_at(self, base: H256, number: int) -> Option<IndexedHeader> {
        match self.header(base) {
            Some(header) => if number > header.number {
                None
            } else {
                self.ancestor(header, (header.number - number) as nat)
            },
            None => None,
        }
    }

    /// `steps` above two headers their ancestors are both known and differ.
    pub open spec fn apart(self, a: IndexedHeader, b: IndexedHeader, steps: nat) -> bool {
        match (self.ancestor(a, steps), self.ancestor(b, steps)) {
            (Some(x), Some(y)) => x.hash != y.hash,
            _ => false,
        }
    }

    /// The ancestors of two headers are apart up to `steps` above them, and there they no longer
    /// are.
    pub open spec fn part_until(self, a: IndexedHeader, b: IndexedHeader, steps: nat) -> bool {
        &&& !self.apart(a, b, steps)
        &&& forall|k: nat| k < steps ==> #[trigger] self.apart(a, b, k)
    }

    /// Going up from two headers side by side ends: where their ancestors meet, or where one is
    /// not known. No ancestor before has number 0, so there is a number below it.
    pub open spec fn walk_ends(self, a: IndexedHeader, b: IndexedHeader) -> bool {
        exists|steps: nat|
            {
                &&& #[trigger] self.part_until(a, b, steps)
                &&& forall|k: nat|
                    k < steps ==> {
                        &&& (#[trigger] self.ancestor(a, k))->0.number > 0
                        &&& self.ancestor(b, k)->0.number > 0
                    }
            }
    }

    /// Where the walk up from two headers ends: the first common ancestor, if the ancestors are
    /// known up to there.
    pub open spec fn meeting(self, a: IndexedHeader, b: IndexedHeader) -> Option<IndexedHeader> {
        let steps = choose|steps: nat| #[trigger] self.part_until(a, b, steps);
        match (self.ancestor(a, steps), self.ancestor(b, steps)) {
            (Some(x), Some(_)) => Some(x),
            _ => None,
        }
    }

    /// The inputs on which `last_common_ancestor` is defined.
    pub open spec fn can_fix_common(self, last: IndexedHeader, best: IndexedHeader) -> bool {
        &&& best.number >= last.number
        &&& match (self.ancestor_at(best.hash, last.number as int), self.header(last.hash)) {
            (Some(right), Some(left)) => right.hash != last.hash ==> right.number == left.number
                && self.walk_ends(left, right),
            _ => true,
        }
    }

    /// The last header that the chains of `last` and `best` share.
    pub open spec fn fixed_common(
        self,
        last: IndexedHeader,
        best: IndexedHeader,
    ) -> Option<IndexedHeader> {
        match self.ancestor_at(best.hash, last.number as int) {
            Some(right) => if right.hash == last.hash {
                Some(right)
            } else {
                match self.header(last.hash) {
                    Some(left) => self.meeting(left, right),
                    None => None,
                }
            },
            None => None,
        }
    }
}

/// Going up `a` times and then `b` times is going up `a + b` times.
pub proof fn lemma_ancestor_adds(view: SyncView, header: IndexedHeader, a: nat, b: nat)
    ensures
        match view.ancestor(header, a) {
            Some(x) => view.ancestor(header, a + b) == view.ancestor(x, b),
            None => view.ancestor(header, a + b) is None,
        },
    decreases a,
{
    if a > 0 {
        match view.header(header.parent_hash) {
            Some(parent) => lemma_ancestor_adds(view, parent, (a - 1) as nat, b),
            None => {},
        }
    }
}

/// Ancestors are headers that are filed under their hashes.
pub proof fn lemma_ancestor_is_filed(view: SyncView, header: IndexedHeader, steps: nat)
    requires
        view.wf(),
        view.header(header.hash) == Some(header),
    ensures
        view.ancestor(header, steps) matches Some(x) ==> view.header(x.hash) == Some(x),
    decreases steps,
{
    if steps > 0 {
        match view.header(header.parent_hash) {
            Some(parent) => {
                lemma_header_is_filed(view, header.parent_hash);
                lemma_ancestor_is_filed(view, parent, (steps - 1) as nat);
            },
            None => {},
        }
    }
}

/// A known header is filed under its own hash.
pub proof fn lemma_header_is_filed(view: SyncView, hash: H256)
    requires
        view.wf(),
    ensures
        view.header(hash) matches Some(header) ==> header.hash == hash,
{
    if !view.headers.contains_key(hash) && view.chain.entries.contains_key(hash) {
        assert(view.chain.is_placed(hash));
    }
}

/// The ancestors of a stored block are the blocks of its lineage.
pub proof fn lemma_stored_ancestor(view: SyncView, hash: H256, steps: nat)
    requires
        view.wf(),
        view.chain.entries.contains_key(hash),
        steps <= view.chain.entries[hash].header.number,
    ensures
        ({
            let header = view.chain.entries[hash].header;
            let line = lineage(view.chain.entries, hash);
            &&& view.header(hash) == Some(header)
            &&& view.ancestor(header, steps) == Some(
                view.chain.entries[line[header.number - steps]].header,
            )
        }),
    decreases steps,
{
    let header = view.chain.entries[hash].header;
    assert(view.chain.is_placed(hash));
    lemma_lineage(view.chain, hash);
    if view.headers.contains_key(hash) {
        assert(view.headers[hash].header == header);
    }
    if steps > 0 {
        lemma_lineage(view.chain, header.parent_hash);
        lemma_stored_ancestor(view, header.parent_hash, (steps - 1) as nat);
    }
}

/// The ancestor of the tip at any height is the block of the main chain there.
pub proof fn law_ancestors_of_tip_are_main(view: SyncView, number: int)
    requires
        view.wf(),
        0 <= number <= view.chain.tip().number,
    ensures
        view.ancestor_at(view.chain.tip().hash, number) == Some(
            view.chain.entries[view.chain.main[number]].header,
        ),
{
    let top = view.chain.main.len() - 1;
    let hash = view.chain.main[top];
    assert(view.chain.is_placed(hash));
    lemma_stored_ancestor(view, hash, (view.chain.tip().number - number) as nat);
    lemma_main_is_lineage(view.chain, top);
    assert(view.chain.main.take(top + 1) =~= view.chain.main);
}

/// The walk up from two headers ends at one height only.
pub proof fn lemma_part_until_is_unique(
    view: SyncView,
    a: IndexedHeader,
    b: IndexedHeader,
    m: nat,
    n: nat,
)
    requires
        view.part_until(a, b, m),
        view.part_until(a, b, n),
    ensures
        m == n,
{
    if m < n {
        assert(view.apart(a, b, m));
    } else if n < m {
        assert(view.apart(a, b, n));
    }
}

impl Synchronizer {
    /// The ancestor of the block `base` at height `number`.
    pub fn get_ancestor(&self, base: &H256, number: BlockNumber) -> (r: Option<IndexedHeader>)
        ensures
            r == self@.ancestor_at(*base, number as int),
    {
        if let Some(header) = self.get_header(base) {
            let mut n_number: u64 = header.number;
            let mut index_walk = header;
            if number > n_number {
                return None;
            }
            while n_number > number
                invariant
                    n_number >= number,
                    self@.ancestor_at(*base, number as int) == self@.ancestor(
                        index_walk,
                        (n_number - number) as nat,
                    ),
                decreases n_number - number,
            {
                if let Some(header) = self.get_header(&index_walk.parent_hash) {
                    index_walk = header;
                    n_number -= 1;
                } else {
                    return None;
                }
            }
            return Some(index_walk);
        }
        None
    }

    /// Where a peer has reorganized its chain, the last header that was common may no longer
    /// be an ancestor of the best one it has. Goes back far enough to mend that.
    pub fn last_common_ancestor(
        &self,
        last_common_header: &IndexedHeader,
        best_known_header: &IndexedHeader,
    ) -> (r: Option<IndexedHeader>)
        requires
            self.wf(),
            self@.can_fix_common(*last_common_header, *best_known_header),
        ensures
            r == self@.fixed_common(*last_common_header, *best_known_header),
    {
        let mut m_right = match self.get_ancestor(
            &best_known_header.hash,
            last_common_header.number,
        ) {
            Some(header) => header,
            None => return None,
        };
        if m_right == *last_common_header {
            return Some(m_right);
        }
        let mut m_left = match self.get_header(&last_common_header.hash) {
            Some(header) => header,
            None => return None,
        };
        let ghost left = m_left;
        let ghost right = m_right;
        let ghost mut up: nat = 0;
        let ghost end: nat = choose|steps: nat|
            {
                &&& #[trigger] self@.part_until(left, right, steps)
                &&& forall|k: nat|
                    k < steps ==> {
                        &&& (#[trigger] self@.ancestor(left, k))->0.number > 0
                        &&& self@.ancestor(right, k)->0.number > 0
                    }
            };
        proof {
            assert(self@.walk_ends(left, right));
            let other = choose|steps: nat| #[trigger] self@.part_until(left, right, steps);
            lemma_part_until_is_unique(self@, left, right, end, other);
            lemma_header_is_filed(self@, last_common_header.hash);
            lemma_header_is_filed(self@, best_known_header.hash);
            let best = self@.header(best_known_header.hash)->0;
            lemma_ancestor_is_filed(self@, best, (best.number - last_common_header.number) as nat);
        }
        while m_left != m_right
            invariant
                self.wf(),
                up <= end,
                self@.part_until(left, right, end),
                forall|k: nat|
                    k < end ==> {
                        &&& (#[trigger] self@.ancestor(left, k))->0.number > 0
                        &&& self@.ancestor(right, k)->0.number > 0
                    },
                self@.meeting(left, right) == (match (
                    self@.ancestor(left, end),
                    self@.ancestor(right, end),
                ) {
                    (Some(x), Some(_)) => Some(x),
                    _ => None,
                }),
                self@.ancestor(left, up) == Some(m_left),
                self@.ancestor(right, up) == Some(m_right),
                self@.header(m_left.hash) == Some(m_left),
                self@.header(m_right.hash) == Some(m_right),
                self@.fixed_common(*last_common_header, *best_known_header) == self@.meeting(
                    left,
                    right,
                ),
            decreases end - up,
        {
            proof {
                assert(self@.apart(left, right, up));
                assert(up < end);
                lemma_ancestor_adds(self@, left, up, 1);
                lemma_ancestor_adds(self@, right, up, 1);
                reveal_with_fuel(SyncView::ancestor, 2);
                lemma_ancestor_is_filed(self@, m_left, 1);
                lemma_ancestor_is_filed(self@, m_right, 1);
                if up + 1 < end {
                    assert(self@.apart(left, right, up + 1));
                }
            }
            m_left = match self.get_ancestor(&m_left.hash, m_left.number - 1) {
                Some(header) => header,
                None => return None,
            };
            m_right = match self.get_ancestor(&m_right.hash, m_right.number - 1) {
                Some(header) => header,
                None => return None,
            };
            proof {
                up = up + 1;
            }
        }
        proof {
            assert(!self@.apart(left, right, up));
            if up < end {
                assert(self@.apart(left, right, up));
            }
        }
        Some(m_left)
    }
}

/// The ancestors of a block are found by going from each header to the one known under the hash of
/// its parent: the header `i` steps on is the ancestor `i` below the number of the block.
pub proof fn law_ancestors_follow_the_parents(
    view: SyncView,
    base: H256,
    path: Seq<IndexedHeader>,
    i: int,
)
    requires
        path.len() > 0,
        view.header(base) == Some(path[0]),
        forall|m: int, n: int|
            0 <= m && n == m + 1 && n < path.len() ==> view.header(
                (#[trigger] path[m]).parent_hash,
            ) == Some(#[trigger] path[n]),
        0 <= i < path.len(),
    ensures
        view.ancestor_at(base, path[0].number - i) == Some(path[i]),
        view.ancestor(path[0], i as nat) == Some(path[i]),
    decreases i,
{
    if i > 0 {
        law_ancestors_follow_the_parents(view, base, path, i - 1);
        lemma_ancestor_adds(view, path[0], (i - 1) as nat, 1);
        assert(view.header(path[i - 1].parent_hash) == Some(path[i]));
        reveal_with_fuel(SyncView::ancestor, 2);
    }
}

/// There is no ancestor of an unknown block, none above the block itself, and none beyond a header
/// whose parent is not known.
pub proof fn law_where_there_is_no_ancestor(
    view: SyncView,
    base: H256,
    path: Seq<IndexedHeader>,
    number: int,
)
    ensures
        view.header(base) is None ==> view.ancestor_at(base, number) is None,
        view.header(base) matches Some(header) && header.number < number ==> view.ancestor_at(
            base,
            number,
        ) is None,
        path.len() > 0 && view.header(base) == Some(path[0]) && (forall|m: int, n: int|
            0 <= m && n == m + 1 && n < path.len() ==> view.header(
                (#[trigger] path[m]).parent_hash,
            ) == Some(#[trigger] path[n])) && view.header(path.last().parent_hash) is None
            && path[0].number - number >= path.len() ==> view.ancestor_at(base, number) is None,
{
    if path.len() > 0 && view.header(base) == Some(path[0]) && (forall|m: int, n: int|
        0 <= m && n == m + 1 && n < path.len() ==> view.header((#[trigger] path[m]).parent_hash)
            == Some(#[trigger] path[n])) && view.header(path.last().parent_hash) is None
        && path[0].number - number >= path.len() {
        law_ancestors_follow_the_parents(view, base, path, path.len() - 1);
        let steps = (path[0].number - number) as nat;
        lemma_ancestor_adds(
            view,
            path[0],
            (path.len() - 1) as nat,
            (steps - (path.len() - 1)) as nat,
        );
    }
}

/// Going up from two headers of the same number side by side, the last header that their chains
/// share is the first at which both arrive; if the chain of one ends before, there is none.
pub proof fn law_common_header_is_where_paths_meet(
    view: SyncView,
    last: IndexedHeader,
    best: IndexedHeader,
    left: Seq<IndexedHeader>,
    right: Seq<IndexedHeader>,
)
    requires
        view.wf(),
        best.number >= last.number,
        0 < left.len() == right.len(),
        view.header(last.hash) == Some(left[0]),
        view.ancestor_at(best.hash, last.number as int) == Some(right[0]),
        left[0].number == right[0].number,
        forall|m: int, n: int|
            0 <= m && n == m + 1 && n < left.len() ==> view.header(
                (#[trigger] left[m]).parent_hash,
            ) == Some(#[trigger] left[n]),
        forall|m: int, n: int|
            0 <= m && n == m + 1 && n < right.len() ==> view.header(
                (#[trigger] right[m]).parent_hash,
            ) == Some(#[trigger] right[n]),
        forall|k: int|
            0 <= k < left.len() - 1 ==> (#[trigger] left[k]).hash != right[k].hash
                && left[k].number > 0 && right[k].number > 0,
    ensures
        left.last().hash == right.last().hash ==> view.can_fix_common(last, best)
            && view.fixed_common(last, best) == Some(left.last()),
        left.last().hash != right.last().hash && left.last().number > 0 && right.last().number > 0
            && (view.header(left.last().parent_hash) is None || view.header(
            right.last().parent_hash,
        ) is None) ==> view.can_fix_common(last, best) && view.fixed_common(last, best) is None,
{
    let top = (left.len() - 1) as nat;
    let (a, b) = (left[0], right[0]);
    lemma_header_is_filed(view, last.hash);
    lemma_header_is_filed(view, best.hash);
    let start = view.header(best.hash)->0;
    lemma_ancestor_is_filed(view, start, (start.number - last.number) as nat);
    assert(view.header(b.hash) == Some(b));
    assert forall|k: nat| k <= top implies #[trigger] view.ancestor(a, k) == Some(left[k as int])
        && view.ancestor(b, k) == Some(right[k as int]) by {
        law_ancestors_follow_the_parents(view, a.hash, left, k as int);
        law_ancestors_follow_the_parents(view, b.hash, right, k as int);
    }
    assert forall|k: nat| k < top implies #[trigger] view.apart(a, b, k) by {
        assert(view.ancestor(a, k) == Some(left[k as int]));
    }
    if left.last().hash == right.last().hash {
        lemma_ancestor_is_filed(view, a, top);
        lemma_ancestor_is_filed(view, b, top);
        assert(view.ancestor(a, top) == Some(left[top as int]));
        if top > 0 {
            assert(view.part_until(a, b, top));
            assert(view.walk_ends(a, b));
            let chosen = choose|steps: nat| #[trigger] view.part_until(a, b, steps);
            lemma_part_until_is_unique(view, a, b, top, chosen);
            assert(view.apart(a, b, 0));
        }
    } else if left.last().number > 0 && right.last().number > 0 && (view.header(
        left.last().parent_hash,
    ) is None || view.header(right.last().parent_hash) is None) {
        assert(view.ancestor(a, top) == Some(left[top as int]));
        assert(view.apart(a, b, top));
        lemma_ancestor_adds(view, a, top, 1);
        lemma_ancestor_adds(view, b, top, 1);
        reveal_with_fuel(SyncView::ancestor, 2);
        assert(!view.apart(a, b, top + 1));
        assert(view.part_until(a, b, top + 1));
        assert forall|k: nat| k < top + 1 implies {
            &&& (#[trigger] view.ancestor(a, k))->0.number > 0
            &&& view.ancestor(b, k)->0.number > 0
        } by {
            if k < top {
                assert(left[k as int].number > 0);
            }
        }
        assert(view.walk_ends(a, b));
        let chosen = choose|steps: nat| #[trigger] view.part_until(a, b, steps);
        lemma_part_until_is_unique(view, a, b, top + 1, chosen);
        assert(view.apart(a, b, 0));
    }
}

/// A header that is itself the ancestor of the best one at its height is what they share. Where
/// the best one has no known ancestor there, or has another one and the header is not known, they
/// share nothing that is known.
pub proof fn law_common_header_without_a_walk(
    view: SyncView,
    last: IndexedHeader,
    best: IndexedHeader,
)
    requires
        best.number >= last.number,
    ensures
        view.ancestor_at(best.hash, last.number as int) is None ==> view.can_fix_common(last, best)
            && view.fixed_common(last, best) is None,
        view.ancestor_at(best.hash, last.number as int) matches Some(right) && right.hash
            == last.hash ==> view.can_fix_common(last, best) && view.fixed_common(last, best)
            == view.ancestor_at(best.hash, last.number as int),
        view.header(last.hash) is None && !(view.ancestor_at(best.hash, last.number as int) matches
            Some(right) && right.hash == last.hash) ==> view.can_fix_common(last, best)
            && view.fixed_common(last, best) is None,
{
}

} // verus!
