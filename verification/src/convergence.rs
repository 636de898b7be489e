//! How two nodes find out what their chains share.
use crate::ancestry::{law_ancestors_follow_the_parents, law_ancestors_of_tip_are_main};
use crate::block::IndexedHeader;
use crate::chain::{law_main_chain_is_numbered, lemma_on_main, ChainView};
use crate::hash::H256;
use crate::locator::{
    lemma_first_on_main, lemma_locator_depth_grows, locator_count, locator_depth,
};
use crate::numbering::law_ancestor_has_number;
use crate::peers::PeerId;
use crate::synchronizer::SyncView;
use vstd::arithmetic::power2::{lemma2_to64, lemma_pow2_unfold, pow2};
use vstd::prelude::*;

verus! {

/// The heights that a locator names are those at or above 0, and the first is one of them.
proof fn lemma_locator_count(number: nat, i: nat)
    requires
        forall|j: nat| j < i ==> #[trigger] locator_depth(j) <= number,
    ensures
        locator_count(number, i) >= i,
        locator_depth(locator_count(number, i)) > number,
        forall|j: nat| j < locator_count(number, i) ==> #[trigger] locator_depth(j) <= number,
    decreases
            (if locator_depth(i) > number {
                0
            } else {
                number + 1 - locator_depth(i)
            }),
{
    if locator_depth(i) <= number {
        lemma_locator_depth_grows(i);
        assert forall|j: nat| j < i + 1 implies #[trigger] locator_depth(j) <= number by {}
        lemma_locator_count(number, i + 1);
    }
}

/// The locator of the main chain starts at the tip, holds the blocks of the main chain at the
/// heights that locators name, each lower than the one before, and ends in the genesis block.
pub proof fn law_locator_of_main_chain(view: SyncView)
    requires
        view.wf(),
    ensures
        ({
            let tip = view.chain.tip();
            let locator = view.locator(tip);
            let count = locator_count(tip.number as nat, 0);
            &&& 0 < count <= locator.len() <= count + 1
            &&& locator[0] == tip.hash
            &&& locator.last() == view.chain.genesis()
            &&& forall|i: int|
                0 <= i < count ==> locator_depth(i as nat) <= tip.number && #[trigger] locator[i]
                    == view.chain.main[tip.number - locator_depth(i as nat)]
            &&& forall|i: nat, j: nat|
                i < j ==> #[trigger] locator_depth(i) < #[trigger] locator_depth(j)
        }),
{
    let tip = view.chain.tip();
    let number = tip.number as nat;
    let locator = view.locator(tip);
    let count = locator_count(number, 0);
    lemma_locator_count(number, 0);
    assert(locator_depth(0) == 0);
    assert(view.chain.is_placed(view.chain.main.last()));
    assert forall|i: int| 0 <= i < count implies locator_depth(i as nat) <= number
        && #[trigger] locator[i] == view.chain.main[number - locator_depth(i as nat)] by {
        let n = number - locator_depth(i as nat);
        law_ancestors_of_tip_are_main(view, n);
        assert(view.chain.is_placed(view.chain.main[n]));
    }
    assert(locator[0] == view.chain.main[number as int]);
    let lowest = (count - 1) as nat;
    if locator_depth(lowest) == number {
        assert(locator.len() == count);
        assert(locator[lowest as int] == view.chain.main[0]);
    }
    assert forall|i: nat, j: nat| i < j implies #[trigger] locator_depth(i)
        < #[trigger] locator_depth(j) by {
        lemma_depth_order(i, j);
    }
}

/// The locator of any header that goes back to the genesis block can be made, starts at that
/// header and ends in the genesis block.
pub proof fn law_locator_ends_in_genesis(view: SyncView, start: IndexedHeader)
    requires
        view.wf(),
        view.is_rooted(start.hash),
        view.header(start.hash) == Some(start),
    ensures
        view.can_locate(start),
        view.locator(start)[0] == start.hash,
        view.locator(start).last() == view.chain.genesis(),
{
    let number = start.number as nat;
    let locator = view.locator(start);
    let count = locator_count(number, 0);
    lemma_locator_count(number, 0);
    assert(locator_depth(0) == 0);
    assert forall|i: nat| locator_depth(i) <= start.number implies view.ancestor_at(
        start.hash,
        start.number - #[trigger] locator_depth(i),
    ) is Some by {
        law_ancestor_has_number(view, start.hash, number - locator_depth(i));
    }
    assert(view.ancestor(start, 0) == Some(start));
    let lowest = (count - 1) as nat;
    if locator_depth(lowest) == number {
        law_ancestor_has_number(view, start.hash, 0);
    }
}

/// A locator holds 73 hashes at the most, however long the chain.
pub proof fn law_locator_is_short(view: SyncView, start: IndexedHeader)
    ensures
        view.locator(start).len() <= 73,
{
    let number = start.number as nat;
    let count = locator_count(number, 0);
    lemma_locator_count(number, 0);
    lemma2_to64();
    assert(locator_depth(72) == 7 + pow2(64));
    if count > 72 {
        assert(locator_depth(72) <= number);
    }
}

/// Where both chains store a block, they have the same header for it.
pub open spec fn consistent(a: ChainView, b: ChainView) -> bool {
    forall|hash: H256|
        #![trigger a.entries[hash]]
        #![trigger b.entries[hash]]
        a.entries.contains_key(hash) && b.entries.contains_key(hash) ==> a.entries[hash].header
            == b.entries[hash].header
}

/// A block on both main chains stands at the same height in both, and so do all below it.
pub proof fn law_chains_share_a_prefix(a: ChainView, b: ChainView, n: int, m: int)
    requires
        a.wf(),
        b.wf(),
        consistent(a, b),
        0 <= m <= n < a.main.len(),
        b.on_main(a.main[n]),
    ensures
        n < b.main.len(),
        a.main[m] == b.main[m],
    decreases n - m,
{
    let hash = a.main[n];
    lemma_on_main(b, hash);
    assert(a.entries.contains_key(hash));
    assert(a.entries[hash].header == b.entries[hash].header);
    if m < n {
        assert(a.main[n - 1] == b.main[n - 1]);
        assert(b.main.contains(b.main[n - 1]));
        law_chains_share_a_prefix(a, b, n - 1, m);
    }
}

/// The nearest block on `b`'s main chain to a block of `a`'s main chain is the last one below it
/// that the two main chains share.
proof fn lemma_nearest_is_shared(a: ChainView, b: ChainView, n: int)
    requires
        a.wf(),
        b.wf(),
        consistent(a, b),
        a.genesis() == b.genesis(),
        0 <= n < a.main.len(),
        b.entries.contains_key(a.main[n]),
    ensures
        b.nearest_on_main(a.main[n]) matches Some(m) && m <= n && m < b.main.len() && a.main[
            m as int
        ] == b.main[m as int] && forall|k: int|
            m < k <= n ==> !b.on_main(#[trigger] a.main[k]),
    decreases n,
{
    let hash = a.main[n];
    assert(a.entries.contains_key(hash));
    assert(a.entries[hash].header == b.entries[hash].header);
    assert(b.is_placed(hash));
    lemma_on_main(b, hash);
    if b.on_main(hash) {
        law_chains_share_a_prefix(a, b, n, n);
    } else {
        if n == 0 {
            assert(b.main.contains(b.main[0]));
        }
        assert(a.entries[hash].header.parent_hash == a.main[n - 1]);
        lemma_nearest_is_shared(a, b, n - 1);
    }
}

/// Two nodes whose chains start at the same genesis block always find a block that both main
/// chains share: `b` answers the locator of `a`'s main chain with the number of one. No block of
/// `a`'s main chain at a height that the locator names is shared above it.
pub proof fn law_latest_common_is_common(a: SyncView, b: ChainView)
    requires
        a.wf(),
        b.wf(),
        consistent(a.chain, b),
        a.chain.genesis() == b.genesis(),
    ensures
        ({
            let tip = a.chain.tip();
            &&& b.latest_common(a.locator(tip)) matches Some(n)
            &&& n < a.chain.main.len()
            &&& n < b.main.len()
            &&& a.chain.main[n as int] == b.main[n as int]
            &&& forall|i: nat|
                #[trigger] locator_depth(i) <= tip.number && b.on_main(
                    a.chain.main[tip.number - locator_depth(i)],
                ) ==> tip.number - locator_depth(i) <= n
        }),
{
    let tip = a.chain.tip();
    let locator = a.locator(tip);
    let count = locator_count(tip.number as nat, 0);
    law_locator_of_main_chain(a);
    lemma_locator_count(tip.number as nat, 0);
    assert(b.main.contains(b.main[0]));
    lemma_first_on_main(b, locator, 0);
    lemma_main_bound(a.chain);
    let first = b.first_on_main(locator, 0);
    let n = b.latest_common(locator)->0;
    let height: int = if first < count {
        tip.number - locator_depth(first as nat)
    } else {
        0
    };
    assert(locator[first] == a.chain.main[height]);
    law_chains_share_a_prefix(a.chain, b, height, height);
    lemma_on_main(b, locator[first]);
    assert(b.number_of(locator[first]) == Some(height as u64));
    if !(first == 0 || height == 0 || !b.entries.contains_key(locator[first - 1])) {
        let above = tip.number - locator_depth((first - 1) as nat);
        lemma_locator_depth_grows((first - 1) as nat);
        assert(locator[first - 1] == a.chain.main[above]);
        assert(a.chain.entries.contains_key(a.chain.main[above]));
        assert(a.chain.entries[a.chain.main[above]].header == b.entries[a.chain.main[above]].header);
        assert(a.chain.entries[a.chain.main[above]].header.parent_hash == a.chain.main[above - 1]);
        assert(b.is_placed(a.chain.main[above]));
        lemma_nearest_is_shared(a.chain, b, above - 1);
        if n < height {
            assert(!b.on_main(a.chain.main[height]));
        }
    }
    assert forall|i: nat|
        #[trigger] locator_depth(i) <= tip.number && b.on_main(
            a.chain.main[tip.number - locator_depth(i)],
        ) implies tip.number - locator_depth(i) <= n by {
        if i < first {
            lemma_depth_bounds_count(tip.number as nat, i);
            assert(locator[i as int] == a.chain.main[tip.number - locator_depth(i)]);
        } else {
            lemma_depth_order(first as nat, i);
        }
    }
}

/// The tip has the last number of the main chain.
proof fn lemma_main_bound(chain: ChainView)
    requires
        chain.wf(),
    ensures
        chain.tip().number == chain.main.len() - 1,
{
    assert(chain.entries[chain.main[chain.main.len() - 1]].header.number == chain.main.len() - 1);
}

/// Later hashes of a locator stand lower.
proof fn lemma_depth_order(i: nat, j: nat)
    requires
        i <= j,
    ensures
        locator_depth(i) <= locator_depth(j),
        i < j ==> locator_depth(i) < locator_depth(j),
    decreases j - i,
{
    if i < j {
        lemma_locator_depth_grows(i);
        lemma_depth_order(i + 1, j);
    }
}

/// A height that a locator names is among those that are counted.
proof fn lemma_depth_bounds_count(number: nat, i: nat)
    requires
        locator_depth(i) <= number,
    ensures
        i < locator_count(number, 0),
{
    lemma_locator_count(number, 0);
    if i >= locator_count(number, 0) {
        lemma_depth_order(locator_count(number, 0), i);
    }
}

/// Where `b` stores the block that the locator names last before the first shared one, the block
/// that `b` answers with, if it is not the genesis block, is the latest that the main chains
/// share: above it they have no block in common.
pub proof fn law_latest_common_is_latest(a: SyncView, b: ChainView)
    requires
        a.wf(),
        b.wf(),
        consistent(a.chain, b),
        a.chain.genesis() == b.genesis(),
        ({
            let locator = a.locator(a.chain.tip());
            let first = b.first_on_main(locator, 0);
            first > 0 ==> b.entries.contains_key(locator[first - 1])
        }),
    ensures
        b.latest_common(a.locator(a.chain.tip())) matches Some(n) && (n > 0 ==> forall|m: int|
            n < m < a.chain.main.len() ==> !b.on_main(#[trigger] a.chain.main[m])),
{
    let tip = a.chain.tip();
    let locator = a.locator(tip);
    let count = locator_count(tip.number as nat, 0);
    law_latest_common_is_common(a, b);
    law_locator_of_main_chain(a);
    lemma_locator_count(tip.number as nat, 0);
    assert(b.main.contains(b.main[0]));
    lemma_first_on_main(b, locator, 0);
    lemma_main_bound(a.chain);
    let first = b.first_on_main(locator, 0);
    let n = b.latest_common(locator)->0;
    if n > 0 {
        assert forall|m: int| n < m < a.chain.main.len() implies !b.on_main(
            #[trigger] a.chain.main[m],
        ) by {
            if b.on_main(a.chain.main[m]) {
                assert(first > 0) by {
                    if first == 0 {
                        lemma_on_main(b, locator[0]);
                        assert(a.chain.is_placed(a.chain.main.last()));
                        assert(a.chain.entries[tip.hash].header == b.entries[tip.hash].header);
                    }
                }
                let above = tip.number - locator_depth((first - 1) as nat);
                assert(first - 1 < count);
                assert(locator[first - 1] == a.chain.main[above]);
                if above < m {
                    law_chains_share_a_prefix(a.chain, b, m, above);
                    assert(b.main.contains(b.main[above]));
                }
                lemma_on_main(b, locator[first]);
                if b.number_of(locator[first]) != Some(0u64) {
                    assert(a.chain.entries[a.chain.main[above]].header
                        == b.entries[a.chain.main[above]].header);
                    assert(b.is_placed(a.chain.main[above]));
                    if above == 0 {
                        assert(b.main.contains(b.main[0]));
                    }
                    assert(a.chain.entries[a.chain.main[above]].header.parent_hash
                        == a.chain.main[above - 1]);
                    lemma_nearest_is_shared(a.chain, b, above - 1);
                }
            }
        }
    }
}

/// Where the locator names the height right above the block that `b` answers with, that block is
/// the latest that the main chains share, whatever else `b` stores, and be it the genesis block.
pub proof fn law_latest_common_below_a_named_height(a: SyncView, b: ChainView, i: nat)
    requires
        a.wf(),
        b.wf(),
        consistent(a.chain, b),
        a.chain.genesis() == b.genesis(),
        b.latest_common(a.locator(a.chain.tip())) == Some(
            (a.chain.tip().number - locator_depth(i) - 1) as u64,
        ),
        locator_depth(i) < a.chain.tip().number,
    ensures
        forall|m: int|
            a.chain.tip().number - locator_depth(i) <= m < a.chain.main.len() ==> !b.on_main(
                #[trigger] a.chain.main[m],
            ),
{
    law_latest_common_is_common(a, b);
    lemma_main_bound(a.chain);
    let height = a.chain.tip().number - locator_depth(i);
    assert forall|m: int| height <= m < a.chain.main.len() implies !b.on_main(
        #[trigger] a.chain.main[m],
    ) by {
        if b.on_main(a.chain.main[m]) {
            law_chains_share_a_prefix(a.chain, b, m, height);
            assert(b.main.contains(b.main[height]));
        }
    }
}

/// Where `b` stores the tip of `a`, it stores all of `a`'s main chain.
pub proof fn law_stored_tip_brings_its_chain(a: ChainView, b: ChainView, n: int)
    requires
        a.wf(),
        b.wf(),
        consistent(a, b),
        b.entries.contains_key(a.tip().hash),
        0 <= n < a.main.len(),
    ensures
        b.entries.contains_key(a.main[n]),
    decreases a.main.len() - n,
{
    assert(a.is_placed(a.main.last()));
    if n < a.main.len() - 1 {
        law_stored_tip_brings_its_chain(a, b, n + 1);
        let next = a.main[n + 1];
        assert(a.entries.contains_key(next));
        assert(a.entries[next].header == b.entries[next].header);
        assert(b.is_placed(next));
        assert(a.entries[next].header.parent_hash == a.main[n]);
    }
}

/// What an answer to a locator holds: the headers of the main chain from number `from` on, as
/// far as it goes, none of them that of `stop`. It ends before `end` only where `stop` follows.
pub proof fn law_response_is_main_chain(chain: ChainView, from: int, end: int, stop: H256)
    requires
        chain.wf(),
        0 <= from,
        end <= chain.main.len(),
    ensures
        ({
            let headers = chain.headers_until(from, end, stop);
            &&& headers.len() <= (if from < end { end - from } else { 0 })
            &&& forall|i: int|
                0 <= i < headers.len() ==> #[trigger] headers[i]
                    == chain.entries[chain.main[from + i]].header && headers[i].hash
                    == chain.main[from + i] && headers[i].hash != stop
            &&& from + headers.len() < end ==> chain.main[from + headers.len() as int] == stop
        }),
    decreases end - from,
{
    if from < end && chain.main[from] != stop {
        law_response_is_main_chain(chain, from + 1, end, stop);
        let rest = chain.headers_until(from + 1, end, stop);
        let headers = chain.headers_until(from, end, stop);
        assert(chain.is_placed(chain.main[from]));
        assert forall|i: int| 0 <= i < headers.len() implies #[trigger] headers[i]
            == chain.entries[chain.main[from + i]].header && headers[i].hash == chain.main[from + i]
            && headers[i].hash != stop by {
            if i > 0 {
                assert(headers[i] == rest[i - 1]);
            }
        }
    }
}

/// The headers of an answer to a locator follow one another, from the block `number` on, and
/// there are no more than `limit` of them.
pub proof fn law_response_is_linked(chain: ChainView, number: int, limit: int, stop: H256)
    requires
        chain.wf(),
        0 <= number < chain.main.len(),
        0 <= limit,
    ensures
        ({
            let headers = chain.headers_until(
                number + 1,
                chain.response_end(number, limit),
                stop,
            );
            &&& headers.len() <= limit
            &&& headers.len() > 0 ==> headers[0].parent_hash == chain.main[number]
            &&& forall|i: int, j: int|
                0 <= i && j == i + 1 && j < headers.len() ==> (
                #[trigger] headers[j]).parent_hash == (#[trigger] headers[i]).hash
            &&& forall|i: int|
                0 <= i < headers.len() ==> (#[trigger] headers[i]).number == number + 1 + i
        }),
{
    let end = chain.response_end(number, limit);
    let headers = chain.headers_until(number + 1, end, stop);
    law_response_is_main_chain(chain, number + 1, end, stop);
    if headers.len() > 0 {
        assert(chain.entries[chain.main[number + 1]].header.parent_hash == chain.main[number]);
    }
    assert forall|i: int, j: int| 0 <= i && j == i + 1 && j < headers.len() implies (
    #[trigger] headers[j]).parent_hash == (#[trigger] headers[i]).hash by {
        assert(chain.entries[chain.main[number + 1 + j]].header.parent_hash == chain.main[number
            + 1 + i]);
    }
}

/// `peer` has sent `headers`, one after the other.
pub open spec fn with_headers(view: SyncView, headers: Seq<IndexedHeader>, peer: PeerId) -> SyncView
    decreases headers.len(),
{
    if headers.len() == 0 {
        view
    } else {
        with_headers(view.with_header(headers[0], peer), headers.skip(1), peer)
    }
}

/// Headers of different hashes that follow one another from a known one on all become known.
pub proof fn law_linked_headers_become_known(
    view: SyncView,
    headers: Seq<IndexedHeader>,
    peer: PeerId,
)
    requires
        headers.len() > 0 ==> view.header_view(headers[0].parent_hash) is Some,
        forall|i: int, j: int|
            0 <= i && j == i + 1 && j < headers.len() ==> (#[trigger] headers[j]).parent_hash == (
            #[trigger] headers[i]).hash,
        forall|i: int, j: int|
            0 <= i < j < headers.len() ==> (#[trigger] headers[i]).hash != (
            #[trigger] headers[j]).hash,
    ensures
        forall|i: int|
            0 <= i < headers.len() ==> with_headers(view, headers, peer).header(
                (#[trigger] headers[i]).hash,
            ) == Some(headers[i]),
        forall|hash: H256|
            (forall|i: int| 0 <= i < headers.len() ==> (#[trigger] headers[i]).hash != hash)
                ==> #[trigger] with_headers(view, headers, peer).header(hash) == view.header(hash),
    decreases headers.len(),
{
    if headers.len() > 0 {
        let first = headers[0];
        let rest = headers.skip(1);
        let next = view.with_header(first, peer);
        let last = with_headers(view, headers, peer);
        assert(next.header(first.hash) == Some(first));
        if rest.len() > 0 {
            assert(headers[1].parent_hash == headers[0].hash);
        }
        assert forall|i: int, j: int| 0 <= i && j == i + 1 && j < rest.len() implies (
        #[trigger] rest[j]).parent_hash == (#[trigger] rest[i]).hash by {
            assert(headers[j + 1].parent_hash == headers[i + 1].hash);
        }
        assert forall|i: int, j: int| 0 <= i < j < rest.len() implies (
        #[trigger] rest[i]).hash != (#[trigger] rest[j]).hash by {
            assert(headers[i + 1].hash != headers[j + 1].hash);
        }
        law_linked_headers_become_known(next, rest, peer);
        assert forall|i: int| 0 <= i < headers.len() implies last.header(
            (#[trigger] headers[i]).hash,
        ) == Some(headers[i]) by {
            if i > 0 {
                assert(rest[i - 1] == headers[i]);
            } else {
                assert forall|k: int| 0 <= k < rest.len() implies (#[trigger] rest[k]).hash
                    != first.hash by {
                    assert(headers[0].hash != headers[k + 1].hash);
                }
            }
        }
        assert forall|hash: H256|
            (forall|i: int| 0 <= i < headers.len() ==> (#[trigger] headers[i]).hash
                != hash) implies #[trigger] last.header(hash) == view.header(hash) by {
            assert forall|k: int| 0 <= k < rest.len() implies (#[trigger] rest[k]).hash
                != hash by {
                assert(headers[k + 1].hash != hash);
            }
            assert(headers[0].hash != hash);
        }
    }
}

/// A round of synchronizing: `b` answers the locator of `a`'s main chain with the headers of its
/// own that follow the common block. They connect to a block that `a` has, and `a` knows them
/// all once it has filed them in order.
pub proof fn law_response_connects(
    a: SyncView,
    b: ChainView,
    limit: int,
    stop: H256,
    peer: PeerId,
)
    requires
        a.wf(),
        b.wf(),
        consistent(a.chain, b),
        a.chain.genesis() == b.genesis(),
        0 <= limit,
        forall|n: int|
            0 <= n < a.chain.main.len() ==> a.chain.entries[
            #[trigger] a.chain.main[n]].total_difficulty is Some,
    ensures
        ({
            &&& b.latest_common(a.locator(a.chain.tip())) matches Some(n)
            &&& {
                let headers = b.headers_until(n + 1, b.response_end(n as int, limit), stop);
                &&& headers.len() > 0 ==> headers[0].parent_hash == a.chain.main[n as int]
                &&& forall|i: int|
                    0 <= i < headers.len() ==> with_headers(a, headers, peer).header(
                        (#[trigger] headers[i]).hash,
                    ) == Some(headers[i])
            }
        }),
{
    law_latest_common_is_common(a, b);
    let n = b.latest_common(a.locator(a.chain.tip()))->0 as int;
    let headers = b.headers_until(n + 1, b.response_end(n, limit), stop);
    law_response_is_linked(b, n, limit, stop);
    law_response_is_main_chain(b, n + 1, b.response_end(n, limit), stop);
    assert(a.chain.entries.contains_key(a.chain.main[n]));
    assert(a.header_view(a.chain.main[n]) is Some);
    assert forall|i: int, j: int| 0 <= i < j < headers.len() implies (
    #[trigger] headers[i]).hash != (#[trigger] headers[j]).hash by {
        assert(b.entries[b.main[n + 1 + i]].header.number == n + 1 + i);
        assert(b.entries[b.main[n + 1 + j]].header.number == n + 1 + j);
    }
    law_linked_headers_become_known(a, headers, peer);
}

/// The heights that a locator names: the start and the nine below it, and from there on each step
/// is twice the one before.
pub proof fn law_steps_of_a_locator(i: nat)
    ensures
        locator_depth(0) == 0,
        i < 9 ==> locator_depth(i + 1) == locator_depth(i) + 1,
        locator_depth(10) == locator_depth(9) + 2,
        i >= 9 ==> locator_depth(i + 2) - locator_depth(i + 1) == 2 * (locator_depth(i + 1)
            - locator_depth(i)),
{
    lemma_locator_depth_grows(9);
    lemma_locator_depth_grows(i);
    lemma_locator_depth_grows(i + 1);
    lemma2_to64();
    if i >= 9 {
        lemma_pow2_unfold((i + 1 - 8) as nat);
    }
}

/// The locator of any header whose chain is known holds hashes of that chain and no other: the
/// `i`th is that of the header's own ancestor at the `i`th height, for every height that is not
/// below 0. After them there is at most one more hash, that of the genesis block, and none where
/// the last height is 0.
pub proof fn law_locator_holds_the_ancestors(
    view: SyncView,
    start: IndexedHeader,
    path: Seq<IndexedHeader>,
)
    requires
        view.header(start.hash) == Some(start),
        path.len() == start.number + 1,
        path[0] == start,
        forall|m: int, n: int|
            0 <= m && n == m + 1 && n < path.len() ==> view.header(
                (#[trigger] path[m]).parent_hash,
            ) == Some(#[trigger] path[n]),
    ensures
        view.can_locate(start),
        ({
            let locator = view.locator(start);
            &&& forall|i: nat| #[trigger]
                locator_depth(i) <= start.number ==> i < locator.len() && locator[i as int]
                    == path[locator_depth(i) as int].hash
            &&& forall|i: int|
                0 <= i < locator.len() && locator_depth(i as nat) > start.number ==> i
                    == locator.len() - 1 && i > 0 && #[trigger] locator[i] == view.chain.main[0]
                    && locator_depth((i - 1) as nat) < start.number
            &&& locator_depth((locator.len() - 1) as nat) >= start.number
        }),
{
    let number = start.number as nat;
    let locator = view.locator(start);
    let count = locator_count(number, 0);
    lemma_locator_count(number, 0);
    assert(locator_depth(0) == 0);
    assert forall|i: nat| #[trigger] locator_depth(i) <= start.number implies view.ancestor_at(
        start.hash,
        start.number - locator_depth(i),
    ) == Some(path[locator_depth(i) as int]) by {
        law_ancestors_follow_the_parents(view, start.hash, path, locator_depth(i) as int);
    }
    assert forall|i: nat| #[trigger] locator_depth(i) <= start.number implies i < locator.len()
        && locator[i as int] == path[locator_depth(i) as int].hash by {
        lemma_depth_bounds_count(number, i);
    }
}

/// A locator can be made wherever the ancestors at the heights it names are known, and then the
/// `i`th hash is that of the ancestor at the `i`th height.
pub proof fn law_locator_by_height(view: SyncView, start: IndexedHeader)
    requires
        forall|i: nat| #[trigger]
            locator_depth(i) <= start.number ==> view.ancestor_at(
                start.hash,
                start.number - locator_depth(i),
            ) is Some,
    ensures
        view.can_locate(start),
        ({
            let locator = view.locator(start);
            &&& locator.len() > 0
            &&& locator_depth((locator.len() - 1) as nat) >= start.number
            &&& forall|i: int|
                0 <= i < locator.len() && locator_depth(i as nat) <= start.number ==> match
                view.ancestor_at(start.hash, start.number - locator_depth(i as nat)) {
                    Some(ancestor) => #[trigger] locator[i] == ancestor.hash,
                    None => false,
                }
            &&& forall|i: int|
                0 <= i < locator.len() && locator_depth(i as nat) > start.number ==> i
                    == locator.len() - 1 && #[trigger] locator[i] == view.chain.main[0]
        }),
{
    let number = start.number as nat;
    let locator = view.locator(start);
    let count = locator_count(number, 0);
    lemma_locator_count(number, 0);
    assert(locator_depth(0) == 0);
    assert forall|i: int|
        0 <= i < locator.len() && locator_depth(i as nat) <= start.number implies match
    view.ancestor_at(start.hash, start.number - locator_depth(i as nat)) {
        Some(ancestor) => #[trigger] locator[i] == ancestor.hash,
        None => false,
    } by {
        lemma_depth_bounds_count(number, i as nat);
    }
}

/// A locator that is empty, or does not end in the genesis block, is answered with nothing.
pub proof fn law_foreign_locator_is_refused(chain: ChainView, locator: Seq<H256>)
    ensures
        locator.len() == 0 ==> chain.latest_common(locator) is None,
        locator.len() > 0 && locator[locator.len() - 1] != chain.main[0] ==> chain.latest_common(
            locator,
        ) is None,
{
}

/// The first hash of a locator on the main chain is where `first_on_main` finds it.
proof fn lemma_first_is_first(chain: ChainView, locator: Seq<H256>, from: int, i: int)
    requires
        0 <= from <= i < locator.len(),
        chain.on_main(locator[i]),
        forall|j: int| from <= j < i ==> !chain.on_main(#[trigger] locator[j]),
    ensures
        chain.first_on_main(locator, from) == i,
    decreases i - from,
{
    if from < i {
        assert(!chain.on_main(locator[from]));
        lemma_first_is_first(chain, locator, from + 1, i);
    }
}

/// The first hash of a locator that is on the main chain, there at number `m`, is the answer, if it
/// is the first of all, or the genesis block, or the block named before it is not stored.
pub proof fn law_first_shared_hash_is_the_answer(
    chain: ChainView,
    locator: Seq<H256>,
    i: int,
    m: int,
)
    requires
        chain.wf(),
        0 <= i < locator.len(),
        locator[locator.len() - 1] == chain.main[0],
        0 <= m < chain.main.len(),
        locator[i] == chain.main[m],
        forall|j: int| 0 <= j < i ==> !chain.main.contains(#[trigger] locator[j]),
        i == 0 || m == 0 || !chain.entries.contains_key(locator[i - 1]),
    ensures
        chain.latest_common(locator) matches Some(n) && n == m,
{
    law_main_chain_is_numbered(chain, m);
    lemma_first_is_first(chain, locator, 0, i);
}

/// Where the block named before the first shared one is stored, the answer is the first block of
/// the main chain that its parents lead to.
pub proof fn law_stored_branch_leads_to_the_answer(
    chain: ChainView,
    locator: Seq<H256>,
    i: int,
    m: int,
    branch: Seq<H256>,
    n: int,
)
    requires
        chain.wf(),
        0 < i < locator.len(),
        locator[locator.len() - 1] == chain.main[0],
        0 < m < chain.main.len(),
        locator[i] == chain.main[m],
        forall|j: int| 0 <= j < i ==> !chain.main.contains(#[trigger] locator[j]),
        chain.entries.contains_key(locator[i - 1]),
        branch.len() > 0,
        branch[0] == chain.entries[locator[i - 1]].header.parent_hash,
        forall|j: int| 0 <= j < branch.len() - 1 ==> !chain.main.contains(#[trigger] branch[j]),
        forall|j: int, k: int|
            0 <= j && k == j + 1 && k < branch.len() ==> chain.entries[
            #[trigger] branch[j]].header.parent_hash == #[trigger] branch[k],
        0 <= n < chain.main.len(),
        branch[branch.len() - 1] == chain.main[n],
    ensures
        chain.latest_common(locator) matches Some(answer) && answer == n,
{
    law_main_chain_is_numbered(chain, m);
    lemma_first_is_first(chain, locator, 0, i);
    assert(chain.is_placed(locator[i - 1]));
    lemma_on_main(chain, locator[i - 1]);
    assert(!chain.main.contains(locator[i - 1]));
    if chain.entries[locator[i - 1]].header.number == 0 {
        assert(chain.main.contains(chain.main[0]));
    }
    lemma_branch_is_followed(chain, branch, 0, n);
}

proof fn lemma_branch_is_followed(chain: ChainView, branch: Seq<H256>, from: int, n: int)
    requires
        chain.wf(),
        0 <= from < branch.len(),
        chain.entries.contains_key(branch[from]),
        forall|j: int| 0 <= j < branch.len() - 1 ==> !chain.main.contains(#[trigger] branch[j]),
        forall|j: int, k: int|
            0 <= j && k == j + 1 && k < branch.len() ==> chain.entries[
            #[trigger] branch[j]].header.parent_hash == #[trigger] branch[k],
        0 <= n < chain.main.len(),
        branch[branch.len() - 1] == chain.main[n],
    ensures
        chain.nearest_on_main(branch[from]) matches Some(answer) && answer == n,
    decreases branch.len() - from,
{
    if from == branch.len() - 1 {
        law_main_chain_is_numbered(chain, n);
    } else {
        assert(!chain.main.contains(branch[from]));
        assert(chain.entries[branch[from]].header.parent_hash == branch[from + 1]);
        assert(chain.is_placed(branch[from]));
        if chain.entries[branch[from]].header.number == 0 {
            assert(chain.main.contains(chain.main[0]));
        }
        lemma_branch_is_followed(chain, branch, from + 1, n);
    }
}

/// An answer to a locator holds the headers of the main chain after the block `number`, one by one,
/// and is as long as it may be: it ends only at the limit, at the tip, or before the block `stop`.
pub proof fn law_response_is_as_long_as_it_may_be(
    chain: ChainView,
    number: int,
    limit: int,
    stop: H256,
)
    requires
        chain.wf(),
        0 <= number,
        0 <= limit,
    ensures
        ({
            let headers = chain.headers_until(
                number + 1,
                chain.response_end(number, limit),
                stop,
            );
            let next = number + 1 + headers.len();
            &&& forall|i: int|
                0 <= i < headers.len() ==> number + 1 + i < chain.main.len() && #[trigger] headers[i]
                    == chain.entries[chain.main[number + 1 + i]].header && chain.main[number + 1
                    + i] != stop
            &&& headers.len() == limit || next >= chain.main.len() || chain.main[next] == stop
            &&& headers.len() <= limit
            &&& number >= chain.main.len() - 1 ==> headers.len() == 0
            &&& (forall|n: int| number < n < chain.main.len() ==> #[trigger] chain.main[n] != stop)
                && number < chain.main.len() ==> headers.len() == (if limit < chain.main.len() - 1
                - number {
                limit
            } else {
                chain.main.len() - 1 - number
            })
        }),
{
    let end = chain.response_end(number, limit);
    let headers = chain.headers_until(number + 1, end, stop);
    let next = number + 1 + headers.len();
    law_response_is_main_chain(chain, number + 1, end, stop);
    assert(next < end ==> chain.main[next] == stop);
    assert forall|i: int| 0 <= i < headers.len() implies number + 1 + i < chain.main.len()
        && #[trigger] headers[i] == chain.entries[chain.main[number + 1 + i]].header && chain.main[
    number + 1 + i] != stop by {
        assert(headers[i].hash == chain.main[number + 1 + i]);
    }
}

} // verus!
