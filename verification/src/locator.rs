//! Block locators: a few hashes that show a peer where two chains part.
use crate::ancestry::law_ancestors_of_tip_are_main;
use crate::block::{BlockNumber, IndexedHeader};
use crate::chain::{lemma_on_main, ChainView};
use crate::hash::H256;
use crate::synchronizer::{SyncView, Synchronizer};
use vstd::arithmetic::power2::{lemma_pow2_pos, lemma_pow2_unfold, pow2};
use vstd::prelude::*;

verus! {

/// How far below its start the `i`th hash of a locator stands: the first ten hashes are those
/// of consecutive blocks, and from there on each step is twice the one before.
pub open spec fn locator_depth(i: nat) -> nat {
    if i < 10 {
        i
    } else {
        7 + pow2((i - 8) as nat)
    }
}

/// Hashes further on in a locator stand lower, and not too much.
pub proof fn lemma_locator_depth_grows(i: nat)
    ensures
        locator_depth(i) < locator_depth(i + 1),
        i < 9 ==> locator_depth(i + 1) == locator_depth(i) + 1,
        i >= 9 ==> locator_depth(i + 1) == locator_depth(i) + pow2((i - 8) as nat),
{
    if i >= 10 {
        lemma_pow2_unfold((i + 1 - 8) as nat);
        lemma_pow2_pos((i - 8) as nat);
    } else if i == 9 {
        vstd::arithmetic::power2::lemma2_to64();
    }
}

/// How many of the heights that a locator names stand at or above 0, from the `i`th on, where
/// it starts at height `number`.
pub open spec fn locator_count(number: nat, i: nat) -> nat
    decreases
            (if locator_depth(i) > number {
                0
            } else {
                number + 1 - locator_depth(i)
            }),
{
    proof {
        lemma_locator_depth_grows(i);
    }
    if locator_depth(i) > number {
        i
    } else {
        locator_count(number, i + 1)
    }
}

impl ChainView {
    /// The place of the first hash of `locator`, from `from` on, that is on the main chain.
    pub open spec fn first_on_main(self, locator: Seq<H256>, from: int) -> int
        decreases locator.len() - from,
    {
        if from >= locator.len() || self.on_main(locator[from]) {
            from
        } else {
            self.first_on_main(locator, from + 1)
        }
    }

    /// The number of the first block on the main chain that is met in going from the block
    /// `hash` to its parent, and on.
    pub open spec fn nearest_on_main(self, hash: H256) -> Option<BlockNumber>
        decreases self.entries[hash].header.number,
    {
        let header = self.entries[hash].header;
        if !self.entries.contains_key(hash) || self.on_main(hash) {
            self.number_of(hash)
        } else if self.entries.contains_key(header.parent_hash)
            && self.entries[header.parent_hash].header.number < header.number {
            self.nearest_on_main(header.parent_hash)
        } else {
            None
        }
    }

    /// The number of the latest block on the main chain that the chain behind `locator` shows to
    /// be in it too. Where the locator's last hash before that one is of a block stored beside
    /// the main chain, the chains part at that block's nearest ancestor on the main chain.
    pub open spec fn latest_common(self, locator: Seq<H256>) -> Option<BlockNumber> {
        if locator.len() == 0 || locator.last() != self.genesis() {
            None
        } else {
            let i = self.first_on_main(locator, 0);
            let number = self.number_of(locator[i]);
            if i == 0 || number == Some(0u64) || !self.entries.contains_key(locator[i - 1]) {
                number
            } else {
                self.nearest_on_main(self.entries[locator[i - 1]].header.parent_hash)
            }
        }
    }

    /// The number of the block before which an answer to a locator ends, where it starts after
    /// the block `number` and holds at most `limit` headers.
    pub open spec fn response_end(self, number: int, limit: int) -> int {
        if number + 1 + limit < self.main.len() {
            number + 1 + limit
        } else {
            self.main.len() as int
        }
    }

    /// The headers of the main chain from number `from` on, before number `end` and before the
    /// block `stop`.
    pub open spec fn headers_until(self, from: int, end: int, stop: H256) -> Seq<IndexedHeader>
        decreases end - from,
    {
        if from >= end || self.main[from] == stop {
            seq![]
        } else {
            seq![self.entries[self.main[from]].header] + self.headers_until(from + 1, end, stop)
        }
    }
}

/// Every stored block has an ancestor on the main chain, if only the genesis block.
pub proof fn lemma_nearest_on_main(chain: ChainView, hash: H256)
    requires
        chain.wf(),
        chain.entries.contains_key(hash),
    ensures
        chain.nearest_on_main(hash) is Some,
        chain.nearest_on_main(hash)->0 < chain.main.len(),
        chain.nearest_on_main(hash)->0 <= chain.entries[hash].header.number,
    decreases chain.entries[hash].header.number,
{
    lemma_on_main(chain, hash);
    assert(chain.is_placed(hash));
    if !chain.on_main(hash) {
        lemma_nearest_on_main(chain, chain.entries[hash].header.parent_hash);
    }
}

/// The first hash of a locator on the main chain is found, if only the last one.
pub proof fn lemma_first_on_main(chain: ChainView, locator: Seq<H256>, from: int)
    requires
        0 <= from < locator.len(),
        chain.on_main(locator.last()),
    ensures
        from <= chain.first_on_main(locator, from) < locator.len(),
        chain.on_main(locator[chain.first_on_main(locator, from)]),
        forall|i: int|
            from <= i < chain.first_on_main(locator, from) ==> !chain.on_main(
                #[trigger] locator[i],
            ),
    decreases locator.len() - from,
{
    if !chain.on_main(locator[from]) {
        lemma_first_on_main(chain, locator, from + 1);
    }
}

impl SyncView {
    /// The locator of the chain that ends in `start`: the hashes at the heights that locators
    /// name, and at last the genesis block.
    pub open spec fn locator(self, start: IndexedHeader) -> Seq<H256> {
        let number = start.number as nat;
        let count = locator_count(number, 0);
        let sampled = Seq::new(
            count,
            |i: int| self.ancestor_at(start.hash, number - locator_depth(i as nat))->0.hash,
        );
        if locator_depth((count - 1) as nat) == number {
            sampled
        } else {
            sampled.push(self.chain.genesis())
        }
    }

    /// The ancestors of `start` at the heights that its locator names are known.
    pub open spec fn can_locate(self, start: IndexedHeader) -> bool {
        forall|i: nat|
            locator_depth(i) <= start.number ==> self.ancestor_at(
                start.hash,
                start.number - #[trigger] locator_depth(i),
            ) is Some
    }
}

/// A locator can always be made for the main chain.
pub proof fn law_tip_can_be_located(view: SyncView)
    requires
        view.wf(),
    ensures
        view.can_locate(view.chain.tip()),
{
    let tip = view.chain.tip();
    assert forall|i: nat| locator_depth(i) <= tip.number implies view.ancestor_at(
        tip.hash,
        tip.number - #[trigger] locator_depth(i),
    ) is Some by {
        law_ancestors_of_tip_are_main(view, tip.number - locator_depth(i));
    }
}

impl Synchronizer {
    /// The locator of the chain that ends in `start`.
    pub fn get_locator(&self, start: &IndexedHeader) -> (r: Vec<H256>)
        requires
            self.wf(),
            self@.can_locate(*start),
        ensures
            r@ == self@.locator(*start),
    {
        let mut step: u64 = 1;
        let mut locator: Vec<H256> = Vec::with_capacity(32);
        let mut index: u64 = start.number;
        let base = start.hash;
        let ghost number = start.number as nat;
        loop
            invariant_except_break
                index == number - locator_depth(locator@.len()),
                locator@.len() < 10 ==> step == 1,
                locator@.len() >= 10 ==> step == pow2((locator@.len() - 9) as nat),
                locator_count(number, 0) == locator_count(number, locator@.len()),
                locator@ =~= Seq::new(
                    locator@.len(),
                    |i: int|
                        self@.ancestor_at(
                            start.hash,
                            number - locator_depth(i as nat),
                        )->0.hash,
                ),
            invariant
                self.wf(),
                self@.can_locate(*start),
                base == start.hash,
                number == start.number,
            ensures
                locator@ == self@.locator(*start),
            decreases index,
        {
            let ghost count = locator@.len();
            let ghost sampled = locator@;
            assert(locator_depth(count) <= number);
            let header = self.get_ancestor(&base, index).expect("index calculated in get_locator");
            locator.push(header.hash);
            proof {
                lemma_locator_depth_grows(count);
                vstd::arithmetic::power2::lemma2_to64();
                if count >= 10 {
                    lemma_pow2_unfold((count - 8) as nat);
                    lemma_pow2_pos((count - 9) as nat);
                }
            }
            if locator.len() >= 10 {
                assert(step < 0x8000_0000_0000_0000u64 ==> step << 1u64 == 2 * step)
                    by (bit_vector);
                step <<= 1u64;
            }
            if index < step {
                // always include the genesis hash
                proof {
                    assert(locator_depth(count + 1) > number);
                    assert(locator_count(number, count + 1) == count + 1);
                    assert(locator_count(number, count) == count + 1);
                }
                if index != 0 {
                    locator.push(self.chain.genesis_hash());
                }
                assert(locator@ =~= self@.locator(*start));
                break;
            }
            index -= step;
        }
        locator
    }
    /// The number of the latest block on the main chain that the chain behind `locator` shows to
    /// be in it too. A locator that does not end in the genesis block is of another chain.
    pub fn locate_latest_common_block(
        &self,
        _hash_stop: &H256,
        locator: &[H256],
    ) -> (r: Option<BlockNumber>)
        requires
            self.wf(),
        ensures
            r == self@.chain.latest_common(locator@),
    {
        let ghost chain = self@.chain;
        if locator.len() == 0 {
            return None;
        }
        if locator[locator.len() - 1] != self.chain.genesis_hash() {
            return None;
        }
        proof {
            assert(chain.main.contains(chain.main[0]));
            lemma_first_on_main(chain, locator@, 0);
        }
        let len: usize = locator.len();
        let mut index: usize = 0;
        let mut latest_common: Option<u64> = self.chain.block_number(&locator[0]);
        while latest_common.is_none()
            invariant
                self.wf(),
                chain == self@.chain,
                len == locator@.len(),
                index <= chain.first_on_main(locator@, 0) < len,
                chain.on_main(locator@[chain.first_on_main(locator@, 0)]),
                chain.first_on_main(locator@, 0) == chain.first_on_main(locator@, index as int),
                latest_common == chain.number_of(locator@[index as int]),
            decreases locator@.len() - index,
        {
            index = index + 1;
            latest_common = self.chain.block_number(&locator[index]);
        }
        if index == 0 || latest_common == Some(0u64) {
            return latest_common;
        }
        if let Some(header) = self.chain.block_header(&locator[index - 1]) {
            let mut block_hash = header.parent_hash;
            proof {
                assert(!chain.on_main(locator@[index - 1])) by {
                    lemma_first_on_main(chain, locator@, 0);
                }
                lemma_on_main(chain, locator@[index - 1]);
                assert(chain.is_placed(locator@[index - 1]));
            }
            loop
                invariant
                    self.wf(),
                    chain == self@.chain,
                    chain.entries.contains_key(block_hash),
                    chain.latest_common(locator@) == chain.nearest_on_main(block_hash),
                decreases chain.entries[block_hash].header.number,
            {
                proof {
                    lemma_on_main(chain, block_hash);
                    assert(chain.is_placed(block_hash));
                    lemma_nearest_on_main(chain, block_hash);
                }
                let block_header = match self.chain.block_header(&block_hash) {
                    None => return latest_common,
                    Some(block_header) => block_header,
                };
                if let Some(block_number) = self.chain.block_number(&block_hash) {
                    return Some(block_number);
                }
                block_hash = block_header.parent_hash;
            }
        } else {
            latest_common
        }
    }

    /// The headers of the main chain that follow the block `block_number`, before the block
    /// `hash_stop` and no more than are sent at a time.
    pub fn get_locator_response(
        &self,
        block_number: BlockNumber,
        hash_stop: &H256,
    ) -> (r: Vec<IndexedHeader>)
        requires
            self.wf(),
            block_number + 1 + self@.config.max_headers_len <= u64::MAX,
        ensures
            r@ == self@.chain.headers_until(
                block_number + 1,
                self@.chain.response_end(
                    block_number as int,
                    self@.config.max_headers_len as int,
                ),
                *hash_stop,
            ),
    {
        let ghost chain = self@.chain;
        let tip_number: u64 = self.tip_header().number;
        assert(tip_number == chain.main.len() - 1);
        let limit: u64 = block_number + 1 + self.config.max_headers_len;
        let max_height: u64 = if limit < tip_number + 1 {
            limit
        } else {
            tip_number + 1
        };
        let mut headers: Vec<IndexedHeader> = Vec::new();
        let mut number: u64 = block_number + 1;
        let ghost whole = chain.headers_until(block_number + 1, max_height as int, *hash_stop);
        while number < max_height
            invariant
                self.wf(),
                chain == self@.chain,
                max_height <= chain.main.len(),
                whole =~= headers@ + chain.headers_until(
                    number as int,
                    max_height as int,
                    *hash_stop,
                ),
            ensures
                headers@ =~= whole,
            decreases max_height - number,
        {
            if let Some(hash) = self.chain.block_hash(number) {
                if hash == *hash_stop {
                    break;
                }
                if let Some(header) = self.chain.block_header(&hash) {
                    headers.push(header);
                }
            }
            number = number + 1;
        }
        headers
    }
}

} // verus!
