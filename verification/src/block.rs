//! Headers and blocks, as far as synchronizing reads them.
use crate::difficulty::{lemma_value_injective, u256_equal, u256_greater, U256};
use crate::hash::{law_first_difference_decides, lemma_before_is_a_strict_order, H256};
use vstd::prelude::*;

verus! {

/// The height of a block above the genesis block, which has number 0.
pub type BlockNumber = u64;

/// A header together with its hash. The hash stands for the whole header: two headers are
/// equal where their hashes are.
#[derive(Clone, Copy, Debug)]
pub struct IndexedHeader {
    pub hash: H256,
    pub parent_hash: H256,
    pub number: BlockNumber,
    /// Milliseconds since the epoch.
    pub timestamp: u64,
    pub difficulty: U256,
}

impl IndexedHeader {
    /// Whether the two headers have all they hold in common, and not only the hash.
    pub fn is_same(&self, other: &IndexedHeader) -> (r: bool)
        ensures
            r == (*self == *other),
    {
        proof {
            if self.difficulty.value() == other.difficulty.value() {
                lemma_value_injective(self.difficulty, other.difficulty);
            }
        }
        self.hash == other.hash && self.parent_hash == other.parent_hash && self.number
            == other.number && self.timestamp == other.timestamp && u256_equal(
            self.difficulty,
            other.difficulty,
        )
    }
}

impl PartialEq for IndexedHeader {
    fn eq(&self, other: &IndexedHeader) -> (r: bool) {
        self.hash == other.hash
    }
}

impl vstd::std_specs::cmp::PartialEqSpecImpl for IndexedHeader {
    open spec fn obeys_eq_spec() -> bool {
        true
    }

    open spec fn eq_spec(&self, other: &IndexedHeader) -> bool {
        self.hash == other.hash
    }
}

/// A header and the work of the chain that ends in it.
#[derive(Clone, Copy, Debug)]
pub struct HeaderView {
    pub header: IndexedHeader,
    pub total_difficulty: U256,
}

impl HeaderView {
    pub fn new(header: IndexedHeader, total_difficulty: U256) -> (r: HeaderView)
        ensures
            r.header == header,
            r.total_difficulty == total_difficulty,
    {
        HeaderView { header, total_difficulty }
    }

    /// The chain that ends in `self` is preferred to the one that ends in `other`: it has more
    /// work behind it, or as much and the smaller hash.
    pub open spec fn better_than(self, other: HeaderView) -> bool {
        ||| self.total_difficulty.value() > other.total_difficulty.value()
        ||| self.total_difficulty.value() == other.total_difficulty.value()
            && self.header.hash.before(other.header.hash)
    }

    /// Whether the chain that ends in `self` is preferred to the one that ends in `other`.
    pub fn is_better_than(&self, other: &HeaderView) -> (r: bool)
        ensures
            r == self.better_than(*other),
    {
        u256_greater(self.total_difficulty, other.total_difficulty) || (u256_equal(
            self.total_difficulty,
            other.total_difficulty,
        ) && self.header.hash.less_than(&other.header.hash))
    }
}

/// Preference between headers is irreflexive and transitive, and decides between any two
/// headers of different hash.
pub proof fn law_preference_is_a_strict_order(a: HeaderView, b: HeaderView, c: HeaderView)
    ensures
        !a.better_than(a),
        a.better_than(b) && b.better_than(c) ==> a.better_than(c),
        a.header.hash != b.header.hash ==> a.better_than(b) || b.better_than(a),
{
    lemma_before_is_a_strict_order(a.header.hash, b.header.hash, c.header.hash);
}

/// A block: its header, and its encoded uncles and transactions, which are carried along
/// unread.
#[derive(Debug)]
pub struct IndexedBlock {
    pub header: IndexedHeader,
    pub body: Vec<u8>,
}

/// What a block holds.
#[verifier::ext_equal]
pub struct BlockView {
    pub header: IndexedHeader,
    pub body: Seq<u8>,
}

impl View for IndexedBlock {
    type V = BlockView;

    open spec fn view(&self) -> BlockView {
        BlockView { header: self.header, body: self.body@ }
    }
}

/// More work is preferred, whatever the hashes; of two headers with as much work, the one whose
/// hash is smaller in the first byte that differs is.
pub proof fn law_work_decides_and_then_the_hash(a: HeaderView, b: HeaderView, k: int)
    requires
        0 <= k < 32,
    ensures
        a.total_difficulty.value() > b.total_difficulty.value() ==> a.better_than(b)
            && !b.better_than(a),
        a.total_difficulty.value() == b.total_difficulty.value() && a.header.hash.bytes@[k]
            < b.header.hash.bytes@[k] && (forall|j: int|
            0 <= j < k ==> a.header.hash.bytes@[j] == b.header.hash.bytes@[j]) ==> a.better_than(b)
            && !b.better_than(a),
        a.total_difficulty.value() == b.total_difficulty.value() && a.header.hash == b.header.hash
            ==> !a.better_than(b),
{
    if a.header.hash.bytes@[k] < b.header.hash.bytes@[k] && (forall|j: int|
        0 <= j < k ==> a.header.hash.bytes@[j] == b.header.hash.bytes@[j]) {
        law_first_difference_decides(a.header.hash, b.header.hash, k);
    }
    lemma_before_is_a_strict_order(a.header.hash, a.header.hash, a.header.hash);
}

/// A block stands for its header and its body, whole.
pub proof fn law_what_a_block_stands_for(block: IndexedBlock)
    ensures
        block@.header == block.header,
        block@.body == block.body@,
{
}

/// Headers count as equal exactly where their hashes are.
pub proof fn law_equal_headers(a: IndexedHeader, b: IndexedHeader)
    ensures
        vstd::std_specs::cmp::PartialEqSpec::eq_spec(&a, &b) <==> a.hash.bytes@ == b.hash.bytes@,
{
    if a.hash.bytes@ == b.hash.bytes@ {
        assert(a.hash.bytes =~= b.hash.bytes);
    }
}

} // verus!
