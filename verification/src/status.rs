//! What is known of a block.
use vstd::prelude::*;

verus! {

/// A set of flags that says how far a block has got.
#[derive(Clone, Copy, Debug, PartialEq, Eq, Structural)]
pub struct BlockStatus {
    pub bits: u32,
}

#[allow(non_snake_case)]
impl BlockStatus {
    /// Nothing is known of the block.
    #[verifier::allow_in_spec]
    pub fn UNKNOWN() -> BlockStatus
        returns
            (BlockStatus { bits: 0 }),
    {
        BlockStatus { bits: 0 }
    }

    /// The header is valid.
    #[verifier::allow_in_spec]
    pub fn VALID_HEADER() -> BlockStatus
        returns
            (BlockStatus { bits: 1 }),
    {
        BlockStatus { bits: 1 }
    }

    /// The parents' headers are valid too.
    #[verifier::allow_in_spec]
    pub fn VALID_TREE() -> BlockStatus
        returns
            (BlockStatus { bits: 2 }),
    {
        BlockStatus { bits: 2 }
    }

    /// The transactions are well formed.
    #[verifier::allow_in_spec]
    pub fn VALID_TRANSACTIONS() -> BlockStatus
        returns
            (BlockStatus { bits: 3 }),
    {
        BlockStatus { bits: 3 }
    }

    /// The block fits on its chain.
    #[verifier::allow_in_spec]
    pub fn VALID_CHAIN() -> BlockStatus
        returns
            (BlockStatus { bits: 4 }),
    {
        BlockStatus { bits: 4 }
    }

    /// The scripts are valid.
    #[verifier::allow_in_spec]
    pub fn VALID_SCRIPTS() -> BlockStatus
        returns
            (BlockStatus { bits: 5 }),
    {
        BlockStatus { bits: 5 }
    }

    /// All the flags of validity.
    #[verifier::allow_in_spec]
    pub fn VALID_MASK() -> BlockStatus
        returns
            (BlockStatus { bits: 7 }),
    {
        BlockStatus { bits: 7 }
    }

    /// The block is stored.
    #[verifier::allow_in_spec]
    pub fn BLOCK_HAVE_DATA() -> BlockStatus
        returns
            (BlockStatus { bits: 8 }),
    {
        BlockStatus { bits: 8 }
    }

    /// What undoes the block is stored.
    #[verifier::allow_in_spec]
    pub fn BLOCK_HAVE_UNDO() -> BlockStatus
        returns
            (BlockStatus { bits: 16 }),
    {
        BlockStatus { bits: 16 }
    }

    /// All the flags of storage.
    #[verifier::allow_in_spec]
    pub fn BLOCK_HAVE_MASK() -> BlockStatus
        returns
            (BlockStatus { bits: 24 }),
    {
        BlockStatus { bits: 24 }
    }

    /// The block failed.
    #[verifier::allow_in_spec]
    pub fn FAILED_VALID() -> BlockStatus
        returns
            (BlockStatus { bits: 32 }),
    {
        BlockStatus { bits: 32 }
    }

    /// The block descends from one that failed.
    #[verifier::allow_in_spec]
    pub fn FAILED_CHILD() -> BlockStatus
        returns
            (BlockStatus { bits: 64 }),
    {
        BlockStatus { bits: 64 }
    }

    /// All the flags of failure.
    #[verifier::allow_in_spec]
    pub fn FAILED_MASK() -> BlockStatus
        returns
            (BlockStatus { bits: 96 }),
    {
        BlockStatus { bits: 96 }
    }
}

/// Each mask holds exactly the bits of the flags that it is the mask of.
pub proof fn law_masks_are_unions()
    ensures
        BlockStatus::VALID_MASK().bits == BlockStatus::VALID_HEADER().bits
            | BlockStatus::VALID_TREE().bits | BlockStatus::VALID_TRANSACTIONS().bits
            | BlockStatus::VALID_CHAIN().bits | BlockStatus::VALID_SCRIPTS().bits,
        BlockStatus::BLOCK_HAVE_MASK().bits == BlockStatus::BLOCK_HAVE_DATA().bits
            | BlockStatus::BLOCK_HAVE_UNDO().bits,
        BlockStatus::FAILED_MASK().bits == BlockStatus::FAILED_VALID().bits
            | BlockStatus::FAILED_CHILD().bits,
{
    assert(7u32 == 1u32 | 2u32 | 3u32 | 4u32 | 5u32) by (bit_vector);
    assert(24u32 == 8u32 | 16u32) by (bit_vector);
    assert(96u32 == 32u32 | 64u32) by (bit_vector);
}

impl vstd::std_specs::ops::BitAndSpecImpl for BlockStatus {
    open spec fn obeys_bitand_spec() -> bool {
        true
    }

    open spec fn bitand_req(self, rhs: BlockStatus) -> bool {
        true
    }

    open spec fn bitand_spec(self, rhs: BlockStatus) -> BlockStatus {
        BlockStatus { bits: self.bits & rhs.bits }
    }
}

impl core::ops::BitAnd for BlockStatus {
    type Output = BlockStatus;

    fn bitand(self, rhs: BlockStatus) -> (r: BlockStatus) {
        BlockStatus { bits: self.bits & rhs.bits }
    }
}

/// The bits of each status.
pub proof fn law_bits_of_flags()
    ensures
        BlockStatus::UNKNOWN().bits == 0,
        BlockStatus::VALID_HEADER().bits == 1,
        BlockStatus::VALID_TREE().bits == 2,
        BlockStatus::VALID_TRANSACTIONS().bits == 3,
        BlockStatus::VALID_CHAIN().bits == 4,
        BlockStatus::VALID_SCRIPTS().bits == 5,
        BlockStatus::BLOCK_HAVE_DATA().bits == 8,
        BlockStatus::BLOCK_HAVE_UNDO().bits == 16,
        BlockStatus::FAILED_VALID().bits == 32,
        BlockStatus::FAILED_CHILD().bits == 64,
{
}

/// What two statuses have in common is what their bits have in common.
pub proof fn law_common_flags(a: BlockStatus, b: BlockStatus, bit: u32)
    requires
        bit < 32,
    ensures
        ({
            let common = vstd::std_specs::ops::BitAndSpec::bitand_spec(a, b).bits;
            (common >> bit) & 1 == 1 <==> (a.bits >> bit) & 1 == 1 && (b.bits >> bit) & 1 == 1
        }),
{
    let x = a.bits;
    let y = b.bits;
    assert(((x & y) >> bit) & 1 == 1 <==> (x >> bit) & 1 == 1 && (y >> bit) & 1 == 1)
        by (bit_vector)
        requires
            bit < 32,
    ;
}

} // verus!
