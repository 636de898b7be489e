//! Messages to peers.
use crate::hash::H256;
use crate::peers::PeerId;
use vstd::prelude::*;

verus! {

/// The bytes of the hashes, one hash after the other.
pub open spec fn concat(hashes: Seq<H256>) -> Seq<u8> {
    Seq::new(hashes.len() * 32, |i: int| hashes[i / 32].bytes@[i % 32])
}

/// A request to a peer.
#[derive(Debug)]
pub enum SyncMessage {
    /// Asks for the headers after the last block that the locator shows to be common.
    GetHeaders {
        version: u32,
        /// The hashes of the locator, one after the other.
        block_locator_hashes: Vec<u8>,
        /// The hash of the block before which the answer is to end.
        hash_stop: Option<Vec<u8>>,
    },
    /// Asks for blocks.
    GetBlocks {
        /// The hashes of the blocks, one after the other.
        block_hashes: Vec<u8>,
    },
}

/// A message on its way to a peer.
#[derive(Debug)]
pub struct Outgoing {
    pub peer: PeerId,
    pub packet_id: u8,
    pub message: SyncMessage,
}

impl Outgoing {
    /// The message asks `peer` for the headers that follow `locator`, without an end.
    pub open spec fn asks_headers(&self, peer: PeerId, locator: Seq<H256>) -> bool {
        &&& self.peer == peer
        &&& self.packet_id == 0
        &&& self.message matches SyncMessage::GetHeaders {
            version,
            block_locator_hashes,
            hash_stop,
        } && version == 0 && block_locator_hashes@ == concat(locator) && hash_stop is None
    }

    /// The message asks `peer` for the blocks `hashes`.
    pub open spec fn asks_blocks(&self, peer: PeerId, hashes: Seq<H256>) -> bool {
        &&& self.peer == peer
        &&& self.packet_id == 0
        &&& self.message matches SyncMessage::GetBlocks { block_hashes } && block_hashes@
            == concat(hashes)
    }
}

/// The bytes of the hashes determine the hashes.
pub proof fn law_hashes_can_be_read_back(a: Seq<H256>, b: Seq<H256>)
    requires
        concat(a) == concat(b),
    ensures
        a == b,
{
    assert(concat(a).len() == a.len() * 32);
    assert(concat(b).len() == b.len() * 32);
    assert(a.len() == b.len());
    assert forall|k: int| 0 <= k < a.len() implies a[k] == b[k] by {
        assert forall|j: int| 0 <= j < 32 implies a[k].bytes@[j] == b[k].bytes@[j] by {
            let i: int = k * 32 + j;
            assert(i / 32 == k && i % 32 == j);
            assert(concat(a)[i] == a[k].bytes@[j]);
            assert(concat(b)[i] == b[k].bytes@[j]);
        }
        assert(a[k].bytes =~= b[k].bytes);
    }
    assert(a =~= b);
}

/// The bytes of the hashes, one hash after the other.
pub fn concat_hashes(hashes: &[H256]) -> (r: Vec<u8>)
    ensures
        r@ == concat(hashes@),
{
    let mut r: Vec<u8> = Vec::new();
    let mut k: usize = 0;
    while k < hashes.len()
        invariant
            k <= hashes@.len(),
            r@ =~= concat(hashes@.take(k as int)),
        decreases hashes@.len() - k,
    {
        let ghost done = r@;
        let mut j: usize = 0;
        while j < 32
            invariant
                j <= 32,
                k < hashes@.len(),
                r@ =~= done + hashes@[k as int].bytes@.take(j as int),
            decreases 32 - j,
        {
            r.push(hashes[k].bytes[j]);
            j = j + 1;
        }
        proof {
            let first = hashes@.take(k as int);
            let more = hashes@.take(k + 1);
            assert forall|i: int| 0 <= i < more.len() * 32 implies r@[i] == concat(more)[i] by {
                if i < first.len() * 32 {
                    assert(first[i / 32] == more[i / 32]);
                    assert(r@[i] == done[i]);
                } else {
                    assert(i / 32 == k);
                    assert(i % 32 == i - k * 32);
                }
            }
            assert(r@ =~= concat(more));
        }
        k = k + 1;
    }
    assert(hashes@.take(hashes@.len() as int) =~= hashes@);
    r
}

/// The bytes of a request are the hashes in their order: cut into pieces of 32, they read the same
/// list back.
pub proof fn law_bytes_are_the_hashes_in_order(hashes: Seq<H256>)
    ensures
        concat(hashes).len() == 32 * hashes.len(),
        forall|k: int|
            0 <= k < hashes.len() ==> concat(hashes).subrange(32 * k, 32 * k + 32) == (
            #[trigger] hashes[k]).bytes@,
{
    assert forall|k: int| 0 <= k < hashes.len() implies concat(hashes).subrange(
        32 * k,
        32 * k + 32,
    ) == (#[trigger] hashes[k]).bytes@ by {
        let piece = concat(hashes).subrange(32 * k, 32 * k + 32);
        assert forall|j: int| 0 <= j < 32 implies piece[j] == hashes[k].bytes@[j] by {
            let i: int = 32 * k + j;
            assert(i / 32 == k && i % 32 == j);
            assert(concat(hashes)[i] == hashes[k].bytes@[j]);
        }
        assert(piece =~= hashes[k].bytes@);
    }
}

/// The bytes of two lists of hashes, one after the other, are those of the lists joined, and the
/// bytes of one hash are its own.
pub proof fn law_bytes_are_joined_as_hashes_are(a: Seq<H256>, b: Seq<H256>, hash: H256)
    ensures
        concat(a + b) == concat(a) + concat(b),
        concat(seq![hash]) == hash.bytes@,
{
    law_bytes_are_the_hashes_in_order(seq![hash]);
    assert(seq![hash][0] == hash);
    assert(concat(seq![hash]) =~= concat(seq![hash]).subrange(0, 32));
    let joined = concat(a) + concat(b);
    assert forall|i: int| 0 <= i < joined.len() implies concat(a + b)[i] == joined[i] by {
        if i >= 32 * a.len() {
            let at = i - 32 * a.len();
            assert(i / 32 == a.len() + at / 32 && i % 32 == at % 32);
        }
    }
    assert(concat(a + b) =~= joined);
}

/// A request for headers goes to the peer as packet 0, has version 0, carries the hashes of the
/// locator in their order, and names no end.
pub proof fn law_request_for_headers(request: Outgoing, peer: PeerId, locator: Seq<H256>)
    requires
        request.asks_headers(peer, locator),
    ensures
        request.peer == peer,
        request.packet_id == 0,
        match request.message {
            SyncMessage::GetHeaders { version, block_locator_hashes, hash_stop } => {
                &&& version == 0
                &&& hash_stop is None
                &&& block_locator_hashes@.len() == 32 * locator.len()
                &&& forall|k: int|
                    0 <= k < locator.len() ==> block_locator_hashes@.subrange(32 * k, 32 * k + 32)
                        == (#[trigger] locator[k]).bytes@
            },
            SyncMessage::GetBlocks { .. } => false,
        },
{
    law_bytes_are_the_hashes_in_order(locator);
}

/// A request for blocks goes to the peer as packet 0 and carries their hashes in their order.
pub proof fn law_request_for_blocks(request: Outgoing, peer: PeerId, hashes: Seq<H256>)
    requires
        request.asks_blocks(peer, hashes),
    ensures
        request.peer == peer,
        request.packet_id == 0,
        match request.message {
            SyncMessage::GetBlocks { block_hashes } => {
                &&& block_hashes@.len() == 32 * hashes.len()
                &&& forall|k: int|
                    0 <= k < hashes.len() ==> block_hashes@.subrange(32 * k, 32 * k + 32) == (
                    #[trigger] hashes[k]).bytes@
            },
            SyncMessage::GetHeaders { .. } => false,
        },
{
    law_bytes_are_the_hashes_in_order(hashes);
}

} // verus!
