//! The state of a node that keeps its chain in step with its peers.
use crate::block::{HeaderView, IndexedBlock, IndexedHeader};
use crate::chain::{ChainStore, ChainView};
use crate::config::Config;
use crate::hash::H256;
use crate::peers::{Peers, PeersView};
use crate::pool::{orphans_wf, OrphanBlockPool, Orphans};
use crate::status::BlockStatus;
use crate::table::HashTable;
use vstd::prelude::*;

verus! {

/// The status of blocks by hash.
pub type BlockStatusMap = HashTable<BlockStatus>;

/// Headers whose blocks are not stored yet, by hash.
pub type BlockHeaderMap = HashTable<HeaderView>;

/// A node that keeps its chain in step with its peers.
pub struct Synchronizer {
    pub chain: ChainStore,
    pub status_map: BlockStatusMap,
    pub header_map: BlockHeaderMap,
    pub best_known_header: HeaderView,
    /// How many peers synchronizing was started with.
    pub n_sync: usize,
    pub peers: Peers,
    pub config: Config,
    pub orphan_block_pool: OrphanBlockPool,
    pub outbound_peers_with_protect: usize,
}

/// What a node knows.
#[verifier::ext_equal]
pub struct SyncView {
    pub chain: ChainView,
    pub status: Map<H256, BlockStatus>,
    pub headers: Map<H256, HeaderView>,
    pub best: HeaderView,
    pub n_sync: usize,
    pub peers: PeersView,
    pub config: Config,
    pub orphans: Orphans,
    pub protected: usize,
}

/// The header found under `hash` with the work behind it: among those that peers sent, else
/// among those of stored blocks.
pub open spec fn header_view_in(
    headers: Map<H256, HeaderView>,
    chain: ChainView,
    hash: H256,
) -> Option<HeaderView> {
    if headers.contains_key(hash) {
        Some(headers[hash])
    } else if chain.entries.contains_key(hash) && chain.entries[hash].total_difficulty is Some {
        Some(
            HeaderView {
                header: chain.entries[hash].header,
                total_difficulty: chain.entries[hash].total_difficulty->0,
            },
        )
    } else {
        None
    }
}

impl SyncView {
    /// The header known under `hash`: one that a peer sent, else that of a stored block.
    pub open spec fn header(self, hash: H256) -> Option<IndexedHeader> {
        if self.headers.contains_key(hash) {
            Some(self.headers[hash].header)
        } else {
            self.chain.header(hash)
        }
    }

    /// The header known under `hash` with the work behind it, where that is known.
    pub open spec fn header_view(self, hash: H256) -> Option<HeaderView> {
        header_view_in(self.headers, self.chain, hash)
    }

    /// What is known of a block. A stored block is known to be stored.
    pub open spec fn status_of(self, hash: H256) -> BlockStatus {
        if self.status.contains_key(hash) {
            self.status[hash]
        } else if self.chain.entries.contains_key(hash) {
            BlockStatus::BLOCK_HAVE_MASK()
        } else {
            BlockStatus::UNKNOWN()
        }
    }

    pub open spec fn with_status(self, hash: H256, status: BlockStatus) -> SyncView {
        SyncView { status: self.status.insert(hash, status), ..self }
    }

    /// The status of the block has been asked for: that it is stored is noted.
    pub open spec fn with_status_noted(self, hash: H256) -> SyncView {
        if self.chain.entries.contains_key(hash) {
            self.with_status(hash, self.status_of(hash))
        } else {
            self
        }
    }

    /// Headers are filed under their hashes.
    pub open spec fn headers_are_filed(self) -> bool {
        forall|hash: H256| #[trigger]
            self.headers.contains_key(hash) ==> self.headers[hash].header.hash == hash
    }

    /// A header that a peer sent is the one stored with its block, once the block is stored.
    pub open spec fn headers_agree(self) -> bool {
        forall|hash: H256|
            #![trigger self.headers[hash]]
            #![trigger self.chain.entries[hash]]
            self.headers.contains_key(hash) && self.chain.entries.contains_key(hash)
                ==> self.headers[hash].header == self.chain.entries[hash].header
    }

    /// If a header is known under the hash of `header`, it is `header`.
    pub open spec fn agrees_on(self, header: IndexedHeader) -> bool {
        self.header(header.hash) matches Some(known) ==> known == header
    }

    /// Every header that a peer sent follows a known one.
    pub open spec fn parents_are_known(self) -> bool {
        forall|hash: H256|
            self.headers.contains_key(hash) ==> (#[trigger] header_view_in(
                self.headers,
                self.chain,
                self.headers[hash].header.parent_hash,
            )) is Some
    }

    /// No header that a peer sent is better than the best one.
    pub open spec fn best_is_best(self) -> bool {
        forall|hash: H256| #[trigger]
            self.headers.contains_key(hash) ==> !self.headers[hash].better_than(self.best)
    }

    pub open spec fn wf(self) -> bool {
        &&& self.chain.wf()
        &&& self.headers_are_filed()
        &&& self.headers_agree()
        &&& self.parents_are_known()
        &&& self.best_is_best()
        &&& orphans_wf(self.orphans)
        &&& self.config.wf()
    }

    /// The node is far behind the present.
    pub open spec fn is_catching_up(self, now: u64) -> bool {
        Config::age(self.chain.tip().timestamp, now) > self.config.max_tip_age
    }
}

/// The status that was set last is the one that is known, and that of other blocks is not
/// touched.
pub proof fn law_status_is_read_back(view: SyncView, hash: H256, status: BlockStatus)
    ensures
        view.with_status(hash, status).status_of(hash) == status,
        forall|other: H256|
            other != hash ==> #[trigger] view.with_status(hash, status).status_of(other)
                == view.status_of(other),
{
}

/// Asking for the status of a block changes no status, and asking again changes nothing at all.
pub proof fn law_asking_changes_no_status(view: SyncView, hash: H256)
    ensures
        forall|other: H256| #[trigger]
            view.with_status_noted(hash).status_of(other) == view.status_of(other),
        view.with_status_noted(hash).with_status_noted(hash) == view.with_status_noted(hash),
{
    let noted = view.with_status_noted(hash);
    assert(noted.with_status_noted(hash) =~= noted);
}

/// A node whose chain has just been loaded knows every stored block as stored, and no other.
pub proof fn law_stored_blocks_are_known(view: SyncView, hash: H256)
    requires
        view.status == Map::<H256, BlockStatus>::empty(),
    ensures
        view.status_of(hash) == (if view.chain.entries.contains_key(hash) {
            BlockStatus::BLOCK_HAVE_MASK()
        } else {
            BlockStatus::UNKNOWN()
        }),
{
}

impl View for Synchronizer {
    type V = SyncView;

    open spec fn view(&self) -> SyncView {
        SyncView {
            chain: self.chain@,
            status: self.status_map@,
            headers: self.header_map@,
            best: self.best_known_header,
            n_sync: self.n_sync,
            peers: self.peers@,
            config: self.config,
            orphans: self.orphan_block_pool@,
            protected: self.outbound_peers_with_protect,
        }
    }
}

impl Synchronizer {
    pub open spec fn wf(&self) -> bool {
        &&& self@.wf()
        &&& self.chain.wf()
    }

    /// A node that knows its chain and no peers.
    pub fn new(chain: ChainStore, config: Config) -> (r: Synchronizer)
        requires
            chain.wf(),
            config.wf(),
        ensures
            r.wf(),
            r@ == (SyncView {
                chain: chain@,
                status: Map::empty(),
                headers: Map::empty(),
                best: HeaderView {
                    header: chain@.tip(),
                    total_difficulty: chain@.tip_difficulty,
                },
                n_sync: 0,
                peers: PeersView::none(),
                config,
                orphans: Map::empty(),
                protected: 0,
            }),
    {
        let tip = chain.tip_header();
        let best_known_header = HeaderView::new(tip.header, tip.total_difficulty);
        let orphan_block_limit: usize = config.orphan_block_limit;
        Synchronizer {
            chain,
            status_map: HashTable::new(),
            header_map: HashTable::new(),
            best_known_header,
            n_sync: 0,
            peers: Peers::default(),
            config,
            orphan_block_pool: OrphanBlockPool::with_capacity(orphan_block_limit),
            outbound_peers_with_protect: 0,
        }
    }

    /// What is known of a block. Where the block turns out to be stored, that is noted.
    pub fn get_block_status(&mut self, hash: &H256) -> (r: BlockStatus)
        requires
            old(self).wf(),
        ensures
            final(self).wf(),
            r == old(self)@.status_of(*hash),
            final(self)@ == old(self)@.with_status_noted(*hash),
    {
        let known = match self.status_map.get(hash) {
            Some(status) => Some(*status),
            None => None,
        };
        match known {
            Some(status) => {
                assert(self@.status.insert(*hash, status) =~= self@.status);
                status
            },
            None => if self.chain.block_header(hash).is_some() {
                self.status_map.insert(*hash, BlockStatus::BLOCK_HAVE_MASK());
                BlockStatus::BLOCK_HAVE_MASK()
            } else {
                BlockStatus::UNKNOWN()
            },
        }
    }

    /// The peers.
    pub fn peers(&self) -> (r: &Peers)
        ensures
            *r == self.peers,
    {
        &self.peers
    }

    /// Sets what is known of a block.
    pub fn insert_block_status(&mut self, hash: H256, status: BlockStatus)
        requires
            old(self).wf(),
        ensures
            final(self).wf(),
            final(self)@ == old(self)@.with_status(hash, status),
    {
        self.status_map.insert(hash, status);
    }

    /// Notes that a block is stored.
    pub fn mark_block_stored(&mut self, hash: H256)
        requires
            old(self).wf(),
        ensures
            final(self).wf(),
            final(self)@ == old(self)@.with_status(hash, BlockStatus::BLOCK_HAVE_MASK()),
    {
        self.status_map.insert(hash, BlockStatus::BLOCK_HAVE_MASK());
    }

    /// The best header known, from whatever peer.
    pub fn best_known_header(&self) -> (r: HeaderView)
        ensures
            r == self@.best,
    {
        self.best_known_header
    }

    /// Whether the node is still far behind the present, `now`.
    pub fn is_initial_block_download(&self, now: u64) -> (r: bool)
        requires
            self.wf(),
        ensures
            r == self@.is_catching_up(now),
    {
        now.saturating_sub(self.chain.tip_header().header.timestamp) > self.config.max_tip_age
    }

    /// Whether the time that a peer has to deliver the headers from `tip` up to the present,
    /// `now`, can be counted in 64 bits.
    pub fn timeout_fits(&self, tip: &IndexedHeader, now: u64) -> (r: bool)
        requires
            self.wf(),
        ensures
            r == (self@.config.headers_sync_timeout(tip.timestamp, now) <= u64::MAX),
    {
        let headers: u64 = now.saturating_sub(tip.timestamp) / self.config.pow_space;
        let per_header: u64 = self.config.headers_download_timeout_per_header;
        let base: u64 = self.config.headers_download_timeout_base;
        match per_header.checked_mul(headers) {
            Some(time) => base.checked_add(time).is_some(),
            None => false,
        }
    }

    /// How long a peer has to deliver the headers from `tip` up to the present, `now`.
    pub fn get_headers_sync_timeout(&self, tip: &IndexedHeader, now: u64) -> (r: u64)
        requires
            self.wf(),
            self@.config.headers_sync_timeout(tip.timestamp, now) <= u64::MAX,
        ensures
            r == self@.config.headers_sync_timeout(tip.timestamp, now),
    {
        let headers: u64 = now.saturating_sub(tip.timestamp) / self.config.pow_space;
        proof {
            let per_header = self.config.headers_download_timeout_per_header;
            assert(0 <= per_header * headers) by (nonlinear_arith);
        }
        self.config.headers_download_timeout_base
            + self.config.headers_download_timeout_per_header * headers
    }

    /// The last header of the main chain.
    pub fn tip_header(&self) -> (r: IndexedHeader)
        requires
            self.wf(),
        ensures
            r == self@.chain.tip(),
    {
        self.chain.tip_header().header
    }

    /// A header with the work behind it: one that a peer sent, else that of a stored block.
    pub fn get_header_view(&self, hash: &H256) -> (r: Option<HeaderView>)
        ensures
            r == self@.header_view(*hash),
    {
        match self.header_map.get(hash) {
            Some(view) => Some(*view),
            None => match self.chain.block_header(hash) {
                Some(header) => match self.chain.block_ext(hash) {
                    Some(total_difficulty) => Some(HeaderView::new(header, total_difficulty)),
                    None => None,
                },
                None => None,
            },
        }
    }

    /// A header: one that a peer sent, else that of a stored block.
    pub fn get_header(&self, hash: &H256) -> (r: Option<IndexedHeader>)
        ensures
            r == self@.header(*hash),
    {
        match self.header_map.get(hash) {
            Some(view) => Some(view.header),
            None => self.chain.block_header(hash),
        }
    }

    /// Whether no other header is known under the hash of `header`.
    pub fn agrees_on(&self, header: &IndexedHeader) -> (r: bool)
        ensures
            r == self@.agrees_on(*header),
    {
        match self.get_header(&header.hash) {
            Some(known) => known.is_same(header),
            None => true,
        }
    }

    /// A stored block.
    pub fn get_block(&self, hash: &H256) -> (r: Option<IndexedBlock>)
        ensures
            match r {
                Some(block) => {
                    &&& self@.chain.entries.contains_key(*hash)
                    &&& self@.chain.entries[*hash].body == Some(block@.body)
                    &&& self@.chain.entries[*hash].header == block@.header
                },
                None => !self@.chain.entries.contains_key(*hash)
                    || self@.chain.entries[*hash].body is None,
            },
    {
        self.chain.block(hash)
    }
}

/// The header known under a hash is the one that a peer sent, else the one stored with its block,
/// on the main chain or beside it, else there is none.
pub proof fn law_known_header(view: SyncView, hash: H256)
    ensures
        view.headers.contains_key(hash) ==> view.header(hash) == Some(view.headers[hash].header),
        !view.headers.contains_key(hash) && view.chain.entries.contains_key(hash) ==> view.header(
            hash,
        ) == Some(view.chain.entries[hash].header),
        !view.headers.contains_key(hash) && !view.chain.entries.contains_key(hash) ==> view.header(
            hash,
        ) is None,
{
}

/// The work behind a header is the one filed with it, else the one stored with its block, on the
/// main chain or beside it, else it is not known.
pub proof fn law_known_work(view: SyncView, hash: H256)
    ensures
        view.headers.contains_key(hash) ==> view.header_view(hash) == Some(view.headers[hash]),
        !view.headers.contains_key(hash) && view.chain.entries.contains_key(hash) ==> match (
            view.chain.entries[hash].total_difficulty,
            view.header_view(hash),
        ) {
            (Some(work), Some(known)) => known.header == view.chain.entries[hash].header
                && known.total_difficulty == work,
            (None, None) => true,
            _ => false,
        },
        !view.headers.contains_key(hash) && !view.chain.entries.contains_key(hash)
            ==> view.header_view(hash) is None,
{
}

/// What is known of a block is what was noted last, else that it is stored, else nothing.
pub proof fn law_known_status(view: SyncView, hash: H256)
    ensures
        view.status.contains_key(hash) ==> view.status_of(hash) == view.status[hash],
        !view.status.contains_key(hash) && view.chain.entries.contains_key(hash)
            ==> view.status_of(hash).bits == 8 | 16,
        !view.status.contains_key(hash) && !view.chain.entries.contains_key(hash)
            ==> view.status_of(hash).bits == 0,
{
    assert(24u32 == 8u32 | 16u32) by (bit_vector);
}

/// Setting the status of a block sets that one, and nothing else of what a node knows. Asking for
/// it sets it to what is known, and only where the block is stored.
pub proof fn law_status_alone_is_set(view: SyncView, hash: H256, status: BlockStatus)
    ensures
        view.with_status(hash, status) == (SyncView {
            status: view.status.insert(hash, status),
            ..view
        }),
        view.chain.entries.contains_key(hash) ==> view.with_status_noted(hash) == (SyncView {
            status: view.status.insert(hash, view.status_of(hash)),
            ..view
        }),
        !view.chain.entries.contains_key(hash) ==> view.with_status_noted(hash) == view,
{
}

/// A node is catching up exactly where its tip is older than the settings allow.
pub proof fn law_when_a_node_is_catching_up(view: SyncView, now: u64)
    requires
        view.chain.main.len() > 0,
    ensures
        view.is_catching_up(now) <==> view.chain.entries[view.chain.main[view.chain.main.len()
            - 1]].header.timestamp + view.config.max_tip_age < now,
{
}

/// A header is agreed on where none is known under its hash, or the known one is the same.
pub proof fn law_what_is_agreed_on(view: SyncView, header: IndexedHeader)
    ensures
        view.header(header.hash) is None ==> view.agrees_on(header),
        view.header(header.hash) == Some(header) ==> view.agrees_on(header),
        view.agrees_on(header) ==> view.header(header.hash) is None || view.header(header.hash)
            == Some(header),
{
}

/// What a node knows is in order wherever its chain is, blocks take time, filed headers have their
/// hashes, agree with the stored ones, follow known ones and are not better than the best one, and
/// blocks wait for their parents once.
pub proof fn law_node_is_in_order(view: SyncView)
    requires
        view.chain.wf(),
        view.config.pow_space > 0,
        forall|hash: H256| #[trigger]
            view.headers.contains_key(hash) ==> {
                let filed = view.headers[hash];
                let parent = filed.header.parent_hash;
                &&& filed.header.hash == hash
                &&& view.chain.entries.contains_key(hash) ==> filed.header
                    == view.chain.entries[hash].header
                &&& view.header_view(parent) is Some
                &&& !filed.better_than(view.best)
            },
        orphans_wf(view.orphans),
    ensures
        view.wf(),
{
    assert forall|hash: H256| view.headers.contains_key(hash) implies (#[trigger] header_view_in(
        view.headers,
        view.chain,
        view.headers[hash].header.parent_hash,
    )) is Some by {
        assert(view.header_view(view.headers[hash].header.parent_hash) is Some);
    }
}

/// A node stands for all that it holds.
pub proof fn law_what_a_node_stands_for(node: Synchronizer)
    ensures
        node@.chain == node.chain@,
        node@.status == node.status_map@,
        node@.headers == node.header_map@,
        node@.best == node.best_known_header,
        node@.n_sync == node.n_sync,
        node@.peers == node.peers@,
        node@.config == node.config,
        node@.orphans == node.orphan_block_pool@,
        node@.protected == node.outbound_peers_with_protect,
{
}

} // verus!
