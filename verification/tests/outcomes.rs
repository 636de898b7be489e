use synchronizer::block::{IndexedBlock, IndexedHeader};
use synchronizer::chain::{ChainError, ChainStore};
use synchronizer::config::Config;
use synchronizer::difficulty::U256;
use synchronizer::hash::H256;
use synchronizer::import::{AcceptBlockError, BlockOutcome};
use synchronizer::status::BlockStatus;
use synchronizer::synchronizer::Synchronizer;

fn block(hash: u8, parent_hash: u8, number: u64) -> IndexedBlock {
    IndexedBlock {
        header: IndexedHeader {
            hash: H256 { bytes: [hash; 32] },
            parent_hash: H256 { bytes: [parent_hash; 32] },
            number,
            timestamp: 1000 * number,
            difficulty: U256 { limbs: [10, 0, 0, 0] },
        },
        body: vec![hash],
    }
}

fn node() -> Synchronizer {
    let chain = ChainStore::new(
        block(1, 0, 0),
        U256 { limbs: [10, 0, 0, 0] },
        H256 { bytes: [101; 32] },
    );
    let config = Config {
        orphan_block_limit: 16,
        max_headers_len: 10,
        max_tip_age: 500,
        headers_download_timeout_base: 90,
        headers_download_timeout_per_header: 7,
        pow_space: 100,
        max_outbound_peers_to_protect: 1,
    };
    Synchronizer::new(chain, config)
}

fn processed(work: u64) -> BlockOutcome<&'static str, u32> {
    BlockOutcome::Processed {
        total_difficulty: U256 { limbs: [work, 0, 0, 0] },
        output_root: H256 { bytes: [102; 32] },
        new_tip: true,
    }
}

#[test]
fn accepted_blocks() {
    let mut synchronizer = node();
    assert_eq!(synchronizer.accept_block(4, block(2, 1, 1), processed(20)), Ok(()));
    let hash = H256 { bytes: [2; 32] };
    assert_eq!(synchronizer.tip_header().hash, hash);
    assert_eq!(synchronizer.get_block_status(&hash), BlockStatus::BLOCK_HAVE_MASK());
    assert_eq!(synchronizer.peers().last_common_header(4).unwrap().hash, hash);
    assert_eq!(synchronizer.chain.output_root(&hash), Some(H256 { bytes: [102; 32] }));
    assert_eq!(synchronizer.chain.block_ext(&hash).unwrap().limbs, [20, 0, 0, 0]);
    // a block that is stored already is accepted again, and changes nothing of the chain
    assert_eq!(synchronizer.accept_block(5, block(2, 1, 1), processed(99)), Ok(()));
    assert_eq!(synchronizer.chain.block_ext(&hash).unwrap().limbs, [20, 0, 0, 0]);
    assert_eq!(synchronizer.peers().last_common_header(5).unwrap().hash, hash);
}

#[test]
fn refused_blocks() {
    let mut synchronizer = node();
    assert_eq!(
        synchronizer.accept_block(
            4,
            block(2, 1, 1),
            BlockOutcome::<&'static str, u32>::VerificationFailed("bad seal")
        ),
        Err(AcceptBlockError::Verification("bad seal"))
    );
    assert_eq!(
        synchronizer.accept_block(
            4,
            block(2, 1, 1),
            BlockOutcome::<&'static str, u32>::ProcessingFailed(17)
        ),
        Err(AcceptBlockError::Chain(17))
    );
    // a block that has no place on the chain
    assert_eq!(
        synchronizer.accept_block(4, block(3, 2, 2), processed(30)),
        Err(AcceptBlockError::Misplaced(ChainError::UnknownParent))
    );
    assert_eq!(
        synchronizer.accept_block(4, block(2, 1, 7), processed(30)),
        Err(AcceptBlockError::Misplaced(ChainError::WrongNumber))
    );
    assert_eq!(synchronizer.tip_header().number, 0);
    assert!(synchronizer.peers().last_common_header(4).is_none());
    let hash = H256 { bytes: [2; 32] };
    assert_eq!(synchronizer.get_block_status(&hash), BlockStatus::UNKNOWN());
}

#[test]
fn refused_block_that_arrived_brings_nothing() {
    let mut synchronizer = node();
    assert!(synchronizer.insert_new_block(1, block(3, 2, 2)).is_none());
    let pending = synchronizer.insert_new_block(1, block(2, 1, 1)).unwrap();
    assert!(synchronizer
        .resume_import(pending, BlockOutcome::<&'static str, u32>::ProcessingFailed(17))
        .is_none());
    // its child still waits for it
    let pending = synchronizer.insert_new_block(1, block(2, 1, 1)).unwrap();
    let pending = synchronizer.resume_import(pending, processed(20)).unwrap();
    assert_eq!(pending.block.header.hash, H256 { bytes: [3; 32] });
    assert!(synchronizer.resume_import(pending, processed(30)).is_none());
    assert_eq!(synchronizer.tip_header().number, 2);
}

#[test]
fn places_among_the_stored_blocks() {
    let synchronizer = node();
    assert!(synchronizer.has_place(&block(1, 0, 0).header));
    assert!(synchronizer.has_place(&block(2, 1, 1).header));
    assert!(!synchronizer.has_place(&block(2, 1, 0).header));
    assert!(!synchronizer.has_place(&block(2, 1, 2).header));
    assert!(!synchronizer.has_place(&block(3, 2, 1).header));
}

#[test]
fn storing_without_a_place() {
    let mut synchronizer = node();
    let work = U256 { limbs: [20, 0, 0, 0] };
    let root = H256 { bytes: [102; 32] };
    assert_eq!(
        synchronizer.chain.store(block(3, 2, 2), work, root, true),
        Err(ChainError::UnknownParent)
    );
    assert_eq!(
        synchronizer.chain.store(block(2, 1, 2), work, root, true),
        Err(ChainError::WrongNumber)
    );
    assert_eq!(synchronizer.chain.store(block(2, 1, 1), work, root, true), Ok(()));
    assert_eq!(synchronizer.chain.tip_header().total_difficulty.limbs, [20, 0, 0, 0]);
}

#[test]
fn time_until_headers_are_due() {
    let mut synchronizer = node();
    let mut tip = synchronizer.tip_header();
    tip.timestamp = 3000;
    // 90 + 7 * (1999 / 100)
    assert_eq!(synchronizer.get_headers_sync_timeout(&tip, 4999), 223);
    assert_eq!(synchronizer.get_headers_sync_timeout(&tip, 5000), 230);
    assert_eq!(synchronizer.get_headers_sync_timeout(&tip, 3000), 90);
    // a tip from the future
    assert_eq!(synchronizer.get_headers_sync_timeout(&tip, 10), 90);
    synchronizer.config.pow_space = 1;
    assert_eq!(synchronizer.get_headers_sync_timeout(&tip, 3002), 104);
}

#[test]
fn catching_up() {
    let mut synchronizer = node();
    assert!(!synchronizer.is_initial_block_download(500));
    assert!(synchronizer.is_initial_block_download(501));
    assert_eq!(synchronizer.accept_block(4, block(2, 1, 1), processed(20)), Ok(()));
    assert!(!synchronizer.is_initial_block_download(501));
    assert!(!synchronizer.is_initial_block_download(1500));
    assert!(synchronizer.is_initial_block_download(1501));
}
