use synchronizer::block::{IndexedBlock, IndexedHeader};
use synchronizer::chain::ChainStore;
use synchronizer::config::Config;
use synchronizer::difficulty::U256;
use synchronizer::hash::H256;
use synchronizer::import::BlockOutcome;
use synchronizer::peers::PeerId;
use synchronizer::status::BlockStatus;
use synchronizer::synchronizer::Synchronizer;

const DIFFICULTY: u64 = 1000;

fn settings() -> Config {
    Config {
        orphan_block_limit: 1024,
        max_headers_len: 2000,
        max_tip_age: 60 * 60 * 1000,
        headers_download_timeout_base: 6 * 60 * 1000,
        headers_download_timeout_per_header: 10,
        pow_space: 10 * 1000,
        max_outbound_peers_to_protect: 4,
    }
}

fn u256(value: u64) -> U256 {
    U256 { limbs: [value, 0, 0, 0] }
}

/// Mixes the fields of a header into a hash, so that different headers get different ones.
fn hash_of(parent_hash: &H256, number: u64, timestamp: u64, nonce: u64) -> H256 {
    let mut bytes = [0u8; 32];
    for (lane, chunk) in bytes.chunks_mut(8).enumerate() {
        let mut state: u64 = 0xcbf29ce484222325 ^ (lane as u64 + 1);
        for byte in parent_hash.bytes.iter() {
            state = (state ^ *byte as u64).wrapping_mul(0x100000001b3);
        }
        for word in [number, timestamp, nonce].iter() {
            state = (state ^ *word).wrapping_mul(0x9e3779b97f4a7c15);
            state ^= state >> 29;
        }
        chunk.copy_from_slice(&state.to_be_bytes());
    }
    H256 { bytes }
}

fn genesis_block() -> IndexedBlock {
    let parent_hash = H256::zero();
    IndexedBlock {
        header: IndexedHeader {
            hash: hash_of(&parent_hash, 0, 0, 0),
            parent_hash,
            number: 0,
            timestamp: 0,
            difficulty: u256(DIFFICULTY),
        },
        body: vec![],
    }
}

fn gen_chain() -> ChainStore {
    ChainStore::new(genesis_block(), u256(DIFFICULTY), H256::zero())
}

fn gen_block(parent_header: &IndexedHeader, difficulty: U256, nonce: u64) -> IndexedBlock {
    let timestamp = 1 + parent_header.timestamp;
    let number = parent_header.number + 1;
    IndexedBlock {
        header: IndexedHeader {
            hash: hash_of(&parent_header.hash, number, timestamp, nonce),
            parent_hash: parent_header.hash,
            number,
            timestamp,
            difficulty,
        },
        body: nonce.to_be_bytes().to_vec(),
    }
}

fn copy_of(block: &IndexedBlock) -> IndexedBlock {
    IndexedBlock { header: block.header, body: block.body.clone() }
}

/// What a chain that accepts every well-placed block makes of one: it becomes the tip if there
/// is more work behind it.
fn outcome_of(chain: &ChainStore, block: &IndexedBlock) -> BlockOutcome<u8, u8> {
    match chain.block_ext(&block.header.parent_hash) {
        Some(parent) => {
            let total = parent.limbs[0] + block.header.difficulty.limbs[0];
            BlockOutcome::Processed {
                total_difficulty: u256(total),
                output_root: block.header.hash,
                new_tip: total > chain.tip_header().total_difficulty.limbs[0],
            }
        }
        None => BlockOutcome::ProcessingFailed(1),
    }
}

fn process_block(chain: &mut ChainStore, block: &IndexedBlock) {
    match outcome_of(chain, block) {
        BlockOutcome::Processed { total_difficulty, output_root, new_tip } => {
            chain
                .store(copy_of(block), total_difficulty, output_root, new_tip)
                .expect("process block ok");
        }
        _ => panic!("process block ok"),
    }
}

fn insert_block(chain: &mut ChainStore, nonce: u64, number: u64) {
    let parent = chain
        .block_header(&chain.block_hash(number - 1).unwrap())
        .unwrap();
    let block = gen_block(&parent, u256(DIFFICULTY), nonce);
    process_block(chain, &block);
}

fn insert_new_block(synchronizer: &mut Synchronizer, peer: PeerId, block: IndexedBlock) {
    let mut pending = synchronizer.insert_new_block(peer, block);
    while let Some(next) = pending {
        let outcome = outcome_of(&synchronizer.chain, &next.block);
        pending = synchronizer.resume_import(next, outcome);
    }
}

fn process_new_block(synchronizer: &mut Synchronizer, peer: PeerId, block: IndexedBlock) {
    let mut pending = synchronizer.process_new_block(peer, block);
    while let Some(next) = pending {
        let outcome = outcome_of(&synchronizer.chain, &next.block);
        pending = synchronizer.resume_import(next, outcome);
    }
}

#[test]
fn test_locator() {
    let mut chain = gen_chain();

    let num = 200;
    let index = [
        199, 198, 197, 196, 195, 194, 193, 192, 191, 190, 188, 184, 176, 160, 128, 64,
    ];

    for i in 1..num {
        insert_block(&mut chain, i, i);
    }

    let synchronizer = Synchronizer::new(chain, settings());
    let chain = &synchronizer.chain;

    let locator = synchronizer.get_locator(&chain.tip_header().header);

    let mut expect = Vec::new();

    for i in index.iter() {
        expect.push(chain.block_hash(*i).unwrap());
    }
    //genesis_hash must be the last one
    expect.push(chain.genesis_hash());

    assert_eq!(expect, locator);
}

#[test]
fn test_locate_latest_common_block() {
    let mut chain1 = gen_chain();
    let mut chain2 = gen_chain();
    let num = 200;

    for i in 1..num {
        insert_block(&mut chain1, i, i);
    }

    for i in 1..num {
        insert_block(&mut chain2, i + 1, i);
    }

    let synchronizer1 = Synchronizer::new(chain1, settings());

    let synchronizer2 = Synchronizer::new(chain2, settings());

    let locator1 = synchronizer1.get_locator(&synchronizer1.chain.tip_header().header);

    let latest_common = synchronizer2.locate_latest_common_block(&H256::zero(), &locator1[..]);

    assert_eq!(latest_common, Some(0));

    let mut chain3 = gen_chain();

    for i in 1..num {
        let j = if i > 192 { i + 1 } else { i };
        insert_block(&mut chain3, j, i);
    }

    let synchronizer3 = Synchronizer::new(chain3, settings());

    let latest_common3 = synchronizer3.locate_latest_common_block(&H256::zero(), &locator1[..]);
    assert_eq!(latest_common3, Some(192));
}

#[test]
fn test_locate_latest_common_block2() {
    let mut chain1 = gen_chain();
    let mut chain2 = gen_chain();
    let block_number = 200;

    let mut blocks: Vec<IndexedBlock> = Vec::new();
    let mut parent = genesis_block().header;
    for i in 1..block_number {
        let new_block = gen_block(&parent, u256(DIFFICULTY), i);
        blocks.push(copy_of(&new_block));

        process_block(&mut chain1, &new_block);

        process_block(&mut chain2, &new_block);
        parent = new_block.header;
    }

    parent = blocks[150].header;
    let fork = parent.number;
    for i in 1..block_number + 1 {
        let new_block = gen_block(&parent, u256(DIFFICULTY), i + 100);
        process_block(&mut chain2, &new_block);
        parent = new_block.header;
    }

    let synchronizer1 = Synchronizer::new(chain1, settings());

    let synchronizer2 = Synchronizer::new(chain2, settings());

    let chain1 = &synchronizer1.chain;
    let chain2 = &synchronizer2.chain;

    let locator1 = synchronizer1.get_locator(&chain1.tip_header().header);

    let latest_common = synchronizer2
        .locate_latest_common_block(&H256::zero(), &locator1[..])
        .unwrap();

    assert_eq!(
        chain1.block_hash(fork).unwrap(),
        chain2.block_hash(fork).unwrap()
    );
    assert!(chain1.block_hash(fork + 1).unwrap() != chain2.block_hash(fork + 1).unwrap());
    assert_eq!(
        chain1.block_hash(latest_common).unwrap(),
        chain1.block_hash(fork).unwrap()
    );
}

#[test]
fn test_get_ancestor() {
    let mut chain = gen_chain();
    let num = 200;

    for i in 1..num {
        insert_block(&mut chain, i, i);
    }

    let synchronizer = Synchronizer::new(chain, settings());
    let chain = &synchronizer.chain;

    let header = synchronizer.get_ancestor(&chain.tip_header().header.hash, 100);
    let tip = synchronizer.get_ancestor(&chain.tip_header().header.hash, 199);
    let noop = synchronizer.get_ancestor(&chain.tip_header().header.hash, 200);
    assert!(tip.is_some());
    assert!(header.is_some());
    assert!(noop.is_none());
    assert_eq!(tip.unwrap(), chain.tip_header().header);
    assert_eq!(
        header.unwrap(),
        chain.block_header(&chain.block_hash(100).unwrap()).unwrap()
    );
}

#[test]
fn test_process_new_block() {
    let mut chain1 = gen_chain();
    let chain2 = gen_chain();
    let block_number = 2000;

    let mut blocks: Vec<IndexedBlock> = Vec::new();
    let mut parent = chain1.block_header(&chain1.block_hash(0).unwrap()).unwrap();
    for i in 1..block_number {
        let new_block = gen_block(&parent, u256(DIFFICULTY), i + 100);
        process_block(&mut chain1, &new_block);
        parent = new_block.header;
        blocks.push(new_block);
    }

    let mut synchronizer = Synchronizer::new(chain2, settings());

    blocks.iter().for_each(|block| {
        insert_new_block(&mut synchronizer, 0, copy_of(block));
    });

    assert_eq!(
        blocks.last().unwrap().header,
        synchronizer.chain.tip_header().header
    );
}

#[test]
fn test_get_locator_response() {
    let mut chain = gen_chain();
    let block_number = 200;

    let mut blocks: Vec<IndexedBlock> = Vec::new();
    let mut parent = chain.block_header(&chain.block_hash(0).unwrap()).unwrap();
    for i in 1..block_number + 1 {
        let new_block = gen_block(&parent, u256(DIFFICULTY), i + 100);
        process_block(&mut chain, &new_block);
        parent = new_block.header;
        blocks.push(new_block);
    }

    let synchronizer = Synchronizer::new(chain, settings());

    let headers = synchronizer.get_locator_response(180, &H256::zero());

    assert_eq!(headers.first().unwrap(), &blocks[180].header);
    assert_eq!(headers.last().unwrap(), &blocks[199].header);

    for window in headers.windows(2) {
        if let [parent, header] = &window {
            assert_eq!(header.parent_hash, parent.hash);
        }
    }
}

#[test]
fn test_sync_process() {
    let mut chain1 = gen_chain();
    let mut chain2 = gen_chain();
    let num = 200;

    for i in 1..num {
        insert_block(&mut chain1, i, i);
    }
    let mut synchronizer1 = Synchronizer::new(chain1, settings());

    let locator1 = synchronizer1.get_locator(&synchronizer1.chain.tip_header().header);

    for i in 1..num + 1 {
        let j = if i > 192 { i + 1 } else { i };
        insert_block(&mut chain2, j, i);
    }

    let synchronizer2 = Synchronizer::new(chain2, settings());
    let chain2 = &synchronizer2.chain;
    let latest_common = synchronizer2.locate_latest_common_block(&H256::zero(), &locator1[..]);
    assert_eq!(latest_common, Some(192));

    let headers = synchronizer2.get_locator_response(192, &H256::zero());

    assert_eq!(
        headers.first().unwrap().hash,
        chain2.block_hash(193).unwrap()
    );
    assert_eq!(
        headers.last().unwrap().hash,
        chain2.block_hash(200).unwrap()
    );

    let peer = 1usize;
    for header in headers.iter() {
        assert!(synchronizer1.agrees_on(header));
        assert!(synchronizer1.difficulty_fits(header));
        synchronizer1.insert_header_view(header, peer);
        synchronizer1.insert_block_status(header.hash, BlockStatus::VALID_MASK());
    }

    let best_known_header = synchronizer1.peers().best_known_header(peer);

    assert_eq!(
        best_known_header.map(|h| h.header),
        headers.last().cloned()
    );

    // the blocks on the way from the common block to the best one of the peer
    let best = best_known_header.unwrap().header;
    let blocks_to_fetch: Vec<H256> = (latest_common.unwrap() + 1..best.number + 1)
        .map(|number| synchronizer1.get_ancestor(&best.hash, number).unwrap().hash)
        .collect();

    assert_eq!(
        blocks_to_fetch.first().unwrap(),
        &chain2.block_hash(193).unwrap()
    );
    assert_eq!(
        blocks_to_fetch.last().unwrap(),
        &chain2.block_hash(200).unwrap()
    );

    let mut fetched_blocks = Vec::new();
    for block_hash in &blocks_to_fetch {
        fetched_blocks.push(synchronizer2.get_block(block_hash).unwrap());
    }

    for block in &fetched_blocks {
        process_new_block(&mut synchronizer1, peer, copy_of(block));
    }

    assert_eq!(
        &synchronizer1.peers().last_common_header(peer).unwrap().hash,
        blocks_to_fetch.last().unwrap()
    );

    assert_eq!(
        synchronizer1.chain.tip_header().header,
        fetched_blocks[7].header
    );
}

/// A block on top of the tip of a chain of `length` blocks, and the chain.
fn node(length: u64) -> Synchronizer {
    let mut chain = gen_chain();
    for i in 1..length {
        insert_block(&mut chain, i, i);
    }
    Synchronizer::new(chain, settings())
}

/// Blocks that follow one another from `parent` on.
fn branch(parent: &IndexedHeader, length: u64, nonce: u64) -> Vec<IndexedBlock> {
    let mut blocks: Vec<IndexedBlock> = Vec::new();
    let mut last = *parent;
    for i in 0..length {
        let block = gen_block(&last, u256(DIFFICULTY), nonce + i);
        last = block.header;
        blocks.push(block);
    }
    blocks
}

#[test]
fn locator_of_short_chains() {
    let synchronizer = node(1);
    let genesis = synchronizer.chain.genesis_hash();
    assert_eq!(synchronizer.get_locator(&synchronizer.tip_header()), vec![genesis]);

    // ten steps of one lead from number 9 to the genesis block, which is named once
    let synchronizer = node(10);
    let locator = synchronizer.get_locator(&synchronizer.tip_header());
    let expect: Vec<H256> = (0..10)
        .rev()
        .map(|number| synchronizer.chain.block_hash(number).unwrap())
        .collect();
    assert_eq!(locator, expect);

    // from number 10 on the last step is too long, and the genesis block is added
    let synchronizer = node(11);
    let locator = synchronizer.get_locator(&synchronizer.tip_header());
    let expect: Vec<H256> = (1..11)
        .rev()
        .chain(0..1)
        .map(|number| synchronizer.chain.block_hash(number).unwrap())
        .collect();
    assert_eq!(locator, expect);
}

#[test]
fn locator_from_below_the_tip() {
    let synchronizer = node(60);
    let start = synchronizer
        .get_ancestor(&synchronizer.tip_header().hash, 30)
        .unwrap();
    let locator = synchronizer.get_locator(&start);
    let expect: Vec<H256> = [30, 29, 28, 27, 26, 25, 24, 23, 22, 21, 19, 15, 7, 0]
        .iter()
        .map(|number| synchronizer.chain.block_hash(*number).unwrap())
        .collect();
    assert_eq!(locator, expect);
    assert!(locator.len() <= 73);
}

#[test]
fn locator_of_a_header_that_a_peer_sent() {
    let mut synchronizer = node(3);
    let blocks = branch(&synchronizer.tip_header(), 2, 70);
    for block in &blocks {
        synchronizer.insert_header_view(&block.header, 5);
    }
    let locator = synchronizer.get_locator(&blocks[1].header);
    assert_eq!(
        locator,
        vec![
            blocks[1].header.hash,
            blocks[0].header.hash,
            synchronizer.chain.block_hash(2).unwrap(),
            synchronizer.chain.block_hash(1).unwrap(),
            synchronizer.chain.genesis_hash(),
        ]
    );
}

#[test]
fn foreign_locators_are_refused() {
    let synchronizer = node(5);
    assert_eq!(synchronizer.locate_latest_common_block(&H256::zero(), &[]), None);
    let foreign = [synchronizer.tip_header().hash, H256::zero()];
    assert_eq!(synchronizer.locate_latest_common_block(&H256::zero(), &foreign), None);
    let own = [synchronizer.tip_header().hash, synchronizer.chain.genesis_hash()];
    assert_eq!(synchronizer.locate_latest_common_block(&own[0], &own), Some(4));
}

#[test]
fn common_block_below_a_stored_branch() {
    // the first hash is that of a stored block off the main chain: its branch is followed down
    let mut synchronizer = node(50);
    let fork = synchronizer
        .get_ancestor(&synchronizer.tip_header().hash, 37)
        .unwrap();
    let side = branch(&fork, 5, 900);
    for block in &side {
        insert_new_block(&mut synchronizer, 1, copy_of(block));
    }
    assert_eq!(synchronizer.tip_header().number, 49);
    let locator = [side[4].header.hash, synchronizer.chain.block_hash(3).unwrap(),
        synchronizer.chain.genesis_hash()];
    assert_eq!(synchronizer.locate_latest_common_block(&H256::zero(), &locator), Some(37));

    // where the first common hash is that of the genesis block, no branch is followed
    let locator = [side[4].header.hash, synchronizer.chain.genesis_hash()];
    assert_eq!(synchronizer.locate_latest_common_block(&H256::zero(), &locator), Some(0));
}

#[test]
fn response_is_limited_and_stops() {
    let mut chain = gen_chain();
    for i in 1..30 {
        insert_block(&mut chain, i, i);
    }
    let mut config = settings();
    config.max_headers_len = 4;
    let synchronizer = Synchronizer::new(chain, config);
    let numbers = |headers: Vec<IndexedHeader>| -> Vec<u64> {
        headers.iter().map(|header| header.number).collect()
    };
    assert_eq!(
        numbers(synchronizer.get_locator_response(10, &H256::zero())),
        vec![11, 12, 13, 14]
    );
    let stop = synchronizer.chain.block_hash(13).unwrap();
    assert_eq!(numbers(synchronizer.get_locator_response(10, &stop)), vec![11, 12]);
    assert_eq!(numbers(synchronizer.get_locator_response(27, &H256::zero())), vec![28, 29]);
    assert!(synchronizer.get_locator_response(29, &H256::zero()).is_empty());
    assert!(synchronizer.get_locator_response(500, &H256::zero()).is_empty());
}

#[test]
fn response_connects_and_becomes_known() {
    let mut a = node(40);
    let mut b = node(20);
    let longer = branch(&b.tip_header(), 30, 4000);
    for block in &longer {
        insert_new_block(&mut b, 0, copy_of(block));
    }
    let locator = a.get_locator(&a.tip_header());
    // 39 ... 30, 28, 24, 16: the last of them is the first that both have
    let common = b.locate_latest_common_block(&H256::zero(), &locator).unwrap();
    assert_eq!(common, 16);
    assert_eq!(a.chain.block_hash(common), b.chain.block_hash(common));
    let headers = b.get_locator_response(common, &H256::zero());
    assert_eq!(headers[0].parent_hash, a.chain.block_hash(common).unwrap());
    for header in &headers {
        a.insert_header_view(header, 9);
    }
    for header in &headers {
        assert_eq!(a.get_header(&header.hash), Some(*header));
    }
    assert_eq!(a.best_known_header().header, b.tip_header());
    assert_eq!(a.best_known_header().total_difficulty.limbs, [50 * DIFFICULTY, 0, 0, 0]);
}

#[test]
fn ancestors_of_unknown_blocks() {
    let synchronizer = node(4);
    assert!(synchronizer.get_ancestor(&H256::zero(), 0).is_none());
    let tip = synchronizer.tip_header();
    assert_eq!(
        synchronizer.get_ancestor(&tip.hash, 0).unwrap().hash,
        synchronizer.chain.genesis_hash()
    );
    let two = synchronizer.get_ancestor(&tip.hash, 2).unwrap();
    assert_eq!(synchronizer.get_ancestor(&two.hash, 1), synchronizer.get_ancestor(&tip.hash, 1));
}

#[test]
fn last_common_ancestor_of_branches() {
    let mut synchronizer = node(20);
    let tip = synchronizer.tip_header();
    let fork = synchronizer.get_ancestor(&tip.hash, 12).unwrap();
    let side = branch(&fork, 15, 300);
    for block in &side {
        synchronizer.insert_header_view(&block.header, 2);
    }
    let best = side[14].header;
    assert_eq!(synchronizer.last_common_ancestor(&tip, &best), Some(fork));
    // a header that is an ancestor itself
    assert_eq!(synchronizer.last_common_ancestor(&fork, &best), Some(fork));
    assert_eq!(synchronizer.last_common_ancestor(&side[3].header, &best), Some(side[3].header));
    // one that is not known
    let stranger = branch(&best, 1, 77)[0].header;
    assert_eq!(synchronizer.last_common_ancestor(&tip, &stranger), None);
}

#[test]
fn last_common_ancestor_is_symmetric() {
    let mut synchronizer = node(20);
    let tip = synchronizer.tip_header();
    let fork = synchronizer.get_ancestor(&tip.hash, 12).unwrap();
    let side = branch(&fork, 7, 300);
    for block in &side {
        synchronizer.insert_header_view(&block.header, 2);
    }
    let other = side[6].header;
    assert_eq!(other.number, tip.number);
    assert_eq!(synchronizer.last_common_ancestor(&tip, &other), Some(fork));
    assert_eq!(synchronizer.last_common_ancestor(&other, &tip), Some(fork));
}

#[test]
fn ancestors_are_parents_of_one_another() {
    let synchronizer = node(30);
    let tip = synchronizer.tip_header();
    for number in 1..30 {
        let upper = synchronizer.get_ancestor(&tip.hash, number).unwrap();
        let lower = synchronizer.get_ancestor(&tip.hash, number - 1).unwrap();
        assert_eq!(upper.number, number);
        assert_eq!(lower.hash, upper.parent_hash);
    }
}

#[test]
fn latest_common_block_of_short_chains() {
    // the locator names every height, so that the answer is exact, be it the genesis block
    let a = node(6);
    let mut chain = gen_chain();
    for i in 1..6 {
        insert_block(&mut chain, if i > 3 { i + 50 } else { i }, i);
    }
    let b = Synchronizer::new(chain, settings());
    let locator = a.get_locator(&a.tip_header());
    assert_eq!(b.locate_latest_common_block(&H256::zero(), &locator), Some(3));
    let mut chain = gen_chain();
    for i in 1..6 {
        insert_block(&mut chain, i + 50, i);
    }
    let c = Synchronizer::new(chain, settings());
    assert_eq!(c.locate_latest_common_block(&H256::zero(), &locator), Some(0));
}

#[test]
fn order_of_arrival_does_not_matter() {
    let orders = [[0, 1, 2, 3, 4], [4, 3, 2, 1, 0], [2, 4, 0, 3, 1], [3, 1, 4, 2, 0]];
    let start = node(3).tip_header();
    let mut blocks = branch(&start, 3, 600);
    blocks.append(&mut branch(&blocks[0].header, 2, 700));
    for order in orders.iter() {
        let mut synchronizer = node(3);
        for i in order.iter() {
            insert_new_block(&mut synchronizer, 3, copy_of(&blocks[*i]));
        }
        for block in &blocks {
            assert!(synchronizer.get_block(&block.header.hash).is_some());
        }
        assert_eq!(synchronizer.tip_header().number, 5);
    }
}

#[test]
fn headers_sent_again_change_nothing() {
    let mut synchronizer = node(3);
    let header = branch(&synchronizer.tip_header(), 1, 60)[0].header;
    synchronizer.insert_header_view(&header, 4);
    let best = synchronizer.best_known_header();
    synchronizer.insert_header_view(&header, 4);
    assert_eq!(synchronizer.best_known_header().header, best.header);
    let view = synchronizer.get_header_view(&header.hash).unwrap();
    assert_eq!(view.total_difficulty.limbs, [4 * DIFFICULTY, 0, 0, 0]);
    assert_eq!(synchronizer.peers().best_known_header(4).unwrap().header, header);
}

#[test]
fn headers_count_once_their_parent_is_known() {
    let mut synchronizer = node(3);
    let blocks = branch(&synchronizer.tip_header(), 3, 60);
    let before = synchronizer.best_known_header();
    synchronizer.insert_header_view(&blocks[1].header, 4);
    assert!(synchronizer.get_header(&blocks[1].header.hash).is_none());
    assert_eq!(synchronizer.best_known_header().header, before.header);
    assert!(synchronizer.peers().best_known_header(4).is_none());

    synchronizer.insert_header_view(&blocks[0].header, 4);
    synchronizer.insert_header_view(&blocks[1].header, 4);
    let view = synchronizer.get_header_view(&blocks[1].header.hash).unwrap();
    assert_eq!(view.header, blocks[1].header);
    assert_eq!(view.total_difficulty.limbs, [5 * DIFFICULTY, 0, 0, 0]);
    assert_eq!(synchronizer.best_known_header().header, blocks[1].header);

    // sending a lesser header afterwards makes nothing worse
    synchronizer.insert_header_view(&blocks[0].header, 4);
    assert_eq!(synchronizer.best_known_header().header, blocks[1].header);
    assert_eq!(
        synchronizer.peers().best_known_header(4).unwrap().header,
        blocks[1].header
    );
}

#[test]
fn the_smaller_hash_decides_between_equal_work() {
    let mut synchronizer = node(3);
    let tip = synchronizer.tip_header();
    let mut low = branch(&tip, 1, 1)[0].header;
    let mut high = branch(&tip, 1, 2)[0].header;
    low.hash.bytes[0] = 3;
    high.hash.bytes[0] = 200;
    synchronizer.insert_header_view(&high, 1);
    assert_eq!(synchronizer.best_known_header().header, high);
    synchronizer.insert_header_view(&low, 2);
    assert_eq!(synchronizer.best_known_header().header, low);
    synchronizer.insert_header_view(&high, 2);
    assert_eq!(synchronizer.best_known_header().header, low);
    assert_eq!(synchronizer.peers().best_known_header(1).unwrap().header, high);
    assert_eq!(synchronizer.peers().best_known_header(2).unwrap().header, low);
}

#[test]
fn work_is_added_over_all_limbs() {
    let mut synchronizer = node(1);
    let mut first = branch(&synchronizer.tip_header(), 1, 5)[0].header;
    first.difficulty = U256 { limbs: [u64::MAX - DIFFICULTY + 1, u64::MAX, 6, 0] };
    assert!(synchronizer.difficulty_fits(&first));
    synchronizer.insert_header_view(&first, 1);
    let view = synchronizer.get_header_view(&first.hash).unwrap();
    assert_eq!(view.total_difficulty.limbs, [0, 0, 7, 0]);

    // the greatest work is kept as the best, whatever its lower limbs
    let mut second = branch(&synchronizer.chain.tip_header().header, 1, 6)[0].header;
    second.difficulty = U256 { limbs: [u64::MAX, u64::MAX, 6, 0] };
    synchronizer.insert_header_view(&second, 1);
    assert_eq!(synchronizer.best_known_header().header, second);
    let mut third = branch(&synchronizer.chain.tip_header().header, 1, 7)[0].header;
    third.difficulty = U256 { limbs: [0, 0, 0, 1] };
    synchronizer.insert_header_view(&third, 1);
    assert_eq!(synchronizer.best_known_header().header, third);
}

#[test]
fn work_beyond_the_limit_is_noticed() {
    let synchronizer = node(1);
    let mut header = branch(&synchronizer.tip_header(), 1, 5)[0].header;
    header.difficulty = U256 { limbs: [u64::MAX - DIFFICULTY, u64::MAX, u64::MAX, u64::MAX] };
    assert!(synchronizer.difficulty_fits(&header));
    header.difficulty = U256 { limbs: [u64::MAX - DIFFICULTY + 1, u64::MAX, u64::MAX, u64::MAX] };
    assert!(!synchronizer.difficulty_fits(&header));
    // as far as is known it fits where the parent is not known
    header.parent_hash = H256::zero();
    assert!(synchronizer.difficulty_fits(&header));
}

#[test]
fn headers_that_differ_under_one_hash() {
    let mut synchronizer = node(2);
    let header = branch(&synchronizer.tip_header(), 1, 5)[0].header;
    assert!(synchronizer.agrees_on(&header));
    synchronizer.insert_header_view(&header, 1);
    assert!(synchronizer.agrees_on(&header));
    let mut other = header;
    other.difficulty = U256 { limbs: [0, 1, 0, 0] };
    assert!(!synchronizer.agrees_on(&other));
    other = header;
    other.timestamp += 1;
    assert!(!synchronizer.agrees_on(&other));
    // as headers they count as equal: the hash stands for the header
    assert_eq!(other, header);
}

#[test]
fn status_is_read_back() {
    let mut synchronizer = node(3);
    let tip = synchronizer.tip_header().hash;
    let stranger = H256 { bytes: [9; 32] };
    assert_eq!(synchronizer.get_block_status(&tip), BlockStatus::BLOCK_HAVE_MASK());
    assert_eq!(synchronizer.get_block_status(&tip), BlockStatus::BLOCK_HAVE_MASK());
    assert_eq!(synchronizer.get_block_status(&stranger), BlockStatus::UNKNOWN());
    synchronizer.insert_block_status(stranger, BlockStatus::FAILED_CHILD());
    assert_eq!(synchronizer.get_block_status(&stranger), BlockStatus::FAILED_CHILD());
    synchronizer.mark_block_stored(stranger);
    assert_eq!(synchronizer.get_block_status(&stranger), BlockStatus::BLOCK_HAVE_MASK());
    assert_eq!(synchronizer.get_block_status(&tip), BlockStatus::BLOCK_HAVE_MASK());
}

#[test]
fn stored_blocks_are_read_back() {
    let mut synchronizer = node(2);
    let block = gen_block(&synchronizer.tip_header(), u256(DIFFICULTY), 12);
    assert!(synchronizer.get_block(&block.header.hash).is_none());
    insert_new_block(&mut synchronizer, 0, copy_of(&block));
    let stored = synchronizer.get_block(&block.header.hash).unwrap();
    assert_eq!(stored.header, block.header);
    assert_eq!(stored.body, block.body);
    let view = synchronizer.get_header_view(&block.header.hash).unwrap();
    assert_eq!(view.total_difficulty.limbs, [3 * DIFFICULTY, 0, 0, 0]);
}

#[test]
fn blocks_that_were_not_asked_for_are_left() {
    let mut synchronizer = node(2);
    let block = gen_block(&synchronizer.tip_header(), u256(DIFFICULTY), 12);
    assert!(synchronizer.process_new_block(0, copy_of(&block)).is_none());
    synchronizer.insert_block_status(block.header.hash, BlockStatus::VALID_HEADER());
    assert!(synchronizer.process_new_block(0, copy_of(&block)).is_none());
    synchronizer.insert_block_status(block.header.hash, BlockStatus::VALID_MASK());
    assert!(synchronizer.process_new_block(0, copy_of(&block)).is_some());
    process_new_block(&mut synchronizer, 0, copy_of(&block));
    assert_eq!(synchronizer.tip_header(), block.header);
    // and once it is stored, it is not taken in again
    assert_eq!(
        synchronizer.get_block_status(&block.header.hash),
        BlockStatus::BLOCK_HAVE_MASK()
    );
    assert!(synchronizer.process_new_block(0, block).is_none());
}

#[test]
fn orphans_follow_their_parent() {
    // whatever order the blocks come in, the chain ends in the last of them
    let order = [7, 3, 5, 1, 6, 2, 4, 0];
    let mut synchronizer = node(2);
    let blocks = branch(&synchronizer.tip_header(), 8, 600);
    for i in order.iter() {
        assert_eq!(synchronizer.tip_header().number, 1);
        insert_new_block(&mut synchronizer, 3, copy_of(&blocks[*i]));
    }
    assert_eq!(synchronizer.tip_header(), blocks[7].header);
    assert_eq!(
        synchronizer.peers().last_common_header(3).unwrap(),
        blocks[7].header
    );
}

#[test]
fn orphans_of_a_refused_block_keep_waiting() {
    let mut synchronizer = node(2);
    let blocks = branch(&synchronizer.tip_header(), 4, 600);
    for i in [3, 2, 1].iter() {
        assert!(synchronizer.insert_new_block(1, copy_of(&blocks[*i])).is_none());
    }
    let pending = synchronizer.insert_new_block(1, copy_of(&blocks[0])).unwrap();
    assert!(pending.first);
    let outcome = outcome_of(&synchronizer.chain, &pending.block);
    let pending = synchronizer.resume_import(pending, outcome).unwrap();
    assert_eq!(pending.block.header, blocks[1].header);
    assert!(!pending.first);
    assert_eq!(pending.rest.len(), 2);
    // the second block is refused: the others go back to wait for it
    assert!(synchronizer
        .resume_import(pending, BlockOutcome::<u8, u8>::VerificationFailed(2))
        .is_none());
    assert_eq!(synchronizer.tip_header(), blocks[0].header);
    // when it comes again and is accepted, they follow
    insert_new_block(&mut synchronizer, 1, copy_of(&blocks[1]));
    assert_eq!(synchronizer.tip_header(), blocks[3].header);
}

#[test]
fn orphans_of_several_branches() {
    let mut synchronizer = node(2);
    let root = gen_block(&synchronizer.tip_header(), u256(DIFFICULTY), 50);
    let left = branch(&root.header, 2, 100);
    let right = branch(&root.header, 3, 200);
    let apart = branch(&branch(&root.header, 1, 300)[0].header, 1, 400);
    for block in left.iter().chain(right.iter()).chain(apart.iter()) {
        assert!(synchronizer.insert_new_block(1, copy_of(block)).is_none());
    }
    insert_new_block(&mut synchronizer, 1, root);
    assert_eq!(synchronizer.tip_header(), right[2].header);
    for block in left.iter().chain(right.iter()) {
        assert!(synchronizer.get_block(&block.header.hash).is_some());
    }
    // the one whose parent never came is still waiting
    assert!(synchronizer.get_block(&apart[0].header.hash).is_none());
}

#[test]
fn orphans_that_come_twice_are_tried_once() {
    let mut synchronizer = node(2);
    let blocks = branch(&synchronizer.tip_header(), 2, 600);
    assert!(synchronizer.insert_new_block(1, copy_of(&blocks[1])).is_none());
    assert!(synchronizer.insert_new_block(2, copy_of(&blocks[1])).is_none());
    let pending = synchronizer.insert_new_block(1, copy_of(&blocks[0])).unwrap();
    let outcome = outcome_of(&synchronizer.chain, &pending.block);
    let pending = synchronizer.resume_import(pending, outcome).unwrap();
    assert!(pending.rest.is_empty());
    let outcome = outcome_of(&synchronizer.chain, &pending.block);
    assert!(synchronizer.resume_import(pending, outcome).is_none());
}

#[test]
fn a_heavier_branch_becomes_the_main_chain() {
    let mut synchronizer = node(6);
    let fork = synchronizer
        .get_ancestor(&synchronizer.tip_header().hash, 2)
        .unwrap();
    let old_tip = synchronizer.tip_header();
    let side = branch(&fork, 4, 800);
    for block in &side[..3] {
        insert_new_block(&mut synchronizer, 1, copy_of(block));
        assert_eq!(synchronizer.tip_header(), old_tip);
    }
    insert_new_block(&mut synchronizer, 1, copy_of(&side[3]));
    assert_eq!(synchronizer.tip_header(), side[3].header);
    let chain = &synchronizer.chain;
    assert_eq!(chain.block_hash(2), Some(fork.hash));
    assert_eq!(chain.block_hash(3), Some(side[0].header.hash));
    assert_eq!(chain.block_hash(6), Some(side[3].header.hash));
    assert_eq!(chain.block_hash(7), None);
    assert_eq!(chain.block_number(&old_tip.hash), None);
    assert_eq!(chain.block_header(&old_tip.hash), Some(old_tip));
    assert_eq!(chain.block_number(&side[1].header.hash), Some(4));
}
