use synchronizer::block::{HeaderView, IndexedBlock, IndexedHeader};
use synchronizer::chain::ChainStore;
use synchronizer::config::Config;
use synchronizer::difficulty::U256;
use synchronizer::hash::H256;
use synchronizer::message::{concat_hashes, Outgoing, SyncMessage};
use synchronizer::peers::{PeerId, PeerState, Peers};
use synchronizer::session::{TimerAction, BLOCK_FETCH_TOKEN, SEND_GET_HEADERS_TOKEN};
use synchronizer::synchronizer::Synchronizer;

fn header(hash: u8, number: u64) -> IndexedHeader {
    IndexedHeader {
        hash: H256 { bytes: [hash; 32] },
        parent_hash: H256 { bytes: [hash - 1; 32] },
        number,
        timestamp: 1000,
        difficulty: U256 { limbs: [10, 0, 0, 0] },
    }
}

fn node() -> Synchronizer {
    let chain = ChainStore::new(
        IndexedBlock { header: header(1, 0), body: vec![] },
        U256 { limbs: [10, 0, 0, 0] },
        H256::zero(),
    );
    let config = Config {
        orphan_block_limit: 16,
        max_headers_len: 10,
        max_tip_age: 500,
        headers_download_timeout_base: 90,
        headers_download_timeout_per_header: 7,
        pow_space: 100,
        max_outbound_peers_to_protect: 2,
    };
    Synchronizer::new(chain, config)
}

fn asks_for_headers(message: &Outgoing, peer: PeerId, locator: &[H256]) -> bool {
    match &message.message {
        SyncMessage::GetHeaders { version, block_locator_hashes, hash_stop } => {
            message.peer == peer
                && message.packet_id == 0
                && *version == 0
                && hash_stop.is_none()
                && *block_locator_hashes == concat_hashes(locator)
        }
        SyncMessage::GetBlocks { .. } => false,
    }
}

#[test]
fn hashes_follow_one_another() {
    let mut first = H256::zero();
    for i in 0..32 {
        first.bytes[i] = i as u8;
    }
    let second = H256 { bytes: [77; 32] };
    let bytes = concat_hashes(&[first, second]);
    assert_eq!(bytes.len(), 64);
    assert_eq!(&bytes[..32], &first.bytes[..]);
    assert_eq!(&bytes[32..], &second.bytes[..]);
    assert!(concat_hashes(&[]).is_empty());
}

#[test]
fn first_peer_is_asked_for_headers() {
    let mut synchronizer = node();
    let request = synchronizer.connected(7, None, 1205).unwrap();
    assert!(asks_for_headers(&request, 7, &[H256 { bytes: [1; 32] }]));
    // 90 + 7 * (205 / 100)
    assert_eq!(
        synchronizer.peers().state(7),
        Some(PeerState { sync_started: true, headers_sync_timeout: 104, protect: false })
    );
    assert_eq!(synchronizer.n_sync, 1);
}

#[test]
fn one_session_while_catching_up() {
    let mut synchronizer = node();
    assert!(synchronizer.connected(1, None, 5000).is_some());
    assert!(synchronizer.connected(2, None, 5000).is_none());
    assert!(synchronizer.peers().state(2).is_none());
    assert_eq!(synchronizer.n_sync, 1);
    // when the node is up to date, it synchronizes with all
    assert!(synchronizer.connected(2, None, 1500).is_some());
    assert!(synchronizer.connected(3, None, 1501).is_none());
    assert_eq!(synchronizer.n_sync, 2);
}

#[test]
fn protected_peers_are_bounded() {
    let mut synchronizer = node();
    synchronizer.on_connected(1, Some(true), 1000);
    synchronizer.on_connected(2, Some(false), 1000);
    synchronizer.on_connected(3, None, 1000);
    synchronizer.on_connected(4, Some(true), 1000);
    synchronizer.on_connected(5, Some(true), 1000);
    let protected: Vec<bool> = (1..6)
        .map(|peer| synchronizer.peers().state(peer).unwrap().protect)
        .collect();
    assert_eq!(protected, vec![true, false, false, true, false]);
    assert_eq!(synchronizer.outbound_peers_with_protect, 2);
    assert_eq!(synchronizer.n_sync, 5);
}

#[test]
fn sessions_are_counted() {
    // every third connection is outbound: 1, 2, 2, ... of them are protected
    let mut synchronizer = node();
    let mut outbound = 0;
    for call in 1..13 {
        let originated = if call % 3 == 0 { Some(true) } else { None };
        outbound += if call % 3 == 0 { 1 } else { 0 };
        synchronizer.on_connected(call, originated, 1000);
        assert_eq!(synchronizer.n_sync, call);
        assert_eq!(synchronizer.outbound_peers_with_protect, std::cmp::min(outbound, 2));
    }
    assert_eq!(outbound, 4);
    // a peer that is gone gives its place to no other
    synchronizer.disconnected(3);
    assert_eq!(synchronizer.outbound_peers_with_protect, 2);
    assert_eq!(synchronizer.n_sync, 12);
}

#[test]
fn peers_come_and_go() {
    let mut synchronizer = node();
    synchronizer.on_connected(1, Some(true), 1000);
    synchronizer.on_connected(2, Some(true), 1000);
    synchronizer.insert_header_view(&header(2, 1), 1);
    synchronizer.insert_header_view(&header(2, 1), 2);
    synchronizer.disconnected(1);
    assert!(synchronizer.peers().state(1).is_none());
    assert!(synchronizer.peers().best_known_header(1).is_none());
    assert!(synchronizer.peers().state(2).is_some());
    assert_eq!(synchronizer.peers().best_known_header(2).unwrap().header, header(2, 1));
    // one that was never there
    synchronizer.disconnected(9);
    assert_eq!(synchronizer.find_blocks_to_fetch(), vec![2]);
}

#[test]
fn timers_without_peers() {
    let synchronizer = node();
    assert!(matches!(synchronizer.timeout(SEND_GET_HEADERS_TOKEN), TimerAction::Idle));
    assert!(matches!(synchronizer.timeout(BLOCK_FETCH_TOKEN), TimerAction::Idle));
    assert!(matches!(synchronizer.timeout(12), TimerAction::Idle));
}

#[test]
fn timers_with_peers() {
    assert_eq!(SEND_GET_HEADERS_TOKEN, 0);
    assert_eq!(BLOCK_FETCH_TOKEN, 1);
    let mut synchronizer = node();
    for peer in [5, 3, 8].iter() {
        synchronizer.on_connected(*peer, None, 1000);
    }
    match synchronizer.timeout(SEND_GET_HEADERS_TOKEN) {
        TimerAction::SendGetHeaders(messages) => {
            let mut peers: Vec<PeerId> = messages.iter().map(|message| message.peer).collect();
            peers.sort();
            assert_eq!(peers, vec![3, 5, 8]);
            for message in &messages {
                assert!(asks_for_headers(message, message.peer, &[H256 { bytes: [1; 32] }]));
            }
        }
        action => panic!("{:?}", action),
    }
    match synchronizer.timeout(BLOCK_FETCH_TOKEN) {
        TimerAction::FetchBlocks(mut peers) => {
            peers.sort();
            assert_eq!(peers, vec![3, 5, 8]);
        }
        action => panic!("{:?}", action),
    }
}

#[test]
fn blocks_are_asked_for() {
    let synchronizer = node();
    let hashes = [H256 { bytes: [4; 32] }, H256 { bytes: [5; 32] }];
    let request = synchronizer.send_getblocks(&hashes, 6);
    assert_eq!(request.peer, 6);
    assert_eq!(request.packet_id, 0);
    match request.message {
        SyncMessage::GetBlocks { block_hashes } => {
            assert_eq!(block_hashes, [[4u8; 32], [5u8; 32]].concat());
        }
        SyncMessage::GetHeaders { .. } => panic!("not a request for blocks"),
    }
}

#[test]
fn only_what_is_to_be_fetched_is_asked_for() {
    let synchronizer = node();
    assert!(synchronizer.fetch_request(6, &None).is_none());
    let hashes = vec![H256 { bytes: [4; 32] }];
    let request = synchronizer.fetch_request(6, &Some(hashes)).unwrap();
    assert_eq!(request.peer, 6);
    match request.message {
        SyncMessage::GetBlocks { block_hashes } => assert_eq!(block_hashes, vec![4u8; 32]),
        SyncMessage::GetHeaders { .. } => panic!("not a request for blocks"),
    }
    // an empty list is asked for too
    assert!(synchronizer.fetch_request(6, &Some(vec![])).is_some());
}

#[test]
fn best_header_of_a_peer_only_improves() {
    let mut peers = Peers::default();
    assert!(peers.is_empty());
    let light = HeaderView::new(header(9, 4), U256 { limbs: [5, 0, 0, 0] });
    let heavy = HeaderView::new(header(8, 4), U256 { limbs: [0, 1, 0, 0] });
    peers.new_header_received(1, &light);
    peers.new_header_received(1, &heavy);
    peers.new_header_received(1, &light);
    peers.new_header_received(2, &light);
    assert_eq!(peers.best_known_header(1).unwrap().header, heavy.header);
    assert_eq!(peers.best_known_header(2).unwrap().header, light.header);
    assert!(heavy.is_better_than(&light));
    assert!(!light.is_better_than(&heavy));
    assert!(!light.is_better_than(&light));
}

#[test]
fn hashes_are_ordered_from_the_first_byte() {
    let mut low = H256::zero();
    let mut high = H256::zero();
    low.bytes[31] = 255;
    high.bytes[0] = 1;
    assert!(low.less_than(&high));
    assert!(!high.less_than(&low));
    assert!(!low.less_than(&low));
    high = low;
    high.bytes[30] = 1;
    assert!(low.less_than(&high));
    assert_ne!(low, high);
}
