use ledger_node::block::Block;
use ledger_node::blockchain::{clone_blocks, Blockchain};
use ledger_node::node::{ConflictError, Node};
use ledger_node::p2p::{
    answer_request, clone_peers, get_list_peers, knows_peer, next_action, reconcile, Action,
    ChainResponse, EventType, LocalChainRequest,
};
use ledger_node::timestamp::Timestamp;
use ledger_node::transaction::Transaction;
use std::time::{SystemTime, UNIX_EPOCH};

fn to_timestamp(time: SystemTime) -> Timestamp {
    let since_epoch = time.duration_since(UNIX_EPOCH).expect("the clock is past the epoch");
    Timestamp::new(since_epoch.as_secs(), since_epoch.subsec_nanos())
}

fn generate_blocks() -> Vec<Block> {
    let time_now = to_timestamp(SystemTime::now());

    let tx1 = Transaction {
        from: String::from("Alice"),
        to: String::from("Bob"),
        time: time_now,
        amount: 32,
    };

    let new_block = Block {
        hash: String::from("123"),
        prev_hash: String::from("123"),
        transactions: vec![tx1.clone()],
        time: time_now,
        index: 0,
        nonce: 0,
    };

    let same_block = Block {
        hash: String::from("123"),
        prev_hash: String::from("123"),
        transactions: vec![tx1.clone()],
        time: time_now,
        index: 0,
        nonce: 0,
    };

    let next_block = Block {
        hash: String::from("new_hash"),
        prev_hash: String::from("123"),
        transactions: vec![tx1.clone()],
        time: time_now,
        index: 0,
        nonce: 0,
    };

    vec![new_block, same_block, next_block]
}

/// A valid chain of `length` blocks, mined from no block at all.
fn mined_chain(length: usize, label: &str) -> Blockchain {
    let mut chain = Blockchain::new(1, 1, 256);
    for i in 0..length {
        let txs = vec![Transaction::new(
            String::from(label),
            i.to_string(),
            Timestamp::new(1_700_000_000 + i as u64, 0),
            i as i32,
        )];
        assert!(chain.add_block(txs, Timestamp::new(1_700_000_000 + i as u64, 1)));
    }
    chain
}

fn generate_blockchain() -> Blockchain {
    mined_chain(2, "generated")
}

fn copy_of(chain: &Blockchain) -> Blockchain {
    Blockchain {
        chain: clone_blocks(&chain.chain),
        difficulty: chain.difficulty,
        concurrent_hashes: chain.concurrent_hashes,
        min_tx_per_block: chain.min_tx_per_block,
    }
}

fn invalid_chain() -> Blockchain {
    let mut chain = mined_chain(1, "broken");
    chain.chain.append(&mut generate_blocks());
    chain
}

fn peers(names: &[&str]) -> Vec<String> {
    names.iter().map(|name| name.to_string()).collect()
}

#[test]
fn test_conflict() {
    let chain = generate_blockchain();

    assert!(chain.is_valid());

    let mut invalid_chain = generate_blockchain();

    invalid_chain.chain.append(&mut generate_blocks());

    assert!(!invalid_chain.is_valid());

    let mut node = Node {
        blockchain: invalid_chain,
    };

    node.resolve_chain_conflict(&chain);

    assert!(node.blockchain == chain);
}

#[test]
fn of_two_valid_chains_the_longer_one_is_kept() {
    let a = mined_chain(3, "a");
    let b = mined_chain(5, "b");
    assert!(a.is_valid() && b.is_valid());
    assert_eq!((a.len(), b.len()), (3, 5));

    let mut node = Node::new(copy_of(&a));
    node.resolve_chain_conflict(&b);
    assert_eq!(node.blockchain.len(), 5);
    assert!(node.blockchain == b);
    assert!(node.blockchain.chain == b.chain);

    let mut longer = Node::new(copy_of(&b));
    longer.resolve_chain_conflict(&a);
    assert!(longer.blockchain == b);
}

#[test]
fn a_valid_chain_is_kept_against_an_invalid_one() {
    let a = mined_chain(3, "a");
    let b = invalid_chain();
    assert!(a.is_valid());
    assert!(!b.is_valid());
    assert!(b.len() > a.len());

    let mut node = Node::new(copy_of(&a));
    node.resolve_chain_conflict(&b);
    assert_eq!(node.blockchain.len(), 3);
    assert!(node.blockchain == a);
    assert_eq!(node.try_resolve_chain_conflict(&b), Ok(()));
    assert!(node.blockchain == a);
}

#[test]
fn the_own_chain_wins_a_tie() {
    let own = mined_chain(2, "own");
    let other = mined_chain(2, "other");
    assert!(own != other);
    let mut node = Node::new(copy_of(&own));
    node.resolve_chain_conflict(&other);
    assert!(node.blockchain == own);
}

#[test]
fn resolution_keeps_the_settings_of_the_node() {
    let mut own = mined_chain(1, "own");
    own.difficulty = 2;
    own.concurrent_hashes = 64;
    own.min_tx_per_block = 9;
    let other = mined_chain(3, "other");
    let mut node = Node::new(own);
    node.resolve_chain_conflict(&other);
    assert!(node.blockchain == other);
    assert_eq!(node.blockchain.difficulty, 2);
    assert_eq!(node.blockchain.concurrent_hashes, 64);
    assert_eq!(node.blockchain.min_tx_per_block, 9);
}

#[test]
fn two_invalid_chains_cannot_be_resolved() {
    let own = invalid_chain();
    let other = invalid_chain();
    let mut node = Node::new(copy_of(&own));
    assert_eq!(
        node.try_resolve_chain_conflict(&other),
        Err(ConflictError::AllChainsInvalid)
    );
    assert!(node.blockchain == own);
}

#[test]
fn mining_uses_up_the_pending_transactions() {
    let mut node = Node::new(Blockchain::new(1, 1, 256));
    let time = Timestamp::new(1_700_000_000, 0);
    let mut pending = vec![
        Transaction::new(String::from("Alice"), String::from("Bob"), time, 10),
        Transaction::new(String::from("Bob"), String::from("Alice"), time, 5),
    ];
    let embedded = pending.clone();
    let block = node.mine_pending(&mut pending, time).expect("some round wins");
    assert!(pending.is_empty());
    assert_eq!(node.blockchain.len(), 1);
    assert!(node.blockchain.chain[0] == block);
    assert!(block.transactions == embedded);
    assert_eq!(block.time, time);
    assert_eq!(block.index, 0);
    assert!(node.blockchain.is_valid());
}

#[test]
fn failed_mining_leaves_the_pending_transactions() {
    let mut node = Node::new(Blockchain::new(1, 1, 0));
    let time = Timestamp::new(1_700_000_000, 0);
    let mut pending =
        vec![Transaction::new(String::from("Alice"), String::from("Bob"), time, 10)];
    assert!(node.mine_pending(&mut pending, time).is_none());
    assert_eq!(pending.len(), 1);
    assert_eq!(pending[0].amount, 10);
    assert_eq!(node.blockchain.len(), 0);
}

#[test]
fn init_asks_the_peer_discovered_last() {
    match next_action(&peers(&["peer-a", "peer-b", "peer-c"]), EventType::Init) {
        Action::SendChainRequest(request) => assert_eq!(request.from_peer_id, "peer-c"),
        other => panic!("unexpected action {:?}", other),
    }
    match next_action(&peers(&["only"]), EventType::Init) {
        Action::SendChainRequest(request) => assert_eq!(request.from_peer_id, "only"),
        other => panic!("unexpected action {:?}", other),
    }
}

#[test]
fn init_without_peers_does_nothing() {
    assert!(matches!(next_action(&vec![], EventType::Init), Action::Nothing));
}

#[test]
fn a_response_is_forwarded_as_it_is() {
    let chain = mined_chain(2, "remote");
    let response = ChainResponse {
        receiver_peer_id: String::from("me"),
        chain: clone_blocks(&chain.chain),
    };
    match next_action(&peers(&["peer-a"]), EventType::LocalChainResponse(response)) {
        Action::ForwardResponse(forwarded) => {
            assert_eq!(forwarded.receiver_peer_id, "me");
            assert!(forwarded.chain == chain.chain);
        }
        other => panic!("unexpected action {:?}", other),
    }
}

#[test]
fn a_mined_block_is_broadcast() {
    let block = generate_blocks().remove(2);
    match next_action(&vec![], EventType::BlockMined(block.clone())) {
        Action::BroadcastBlock(published) => assert!(published == block),
        other => panic!("unexpected action {:?}", other),
    }
}

#[test]
fn a_peer_list_query_reports_the_peers() {
    let known = peers(&["peer-a", "peer-b"]);
    match next_action(&known, EventType::PeerListQuery) {
        Action::ReportPeers(listed) => assert_eq!(listed, known),
        other => panic!("unexpected action {:?}", other),
    }
    assert_eq!(clone_peers(&known), known);
}

#[test]
fn discovered_peers_are_listed_once() {
    let discovered = peers(&["b", "a", "b", "c", "a", "b"]);
    assert_eq!(get_list_peers(&discovered), peers(&["b", "a", "c"]));
    assert_eq!(get_list_peers(&vec![]), Vec::<String>::new());
    assert!(knows_peer(&discovered, &String::from("c")));
    assert!(!knows_peer(&discovered, &String::from("d")));
}

#[test]
fn a_request_is_answered_by_the_peer_it_asks() {
    let chain = mined_chain(2, "mine");
    let request = LocalChainRequest { from_peer_id: String::from("me") };
    let response = answer_request(&chain, &String::from("me"), &request, String::from("asker"))
        .expect("the request asks this peer");
    assert_eq!(response.receiver_peer_id, "asker");
    assert!(response.chain == chain.chain);

    assert!(
        answer_request(&chain, &String::from("someone else"), &request, String::from("asker"))
            .is_none()
    );
}

#[test]
fn a_response_names_its_receiver() {
    let response = ChainResponse { receiver_peer_id: String::from("me"), chain: vec![] };
    assert!(response.is_addressed_to(&String::from("me")));
    assert!(!response.is_addressed_to(&String::from("you")));
    assert!(!response.is_addressed_to(&String::new()));
}

#[test]
fn a_response_is_reconciled_with_the_own_chain() {
    let own = mined_chain(1, "own");
    let remote = mined_chain(3, "remote");
    let mut node = Node::new(copy_of(&own));
    let response = ChainResponse {
        receiver_peer_id: String::from("me"),
        chain: clone_blocks(&remote.chain),
    };
    assert_eq!(reconcile(&mut node, response), Ok(()));
    assert!(node.blockchain == remote);

    let broken = ChainResponse {
        receiver_peer_id: String::from("me"),
        chain: invalid_chain().chain,
    };
    assert_eq!(reconcile(&mut node, broken), Ok(()));
    assert!(node.blockchain == remote);

    let mut lost = Node::new(invalid_chain());
    let before = clone_blocks(&lost.blockchain.chain);
    let broken_again = ChainResponse {
        receiver_peer_id: String::from("me"),
        chain: invalid_chain().chain,
    };
    assert_eq!(reconcile(&mut lost, broken_again), Err(ConflictError::AllChainsInvalid));
    assert!(lost.blockchain.chain == before);
}
