use ledger_node::block::{hash_fields, Block};
use ledger_node::blockchain::{clone_blocks, Blockchain};
use ledger_node::mining::{draw_target, search_round, starts_with, target_symbol, try_candidate};
use ledger_node::timestamp::Timestamp;
use ledger_node::transaction::Transaction;
use std::time::{SystemTime, UNIX_EPOCH};

fn to_timestamp(time: SystemTime) -> Timestamp {
    let since_epoch = time.duration_since(UNIX_EPOCH).expect("the clock is past the epoch");
    Timestamp::new(since_epoch.as_secs(), since_epoch.subsec_nanos())
}

fn generate_blocks() -> Vec<Block> {
    let time_now = to_timestamp(SystemTime::now());

    let tx1 = Transaction {
        from: String::from("Alice"),
        to: String::from("Bob"),
        time: time_now,
        amount: 32,
    };

    let new_block = Block {
        hash: String::from("123"),
        prev_hash: String::from("123"),
        transactions: vec![tx1.clone()],
        time: time_now,
        index: 0,
        nonce: 0,
    };

    let same_block = Block {
        hash: String::from("123"),
        prev_hash: String::from("123"),
        transactions: vec![tx1.clone()],
        time: time_now,
        index: 0,
        nonce: 0,
    };

    let next_block = Block {
        hash: String::from("new_hash"),
        prev_hash: String::from("123"),
        transactions: vec![tx1.clone()],
        time: time_now,
        index: 0,
        nonce: 0,
    };

    vec![new_block, same_block, next_block]
}

fn fixed_time() -> Timestamp {
    Timestamp::new(1_700_000_000, 0)
}

fn two_transfers() -> Vec<Transaction> {
    vec![
        Transaction::new(String::from("Alice"), String::from("Bob"), fixed_time(), 10),
        Transaction::new(String::from("Bob"), String::from("Alice"), fixed_time(), 5),
    ]
}

fn is_target_of(target: &str, difficulty: usize) -> bool {
    target.chars().count() == difficulty
        && target.chars().all(|c| matches!(c, '0'..='9' | 'a'..='f'))
}

// With no predecessor, the two transfers, the fixed time and index 0, the
// nonces whose hash starts with "ab" are 709, 723, 858, ...; the first whose
// hash starts with "abc" is 2348.
const HASH_AT_709: &str = "abfe28da7161d0d52460331107f144ed2842e5d44a3f7a9ed6fc2d93a2972f6d";
const HASH_AT_723: &str = "ab4d4ee386e0e97b5128a6587e54f6118e788c478a3e70a9f4ad5c850418a1dd";
const HASH_AT_2348: &str = "abc673b65d89066f250210d57e41309327fff3eb3b98872da4acd75faf665d8b";

#[test]
fn test_chain_validity() {
    let blocks = generate_blocks();

    let chain = Blockchain {
        chain: blocks,
        difficulty: 1,
        min_tx_per_block: 1,
        concurrent_hashes: 256,
    };

    assert!(chain.is_valid());
}

#[test]
fn test_mining() {
    let mut txs: Vec<Transaction> = vec![];
    for i in 0..10 {
        txs.push(Transaction {
            from: String::from("test"),
            to: String::from(i.to_string()),
            amount: i,
            time: to_timestamp(SystemTime::now()),
        });
    }

    let concurrent_hashes = 256;
    let chain = Blockchain::new(5, 3, concurrent_hashes);
    let mut nonce = 0;
    let time = to_timestamp(SystemTime::now());

    // A round wins with a chance of about one in sixteen; the rounds are
    // repeated until one does.
    let mut rounds = 0;
    let mut mined: Option<Block> = None;
    while mined.is_none() && rounds < 4000 {
        mined = chain.mine_block(1, time, txs.clone(), 3);
        nonce += concurrent_hashes;
        rounds += 1;
    }
    assert_eq!(nonce, rounds * concurrent_hashes);

    let block = mined.expect("one of the rounds wins");
    assert!(1 <= block.nonce && block.nonce < 1 + concurrent_hashes);
    assert_eq!(block.index, 3);
    assert_eq!(block.time, time);
    assert_eq!(block.prev_hash, "");
    assert_eq!(block.transactions.len(), 10);
    assert!(block.transactions == txs);
    assert_eq!(
        block.hash,
        hash_fields(&block.prev_hash, &block.transactions, block.time, block.index, block.nonce)
    );
    assert!(chain.chain.is_empty());
}

#[test]
fn new_chain_is_empty_and_keeps_its_settings() {
    let chain = Blockchain::new(4, 3, 256);
    assert_eq!(chain.len(), 0);
    assert!(chain.chain.is_empty());
    assert_eq!(chain.min_tx_per_block, 4);
    assert_eq!(chain.difficulty, 3);
    assert_eq!(chain.concurrent_hashes, 256);
    assert_eq!(chain.last_hash(), "");
}

#[test]
fn chains_of_at_most_one_block_are_valid() {
    let empty = Blockchain::new(1, 1, 256);
    assert!(empty.is_valid());

    for block in generate_blocks() {
        let mut single = Blockchain::new(1, 1, 256);
        single.chain.push(block);
        assert_eq!(single.len(), 1);
        assert!(single.is_valid());
    }
}

#[test]
fn a_broken_link_makes_a_chain_invalid() {
    let blocks = generate_blocks();

    // "new_hash" is followed by a block that names "123".
    let mut broken_at_end = Blockchain::new(1, 1, 256);
    broken_at_end.chain = vec![blocks[0].clone(), blocks[2].clone(), blocks[1].clone()];
    assert!(!broken_at_end.is_valid());

    let mut broken_at_start = Blockchain::new(1, 1, 256);
    broken_at_start.chain = vec![blocks[2].clone(), blocks[0].clone(), blocks[1].clone()];
    assert!(!broken_at_start.is_valid());

    let mut two = Blockchain::new(1, 1, 256);
    two.chain = vec![blocks[2].clone(), blocks[0].clone()];
    assert!(!two.is_valid());
    two.chain = vec![blocks[0].clone(), blocks[2].clone()];
    assert!(two.is_valid());
    assert_eq!(two.last_hash(), "new_hash");
}

#[test]
fn mining_from_genesis_gives_a_valid_chain() {
    let mut chain = Blockchain::new(1, 1, 256);
    for round in 0..4u64 {
        let txs = vec![Transaction::new(
            String::from("miner"),
            round.to_string(),
            Timestamp::new(round, 0),
            round as i32,
        )];
        assert!(chain.add_block(txs.clone(), Timestamp::new(100 + round, 7)));
        assert_eq!(chain.len() as u64, round + 1);
        assert!(chain.is_valid());
        let block = &chain.chain[round as usize];
        assert_eq!(block.index, round as u128);
        assert_eq!(block.time, Timestamp::new(100 + round, 7));
        assert!(block.transactions == txs);
    }
    assert_eq!(chain.chain[0].prev_hash, "");
    for i in 1..chain.len() {
        assert_eq!(chain.chain[i].prev_hash, chain.chain[i - 1].hash);
        assert!(chain.chain[i].is_valid(&chain.chain[i - 1]));
    }
    for block in &chain.chain {
        assert_eq!(
            block.hash,
            hash_fields(&block.prev_hash, &block.transactions, block.time, block.index, block.nonce)
        );
    }
    assert_eq!(chain.difficulty, 1);
    assert_eq!(chain.concurrent_hashes, 256);
    assert_eq!(chain.min_tx_per_block, 1);
}

#[test]
fn end_to_end_one_block_with_two_transfers() {
    let mut chain = Blockchain::new(1, 1, 256);
    assert!(chain.add_block(two_transfers(), fixed_time()));
    assert_eq!(chain.len(), 1);
    assert!(chain.is_valid());
    let block = &chain.chain[0];
    assert_eq!(block.index, 0);
    assert_eq!(block.prev_hash, "");
    assert!(block.transactions == two_transfers());
    assert_eq!(block.transactions[0].amount, 10);
    assert_eq!(block.transactions[1].amount, 5);
    assert_eq!(block.hash.len(), 64);
    assert!(is_target_of(&block.hash[..1], 1));
}

#[test]
fn end_to_end_against_the_target_of_the_round() {
    let mut chain = Blockchain::new(1, 1, 256);
    let mut offset: u64 = 0;
    let (target, block) = loop {
        let target = draw_target(chain.difficulty);
        assert!(is_target_of(&target, 1));
        if let Some(block) =
            chain.mine_with_target(&target, offset, fixed_time(), &two_transfers(), 0)
        {
            break (target, block);
        }
        offset += chain.concurrent_hashes;
        assert!(offset < 256 * 4000);
    };
    assert!(block.hash.starts_with(&target));
    assert!(offset <= block.nonce && block.nonce < offset + 256);
    assert!(chain.try_append(block));
    assert_eq!(chain.len(), 1);
    assert!(chain.is_valid());
}

#[test]
fn a_round_that_holds_a_winning_nonce_finds_it() {
    let prev = String::new();
    let target = String::from("ab");
    let found = search_round(&prev, &two_transfers(), 0, 710, fixed_time(), 0, &target)
        .expect("nonce 709 wins");
    assert_eq!(found.nonce, 709);
    assert_eq!(found.hash, HASH_AT_709);
    assert_eq!(found.prev_hash, "");
    assert_eq!(found.index, 0);
    assert_eq!(found.time, fixed_time());
    assert!(found.transactions == two_transfers());

    let single = search_round(&prev, &two_transfers(), 709, 1, fixed_time(), 0, &target)
        .expect("nonce 709 wins");
    assert_eq!(single.nonce, 709);

    let longer = search_round(&prev, &two_transfers(), 2000, 400, fixed_time(), 0, &String::from("abc"))
        .expect("nonce 2348 wins");
    assert_eq!(longer.nonce, 2348);
    assert_eq!(longer.hash, HASH_AT_2348);
}

#[test]
fn a_round_with_two_winners_returns_one_of_them() {
    let prev = String::new();
    let target = String::from("ab");
    for _ in 0..20 {
        let found = search_round(&prev, &two_transfers(), 700, 30, fixed_time(), 0, &target)
            .expect("nonces 709 and 723 win");
        assert!(
            (found.nonce == 709 && found.hash == HASH_AT_709)
                || (found.nonce == 723 && found.hash == HASH_AT_723)
        );
    }
}

#[test]
fn a_round_without_a_winning_nonce_finds_nothing() {
    let prev = String::new();
    let target = String::from("ab");
    assert!(search_round(&prev, &two_transfers(), 0, 709, fixed_time(), 0, &target).is_none());
    assert!(search_round(&prev, &two_transfers(), 710, 13, fixed_time(), 0, &target).is_none());
    assert!(search_round(&prev, &two_transfers(), 709, 0, fixed_time(), 0, &target).is_none());
    assert!(
        search_round(&prev, &two_transfers(), 0, 2348, fixed_time(), 0, &String::from("abc"))
            .is_none()
    );
}

#[test]
fn the_empty_target_is_met_by_every_candidate() {
    let found = search_round(&String::new(), &two_transfers(), 5, 1, fixed_time(), 0, &String::new())
        .expect("every nonce wins");
    assert_eq!(found.nonce, 5);

    let chain = Blockchain::new(1, 0, 8);
    let mined = chain
        .mine_block(40, fixed_time(), two_transfers(), 0)
        .expect("every nonce wins");
    assert!(40 <= mined.nonce && mined.nonce < 48);
}

#[test]
fn a_round_may_end_at_the_largest_nonce() {
    let prev = String::new();
    let last = search_round(&prev, &two_transfers(), u64::MAX, 1, fixed_time(), 0, &String::new())
        .expect("every nonce wins");
    assert_eq!(last.nonce, u64::MAX);
    assert_eq!(
        last.hash,
        hash_fields(&prev, &two_transfers(), fixed_time(), 0, u64::MAX)
    );

    let three =
        search_round(&prev, &two_transfers(), u64::MAX - 2, 3, fixed_time(), 0, &String::new())
            .expect("every nonce wins");
    assert!(three.nonce >= u64::MAX - 2);

    // a round without nonces fits wherever it starts, and finds nothing
    assert!(
        search_round(&prev, &two_transfers(), u64::MAX, 0, fixed_time(), 0, &String::new())
            .is_none()
    );

    let chain = Blockchain::new(1, 0, 1);
    let mined = chain
        .mine_block(u64::MAX, fixed_time(), two_transfers(), 0)
        .expect("every nonce wins");
    assert_eq!(mined.nonce, u64::MAX);
    let again = chain
        .mine_with_target(&String::new(), u64::MAX, fixed_time(), &two_transfers(), 0)
        .expect("every nonce wins");
    assert!(again == mined);
}

#[test]
fn a_target_longer_than_a_hash_is_never_met() {
    let target: String = "0".repeat(65);
    assert!(
        search_round(&String::new(), &two_transfers(), 0, 64, fixed_time(), 0, &target).is_none()
    );
    let mut chain = Blockchain::new(1, 65, 16);
    assert!(chain.mine_block(0, fixed_time(), two_transfers(), 0).is_none());
    assert!(!chain.add_block_within(two_transfers(), fixed_time(), 3));
    assert_eq!(chain.len(), 0);
}

#[test]
fn mine_with_target_continues_the_tail() {
    let mut chain = Blockchain::new(1, 2, 710);
    let target = String::from("ab");
    let first = chain
        .mine_with_target(&target, 0, fixed_time(), &two_transfers(), 0)
        .expect("nonce 709 wins");
    assert_eq!(first.nonce, 709);
    assert_eq!(first.hash, HASH_AT_709);
    assert!(chain.try_append(first));

    let mut offset: u64 = 0;
    let second = loop {
        if let Some(block) = chain.mine_with_target(&target, offset, fixed_time(), &vec![], 1) {
            break block;
        }
        offset += 710;
    };
    assert_eq!(second.prev_hash, HASH_AT_709);
    assert_eq!(second.index, 1);
    assert!(second.hash.starts_with("ab"));
    assert!(second.transactions.is_empty());
    assert!(chain.try_append(second));
    assert!(chain.is_valid());
}

#[test]
fn try_candidate_tells_by_the_prefix_of_the_hash() {
    let prev = String::new();
    let target = String::from("ab");
    let won = try_candidate(&prev, &two_transfers(), 709, fixed_time(), 0, &target)
        .expect("the hash at 709 starts with ab");
    assert_eq!(won.hash, HASH_AT_709);
    assert_eq!(won.nonce, 709);
    assert!(won.transactions == two_transfers());
    assert!(try_candidate(&prev, &two_transfers(), 708, fixed_time(), 0, &target).is_none());
    assert!(
        try_candidate(&prev, &two_transfers(), 709, fixed_time(), 0, &String::from("abc"))
            .is_none()
    );
    // another predecessor gives another hash
    let other = hash_fields(&String::from("x"), &two_transfers(), fixed_time(), 0, 709);
    assert_ne!(other, HASH_AT_709);
}

#[test]
fn drawn_targets_have_the_asked_length_and_alphabet() {
    assert_eq!(draw_target(0), "");
    let mut seen = std::collections::BTreeSet::new();
    for difficulty in 0..40 {
        let target = draw_target(difficulty);
        assert!(is_target_of(&target, difficulty));
        seen.extend(target.chars());
    }
    // 780 draws from sixteen symbols
    assert!(seen.len() > 1);
}

#[test]
fn target_symbols_follow_the_alphabet() {
    let symbols: Vec<&str> = (0..16).map(target_symbol).collect();
    assert_eq!(symbols.concat(), "abcdef0123456789");
}

#[test]
fn starts_with_compares_character_by_character() {
    assert!(starts_with("abcdef", ""));
    assert!(starts_with("abcdef", "abc"));
    assert!(starts_with("abcdef", "abcdef"));
    assert!(!starts_with("abcdef", "abd"));
    assert!(!starts_with("abcdef", "bcd"));
    assert!(!starts_with("abc", "abcd"));
    assert!(starts_with("", ""));
    assert!(!starts_with("", "a"));
    assert!(starts_with("\u{e9}t\u{e9}", "\u{e9}t"));
    assert!(!starts_with("\u{e9}t\u{e9}", "et"));
}

fn targets(list: &[&str]) -> Vec<String> {
    list.iter().map(|target| target.to_string()).collect()
}

#[test]
fn rounds_are_run_in_order_until_one_is_won() {
    // Round 0 tries nonces 0..710 against "abc" and finds none; round 1 tries
    // 710..1420 against "ab", where 723, 858, 1096, 1130, 1229 and 1417 win.
    let mut chain = Blockchain::new(1, 2, 710);
    assert!(chain.add_block_with_targets(two_transfers(), fixed_time(), &targets(&["abc", "ab"])));
    assert_eq!(chain.len(), 1);
    let block = &chain.chain[0];
    assert!([723, 858, 1096, 1130, 1229, 1417].contains(&block.nonce));
    assert!(block.hash.starts_with("ab"));
    assert_eq!(block.index, 0);
    assert_eq!(block.prev_hash, "");
    assert_eq!(block.time, fixed_time());
    assert!(block.transactions == two_transfers());
    assert_eq!(
        block.hash,
        hash_fields(&block.prev_hash, &block.transactions, block.time, block.index, block.nonce)
    );
    assert!(chain.is_valid());
}

#[test]
fn the_first_round_that_is_won_appends_its_winner() {
    // The first nonce whose hash starts with "abc" is 2348, in round 3.
    let mut chain = Blockchain::new(1, 3, 710);
    let goals = targets(&["abc", "abc", "abc", "abc", ""]);
    assert!(chain.add_block_with_targets(two_transfers(), fixed_time(), &goals));
    assert_eq!(chain.len(), 1);
    assert_eq!(chain.chain[0].nonce, 2348);
    assert_eq!(chain.chain[0].hash, HASH_AT_2348);

    // With the first round won, later targets are not looked at.
    let mut other = Blockchain::new(1, 3, 710);
    assert!(other.add_block_with_targets(two_transfers(), fixed_time(), &targets(&["ab", "abc"])));
    assert_eq!(other.chain[0].nonce, 709);
    assert_eq!(other.chain[0].hash, HASH_AT_709);
}

#[test]
fn an_attempt_without_a_winning_round_changes_nothing() {
    let mut chain = Blockchain::new(1, 3, 710);
    let goals = targets(&["abc", "abc", "abc"]);
    assert!(!chain.add_block_with_targets(two_transfers(), fixed_time(), &goals));
    assert_eq!(chain.len(), 0);
    assert!(!chain.add_block_with_targets(two_transfers(), fixed_time(), &vec![]));
    assert_eq!(chain.len(), 0);

    let mut idle = Blockchain::new(1, 0, 0);
    assert!(!idle.add_block_with_targets(two_transfers(), fixed_time(), &targets(&["", ""])));
    assert_eq!(idle.len(), 0);
}

#[test]
fn an_attempt_continues_the_chain_it_finds() {
    let mut chain = Blockchain::new(1, 2, 710);
    assert!(chain.add_block_with_targets(two_transfers(), fixed_time(), &targets(&["ab"])));
    let many: Vec<String> = (0..400).map(|_| String::from("a")).collect();
    assert!(chain.add_block_with_targets(vec![], Timestamp::new(1, 1), &many));
    assert_eq!(chain.len(), 2);
    assert_eq!(chain.chain[1].prev_hash, HASH_AT_709);
    assert_eq!(chain.chain[1].index, 1);
    assert_eq!(chain.chain[1].time, Timestamp::new(1, 1));
    assert!(chain.chain[1].hash.starts_with("a"));
    assert!(chain.is_valid());
}

#[test]
fn add_block_without_candidates_fails_and_changes_nothing() {
    let mut chain = Blockchain::new(1, 1, 0);
    assert!(!chain.add_block(two_transfers(), fixed_time()));
    assert_eq!(chain.len(), 0);

    let mut capped = Blockchain::new(1, 1, 256);
    assert!(capped.add_block(two_transfers(), fixed_time()));
    let before = clone_blocks(&capped.chain);
    assert!(!capped.add_block_within(two_transfers(), fixed_time(), 0));
    assert!(capped.chain == before);
}

#[test]
fn add_block_at_difficulty_zero_succeeds_in_the_first_round() {
    let mut chain = Blockchain::new(1, 0, 4);
    assert!(chain.add_block_within(two_transfers(), fixed_time(), 1));
    assert!(chain.add_block(vec![], fixed_time()));
    assert_eq!(chain.len(), 2);
    assert!(chain.chain[0].nonce < 4);
    assert!(chain.chain[1].nonce < 4);
    assert_eq!(chain.chain[1].index, 1);
    assert!(chain.is_valid());
}

#[test]
fn try_append_takes_only_a_block_that_continues_the_chain() {
    let blocks = generate_blocks();
    let mut chain = Blockchain::new(1, 1, 256);

    // a block that names a predecessor cannot start a chain
    assert!(!chain.try_append(blocks[0].clone()));
    assert_eq!(chain.len(), 0);

    // an unsealed block is not taken
    let unsealed = Block::new(String::new(), vec![], 0, fixed_time(), 0);
    assert!(!chain.try_append(unsealed.clone()));
    assert_eq!(chain.len(), 0);

    let mut genesis = unsealed;
    genesis.generate_hash();
    assert!(chain.try_append(genesis.clone()));
    assert_eq!(chain.len(), 1);

    // the wrong predecessor
    let mut stranger = Block::new(String::from("123"), vec![], 0, fixed_time(), 1);
    stranger.generate_hash();
    assert!(!chain.try_append(stranger));

    // the wrong index
    let mut misplaced = Block::new(genesis.hash.clone(), two_transfers(), 0, fixed_time(), 2);
    misplaced.generate_hash();
    assert!(!chain.try_append(misplaced));

    // a hash that is not the digest of the fields
    let mut forged = Block::new(genesis.hash.clone(), two_transfers(), 0, fixed_time(), 1);
    forged.generate_hash();
    forged.nonce = 1;
    assert!(!chain.try_append(forged));
    assert_eq!(chain.len(), 1);

    let mut next = Block::new(genesis.hash.clone(), two_transfers(), 0, fixed_time(), 1);
    next.generate_hash();
    assert!(chain.try_append(next.clone()));
    assert_eq!(chain.len(), 2);
    assert!(chain.chain[1] == next);
    assert!(chain.is_valid());
}

#[test]
fn chains_are_equal_when_their_blocks_are() {
    let blocks = generate_blocks();
    let left = Blockchain {
        chain: clone_blocks(&blocks),
        difficulty: 1,
        min_tx_per_block: 1,
        concurrent_hashes: 256,
    };
    let mut right = Blockchain {
        chain: clone_blocks(&blocks),
        difficulty: 3,
        min_tx_per_block: 4,
        concurrent_hashes: 16,
    };
    assert!(left == right);
    right.chain[2].nonce = 1;
    assert!(left != right);
    right.chain[2].nonce = 0;
    assert!(left == right);
    right.chain.pop();
    assert!(left != right);
    assert!(Blockchain::new(1, 1, 1) == Blockchain::new(2, 2, 2));
}
