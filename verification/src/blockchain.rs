//! Chains of blocks: validation of the links, mining of new blocks onto the
//! tail, and appending of blocks that were made elsewhere.

use crate::attempt::{
    all_targets, appended_in_round, attempt_outcome, lemma_appended_extends,
    lemma_appended_is_mined_onto, lemma_attempt_failed, lemma_attempt_succeeded,
    lemma_empty_target_wins, lemma_first_round, lemma_next_round, lemma_no_round_beyond,
    lemma_no_round_from, lemma_one_more_target, lemma_round_ignores_later_targets,
    lemma_round_lost, lemma_round_runs, lemma_winner_appended, round_is_won, round_start,
};
use crate::block::{hash_fields, is_hash_text, Block, BlockView};
use crate::mining::{
    draw_target, is_target, meets_target, round_fits, round_outcome, search_round, wins_round,
};
use crate::timestamp::Timestamp;
use crate::transaction::{Transaction, TransactionView};
use vstd::prelude::*;
use vstd::std_specs::cmp::PartialEqSpecImpl;

verus! {

/// An ordered sequence of blocks with the settings of its mining search.
///
/// `difficulty` is the length of the target that a mined hash must start
/// with, `concurrent_hashes` the number of nonces tried in one round.
#[derive(Debug)]
pub struct Blockchain {
    pub chain: Vec<Block>,
    pub difficulty: usize,
    pub concurrent_hashes: u64,
    pub min_tx_per_block: u8,
}

impl View for Blockchain {
    type V = Seq<BlockView>;

    /// A chain is seen as the sequence of its blocks.
    open spec fn view(&self) -> Seq<BlockView> {
        self.chain.deep_view()
    }
}

/// Whether every block but the first names the block before it as its
/// predecessor.
pub open spec fn links_hold(chain: Seq<BlockView>) -> bool {
    forall|i: int| 0 < i < chain.len() ==> (#[trigger] chain[i]).follows(chain[i - 1])
}

/// The hash that the next block has to name: that of the last block, or the
/// empty string where there is no block yet.
pub open spec fn tail_hash(chain: Seq<BlockView>) -> Seq<char> {
    if chain.len() == 0 {
        Seq::empty()
    } else {
        chain.last().hash
    }
}

/// Whether `block` is a sealed block that continues `chain`: it names the
/// tail as its predecessor and carries the next index.
pub open spec fn extends(chain: Seq<BlockView>, block: BlockView) -> bool {
    &&& block.prev_hash == tail_hash(chain)
    &&& block.index == chain.len()
    &&& block.is_sealed()
}

/// Whether `chain` can have been formed by mining its blocks one after the
/// other, starting from no block at all.
pub open spec fn mined_from_genesis(chain: Seq<BlockView>) -> bool {
    forall|i: int| 0 <= i < chain.len() ==> extends(chain.take(i), #[trigger] chain[i])
}

/// Whether `block` is what a successful mining of `txs` at `time` appends to
/// `chain`: it continues the chain, holds what was asked for, and its hash
/// starts with some target of the given difficulty.
pub open spec fn mined_onto(
    chain: Seq<BlockView>,
    txs: Seq<TransactionView>,
    time: Timestamp,
    difficulty: usize,
    block: BlockView,
) -> bool {
    &&& extends(chain, block)
    &&& block.transactions == txs
    &&& block.time == time
    &&& exists|target: Seq<char>|
        is_target(target, difficulty as nat) && #[trigger] meets_target(block, target)
}

/// A chain of at most one block is valid.
pub proof fn lemma_short_chain_is_valid(chain: Seq<BlockView>)
    requires
        chain.len() <= 1,
    ensures
        links_hold(chain),
{
}

/// Appending a block that names the tail as its predecessor keeps the links.
pub proof fn lemma_push_keeps_links(chain: Seq<BlockView>, block: BlockView)
    requires
        links_hold(chain),
        block.prev_hash == tail_hash(chain),
    ensures
        links_hold(chain.push(block)),
{
    let longer = chain.push(block);
    assert forall|i: int| 0 < i < longer.len() implies (#[trigger] longer[i]).follows(
        longer[i - 1],
    ) by {
        if i < chain.len() {
            assert(chain[i].follows(chain[i - 1]));
        }
    }
}

/// A chain formed by mining one block after the other from no block at all
/// is valid, however many blocks were mined.
pub proof fn lemma_mined_chain_is_valid(chain: Seq<BlockView>)
    requires
        mined_from_genesis(chain),
    ensures
        links_hold(chain),
{
    assert forall|i: int| 0 < i < chain.len() implies (#[trigger] chain[i]).follows(
        chain[i - 1],
    ) by {
        assert(extends(chain.take(i), chain[i]));
        assert(chain.take(i).last() == chain[i - 1]);
    }
}

/// Mining one more block onto a chain that was mined from no block at all
/// gives such a chain again.
pub proof fn lemma_mining_extends_mined_chain(chain: Seq<BlockView>, block: BlockView)
    requires
        mined_from_genesis(chain),
        extends(chain, block),
    ensures
        mined_from_genesis(chain.push(block)),
{
    let longer = chain.push(block);
    assert forall|i: int| 0 <= i < longer.len() implies extends(
        longer.take(i),
        #[trigger] longer[i],
    ) by {
        if i < chain.len() {
            assert(longer.take(i) =~= chain.take(i));
            assert(extends(chain.take(i), chain[i]));
        } else {
            assert(longer.take(i) =~= chain);
        }
    }
}

/// A copy of a list of blocks, equal to it block by block.
pub fn clone_blocks(blocks: &Vec<Block>) -> (copy: Vec<Block>)
    ensures
        copy.deep_view() == blocks.deep_view(),
{
    let copy = blocks.clone();
    assert(copy.deep_view() =~= blocks.deep_view());
    copy
}

impl Blockchain {
    /// An empty chain with the given settings.
    pub fn new(min_tx_per_block: u8, difficulty: usize, concurrent_hashes: u64) -> (created: Self)
        ensures
            created@ == Seq::<BlockView>::empty(),
            created.difficulty == difficulty,
            created.concurrent_hashes == concurrent_hashes,
            created.min_tx_per_block == min_tx_per_block,
            links_hold(created@),
            mined_from_genesis(created@),
    {
        let created = Blockchain {
            chain: Vec::new(),
            difficulty,
            concurrent_hashes,
            min_tx_per_block,
        };
        assert(created@ =~= Seq::<BlockView>::empty());
        created
    }

    /// The number of blocks.
    pub fn len(&self) -> (n: usize)
        ensures
            n == self@.len(),
    {
        self.chain.len()
    }

    /// Whether each block but the first names the block before it as its
    /// predecessor. A chain of at most one block is valid.
    pub fn is_valid(&self) -> (valid: bool)
        ensures
            valid == links_hold(self@),
    {
        let mut i: usize = 1;
        while i < self.chain.len()
            invariant
                1 <= i,
                forall|j: int|
                    0 < j < i && j < self@.len() ==> (#[trigger] self@[j]).follows(self@[j - 1]),
            decreases self.chain.len() - i,
        {
            if !self.chain[i].is_valid(&self.chain[i - 1]) {
                assert(!self@[i as int].follows(self@[i - 1]));
                return false;
            }
            i += 1;
        }
        true
    }

    /// The hash that the next block has to name as its predecessor.
    pub fn last_hash(&self) -> (hash: String)
        ensures
            hash@ == tail_hash(self@),
    {
        let n: usize = self.chain.len();
        if n == 0 {
            String::new()
        } else {
            self.chain[n - 1].hash.clone()
        }
    }

    /// One round of the search against a given target: tries the
    /// `concurrent_hashes` nonces from `nonce` on for a block at `idx` that
    /// follows the tail of this chain and holds `txs`. The chain itself is
    /// not changed.
    pub fn mine_with_target(
        &self,
        target: &String,
        nonce: u64,
        time: Timestamp,
        txs: &Vec<Transaction>,
        idx: u128,
    ) -> (found: Option<Block>)
        requires
            round_fits(nonce, self.concurrent_hashes),
        ensures
            round_outcome(
                tail_hash(self@),
                txs.deep_view(),
                nonce,
                self.concurrent_hashes,
                time,
                idx,
                target@,
                found,
            ),
            found is Some <==> exists|n: u64| #[trigger]
                wins_round(
                    tail_hash(self@),
                    txs.deep_view(),
                    nonce,
                    self.concurrent_hashes,
                    time,
                    idx,
                    target@,
                    n,
                ),
            found matches Some(block) ==> is_hash_text(block@.hash),
    {
        let prev = self.last_hash();
        search_round(&prev, txs, nonce, self.concurrent_hashes, time, idx, target)
    }

    /// One round of the search: draws a fresh target of `difficulty`
    /// characters and tries the `concurrent_hashes` nonces from `nonce` on.
    /// `None` means that no nonce of this round met the target drawn; the
    /// caller tries again from another nonce.
    ///
    /// The target is drawn at random, so the contract says what holds for
    /// the target that was drawn, whichever it was. At difficulty 0 every
    /// candidate wins.
    pub fn mine_block(
        &self,
        nonce: u64,
        time: Timestamp,
        txs: Vec<Transaction>,
        idx: u128,
    ) -> (found: Option<Block>)
        requires
            round_fits(nonce, self.concurrent_hashes),
        ensures
            exists|target: Seq<char>|
                is_target(target, self.difficulty as nat) && #[trigger] round_outcome(
                    tail_hash(self@),
                    txs.deep_view(),
                    nonce,
                    self.concurrent_hashes,
                    time,
                    idx,
                    target,
                    found,
                ),
            self.difficulty == 0 && self.concurrent_hashes > 0 ==> found is Some,
            found matches Some(block) ==> is_hash_text(block@.hash),
    {
        let target = draw_target(self.difficulty);
        let found = self.mine_with_target(&target, nonce, time, &txs, idx);
        proof {
            if self.difficulty == 0 && self.concurrent_hashes > 0 {
                lemma_empty_target_wins(
                    tail_hash(self@),
                    txs.deep_view(),
                    nonce,
                    self.concurrent_hashes,
                    time,
                    idx,
                    target@,
                );
            }
            assert(round_outcome(
                tail_hash(self@),
                txs.deep_view(),
                nonce,
                self.concurrent_hashes,
                time,
                idx,
                target@,
                found,
            ));
        }
        found
    }

    /// Runs round `k` of an attempt against `target`, from nonce `offset` on,
    /// and appends the winner if the round has one. `targets` are the targets
    /// of the attempt so far, that of this round being the last looked at.
    fn run_round(
        &mut self,
        target: &String,
        offset: u64,
        time: Timestamp,
        txs: &Vec<Transaction>,
        Ghost(targets): Ghost<Seq<Seq<char>>>,
        Ghost(k): Ghost<int>,
    ) -> (won: bool)
        requires
            0 <= k < targets.len(),
            targets[k] == target@,
            offset == round_start(k, old(self).concurrent_hashes),
            round_fits(offset, old(self).concurrent_hashes),
            forall|j: int|
                0 <= j < k ==> !#[trigger] round_is_won(
                    old(self)@,
                    txs.deep_view(),
                    time,
                    old(self).concurrent_hashes,
                    targets,
                    j,
                ),
        ensures
            final(self).difficulty == old(self).difficulty,
            final(self).concurrent_hashes == old(self).concurrent_hashes,
            final(self).min_tx_per_block == old(self).min_tx_per_block,
            won == round_is_won(
                old(self)@,
                txs.deep_view(),
                time,
                old(self).concurrent_hashes,
                targets,
                k,
            ),
            won ==> {
                &&& final(self)@.len() == old(self)@.len() + 1
                &&& final(self)@.drop_last() == old(self)@
                &&& appended_in_round(
                    old(self)@,
                    txs.deep_view(),
                    time,
                    old(self).concurrent_hashes,
                    targets,
                    k,
                    final(self)@.last(),
                )
                &&& extends(old(self)@, final(self)@.last())
                &&& is_hash_text(final(self)@.last().hash)
            },
            !won ==> final(self)@ == old(self)@,
            old(self)@.len() <= usize::MAX,
            links_hold(old(self)@) ==> links_hold(final(self)@),
            mined_from_genesis(old(self)@) ==> mined_from_genesis(final(self)@),
            target@.len() == 0 && old(self).concurrent_hashes > 0 ==> won,
    {
        let ghost start = self@;
        let ghost wanted = txs.deep_view();
        let width: u64 = self.concurrent_hashes;
        let index: u128 = self.chain.len() as u128;
        proof {
            lemma_round_runs(k, width, offset);
            if target@.len() == 0 && width > 0 {
                lemma_empty_target_wins(
                    tail_hash(start),
                    wanted,
                    offset,
                    width,
                    time,
                    index,
                    target@,
                );
            }
        }
        let found = self.mine_with_target(target, offset, time, txs, index);
        match found {
            Some(block) => {
                let ghost winner = block@;
                proof {
                    lemma_winner_appended(start, wanted, time, width, targets, k, winner);
                    lemma_appended_extends(start, wanted, time, width, targets, k, winner);
                    lemma_push_keeps_links_if(start, winner);
                    if mined_from_genesis(start) {
                        lemma_mining_extends_mined_chain(start, winner);
                    }
                }
                self.chain.push(block);
                proof {
                    assert(self@ =~= start.push(winner));
                    assert(self@.drop_last() =~= start);
                    assert(self@.last() == winner);
                }
                true
            },
            None => {
                proof {
                    lemma_round_lost(start, wanted, time, width, targets, k);
                }
                false
            },
        }
    }

    /// Mines a block that holds `txs` at `time` and appends it, with the
    /// targets of the rounds given: round `k` tries the `concurrent_hashes`
    /// nonces from `k * concurrent_hashes` on against `targets[k]`. The
    /// rounds are run in order until one is won, the targets are used up or
    /// the nonces are. Returns whether a block was appended.
    ///
    /// A block is appended exactly when some round that can be run is won,
    /// and then it is a winner of the first such round.
    pub fn add_block_with_targets(
        &mut self,
        txs: Vec<Transaction>,
        time: Timestamp,
        targets: &Vec<String>,
    ) -> (added: bool)
        ensures
            final(self).difficulty == old(self).difficulty,
            final(self).concurrent_hashes == old(self).concurrent_hashes,
            final(self).min_tx_per_block == old(self).min_tx_per_block,
            added <==> exists|k: int| #[trigger]
                round_is_won(
                    old(self)@,
                    txs.deep_view(),
                    time,
                    old(self).concurrent_hashes,
                    targets.deep_view(),
                    k,
                ),
            added ==> {
                &&& final(self)@.len() == old(self)@.len() + 1
                &&& final(self)@.drop_last() == old(self)@
                &&& exists|k: int| #[trigger]
                    appended_in_round(
                        old(self)@,
                        txs.deep_view(),
                        time,
                        old(self).concurrent_hashes,
                        targets.deep_view(),
                        k,
                        final(self)@.last(),
                    )
            },
            added ==> extends(old(self)@, final(self)@.last()),
            added ==> is_hash_text(final(self)@.last().hash),
            !added ==> final(self)@ == old(self)@,
            links_hold(old(self)@) ==> links_hold(final(self)@),
            mined_from_genesis(old(self)@) ==> mined_from_genesis(final(self)@),
    {
        let ghost start = self@;
        let ghost goals = targets.deep_view();
        let ghost wanted = txs.deep_view();
        let width: u64 = self.concurrent_hashes;
        let mut offset: u64 = 0;
        let mut k: usize = 0;
        proof {
            lemma_first_round(width);
        }
        while k < targets.len() && (width == 0 || offset <= u64::MAX - (width - 1))
            invariant
                self@ == start,
                start == old(self)@,
                goals == targets.deep_view(),
                wanted == txs.deep_view(),
                self.difficulty == old(self).difficulty,
                self.concurrent_hashes == old(self).concurrent_hashes,
                self.min_tx_per_block == old(self).min_tx_per_block,
                width == self.concurrent_hashes,
                k <= targets@.len(),
                offset == round_start(k as int, width),
                forall|j: int|
                    0 <= j < k ==> !#[trigger] round_is_won(start, wanted, time, width, goals, j),
            decreases targets@.len() - k,
        {
            let won = self.run_round(
                &targets[k],
                offset,
                time,
                &txs,
                Ghost(goals),
                Ghost(k as int),
            );
            if won {
                proof {
                    assert(round_is_won(start, wanted, time, width, goals, k as int));
                    assert(appended_in_round(
                        start,
                        wanted,
                        time,
                        width,
                        goals,
                        k as int,
                        self@.last(),
                    ));
                }
                return true;
            }
            k += 1;
            proof {
                lemma_next_round(k - 1, width);
            }
            if u64::MAX - offset < width {
                proof {
                    lemma_no_round_from(start, wanted, time, width, goals, k as int);
                    lemma_no_round_beyond(start, wanted, time, width, goals);
                }
                return false;
            }
            offset += width;
        }
        proof {
            lemma_no_round_beyond(start, wanted, time, width, goals);
            if k < targets@.len() {
                lemma_no_round_from(start, wanted, time, width, goals, k as int);
            }
        }
        false
    }

    /// Mines a block that holds `txs` at `time` and appends it: runs rounds
    /// of the search from nonce 0 on, each with a freshly drawn target and
    /// `concurrent_hashes` further than the one before, until a round is won,
    /// `max_rounds` rounds were run or the nonces are used up. Returns whether
    /// a block was appended.
    ///
    /// The chain changes only on success, and then by exactly the mined
    /// block, which is sealed and continues the chain. The targets are drawn
    /// at random, so the contract says what holds for the targets that were
    /// drawn, whichever they were. At difficulty 0 the first round is won.
    pub fn add_block_within(
        &mut self,
        txs: Vec<Transaction>,
        time: Timestamp,
        max_rounds: u64,
    ) -> (added: bool)
        ensures
            final(self).difficulty == old(self).difficulty,
            final(self).concurrent_hashes == old(self).concurrent_hashes,
            final(self).min_tx_per_block == old(self).min_tx_per_block,
            exists|targets: Seq<Seq<char>>|
                all_targets(targets, old(self).difficulty) && #[trigger] attempt_outcome(
                    old(self)@,
                    txs.deep_view(),
                    time,
                    old(self).concurrent_hashes,
                    max_rounds,
                    targets,
                    added,
                    final(self)@,
                ),
            added ==> {
                &&& final(self)@.len() == old(self)@.len() + 1
                &&& final(self)@.drop_last() == old(self)@
                &&& mined_onto(
                    old(self)@,
                    txs.deep_view(),
                    time,
                    old(self).difficulty,
                    final(self)@.last(),
                )
                &&& is_hash_text(final(self)@.last().hash)
            },
            !added ==> final(self)@ == old(self)@,
            links_hold(old(self)@) ==> links_hold(final(self)@),
            mined_from_genesis(old(self)@) ==> mined_from_genesis(final(self)@),
            old(self).difficulty == 0 && old(self).concurrent_hashes > 0 && max_rounds > 0
                ==> added,
            old(self).concurrent_hashes == 0 || max_rounds == 0 ==> !added,
    {
        let ghost start = self@;
        let ghost wanted = txs.deep_view();
        let ghost mut drawn: Seq<Seq<char>> = Seq::empty();
        let width: u64 = self.concurrent_hashes;
        let mut offset: u64 = 0;
        let mut rounds: u64 = 0;
        proof {
            lemma_first_round(width);
        }
        while rounds < max_rounds && width > 0 && offset <= u64::MAX - (width - 1)
            invariant
                self@ == start,
                start == old(self)@,
                wanted == txs.deep_view(),
                self.difficulty == old(self).difficulty,
                self.concurrent_hashes == old(self).concurrent_hashes,
                self.min_tx_per_block == old(self).min_tx_per_block,
                width == self.concurrent_hashes,
                rounds <= max_rounds,
                drawn.len() == rounds,
                offset == round_start(rounds as int, width),
                all_targets(drawn, self.difficulty),
                forall|j: int|
                    0 <= j < rounds ==> !#[trigger] round_is_won(
                        start,
                        wanted,
                        time,
                        width,
                        drawn,
                        j,
                    ),
                self.difficulty == 0 && width > 0 && max_rounds > 0 ==> rounds == 0,
            decreases max_rounds - rounds,
        {
            let ghost before = drawn;
            let target = draw_target(self.difficulty);
            proof {
                drawn = before.push(target@);
                lemma_one_more_target(before, target@, self.difficulty);
                assert forall|j: int| 0 <= j < rounds implies !#[trigger] round_is_won(
                    start,
                    wanted,
                    time,
                    width,
                    drawn,
                    j,
                ) by {
                    lemma_round_ignores_later_targets(
                        start,
                        wanted,
                        time,
                        width,
                        before,
                        target@,
                        j,
                    );
                }
            }
            let won = self.run_round(
                &target,
                offset,
                time,
                &txs,
                Ghost(drawn),
                Ghost(rounds as int),
            );
            if won {
                proof {
                    lemma_appended_is_mined_onto(
                        start,
                        wanted,
                        time,
                        width,
                        drawn,
                        rounds as int,
                        self@.last(),
                        self.difficulty,
                    );
                    lemma_attempt_succeeded(start, wanted, time, width, max_rounds, drawn, self@);
                    assert(attempt_outcome(
                        start,
                        wanted,
                        time,
                        width,
                        max_rounds,
                        drawn,
                        true,
                        self@,
                    ));
                }
                return true;
            }
            rounds += 1;
            proof {
                lemma_next_round(rounds - 1, width);
            }
            if u64::MAX - offset < width {
                proof {
                    lemma_attempt_failed(start, wanted, time, width, max_rounds, drawn);
                    assert(attempt_outcome(
                        start,
                        wanted,
                        time,
                        width,
                        max_rounds,
                        drawn,
                        false,
                        self@,
                    ));
                }
                return false;
            }
            offset += width;
        }
        proof {
            lemma_attempt_failed(start, wanted, time, width, max_rounds, drawn);
            assert(attempt_outcome(
                start,
                wanted,
                time,
                width,
                max_rounds,
                drawn,
                false,
                self@,
            ));
        }
        false
    }

    /// Mines a block that holds `txs` at `time` and appends it, with no limit
    /// on the number of rounds but the supply of nonces. Returns whether a
    /// block was appended.
    pub fn add_block(&mut self, txs: Vec<Transaction>, time: Timestamp) -> (added: bool)
        ensures
            final(self).difficulty == old(self).difficulty,
            final(self).concurrent_hashes == old(self).concurrent_hashes,
            final(self).min_tx_per_block == old(self).min_tx_per_block,
            exists|targets: Seq<Seq<char>>|
                all_targets(targets, old(self).difficulty) && #[trigger] attempt_outcome(
                    old(self)@,
                    txs.deep_view(),
                    time,
                    old(self).concurrent_hashes,
                    u64::MAX,
                    targets,
                    added,
                    final(self)@,
                ),
            added ==> {
                &&& final(self)@.len() == old(self)@.len() + 1
                &&& final(self)@.drop_last() == old(self)@
                &&& mined_onto(
                    old(self)@,
                    txs.deep_view(),
                    time,
                    old(self).difficulty,
                    final(self)@.last(),
                )
                &&& is_hash_text(final(self)@.last().hash)
            },
            !added ==> final(self)@ == old(self)@,
            links_hold(old(self)@) ==> links_hold(final(self)@),
            mined_from_genesis(old(self)@) ==> mined_from_genesis(final(self)@),
            old(self).difficulty == 0 && old(self).concurrent_hashes > 0 ==> added,
            old(self).concurrent_hashes == 0 ==> !added,
    {
        self.add_block_within(txs, time, u64::MAX)
    }

    /// Appends a block that was made elsewhere if it continues this chain:
    /// if it is sealed, carries the next index and names the hash of the last
    /// block as its predecessor (on an empty chain: no predecessor). Returns
    /// whether the block was appended.
    pub fn try_append(&mut self, block: Block) -> (appended: bool)
        ensures
            final(self).difficulty == old(self).difficulty,
            final(self).concurrent_hashes == old(self).concurrent_hashes,
            final(self).min_tx_per_block == old(self).min_tx_per_block,
            appended == extends(old(self)@, block@),
            appended ==> final(self)@ == old(self)@.push(block@),
            appended ==> is_hash_text(block@.hash),
            !appended ==> final(self)@ == old(self)@,
            links_hold(old(self)@) ==> links_hold(final(self)@),
            mined_from_genesis(old(self)@) ==> mined_from_genesis(final(self)@),
    {
        let ghost start = self@;
        let tail = self.last_hash();
        let linked: bool = block.prev_hash == tail;
        let next_index: bool = block.index == self.chain.len() as u128;
        let sealed: bool = block.hash == hash_fields(
            &block.prev_hash,
            &block.transactions,
            block.time,
            block.index,
            block.nonce,
        );
        if linked && next_index && sealed {
            proof {
                lemma_push_keeps_links_if(start, block@);
                if mined_from_genesis(start) {
                    lemma_mining_extends_mined_chain(start, block@);
                }
            }
            self.chain.push(block);
            assert(self@ =~= start.push(block@));
            true
        } else {
            false
        }
    }
}

/// [`lemma_push_keeps_links`], for a chain that may or may not be valid.
proof fn lemma_push_keeps_links_if(chain: Seq<BlockView>, block: BlockView)
    requires
        block.prev_hash == tail_hash(chain),
    ensures
        links_hold(chain) ==> links_hold(chain.push(block)),
{
    if links_hold(chain) {
        lemma_push_keeps_links(chain, block);
    }
}

impl PartialEq for Blockchain {
    fn eq(&self, other: &Self) -> (same: bool) {
        if self.chain.len() != other.chain.len() {
            assert(self@.len() != other@.len());
            return false;
        }
        let mut i: usize = 0;
        while i < self.chain.len()
            invariant
                i <= self.chain@.len(),
                self.chain@.len() == other.chain@.len(),
                forall|j: int| 0 <= j < i ==> self.chain@[j]@ == other.chain@[j]@,
            decreases self.chain@.len() - i,
        {
            if !(self.chain[i] == other.chain[i]) {
                assert(self@[i as int] != other@[i as int]);
                return false;
            }
            i += 1;
        }
        assert(self@ =~= other@);
        true
    }
}

impl PartialEqSpecImpl for Blockchain {
    open spec fn obeys_eq_spec() -> bool {
        true
    }

    /// Two chains are equal when their block sequences are equal block by
    /// block, whatever their mining settings.
    open spec fn eq_spec(&self, other: &Self) -> bool {
        self@ == other@
    }
}

} // verus!
