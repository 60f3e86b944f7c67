//! Attempts to mine a block: rounds of the search, run one after the other
//! until one is won.

use crate::block::BlockView;
use crate::blockchain::{extends, links_hold, mined_onto, tail_hash};
use crate::mining::{candidate, is_target, meets_target, round_fits, wins_round};
use crate::timestamp::Timestamp;
use crate::transaction::TransactionView;
use vstd::prelude::*;

verus! {

/// The first nonce of round `k` when each round tries `width` nonces.
#[verifier::opaque]
pub open spec fn round_start(k: int, width: u64) -> int {
    k * width
}

/// Whether round `k` can be run: it starts at a nonce, and its `width`
/// nonces are all nonces. The last round that runs may end at the largest
/// nonce.
pub open spec fn round_runs(k: int, width: u64) -> bool {
    &&& 0 <= k
    &&& round_start(k, width) <= u64::MAX
    &&& round_fits(round_start(k, width) as u64, width)
}

/// Whether round `k` of an attempt to mine onto `chain` is run and won: one of
/// its nonces meets the target of that round, `targets[k]`.
#[verifier::opaque]
pub open spec fn round_is_won(
    chain: Seq<BlockView>,
    txs: Seq<TransactionView>,
    time: Timestamp,
    width: u64,
    targets: Seq<Seq<char>>,
    k: int,
) -> bool {
    &&& 0 <= k < targets.len()
    &&& round_runs(k, width)
    &&& exists|nonce: u64| #[trigger]
        wins_round(
            tail_hash(chain),
            txs,
            round_start(k, width) as u64,
            width,
            time,
            chain.len() as u128,
            targets[k],
            nonce,
        )
}

/// Whether `block` is what an attempt to mine onto `chain` appends in round
/// `k`: no earlier round is won, and `block` is a winning candidate of round
/// `k`.
#[verifier::opaque]
pub open spec fn appended_in_round(
    chain: Seq<BlockView>,
    txs: Seq<TransactionView>,
    time: Timestamp,
    width: u64,
    targets: Seq<Seq<char>>,
    k: int,
    block: BlockView,
) -> bool {
    &&& 0 <= k < targets.len()
    &&& round_runs(k, width)
    &&& forall|j: int| 0 <= j < k ==> !#[trigger] round_is_won(chain, txs, time, width, targets, j)
    &&& wins_round(
        tail_hash(chain),
        txs,
        round_start(k, width) as u64,
        width,
        time,
        chain.len() as u128,
        targets[k],
        block.nonce,
    )
    &&& block == candidate(tail_hash(chain), txs, block.nonce, time, chain.len() as u128)
}

/// What an attempt of at most `max_rounds` rounds gives when `targets` are
/// the targets drawn, one for each round that was run. On success the last
/// round run is the first that is won, and its winner is appended. On failure
/// the chain stays, no round run is won, and no further round could be run:
/// the limit is reached, there are no nonces in a round, or the nonces are
/// used up.
#[verifier::opaque]
pub open spec fn attempt_outcome(
    chain: Seq<BlockView>,
    txs: Seq<TransactionView>,
    time: Timestamp,
    width: u64,
    max_rounds: u64,
    targets: Seq<Seq<char>>,
    added: bool,
    after: Seq<BlockView>,
) -> bool {
    &&& targets.len() <= max_rounds
    &&& if added {
        &&& after.len() == chain.len() + 1
        &&& after.drop_last() == chain
        &&& appended_in_round(chain, txs, time, width, targets, targets.len() - 1, after.last())
    } else {
        &&& after == chain
        &&& forall|j: int|
            0 <= j < targets.len() ==> !#[trigger] round_is_won(chain, txs, time, width, targets, j)
        &&& targets.len() == max_rounds || width == 0 || !round_runs(targets.len() as int, width)
    }
}

/// Whether each of `targets` is a target of the given difficulty.
pub open spec fn all_targets(targets: Seq<Seq<char>>, difficulty: usize) -> bool {
    forall|i: int| 0 <= i < targets.len() ==> is_target(#[trigger] targets[i], difficulty as nat)
}

/// The first round starts at nonce 0.
pub proof fn lemma_first_round(width: u64)
    ensures
        round_start(0, width) == 0,
{
    reveal(round_start);
}

/// Each round starts the width behind the one before.
pub proof fn lemma_next_round(k: int, width: u64)
    ensures
        round_start(k + 1, width) == round_start(k, width) + width,
{
    reveal(round_start);
    assert((k + 1) * width == k * width + width) by (nonlinear_arith);
}

/// Later rounds do not start earlier.
pub proof fn lemma_rounds_in_order(k: int, j: int, width: u64)
    requires
        k <= j,
    ensures
        round_start(k, width) <= round_start(j, width),
{
    reveal(round_start);
    assert(k * width <= j * width) by (nonlinear_arith)
        requires
            k <= j,
            width >= 0,
    ;
}

/// A round whose nonces fit runs.
pub proof fn lemma_round_runs(k: int, width: u64, offset: u64)
    requires
        0 <= k,
        offset == round_start(k, width),
        round_fits(offset, width),
    ensures
        round_runs(k, width),
{
}

/// Once a round with nonces in it cannot be run, no later round can.
pub proof fn lemma_later_rounds_do_not_run(k: int, j: int, width: u64)
    requires
        0 <= k <= j,
        width > 0,
        !round_runs(k, width),
    ensures
        !round_runs(j, width),
{
    lemma_first_round(width);
    lemma_rounds_in_order(0, k, width);
    lemma_rounds_in_order(k, j, width);
}

/// At difficulty 0 the target is empty, and the first nonce of a round that
/// has any nonce wins it.
pub proof fn lemma_empty_target_wins(
    prev: Seq<char>,
    txs: Seq<TransactionView>,
    offset: u64,
    width: u64,
    time: Timestamp,
    index: u128,
    target: Seq<char>,
)
    requires
        target.len() == 0,
        width > 0,
    ensures
        wins_round(prev, txs, offset, width, time, index, target, offset),
{
    assert(target.is_prefix_of(candidate(prev, txs, offset, time, index).hash));
}

/// A round none of whose nonces wins is not won.
pub proof fn lemma_round_lost(
    chain: Seq<BlockView>,
    txs: Seq<TransactionView>,
    time: Timestamp,
    width: u64,
    targets: Seq<Seq<char>>,
    k: int,
)
    requires
        forall|nonce: u64|
            !#[trigger] wins_round(
                tail_hash(chain),
                txs,
                round_start(k, width) as u64,
                width,
                time,
                chain.len() as u128,
                targets[k],
                nonce,
            ),
    ensures
        !round_is_won(chain, txs, time, width, targets, k),
{
    reveal(round_is_won);
}

/// Once a round cannot be run, neither that round nor a later one is won.
pub proof fn lemma_no_round_from(
    chain: Seq<BlockView>,
    txs: Seq<TransactionView>,
    time: Timestamp,
    width: u64,
    targets: Seq<Seq<char>>,
    k: int,
)
    requires
        0 <= k,
        width > 0,
        !round_runs(k, width),
    ensures
        forall|j: int| k <= j ==> !#[trigger] round_is_won(chain, txs, time, width, targets, j),
{
    assert forall|j: int| k <= j implies !#[trigger] round_is_won(
        chain,
        txs,
        time,
        width,
        targets,
        j,
    ) by {
        reveal(round_is_won);
        lemma_later_rounds_do_not_run(k, j, width);
    }
}

/// There are no rounds but those that have a target.
pub proof fn lemma_no_round_beyond(
    chain: Seq<BlockView>,
    txs: Seq<TransactionView>,
    time: Timestamp,
    width: u64,
    targets: Seq<Seq<char>>,
)
    ensures
        forall|j: int|
            j < 0 || targets.len() <= j ==> !#[trigger] round_is_won(
                chain,
                txs,
                time,
                width,
                targets,
                j,
            ),
{
    reveal(round_is_won);
}

/// Whether a round is won does not depend on the targets of later rounds.
pub proof fn lemma_round_ignores_later_targets(
    chain: Seq<BlockView>,
    txs: Seq<TransactionView>,
    time: Timestamp,
    width: u64,
    targets: Seq<Seq<char>>,
    next: Seq<char>,
    k: int,
)
    requires
        0 <= k < targets.len(),
    ensures
        round_is_won(chain, txs, time, width, targets.push(next), k) == round_is_won(
            chain,
            txs,
            time,
            width,
            targets,
            k,
        ),
{
    reveal(round_is_won);
    assert(targets.push(next)[k] == targets[k]);
}

/// One more target of the difficulty keeps a list of such targets one.
pub proof fn lemma_one_more_target(targets: Seq<Seq<char>>, next: Seq<char>, difficulty: usize)
    requires
        all_targets(targets, difficulty),
        is_target(next, difficulty as nat),
    ensures
        all_targets(targets.push(next), difficulty),
{
    let longer = targets.push(next);
    assert forall|i: int| 0 <= i < longer.len() implies is_target(
        #[trigger] longer[i],
        difficulty as nat,
    ) by {
        if i < targets.len() {
            assert(longer[i] == targets[i]);
        }
    }
}

/// The winner of the first round that is won is what the attempt appends.
pub proof fn lemma_winner_appended(
    chain: Seq<BlockView>,
    txs: Seq<TransactionView>,
    time: Timestamp,
    width: u64,
    targets: Seq<Seq<char>>,
    k: int,
    block: BlockView,
)
    requires
        0 <= k < targets.len(),
        round_runs(k, width),
        forall|j: int| 0 <= j < k ==> !#[trigger] round_is_won(chain, txs, time, width, targets, j),
        wins_round(
            tail_hash(chain),
            txs,
            round_start(k, width) as u64,
            width,
            time,
            chain.len() as u128,
            targets[k],
            block.nonce,
        ),
        block == candidate(tail_hash(chain), txs, block.nonce, time, chain.len() as u128),
    ensures
        round_is_won(chain, txs, time, width, targets, k),
        appended_in_round(chain, txs, time, width, targets, k, block),
{
    reveal(round_is_won);
    reveal(appended_in_round);
}

/// What an attempt appends is a sealed block that continues the chain, holds
/// what was asked for and meets the target of its round.
pub proof fn lemma_appended_extends(
    chain: Seq<BlockView>,
    txs: Seq<TransactionView>,
    time: Timestamp,
    width: u64,
    targets: Seq<Seq<char>>,
    k: int,
    block: BlockView,
)
    requires
        appended_in_round(chain, txs, time, width, targets, k, block),
        chain.len() <= usize::MAX,
    ensures
        extends(chain, block),
        block.transactions == txs,
        block.time == time,
        0 <= k < targets.len(),
        meets_target(block, targets[k]),
{
    reveal(appended_in_round);
    assert(block.is_sealed());
}

/// What an attempt appends is what mining is to append: a sealed block that
/// continues the chain, holds what was asked for and meets a target.
pub proof fn lemma_appended_is_mined_onto(
    chain: Seq<BlockView>,
    txs: Seq<TransactionView>,
    time: Timestamp,
    width: u64,
    targets: Seq<Seq<char>>,
    k: int,
    block: BlockView,
    difficulty: usize,
)
    requires
        appended_in_round(chain, txs, time, width, targets, k, block),
        all_targets(targets, difficulty),
        chain.len() <= usize::MAX,
    ensures
        mined_onto(chain, txs, time, difficulty, block),
        extends(chain, block),
{
    lemma_appended_extends(chain, txs, time, width, targets, k, block);
    assert(is_target(targets[k], difficulty as nat));
    assert(meets_target(block, targets[k]));
}

/// An attempt whose last round is the first that is won has succeeded.
pub proof fn lemma_attempt_succeeded(
    chain: Seq<BlockView>,
    txs: Seq<TransactionView>,
    time: Timestamp,
    width: u64,
    max_rounds: u64,
    targets: Seq<Seq<char>>,
    after: Seq<BlockView>,
)
    requires
        0 < targets.len() <= max_rounds,
        after.len() == chain.len() + 1,
        after.drop_last() == chain,
        appended_in_round(chain, txs, time, width, targets, targets.len() - 1, after.last()),
    ensures
        attempt_outcome(chain, txs, time, width, max_rounds, targets, true, after),
{
    reveal(attempt_outcome);
}

/// An attempt that cannot run another round and has won none has failed.
pub proof fn lemma_attempt_failed(
    chain: Seq<BlockView>,
    txs: Seq<TransactionView>,
    time: Timestamp,
    width: u64,
    max_rounds: u64,
    targets: Seq<Seq<char>>,
)
    requires
        targets.len() <= max_rounds,
        forall|j: int|
            0 <= j < targets.len() ==> !#[trigger] round_is_won(
                chain,
                txs,
                time,
                width,
                targets,
                j,
            ),
        targets.len() == max_rounds || width == 0 || !round_runs(targets.len() as int, width),
    ensures
        attempt_outcome(chain, txs, time, width, max_rounds, targets, false, chain),
{
    reveal(attempt_outcome);
}

/// The first block that is mined onto an empty chain makes a valid chain of
/// one block: it names no predecessor, carries index 0, holds the
/// transactions that were asked for, in their order, is sealed, and its hash
/// starts with a target of as many characters as the difficulty asks for.
pub proof fn lemma_first_block_mined(
    txs: Seq<TransactionView>,
    time: Timestamp,
    difficulty: usize,
    block: BlockView,
)
    requires
        mined_onto(Seq::<BlockView>::empty(), txs, time, difficulty, block),
    ensures
        Seq::<BlockView>::empty().push(block).len() == 1,
        links_hold(Seq::<BlockView>::empty().push(block)),
        block.transactions == txs,
        block.time == time,
        block.prev_hash == Seq::<char>::empty(),
        block.index == 0,
        block.hash == block.digest(),
        exists|target: Seq<char>|
            target.len() == difficulty && #[trigger] target.is_prefix_of(block.hash),
{
    let target = choose|target: Seq<char>|
        is_target(target, difficulty as nat) && #[trigger] meets_target(block, target);
    assert(target.len() == difficulty && target.is_prefix_of(block.hash));
}

} // verus!
