//! The proof-of-work search: drawing a target, evaluating candidate nonces
//! in parallel, and reporting a sealed block whose hash starts with the
//! target.

use crate::block::{
    content_hash, hash_fields, is_hash_text, lemma_content_hash_shape, Block, BlockView,
};
use crate::hex::is_hex_digit;
use crate::timestamp::Timestamp;
use crate::transaction::{clone_list, Transaction, TransactionView};
use rand::Rng;
use rayon::iter::{IntoParallelRefIterator, ParallelIterator};
use vstd::prelude::*;
use vstd::string::*;

verus! {

/// The characters a target is drawn from, in the order in which a drawn
/// number picks them.
pub open spec fn target_alphabet() -> Seq<char> {
    seq!['a', 'b', 'c', 'd', 'e', 'f', '0', '1', '2', '3', '4', '5', '6', '7', '8', '9']
}

/// Whether `target` can be the target of a round at the given difficulty:
/// `difficulty` characters, each a lowercase hexadecimal digit.
pub open spec fn is_target(target: Seq<char>, difficulty: nat) -> bool {
    &&& target.len() == difficulty
    &&& forall|i: int| 0 <= i < target.len() ==> is_hex_digit(#[trigger] target[i])
}

/// The sealed block that a round builds for one nonce.
pub open spec fn candidate(
    prev: Seq<char>,
    txs: Seq<TransactionView>,
    nonce: u64,
    time: Timestamp,
    index: u128,
) -> BlockView {
    BlockView {
        hash: content_hash(prev, txs, time, index, nonce),
        prev_hash: prev,
        transactions: txs,
        time,
        index,
        nonce,
    }
}

/// Whether the hash of `block` starts with `target`.
pub open spec fn meets_target(block: BlockView, target: Seq<char>) -> bool {
    target.is_prefix_of(block.hash)
}

/// Whether the `width` nonces from `offset` on are all nonces: the last of
/// them, `offset + width - 1`, is no more than the largest nonce. A round
/// without nonces fits wherever it starts.
pub open spec fn round_fits(offset: u64, width: u64) -> bool {
    width == 0 || offset + (width - 1) <= u64::MAX
}

/// Whether `nonce` is one of the `width` nonces from `offset` on and its
/// candidate meets `target`.
pub open spec fn wins_round(
    prev: Seq<char>,
    txs: Seq<TransactionView>,
    offset: u64,
    width: u64,
    time: Timestamp,
    index: u128,
    target: Seq<char>,
    nonce: u64,
) -> bool {
    &&& offset <= nonce < offset + width
    &&& meets_target(candidate(prev, txs, nonce, time, index), target)
}

/// What one round of the search may return for a given target: a winning
/// candidate of the round, or nothing if no nonce of the round wins.
pub open spec fn round_outcome(
    prev: Seq<char>,
    txs: Seq<TransactionView>,
    offset: u64,
    width: u64,
    time: Timestamp,
    index: u128,
    target: Seq<char>,
    found: Option<Block>,
) -> bool {
    match found {
        Some(block) => {
            &&& wins_round(prev, txs, offset, width, time, index, target, block.nonce)
            &&& block@ == candidate(prev, txs, block.nonce, time, index)
        },
        None => forall|nonce: u64|
            !#[trigger] wins_round(prev, txs, offset, width, time, index, target, nonce),
    }
}

/// The block that a round finds holds what the round was asked for, carries
/// a nonce of the round, is sealed, and its hash, sixty-four lowercase
/// hexadecimal digits, starts with the target.
pub proof fn lemma_block_of_a_round(
    prev: Seq<char>,
    txs: Seq<TransactionView>,
    offset: u64,
    width: u64,
    time: Timestamp,
    index: u128,
    target: Seq<char>,
    found: Option<Block>,
)
    requires
        round_outcome(prev, txs, offset, width, time, index, target, found),
        found is Some,
    ensures
        target.is_prefix_of(found->0@.hash),
        offset <= found->0.nonce < offset + width,
        found->0@.hash == found->0@.digest(),
        is_hash_text(found->0@.hash),
        found->0@.prev_hash == prev,
        found->0@.transactions == txs,
        found->0@.time == time,
        found->0@.index == index,
{
    lemma_content_hash_shape(prev, txs, time, index, found->0.nonce);
}

/// A round over a range that holds a winning nonce finds a block: one of the
/// range, sealed, whose hash starts with the target.
pub proof fn lemma_round_with_a_winner_finds_one(
    prev: Seq<char>,
    txs: Seq<TransactionView>,
    offset: u64,
    width: u64,
    time: Timestamp,
    index: u128,
    target: Seq<char>,
    found: Option<Block>,
    winner: u64,
)
    requires
        round_outcome(prev, txs, offset, width, time, index, target, found),
        offset <= winner < offset + width,
        target.is_prefix_of(candidate(prev, txs, winner, time, index).hash),
    ensures
        found is Some,
        target.is_prefix_of(found->0@.hash),
        offset <= found->0.nonce < offset + width,
        found->0@.hash == found->0@.digest(),
        found->0@.prev_hash == prev,
        found->0@.transactions == txs,
        found->0@.time == time,
        found->0@.index == index,
{
    assert(wins_round(prev, txs, offset, width, time, index, target, winner));
}

/// A round over a range without a winning nonce finds nothing.
pub proof fn lemma_round_without_a_winner_finds_nothing(
    prev: Seq<char>,
    txs: Seq<TransactionView>,
    offset: u64,
    width: u64,
    time: Timestamp,
    index: u128,
    target: Seq<char>,
    found: Option<Block>,
)
    requires
        round_outcome(prev, txs, offset, width, time, index, target, found),
        forall|nonce: u64|
            offset <= nonce < offset + width ==> !target.is_prefix_of(
                #[trigger] candidate(prev, txs, nonce, time, index).hash,
            ),
    ensures
        found is None,
{
    if found is Some {
        let nonce = found->0.nonce;
        assert(wins_round(prev, txs, offset, width, time, index, target, nonce));
        assert(!target.is_prefix_of(candidate(prev, txs, nonce, time, index).hash));
    }
}

/// Draws a number below `bound` from the thread's generator, with
/// `rand::thread_rng` and `rand::Rng::gen_range` on the range from zero up to,
/// not including, `bound`.
///
/// Trusted: the number drawn lies in that range. Nothing is said of which
/// one it is. `gen_range` panics on an empty range, hence the `requires`.
#[verifier::external_body]
fn random_index(bound: usize) -> (index: usize)
    requires
        bound > 0,
    ensures
        index < bound,
{
    rand::thread_rng().gen_range(0..bound)
}

/// The one-character string that holds entry `index` of the target alphabet.
pub fn target_symbol(index: usize) -> (symbol: &'static str)
    requires
        index < 16,
    ensures
        symbol@ == seq![target_alphabet()[index as int]],
{
    proof {
        reveal_strlit("a");
        reveal_strlit("b");
        reveal_strlit("c");
        reveal_strlit("d");
        reveal_strlit("e");
        reveal_strlit("f");
        reveal_strlit("0");
        reveal_strlit("1");
        reveal_strlit("2");
        reveal_strlit("3");
        reveal_strlit("4");
        reveal_strlit("5");
        reveal_strlit("6");
        reveal_strlit("7");
        reveal_strlit("8");
        reveal_strlit("9");
    }
    let symbol: &'static str = match index {
        0 => "a",
        1 => "b",
        2 => "c",
        3 => "d",
        4 => "e",
        5 => "f",
        6 => "0",
        7 => "1",
        8 => "2",
        9 => "3",
        10 => "4",
        11 => "5",
        12 => "6",
        13 => "7",
        14 => "8",
        _ => "9",
    };
    assert(symbol@ =~= seq![target_alphabet()[index as int]]);
    symbol
}

/// Draws a fresh target for one round: `difficulty` characters, each picked
/// at random from the target alphabet.
pub fn draw_target(difficulty: usize) -> (target: String)
    ensures
        is_target(target@, difficulty as nat),
{
    let mut target: String = String::new();
    let mut drawn: usize = 0;
    while drawn < difficulty
        invariant
            drawn <= difficulty,
            is_target(target@, drawn as nat),
        decreases difficulty - drawn,
    {
        let pick: usize = random_index(16);
        let ghost before = target@;
        target.append(target_symbol(pick));
        assert(target@ =~= before.push(target_alphabet()[pick as int]));
        drawn += 1;
    }
    target
}

/// Whether `text` starts with `prefix`.
pub fn starts_with(text: &str, prefix: &str) -> (yes: bool)
    ensures
        yes == prefix@.is_prefix_of(text@),
{
    let n: usize = prefix.unicode_len();
    if n > text.unicode_len() {
        return false;
    }
    let mut i: usize = 0;
    while i < n
        invariant
            i <= n,
            n == prefix@.len(),
            n <= text@.len(),
            forall|j: int| 0 <= j < i ==> prefix@[j] == text@[j],
        decreases n - i,
    {
        if prefix.get_char(i) != text.get_char(i) {
            assert(text@.subrange(0, n as int)[i as int] != prefix@[i as int]);
            return false;
        }
        i += 1;
    }
    assert(prefix@ =~= text@.subrange(0, n as int));
    true
}

/// Builds and seals the candidate for one nonce, and hands it back if its
/// hash starts with `target`.
pub fn try_candidate(
    prev: &String,
    txs: &Vec<Transaction>,
    nonce: u64,
    time: Timestamp,
    index: u128,
    target: &String,
) -> (found: Option<Block>)
    ensures
        found is Some <==> meets_target(
            candidate(prev@, txs.deep_view(), nonce, time, index),
            target@,
        ),
        found matches Some(block) ==> block@ == candidate(
            prev@,
            txs.deep_view(),
            nonce,
            time,
            index,
        ),
        found matches Some(block) ==> is_hash_text(block@.hash),
{
    let hash = hash_fields(prev, txs, time, index, nonce);
    if starts_with(hash.as_str(), target.as_str()) {
        Some(
            Block {
                hash,
                prev_hash: prev.clone(),
                transactions: clone_list(txs),
                time,
                index,
                nonce,
            },
        )
    } else {
        None
    }
}

/// Evaluates the candidates for `nonces` on rayon's thread pool, with
/// `par_iter` on the nonces and `ParallelIterator::find_map_any`, each nonce
/// being given to [`try_candidate`].
///
/// Trusted: `find_map_any` returns what the closure returned for one of the
/// items, some result that is not `None` if there is any, and `None` only if
/// the closure returned `None` for every item. Which of several winning
/// candidates comes back is left open.
#[verifier::external_body]
fn find_any_match(
    nonces: &Vec<u64>,
    prev: &String,
    txs: &Vec<Transaction>,
    time: Timestamp,
    index: u128,
    target: &String,
) -> (found: Option<Block>)
    ensures
        found matches Some(block) ==> exists|i: int|
            0 <= i < nonces@.len() && block@ == candidate(
                prev@,
                txs.deep_view(),
                #[trigger] nonces@[i],
                time,
                index,
            ) && meets_target(block@, target@),
        found is None ==> forall|i: int|
            0 <= i < nonces@.len() ==> !meets_target(
                candidate(prev@, txs.deep_view(), #[trigger] nonces@[i], time, index),
                target@,
            ),
{
    nonces.par_iter().find_map_any(|&nonce| try_candidate(prev, txs, nonce, time, index, target))
}

/// One round of the search: tries the `width` nonces from `offset` on against
/// `target`, all of them in parallel, and returns a sealed block whose hash
/// starts with `target` if any of them gives one.
///
/// The round succeeds exactly when some nonce in the range wins. When more
/// than one does, any of the winners may come back. The range may end at
/// the largest nonce, not beyond it.
pub fn search_round(
    prev: &String,
    txs: &Vec<Transaction>,
    offset: u64,
    width: u64,
    time: Timestamp,
    index: u128,
    target: &String,
) -> (found: Option<Block>)
    requires
        round_fits(offset, width),
    ensures
        round_outcome(prev@, txs.deep_view(), offset, width, time, index, target@, found),
        found is Some <==> exists|nonce: u64| #[trigger]
            wins_round(prev@, txs.deep_view(), offset, width, time, index, target@, nonce),
        found matches Some(block) ==> is_hash_text(block@.hash),
{
    let mut nonces: Vec<u64> = Vec::new();
    let mut k: u64 = 0;
    while k < width
        invariant
            k <= width,
            round_fits(offset, width),
            nonces@.len() == k,
            forall|i: int| 0 <= i < k ==> #[trigger] nonces@[i] == offset + i,
        decreases width - k,
    {
        nonces.push(offset + k);
        k += 1;
    }
    let found = find_any_match(&nonces, prev, txs, time, index, target);
    proof {
        if found is Some {
            lemma_content_hash_shape(prev@, txs.deep_view(), time, index, found->0.nonce);
            assert(wins_round(
                prev@,
                txs.deep_view(),
                offset,
                width,
                time,
                index,
                target@,
                found->0.nonce,
            ));
        } else {
            assert forall|nonce: u64|
                !#[trigger] wins_round(
                    prev@,
                    txs.deep_view(),
                    offset,
                    width,
                    time,
                    index,
                    target@,
                    nonce,
                ) by {
                if offset <= nonce < offset + width {
                    let i: int = nonce - offset;
                    assert(nonces@[i] == nonce);
                }
            }
        }
    }
    found
}

} // verus!
