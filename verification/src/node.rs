//! A node and the rule by which it settles a conflict between its chain and
//! a competing one: the longest valid chain wins.

use crate::attempt::{all_targets, attempt_outcome};
use crate::block::{is_hash_text, Block, BlockView};
use crate::blockchain::{clone_blocks, links_hold, mined_from_genesis, mined_onto, Blockchain};
use crate::timestamp::Timestamp;
use crate::transaction::{clone_list, Transaction};
use vstd::prelude::*;

verus! {

/// Why a conflict between two chains could not be resolved.
#[derive(Clone, Copy, Debug, PartialEq, Eq, Structural)]
pub enum ConflictError {
    /// Neither the node's own chain nor the competing one is valid.
    AllChainsInvalid,
}

/// A participant of the network. It owns exactly one chain.
#[derive(Debug)]
pub struct Node {
    pub blockchain: Blockchain,
}

/// The chain that a node keeps when `other` competes with its `own`: of two
/// valid chains the longer one, its own on a tie; of a valid and an invalid
/// chain the valid one. Where neither is valid the node's own chain stays.
pub open spec fn resolved(own: Seq<BlockView>, other: Seq<BlockView>) -> Seq<BlockView> {
    if links_hold(own) && links_hold(other) {
        if own.len() >= other.len() {
            own
        } else {
            other
        }
    } else if links_hold(other) {
        other
    } else {
        own
    }
}

/// Resolution never splices: the chain kept is one of the two, whole, and it
/// is valid as soon as one of the two is.
pub proof fn lemma_resolved_is_one_of_both(own: Seq<BlockView>, other: Seq<BlockView>)
    ensures
        resolved(own, other) == own || resolved(own, other) == other,
        links_hold(own) || links_hold(other) ==> links_hold(resolved(own, other)),
{
}

/// Of two valid chains the longer one is kept, and the node's own on a tie.
pub proof fn lemma_longer_valid_chain_wins(own: Seq<BlockView>, other: Seq<BlockView>)
    requires
        links_hold(own),
        links_hold(other),
    ensures
        own.len() < other.len() ==> resolved(own, other) == other,
        own.len() >= other.len() ==> resolved(own, other) == own,
{
}

/// A valid chain is kept against an invalid one, whichever of the two is the
/// node's own and however long the invalid one is.
pub proof fn lemma_valid_chain_beats_invalid(valid: Seq<BlockView>, invalid: Seq<BlockView>)
    requires
        links_hold(valid),
        !links_hold(invalid),
    ensures
        resolved(valid, invalid) == valid,
        resolved(invalid, valid) == valid,
{
}

impl Node {
    /// A node that owns `blockchain`.
    pub fn new(blockchain: Blockchain) -> (node: Node)
        ensures
            node.blockchain == blockchain,
    {
        Node { blockchain }
    }

    /// Replaces the node's blocks by a copy of those of `other` where `other`
    /// wins against them, given which of the two chains are valid.
    fn keep_winner(&mut self, other: &Blockchain, own_valid: bool, other_valid: bool)
        requires
            own_valid == links_hold(old(self).blockchain@),
            other_valid == links_hold(other@),
        ensures
            final(self).blockchain@ == resolved(old(self).blockchain@, other@),
            final(self).blockchain.difficulty == old(self).blockchain.difficulty,
            final(self).blockchain.concurrent_hashes == old(self).blockchain.concurrent_hashes,
            final(self).blockchain.min_tx_per_block == old(self).blockchain.min_tx_per_block,
    {
        let other_wins: bool = if own_valid && other_valid {
            self.blockchain.len() < other.len()
        } else {
            other_valid
        };
        if other_wins {
            self.blockchain.chain = clone_blocks(&other.chain);
        }
    }

    /// Settles a conflict with the competing chain `other`, of which at least
    /// one of the two must be valid: the node's blocks become those of the
    /// winner, as a whole. The mining settings of the node stay.
    pub fn resolve_chain_conflict(&mut self, other: &Blockchain)
        requires
            links_hold(old(self).blockchain@) || links_hold(other@),
        ensures
            final(self).blockchain@ == resolved(old(self).blockchain@, other@),
            links_hold(final(self).blockchain@),
            final(self).blockchain.difficulty == old(self).blockchain.difficulty,
            final(self).blockchain.concurrent_hashes == old(self).blockchain.concurrent_hashes,
            final(self).blockchain.min_tx_per_block == old(self).blockchain.min_tx_per_block,
    {
        let own_valid: bool = self.blockchain.is_valid();
        let other_valid: bool = other.is_valid();
        self.keep_winner(other, own_valid, other_valid);
    }

    /// Settles a conflict with the competing chain `other` if that can be
    /// done. Where neither chain is valid there is no chain to trust: the
    /// node's chain stays as it is and the error says so.
    pub fn try_resolve_chain_conflict(
        &mut self,
        other: &Blockchain,
    ) -> (outcome: Result<(), ConflictError>)
        ensures
            outcome is Ok <==> links_hold(old(self).blockchain@) || links_hold(other@),
            outcome is Err ==> outcome == Err::<(), ConflictError>(ConflictError::AllChainsInvalid),
            final(self).blockchain@ == resolved(old(self).blockchain@, other@),
            outcome is Ok ==> links_hold(final(self).blockchain@),
            outcome is Err ==> final(self).blockchain@ == old(self).blockchain@,
            final(self).blockchain.difficulty == old(self).blockchain.difficulty,
            final(self).blockchain.concurrent_hashes == old(self).blockchain.concurrent_hashes,
            final(self).blockchain.min_tx_per_block == old(self).blockchain.min_tx_per_block,
    {
        let own_valid: bool = self.blockchain.is_valid();
        let other_valid: bool = other.is_valid();
        if !own_valid && !other_valid {
            return Err(ConflictError::AllChainsInvalid);
        }
        self.keep_winner(other, own_valid, other_valid);
        Ok(())
    }

    /// Mines the pending transactions into a new block at `time`, by the
    /// attempt of [`Blockchain::add_block`]. On success the block is appended
    /// to the node's chain, the pending transactions are used up, and a copy
    /// of the block comes back for broadcasting. On failure nothing changes.
    ///
    /// Whether the attempt succeeds is decided by the targets that are drawn:
    /// `None` comes back only when no round that could be run was won against
    /// its target, and no further round could be run.
    pub fn mine_pending(
        &mut self,
        pending: &mut Vec<Transaction>,
        time: Timestamp,
    ) -> (mined: Option<Block>)
        ensures
            final(self).blockchain.difficulty == old(self).blockchain.difficulty,
            final(self).blockchain.concurrent_hashes == old(self).blockchain.concurrent_hashes,
            final(self).blockchain.min_tx_per_block == old(self).blockchain.min_tx_per_block,
            mined matches Some(block) ==> {
                &&& final(self).blockchain@ == old(self).blockchain@.push(block@)
                &&& mined_onto(
                    old(self).blockchain@,
                    old(pending).deep_view(),
                    time,
                    old(self).blockchain.difficulty,
                    block@,
                )
                &&& is_hash_text(block@.hash)
                &&& final(pending)@.len() == 0
            },
            mined is Some ==> exists|targets: Seq<Seq<char>>|
                all_targets(targets, old(self).blockchain.difficulty) && #[trigger] attempt_outcome(
                    old(self).blockchain@,
                    old(pending).deep_view(),
                    time,
                    old(self).blockchain.concurrent_hashes,
                    u64::MAX,
                    targets,
                    true,
                    final(self).blockchain@,
                ),
            mined is None ==> {
                &&& final(self).blockchain@ == old(self).blockchain@
                &&& final(pending).deep_view() == old(pending).deep_view()
            },
            mined is None ==> exists|targets: Seq<Seq<char>>|
                all_targets(targets, old(self).blockchain.difficulty) && #[trigger] attempt_outcome(
                    old(self).blockchain@,
                    old(pending).deep_view(),
                    time,
                    old(self).blockchain.concurrent_hashes,
                    u64::MAX,
                    targets,
                    false,
                    final(self).blockchain@,
                ),
            links_hold(old(self).blockchain@) ==> links_hold(final(self).blockchain@),
            mined_from_genesis(old(self).blockchain@) ==> mined_from_genesis(
                final(self).blockchain@,
            ),
            old(self).blockchain.difficulty == 0 && old(self).blockchain.concurrent_hashes > 0
                ==> mined is Some,
            old(self).blockchain.concurrent_hashes == 0 ==> mined is None,
    {
        let ghost start = self.blockchain@;
        let ghost wanted = pending.deep_view();
        let ghost width = self.blockchain.concurrent_hashes;
        let ghost difficulty = self.blockchain.difficulty;
        let added: bool = self.blockchain.add_block(clone_list(pending), time);
        let ghost targets = choose|targets: Seq<Seq<char>>|
            all_targets(targets, difficulty) && #[trigger] attempt_outcome(
                start,
                wanted,
                time,
                width,
                u64::MAX,
                targets,
                added,
                self.blockchain@,
            );
        proof {
            assert(all_targets(targets, difficulty));
            assert(attempt_outcome(
                start,
                wanted,
                time,
                width,
                u64::MAX,
                targets,
                added,
                self.blockchain@,
            ));
        }
        if added {
            pending.clear();
            let n: usize = self.blockchain.chain.len();
            let block = self.blockchain.chain[n - 1].clone();
            assert(self.blockchain@ =~= start.push(block@)) by {
                assert(self.blockchain@.drop_last() == start);
            }
            Some(block)
        } else {
            None
        }
    }
}

} // verus!
