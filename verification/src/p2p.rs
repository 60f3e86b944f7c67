//! The gossip protocol: the messages that peers exchange and what a peer
//! does on each event. Sending and receiving is left to the transport.

use crate::block::Block;
use crate::blockchain::{clone_blocks, links_hold, Blockchain};
use crate::node::{resolved, ConflictError, Node};
use vstd::prelude::*;

verus! {

/// Asks one peer for its full chain. `from_peer_id` names the peer that is
/// asked.
#[derive(Debug)]
pub struct LocalChainRequest {
    pub from_peer_id: String,
}

/// The reply to a request: the full chain of the peer that answers, addressed
/// to the peer that asked.
#[derive(Debug)]
pub struct ChainResponse {
    pub receiver_peer_id: String,
    pub chain: Vec<Block>,
}

impl ChainResponse {
    /// Whether this response is addressed to the peer `peer_id`.
    pub fn is_addressed_to(&self, peer_id: &String) -> (yes: bool)
        ensures
            yes == (self.receiver_peer_id@ == peer_id@),
    {
        self.receiver_peer_id == *peer_id
    }
}

/// What the dispatcher is told of, one event at a time.
#[derive(Debug)]
pub enum EventType {
    /// Fired once, shortly after the start, when peers had time to show up.
    Init,
    /// A chain response has arrived.
    LocalChainResponse(ChainResponse),
    /// The local mining search has sealed a new block.
    BlockMined(Block),
    /// The list of peers is asked for.
    PeerListQuery,
}

/// What the protocol layer asks the transport or the dispatcher to do.
#[derive(Debug)]
pub enum Action {
    /// Nothing is to be done.
    Nothing,
    /// Publish this request for a chain.
    SendChainRequest(LocalChainRequest),
    /// Hand this response on to the dispatcher, which reconciles the chains.
    ForwardResponse(ChainResponse),
    /// Publish this block to all subscribers.
    BroadcastBlock(Block),
    /// Show these peers.
    ReportPeers(Vec<String>),
}

/// Whether `action` is the answer of the protocol layer to `event` when
/// `peers` are known, the one discovered last standing last.
pub open spec fn reacts(peers: Seq<Seq<char>>, event: EventType, action: Action) -> bool {
    match event {
        EventType::Init => if peers.len() == 0 {
            action is Nothing
        } else {
            action matches Action::SendChainRequest(request) && request.from_peer_id@
                == peers.last()
        },
        EventType::LocalChainResponse(response) => {
            action matches Action::ForwardResponse(forwarded) && forwarded.receiver_peer_id@
                == response.receiver_peer_id@ && forwarded.chain.deep_view()
                == response.chain.deep_view()
        },
        EventType::BlockMined(block) => {
            action matches Action::BroadcastBlock(published) && published@ == block@
        },
        EventType::PeerListQuery => {
            action matches Action::ReportPeers(listed) && listed.deep_view() == peers
        },
    }
}

/// Whether `list` names no peer twice.
pub open spec fn no_duplicates(list: Seq<Seq<char>>) -> bool {
    forall|i: int, j: int| 0 <= i < j < list.len() ==> list[i] != list[j]
}

/// The peers of `discovered`, each named once, in the order in which they
/// first occur.
pub open spec fn distinct(discovered: Seq<Seq<char>>) -> Seq<Seq<char>>
    decreases discovered.len(),
{
    if discovered.len() == 0 {
        Seq::empty()
    } else {
        let earlier = distinct(discovered.drop_last());
        if earlier.contains(discovered.last()) {
            earlier
        } else {
            earlier.push(discovered.last())
        }
    }
}

/// Naming each peer once loses no peer, adds none and leaves no duplicate.
pub proof fn lemma_distinct_is_a_set(discovered: Seq<Seq<char>>)
    ensures
        no_duplicates(distinct(discovered)),
        forall|p: Seq<char>|
            #![trigger distinct(discovered).contains(p)]
            #![trigger discovered.contains(p)]
            distinct(discovered).contains(p) <==> discovered.contains(p),
    decreases discovered.len(),
{
    if discovered.len() > 0 {
        let shorter = discovered.drop_last();
        let last = discovered.last();
        let earlier = distinct(shorter);
        lemma_distinct_is_a_set(shorter);
        assert forall|p: Seq<char>| distinct(discovered).contains(p) <==> discovered.contains(
            p,
        ) by {
            if discovered.contains(p) {
                let k = choose|k: int| 0 <= k < discovered.len() && discovered[k] == p;
                if k < shorter.len() {
                    assert(shorter[k] == p);
                    assert(shorter.contains(p));
                    assert(earlier.contains(p));
                    let m = choose|m: int| 0 <= m < earlier.len() && earlier[m] == p;
                    assert(distinct(discovered)[m] == p);
                } else if !earlier.contains(last) {
                    assert(distinct(discovered)[earlier.len() as int] == p);
                }
            }
            if distinct(discovered).contains(p) {
                let m = choose|m: int|
                    0 <= m < distinct(discovered).len() && distinct(discovered)[m] == p;
                if m < earlier.len() {
                    assert(earlier[m] == p);
                    assert(earlier.contains(p));
                    assert(shorter.contains(p));
                    let k = choose|k: int| 0 <= k < shorter.len() && shorter[k] == p;
                    assert(discovered[k] == p);
                } else {
                    assert(discovered[discovered.len() - 1] == p);
                }
            }
        }
    }
}

/// A copy of a list of peer identifiers.
pub fn clone_peers(peers: &Vec<String>) -> (copy: Vec<String>)
    ensures
        copy.deep_view() == peers.deep_view(),
{
    let copy = peers.clone();
    assert(copy.deep_view() =~= peers.deep_view());
    copy
}

/// Whether `peer` occurs in `list`.
pub fn knows_peer(list: &Vec<String>, peer: &String) -> (known: bool)
    ensures
        known == list.deep_view().contains(peer@),
{
    let mut i: usize = 0;
    while i < list.len()
        invariant
            i <= list@.len(),
            forall|j: int| 0 <= j < i ==> list.deep_view()[j] != peer@,
        decreases list@.len() - i,
    {
        if list[i] == *peer {
            assert(list.deep_view()[i as int] == peer@);
            return true;
        }
        i += 1;
    }
    false
}

/// The peers that were discovered, each named once, in the order in which
/// they first showed up.
pub fn get_list_peers(discovered: &Vec<String>) -> (peers: Vec<String>)
    ensures
        peers.deep_view() == distinct(discovered.deep_view()),
        no_duplicates(peers.deep_view()),
        forall|p: Seq<char>|
            peers.deep_view().contains(p) <==> discovered.deep_view().contains(p),
{
    let mut peers: Vec<String> = Vec::new();
    let mut i: usize = 0;
    assert(discovered.deep_view().take(0) =~= Seq::<Seq<char>>::empty());
    while i < discovered.len()
        invariant
            i <= discovered@.len(),
            peers.deep_view() == distinct(discovered.deep_view().take(i as int)),
        decreases discovered@.len() - i,
    {
        let ghost seen = peers.deep_view();
        let ghost longer = discovered.deep_view().take(i + 1);
        assert(longer.drop_last() =~= discovered.deep_view().take(i as int));
        assert(longer.last() == discovered@[i as int]@);
        if !knows_peer(&peers, &discovered[i]) {
            peers.push(discovered[i].clone());
            assert(peers.deep_view() =~= seen.push(discovered@[i as int]@));
        }
        i += 1;
    }
    assert(discovered.deep_view().take(discovered@.len() as int) =~= discovered.deep_view());
    proof {
        lemma_distinct_is_a_set(discovered.deep_view());
    }
    peers
}

/// The answer of the protocol layer to one event, given the peers known at
/// that moment, the one discovered last standing last.
///
/// On `Init` a request goes to the peer discovered last, if there is any
/// peer. A response that has arrived is handed on as it is. A block that
/// was mined is broadcast. A query for the peers is answered with the peers.
pub fn next_action(peers: &Vec<String>, event: EventType) -> (action: Action)
    ensures
        reacts(peers.deep_view(), event, action),
{
    match event {
        EventType::Init => {
            let n: usize = peers.len();
            if n == 0 {
                Action::Nothing
            } else {
                Action::SendChainRequest(LocalChainRequest { from_peer_id: peers[n - 1].clone() })
            }
        },
        EventType::LocalChainResponse(response) => Action::ForwardResponse(response),
        EventType::BlockMined(block) => Action::BroadcastBlock(block),
        EventType::PeerListQuery => Action::ReportPeers(clone_peers(peers)),
    }
}

/// The reply of the peer `local_peer_id` to a request that `requester` has
/// sent: its full chain, addressed to the requester, if the request asks this
/// peer, and nothing if it asks another.
pub fn answer_request(
    chain: &Blockchain,
    local_peer_id: &String,
    request: &LocalChainRequest,
    requester: String,
) -> (reply: Option<ChainResponse>)
    ensures
        reply is Some <==> request.from_peer_id@ == local_peer_id@,
        reply matches Some(response) ==> response.receiver_peer_id@ == requester@
            && response.chain.deep_view() == chain@,
{
    if request.from_peer_id == *local_peer_id {
        Some(ChainResponse { receiver_peer_id: requester, chain: clone_blocks(&chain.chain) })
    } else {
        None
    }
}

/// Reconciles the node's chain with the chain that a response carries, by
/// the rule of [`Node::try_resolve_chain_conflict`].
pub fn reconcile(node: &mut Node, response: ChainResponse) -> (outcome: Result<(), ConflictError>)
    ensures
        outcome is Ok <==> links_hold(old(node).blockchain@) || links_hold(
            response.chain.deep_view(),
        ),
        outcome is Err ==> outcome == Err::<(), ConflictError>(ConflictError::AllChainsInvalid),
        final(node).blockchain@ == resolved(old(node).blockchain@, response.chain.deep_view()),
        final(node).blockchain.difficulty == old(node).blockchain.difficulty,
        final(node).blockchain.concurrent_hashes == old(node).blockchain.concurrent_hashes,
        final(node).blockchain.min_tx_per_block == old(node).blockchain.min_tx_per_block,
{
    let other = Blockchain {
        chain: response.chain,
        difficulty: node.blockchain.difficulty,
        concurrent_hashes: node.blockchain.concurrent_hashes,
        min_tx_per_block: node.blockchain.min_tx_per_block,
    };
    node.try_resolve_chain_conflict(&other)
}

} // verus!
