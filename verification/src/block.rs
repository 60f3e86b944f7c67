//! Blocks: containers of transactions that are sealed with the SHA-256
//! digest of their canonical bytes and linked by naming the hash of their
//! predecessor.

use crate::digest::{sha256, sha256_digest};
use crate::hex::{hex_lower, is_hex_digit, lemma_hex_lower_shape, to_hex_lower};
use crate::json::{decimal, json_string, write_decimal, write_json_string, write_text};
use crate::timestamp::Timestamp;
use crate::transaction::{
    clone_list, encode_list_into, list_encoding, lists_equal, Transaction, TransactionView,
};
use vstd::prelude::*;
use vstd::std_specs::cmp::PartialEqSpecImpl;
use vstd::string::*;
use vstd::utf8::*;

verus! {

/// A container of transactions that names its predecessor by hash.
///
/// `hash` is empty until the block is sealed with [`Block::generate_hash`].
/// The first block of a chain has index 0 and an empty `prev_hash`.
#[derive(Debug)]
pub struct Block {
    pub hash: String,
    pub prev_hash: String,
    pub transactions: Vec<Transaction>,
    pub time: Timestamp,
    pub index: u128,
    pub nonce: u64,
}

/// The mathematical content of a [`Block`].
pub struct BlockView {
    pub hash: Seq<char>,
    pub prev_hash: Seq<char>,
    pub transactions: Seq<TransactionView>,
    pub time: Timestamp,
    pub index: u128,
    pub nonce: u64,
}

/// The canonical bytes of the hashed fields of a block: a JSON object that
/// holds every field but `hash`, in the order predecessor, transactions, time,
/// index, nonce.
pub open spec fn preimage(
    prev_hash: Seq<char>,
    transactions: Seq<TransactionView>,
    time: Timestamp,
    index: u128,
    nonce: u64,
) -> Seq<u8> {
    "{\"prev_hash\":".spec_bytes() + json_string(encode_utf8(prev_hash))
        + ",\"transactions\":".spec_bytes() + list_encoding(transactions)
        + ",\"time\":".spec_bytes() + time.encoding()
        + ",\"index\":".spec_bytes() + decimal(index as nat)
        + ",\"nonce\":".spec_bytes() + decimal(nonce as nat) + "}".spec_bytes()
}

/// The content hash of the hashed fields of a block: the SHA-256 digest of
/// their canonical bytes, in lowercase hexadecimal.
#[verifier::opaque]
pub open spec fn content_hash(
    prev_hash: Seq<char>,
    transactions: Seq<TransactionView>,
    time: Timestamp,
    index: u128,
    nonce: u64,
) -> Seq<char> {
    hex_lower(sha256(preimage(prev_hash, transactions, time, index, nonce))@)
}

/// Whether `text` has the form of a content hash: sixty-four lowercase
/// hexadecimal digits.
pub open spec fn is_hash_text(text: Seq<char>) -> bool {
    &&& text.len() == 64
    &&& forall|i: int| 0 <= i < 64 ==> is_hex_digit(#[trigger] text[i])
}

/// A content hash is sixty-four lowercase hexadecimal digits, whatever was
/// hashed.
pub proof fn lemma_content_hash_shape(
    prev_hash: Seq<char>,
    transactions: Seq<TransactionView>,
    time: Timestamp,
    index: u128,
    nonce: u64,
)
    ensures
        is_hash_text(content_hash(prev_hash, transactions, time, index, nonce)),
{
    reveal(content_hash);
    let digest = sha256(preimage(prev_hash, transactions, time, index, nonce));
    assert(digest@.len() == 32);
    lemma_hex_lower_shape(digest@);
}

impl BlockView {
    /// The hash that sealing gives this block. It does not depend on `hash`.
    pub open spec fn digest(self) -> Seq<char> {
        content_hash(self.prev_hash, self.transactions, self.time, self.index, self.nonce)
    }

    /// Whether `hash` is the content hash of the other fields.
    pub open spec fn is_sealed(self) -> bool {
        self.hash == self.digest()
    }

    /// This block with its `hash` set to its content hash.
    pub open spec fn sealed(self) -> BlockView {
        BlockView { hash: self.digest(), ..self }
    }

    /// Whether this block names `prev` as its predecessor.
    pub open spec fn follows(self, prev: BlockView) -> bool {
        self.prev_hash == prev.hash
    }
}

impl View for Block {
    type V = BlockView;

    open spec fn view(&self) -> BlockView {
        BlockView {
            hash: self.hash@,
            prev_hash: self.prev_hash@,
            transactions: self.transactions.deep_view(),
            time: self.time,
            index: self.index,
            nonce: self.nonce,
        }
    }
}

impl DeepView for Block {
    type V = BlockView;

    open spec fn deep_view(&self) -> BlockView {
        self@
    }
}

/// The hash of a sealed block is sixty-four lowercase hexadecimal digits.
pub proof fn lemma_sealed_hash_shape(b: BlockView)
    requires
        b.is_sealed(),
    ensures
        is_hash_text(b.hash),
{
    lemma_content_hash_shape(b.prev_hash, b.transactions, b.time, b.index, b.nonce);
}

/// Sealing is idempotent: a sealed block is sealed, its digest is that of the
/// block it was made from, and sealing it again changes nothing.
pub proof fn lemma_seal_idempotent(b: BlockView)
    ensures
        b.sealed().is_sealed(),
        b.sealed().digest() == b.digest(),
        b.sealed().sealed() == b.sealed(),
{
}

/// The digest is a function of the hashed fields alone: two blocks that agree
/// on predecessor, transactions, time, index and nonce have the same digest,
/// whatever their `hash` fields hold.
pub proof fn lemma_digest_ignores_hash(a: BlockView, b: BlockView)
    requires
        a.prev_hash == b.prev_hash,
        a.transactions == b.transactions,
        a.time == b.time,
        a.index == b.index,
        a.nonce == b.nonce,
    ensures
        a.digest() == b.digest(),
        a.sealed() == b.sealed(),
{
}

/// Writes out the canonical bytes of the given hashed fields.
pub fn encode_fields(
    prev_hash: &String,
    transactions: &Vec<Transaction>,
    time: Timestamp,
    index: u128,
    nonce: u64,
) -> (bytes: Vec<u8>)
    ensures
        bytes@ == preimage(prev_hash@, transactions.deep_view(), time, index, nonce),
{
    let mut bytes: Vec<u8> = Vec::new();
    write_text(&mut bytes, "{\"prev_hash\":");
    write_json_string(&mut bytes, prev_hash.as_str().as_bytes());
    write_text(&mut bytes, ",\"transactions\":");
    encode_list_into(transactions, &mut bytes);
    write_text(&mut bytes, ",\"time\":");
    time.encode_into(&mut bytes);
    write_text(&mut bytes, ",\"index\":");
    write_decimal(&mut bytes, index);
    write_text(&mut bytes, ",\"nonce\":");
    write_decimal(&mut bytes, nonce as u128);
    write_text(&mut bytes, "}");
    assert(bytes@ =~= preimage(prev_hash@, transactions.deep_view(), time, index, nonce));
    bytes
}

/// Computes the content hash of the given hashed fields: sixty-four
/// lowercase hexadecimal digits.
pub fn hash_fields(
    prev_hash: &String,
    transactions: &Vec<Transaction>,
    time: Timestamp,
    index: u128,
    nonce: u64,
) -> (hash: String)
    ensures
        hash@ == content_hash(prev_hash@, transactions.deep_view(), time, index, nonce),
        is_hash_text(hash@),
{
    let bytes = encode_fields(prev_hash, transactions, time, index, nonce);
    let digest = sha256_digest(bytes.as_slice());
    proof {
        reveal(content_hash);
        lemma_content_hash_shape(prev_hash@, transactions.deep_view(), time, index, nonce);
    }
    to_hex_lower(digest.as_slice())
}

impl Block {
    /// Builds an unsealed block: its `hash` is empty.
    pub fn new(
        prev: String,
        txs: Vec<Transaction>,
        nonce: u64,
        ms: Timestamp,
        index: u128,
    ) -> (block: Block)
        ensures
            block@ == (BlockView {
                hash: Seq::empty(),
                prev_hash: prev@,
                transactions: txs.deep_view(),
                time: ms,
                index,
                nonce,
            }),
    {
        Block { hash: String::new(), prev_hash: prev, transactions: txs, nonce, time: ms, index }
    }

    /// Seals the block: computes the content hash of every field but `hash`,
    /// stores it in `hash` and returns it. No other field changes.
    pub fn generate_hash(&mut self) -> (hash: String)
        ensures
            hash@ == old(self)@.digest(),
            final(self)@ == old(self)@.sealed(),
            final(self)@.is_sealed(),
            is_hash_text(hash@),
    {
        let hash = hash_fields(
            &self.prev_hash,
            &self.transactions,
            self.time,
            self.index,
            self.nonce,
        );
        self.hash = hash.clone();
        hash
    }

    /// Whether this block names `prev_block` as its predecessor: its
    /// `prev_hash` is the hash of `prev_block`.
    pub fn is_valid(&self, prev_block: &Block) -> (valid: bool)
        ensures
            valid == self@.follows(prev_block@),
            valid == (self.prev_hash@ == prev_block.hash@),
    {
        self.prev_hash == prev_block.hash
    }
}

impl Clone for Block {
    fn clone(&self) -> (copy: Self)
        ensures
            copy@ == self@,
    {
        Block {
            hash: self.hash.clone(),
            prev_hash: self.prev_hash.clone(),
            transactions: clone_list(&self.transactions),
            time: self.time,
            index: self.index,
            nonce: self.nonce,
        }
    }
}

impl PartialEq for Block {
    fn eq(&self, other: &Self) -> (same: bool) {
        self.hash == other.hash && self.prev_hash == other.prev_hash && lists_equal(
            &self.transactions,
            &other.transactions,
        ) && self.time == other.time && self.index == other.index && self.nonce == other.nonce
    }
}

impl PartialEqSpecImpl for Block {
    open spec fn obeys_eq_spec() -> bool {
        true
    }

    /// Two blocks are equal when all six fields are.
    open spec fn eq_spec(&self, other: &Self) -> bool {
        self@ == other@
    }
}

} // verus!
