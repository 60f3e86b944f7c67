//! Transactions: records of a transfer between two identities.

use crate::json::{
    ascii_text, json_string, signed_decimal, signed_decimal_text, write_json_string,
    write_signed_decimal, write_text,
};
use crate::timestamp::Timestamp;
use vstd::prelude::*;
use vstd::std_specs::cmp::PartialEqSpecImpl;
use vstd::string::*;
use vstd::utf8::*;

verus! {

/// A transfer of `amount` from one identity to another, made at `time`.
/// The amount may be any integer.
#[derive(Debug)]
pub struct Transaction {
    pub from: String,
    pub to: String,
    pub time: Timestamp,
    pub amount: i32,
}

/// The mathematical content of a [`Transaction`].
pub struct TransactionView {
    pub from: Seq<char>,
    pub to: Seq<char>,
    pub time: Timestamp,
    pub amount: i32,
}

impl View for Transaction {
    type V = TransactionView;

    open spec fn view(&self) -> TransactionView {
        TransactionView { from: self.from@, to: self.to@, time: self.time, amount: self.amount }
    }
}

impl DeepView for Transaction {
    type V = TransactionView;

    open spec fn deep_view(&self) -> TransactionView {
        self@
    }
}

impl TransactionView {
    /// The canonical bytes of a transaction: a JSON object with its four
    /// fields in the order sender, receiver, time, amount.
    pub open spec fn encoding(self) -> Seq<u8> {
        "{\"from\":".spec_bytes() + json_string(encode_utf8(self.from)) + ",\"to\":".spec_bytes()
            + json_string(encode_utf8(self.to)) + ",\"time\":".spec_bytes() + self.time.encoding()
            + ",\"amount\":".spec_bytes() + signed_decimal(self.amount as int) + "}".spec_bytes()
    }

    /// The transaction in words: sender, receiver and amount.
    pub open spec fn description(self) -> Seq<char> {
        "from "@ + self.from + " to "@ + self.to + " amt "@ + ascii_text(
            signed_decimal(self.amount as int),
        )
    }
}

/// The canonical bytes of the transactions of a list, with a comma between
/// each two neighbours.
pub open spec fn joined_encodings(txs: Seq<TransactionView>) -> Seq<u8>
    decreases txs.len(),
{
    if txs.len() == 0 {
        Seq::empty()
    } else if txs.len() == 1 {
        txs[0].encoding()
    } else {
        joined_encodings(txs.drop_last()) + ",".spec_bytes() + txs.last().encoding()
    }
}

/// The canonical bytes of a list of transactions: a JSON array.
pub open spec fn list_encoding(txs: Seq<TransactionView>) -> Seq<u8> {
    "[".spec_bytes() + joined_encodings(txs) + "]".spec_bytes()
}

impl Transaction {
    /// Builds a transaction from its four fields.
    pub fn new(from: String, to: String, time: Timestamp, amount: i32) -> (tx: Transaction)
        ensures
            tx@ == (TransactionView { from: from@, to: to@, time, amount }),
    {
        Transaction { from, to, time, amount }
    }

    /// The transaction in words, as it is shown to a user.
    pub fn describe(&self) -> (text: String)
        ensures
            text@ == self@.description(),
    {
        let mut text: String = String::new();
        text.append("from ");
        text.append(self.from.as_str());
        text.append(" to ");
        text.append(self.to.as_str());
        text.append(" amt ");
        text.append(signed_decimal_text(self.amount).as_str());
        assert(text@ =~= self@.description());
        text
    }

    /// Appends the canonical bytes of this transaction to `out`.
    pub fn encode_into(&self, out: &mut Vec<u8>)
        ensures
            final(out)@ == old(out)@ + self@.encoding(),
    {
        let ghost before = out@;
        write_text(out, "{\"from\":");
        write_json_string(out, self.from.as_str().as_bytes());
        write_text(out, ",\"to\":");
        write_json_string(out, self.to.as_str().as_bytes());
        write_text(out, ",\"time\":");
        self.time.encode_into(out);
        write_text(out, ",\"amount\":");
        write_signed_decimal(out, self.amount);
        write_text(out, "}");
        assert(out@ =~= before + self@.encoding());
    }
}

/// Appends the canonical bytes of the list `txs` to `out`.
pub fn encode_list_into(txs: &Vec<Transaction>, out: &mut Vec<u8>)
    ensures
        final(out)@ == old(out)@ + list_encoding(txs.deep_view()),
{
    let ghost before = out@;
    let ghost views = txs.deep_view();
    write_text(out, "[");
    let mut i: usize = 0;
    while i < txs.len()
        invariant
            i <= txs@.len(),
            views == txs.deep_view(),
            out@ == before + "[".spec_bytes() + joined_encodings(views.take(i as int)),
        decreases txs@.len() - i,
    {
        if i > 0 {
            write_text(out, ",");
        }
        txs[i].encode_into(out);
        proof {
            let grown = views.take(i + 1);
            assert(grown.drop_last() =~= views.take(i as int));
            assert(grown.last() == txs@[i as int]@);
            assert(out@ =~= before + "[".spec_bytes() + joined_encodings(grown));
        }
        i += 1;
    }
    write_text(out, "]");
    assert(views.take(txs@.len() as int) =~= views);
    assert(out@ =~= before + list_encoding(views));
}

impl Clone for Transaction {
    fn clone(&self) -> (copy: Self)
        ensures
            copy@ == self@,
    {
        Transaction {
            from: self.from.clone(),
            to: self.to.clone(),
            time: self.time,
            amount: self.amount,
        }
    }
}

impl PartialEq for Transaction {
    fn eq(&self, other: &Self) -> (same: bool) {
        self.from == other.from && self.to == other.to && self.time == other.time && self.amount
            == other.amount
    }
}

impl PartialEqSpecImpl for Transaction {
    open spec fn obeys_eq_spec() -> bool {
        true
    }

    /// Two transactions are equal when all four fields are.
    open spec fn eq_spec(&self, other: &Self) -> bool {
        self@ == other@
    }
}

/// A copy of a list of transactions, equal to it item by item.
pub fn clone_list(txs: &Vec<Transaction>) -> (copy: Vec<Transaction>)
    ensures
        copy.deep_view() == txs.deep_view(),
{
    let copy = txs.clone();
    assert(copy.deep_view() =~= txs.deep_view());
    copy
}

/// Whether two lists of transactions are equal item by item.
pub fn lists_equal(left: &Vec<Transaction>, right: &Vec<Transaction>) -> (same: bool)
    ensures
        same == (left.deep_view() == right.deep_view()),
{
    if left.len() != right.len() {
        assert(left.deep_view().len() != right.deep_view().len());
        return false;
    }
    let mut i: usize = 0;
    while i < left.len()
        invariant
            i <= left@.len(),
            left@.len() == right@.len(),
            forall|j: int| 0 <= j < i ==> left@[j]@ == right@[j]@,
        decreases left@.len() - i,
    {
        if !(left[i] == right[i]) {
            assert(left.deep_view()[i as int] != right.deep_view()[i as int]);
            return false;
        }
        i += 1;
    }
    assert(left.deep_view() =~= right.deep_view());
    true
}

} // verus!
