//! Actor records and their persisted form.

use vstd::prelude::*;
use crate::codec::{
    array_at, bytes_item, head_bytes, lemma_array_entered, lemma_array_round_trip, lemma_head_len,
    lemma_link_found, lemma_link_round_trip, lemma_string_passed, lemma_string_round_trip,
    lemma_uint_passed, lemma_uint_round_trip, link_item, read_array, read_string, read_target,
    read_uint, string_at, target_at, travels, uint_at, uint_item, write_bytes, write_head,
    write_link, write_uint,
};
use crate::cbor::{copy_range, links_from, links_of, prepend, LINK_TAG, MAX_LINK_LEN};
use crate::closure::children;
use crate::content_id::{cid_binary, link_target, CidModel, ContentId, DAG_CBOR};
use crate::error::{ExecutionError, Fault};
use crate::token::TokenAmount;

verus! {

/// Identifies an actor for its lifetime.
pub type ActorID = u64;

/// The mathematical value of an actor record.
pub struct ActorModel {
    pub code: CidModel,
    pub state: CidModel,
    pub sequence: u64,
    pub negative: bool,
    pub digits: Seq<u8>,
}

impl ActorModel {
    /// The balance, in the smallest unit.
    pub open spec fn balance(self) -> int {
        TokenAmount::value_of(self.negative, self.digits)
    }
}

/// The record of one actor.
#[derive(Debug)]
pub struct ActorState {
    /// Link to the code of the actor.
    pub code: ContentId,
    /// Link to the state of the actor.
    pub state: ContentId,
    /// How many messages the actor has sent.
    pub sequence: u64,
    /// Tokens held by the actor.
    pub balance: TokenAmount,
}

impl View for ActorState {
    type V = ActorModel;

    open spec fn view(&self) -> ActorModel {
        ActorModel {
            code: self.code@,
            state: self.state@,
            sequence: self.sequence,
            negative: self.balance.sign(),
            digits: self.balance.digits(),
        }
    }
}

impl Clone for ActorState {
    fn clone(&self) -> (r: Self)
        ensures
            r@ == self@,
    {
        ActorState {
            code: self.code.clone(),
            state: self.state.clone(),
            sequence: self.sequence,
            balance: self.balance.clone(),
        }
    }
}

impl ActorState {
    /// A record with the given parts.
    pub fn new(code: ContentId, state: ContentId, balance: TokenAmount, sequence: u64) -> (r:
        ActorState)
        ensures
            r.code == code,
            r.state == state,
            r.balance == balance,
            r.sequence == sequence,
    {
        ActorState { code, state, sequence, balance }
    }

    /// Takes `amount` out of the balance. A deduction that would leave the
    /// balance below zero is refused as a fatal fault and changes nothing.
    pub fn deduct_funds(&mut self, amount: &TokenAmount) -> (r: Result<(), ExecutionError>)
        ensures
            final(self).code == old(self).code,
            final(self).state == old(self).state,
            final(self).sequence == old(self).sequence,
            old(self).balance@ >= amount@ ==> r is Ok && final(self).balance@ == old(self).balance@
                - amount@,
            old(self).balance@ < amount@ ==> r == Err::<(), ExecutionError>(
                ExecutionError::Fatal(Fault::Underflow),
            ) && final(self).balance == old(self).balance,
    {
        if self.balance.less_than(amount) {
            return Err(ExecutionError::Fatal(Fault::Underflow));
        }
        self.balance = self.balance.minus(amount);
        Ok(())
    }

    /// Adds `amount` to the balance.
    pub fn deposit_funds(&mut self, amount: &TokenAmount)
        ensures
            final(self).code == old(self).code,
            final(self).state == old(self).state,
            final(self).sequence == old(self).sequence,
            final(self).balance@ == old(self).balance@ + amount@,
    {
        self.balance = self.balance.plus(amount);
    }

    /// The persisted form of the record.
    pub fn encode(&self) -> (bytes: Vec<u8>)
        ensures
            bytes@ == record_bytes(self@),
            record_of(bytes@) == Some(self@),
    {
        let mut out: Vec<u8> = Vec::new();
        write_head(&mut out, 4, 4);
        write_link(&mut out, &self.code);
        write_link(&mut out, &self.state);
        write_uint(&mut out, self.sequence);
        let mut amount: Vec<u8> = Vec::new();
        amount.push(if self.balance.sign_is_minus() { 1u8 } else { 0u8 });
        crate::codec::write_all(&mut amount, self.balance.magnitude().as_slice());
        assert(amount@ =~= balance_bytes(self@.negative, self@.digits));
        write_bytes(&mut out, amount.as_slice());
        assert(out@ =~= record_bytes(self@));
        proof {
            assert(out@.len() == out.len());
            lemma_record_round_trip(self@);
        }
        out
    }

    /// Reads a record from its persisted form.
    pub fn decode(bytes: &[u8]) -> (r: Option<ActorState>)
        ensures
            match r {
                Some(actor) => record_of(bytes@) == Some(actor@),
                None => record_of(bytes@) is None,
            },
    {
        proof {
            reveal(record_of);
        }
        let len: usize = bytes.len();
        let (n, pos1) = match read_array(bytes, 0) {
            Some(x) => x,
            None => {
                return None;
            },
        };
        if n != 4 {
            return None;
        }
        let (code, pos2) = match read_target(bytes, pos1) {
            Some(x) => x,
            None => {
                return None;
            },
        };
        let (state, pos3) = match read_target(bytes, pos2) {
            Some(x) => x,
            None => {
                return None;
            },
        };
        let (sequence, pos4) = match read_uint(bytes, pos3) {
            Some(x) => x,
            None => {
                return None;
            },
        };
        let (amount, pos5) = match read_string(bytes, pos4, 2) {
            Some(x) => x,
            None => {
                return None;
            },
        };
        if pos5 != len || amount.len() < 1 || amount[0] > 1 {
            return None;
        }
        let negative = amount[0] == 1;
        let magnitude = copy_range(amount.as_slice(), 1, amount.len());
        let balance = TokenAmount::from_parts(negative, magnitude);
        Some(ActorState { code, state, sequence, balance })
    }
}

/// The bytes that stand for a balance: a sign byte, then the magnitude.
pub open spec fn balance_bytes(negative: bool, digits: Seq<u8>) -> Seq<u8> {
    seq![if negative { 1u8 } else { 0u8 }] + digits
}

/// The persisted form of an actor record: an array of the link to the code,
/// the link to the state, the sequence number and the balance.
pub open spec fn record_bytes(actor: ActorModel) -> Seq<u8> {
    head_bytes(4, 4) + link_item(actor.code) + link_item(actor.state) + uint_item(actor.sequence)
        + bytes_item(balance_bytes(actor.negative, actor.digits))
}

/// The actor record that the bytes hold, if they hold one and nothing else.
#[verifier::opaque]
pub open spec fn record_of(bytes: Seq<u8>) -> Option<ActorModel> {
    match array_at(bytes, 0) {
        Some((n, pos1)) => match target_at(bytes, pos1) {
            Some((code, pos2)) => match target_at(bytes, pos2) {
                Some((state, pos3)) => match uint_at(bytes, pos3) {
                    Some((sequence, pos4)) => match string_at(bytes, pos4, 2) {
                        Some((amount, pos5)) => if n == 4 && pos5 == bytes.len()
                            && amount.len() >= 1
                            && amount[0] <= 1 {
                            Some(
                                ActorModel {
                                    code,
                                    state,
                                    sequence,
                                    negative: amount[0] == 1,
                                    digits: amount.subrange(1, amount.len() as int),
                                },
                            )
                        } else {
                            None
                        },
                        None => None,
                    },
                    None => None,
                },
                None => None,
            },
            None => None,
        },
        None => None,
    }
}

/// The links of a record that was persisted are read back, where their
/// identifiers travel.
proof fn lemma_record_links(actor: ActorModel)
    requires
        travels(actor.code),
        travels(actor.state),
        record_bytes(actor).len() <= usize::MAX,
    ensures
        array_at(record_bytes(actor), 0) == Some((4u64, head_bytes(4, 4).len() as int)),
        target_at(record_bytes(actor), head_bytes(4, 4).len() as int) == Some(
            (actor.code, (head_bytes(4, 4).len() + link_item(actor.code).len()) as int),
        ),
        target_at(
            record_bytes(actor),
            (head_bytes(4, 4).len() + link_item(actor.code).len()) as int,
        ) == Some(
            (
                actor.state,
                (head_bytes(4, 4).len() + link_item(actor.code).len() + link_item(
                    actor.state,
                ).len()) as int,
            ),
        ),
{
    let none = Seq::<u8>::empty();
    let h = head_bytes(4, 4);
    let l1 = link_item(actor.code);
    let l2 = link_item(actor.state);
    let tail = uint_item(actor.sequence) + bytes_item(
        balance_bytes(actor.negative, actor.digits),
    );
    let bytes = record_bytes(actor);
    assert(bytes =~= none + h + (l1 + l2 + tail));
    lemma_array_round_trip(none, 4, l1 + l2 + tail);
    assert(bytes =~= h + l1 + (l2 + tail));
    lemma_link_round_trip(h, actor.code, l2 + tail);
    assert(bytes =~= (h + l1) + l2 + tail);
    lemma_link_round_trip(h + l1, actor.state, tail);
}

/// The sequence number and the balance of a record that was persisted are
/// read back.
proof fn lemma_record_numbers(actor: ActorModel)
    requires
        record_bytes(actor).len() <= usize::MAX,
    ensures
        uint_at(
            record_bytes(actor),
            (head_bytes(4,
                4).len() + link_item(actor.code).len() + link_item(actor.state).len()) as int,
        ) == Some(
            (
                actor.sequence,
                (head_bytes(4, 4).len() + link_item(actor.code).len() + link_item(
                    actor.state,
                ).len() + uint_item(actor.sequence).len()) as int,
            ),
        ),
        string_at(
            record_bytes(actor),
            (head_bytes(4, 4).len() + link_item(actor.code).len() + link_item(actor.state).len()
                + uint_item(actor.sequence).len()) as int,
            2,
        ) == Some(
            (balance_bytes(actor.negative, actor.digits), record_bytes(actor).len() as int),
        ),
{
    let none = Seq::<u8>::empty();
    let front = head_bytes(4, 4) + link_item(actor.code) + link_item(actor.state);
    let u = uint_item(actor.sequence);
    let amount = balance_bytes(actor.negative, actor.digits);
    let b = bytes_item(amount);
    let bytes = record_bytes(actor);
    assert(bytes =~= front + u + b);
    lemma_uint_round_trip(front, actor.sequence, b);
    assert(bytes =~= (front + u) + (head_bytes(2, amount.len() as u64) + amount) + none);
    lemma_string_round_trip(front + u, 2, amount, none);
}

/// A record that was persisted is read back as it was, where the
/// identifiers that it links to travel.
pub proof fn lemma_record_round_trip(actor: ActorModel)
    requires
        travels(actor.code),
        travels(actor.state),
        record_bytes(actor).len() <= usize::MAX,
    ensures
        record_of(record_bytes(actor)) == Some(actor),
{
    reveal(record_of);
    lemma_record_links(actor);
    lemma_record_numbers(actor);
    let amount = balance_bytes(actor.negative, actor.digits);
    assert(amount.subrange(1, amount.len() as int) =~= actor.digits);
}

/// The binary form of an identifier.
pub open spec fn binary(id: CidModel) -> Seq<u8> {
    cid_binary(id.codec, id.hash, id.digest)
}

/// The walk over a persisted record finds the links to code and state and
/// goes on behind them.
proof fn lemma_record_walk_front(actor: ActorModel)
    requires
        binary(actor.code).len() < MAX_LINK_LEN,
        binary(actor.state).len() < MAX_LINK_LEN,
        record_bytes(actor).len() <= usize::MAX,
    ensures
        links_of(record_bytes(actor)) == prepend(
            binary(actor.code),
            prepend(
                binary(actor.state),
                links_from(
                    record_bytes(actor),
                    (head_bytes(4, 4).len() + link_item(actor.code).len() + link_item(
                        actor.state,
                    ).len()) as int,
                    2,
                ),
            ),
        ),
{
    let none = Seq::<u8>::empty();
    let h = head_bytes(4, 4);
    let l1 = link_item(actor.code);
    let l2 = link_item(actor.state);
    let u = uint_item(actor.sequence);
    let b = bytes_item(balance_bytes(actor.negative, actor.digits));
    let tail = u + b;
    let bytes = record_bytes(actor);
    lemma_head_len(4, 4);
    lemma_head_len(6, LINK_TAG);
    lemma_head_len(0, actor.sequence);
    lemma_head_len(2, balance_bytes(actor.negative, actor.digits).len() as u64);
    assert(bytes =~= none + h + (l1 + l2 + tail));
    lemma_array_entered(none, 4, l1 + l2 + tail, 1);
    assert(bytes =~= h + l1 + (l2 + tail));
    lemma_link_found(h, actor.code, l2 + tail, 4);
    assert(bytes =~= (h + l1) + l2 + tail);
    lemma_link_found(h + l1, actor.state, tail, 3);
}

/// The walk over a persisted record passes over the sequence number and
/// the balance and ends.
proof fn lemma_record_walk_back(actor: ActorModel)
    requires
        record_bytes(actor).len() <= usize::MAX,
    ensures
        links_from(
            record_bytes(actor),
            (head_bytes(4,
                4).len() + link_item(actor.code).len() + link_item(actor.state).len()) as int,
            2,
        ) == Some(Seq::<Seq<u8>>::empty()),
{
    let none = Seq::<u8>::empty();
    let front = head_bytes(4, 4) + link_item(actor.code) + link_item(actor.state);
    let u = uint_item(actor.sequence);
    let amount = balance_bytes(actor.negative, actor.digits);
    let b = bytes_item(amount);
    let bytes = record_bytes(actor);
    lemma_head_len(0, actor.sequence);
    lemma_head_len(2, amount.len() as u64);
    assert(bytes =~= front + u + b);
    lemma_uint_passed(front, actor.sequence, b, 2);
    assert(bytes =~= (front + u) + (head_bytes(2, amount.len() as u64) + amount) + none);
    lemma_string_passed(front + u, 2, amount, none, 1);
    reveal(links_from);
}

/// The links that a walk finds in a persisted record are the link to the
/// code and the link to the state, in this order.
pub proof fn lemma_record_links_found(actor: ActorModel)
    requires
        binary(actor.code).len() < MAX_LINK_LEN,
        binary(actor.state).len() < MAX_LINK_LEN,
        record_bytes(actor).len() <= usize::MAX,
    ensures
        links_of(record_bytes(actor)) == Some(seq![binary(actor.code), binary(actor.state)]),
{
    lemma_record_walk_front(actor);
    lemma_record_walk_back(actor);
    assert(seq![binary(actor.code)] + (seq![binary(actor.state)] + Seq::<Seq<u8>>::empty())
        =~= seq![binary(actor.code), binary(actor.state)]);
}

/// The blocks that a persisted record links to are its code and its
/// state, where their identifiers travel.
pub proof fn lemma_record_children(id: CidModel, actor: ActorModel)
    requires
        id.codec == DAG_CBOR,
        travels(actor.code),
        travels(actor.state),
        record_bytes(actor).len() <= usize::MAX,
    ensures
        children(id, record_bytes(actor)) == Some(seq![actor.code, actor.state]),
{
    lemma_record_links_found(actor);
    let raw = seq![binary(actor.code), binary(actor.state)];
    assert(link_target(raw[0]) == Some(actor.code));
    assert(link_target(raw[1]) == Some(actor.state));
    assert(Seq::new(raw.len(), |i: int| link_target(raw[i])->0) =~= seq![
        actor.code,
        actor.state,
    ]);
}

} // verus!
