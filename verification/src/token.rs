//! Token amounts: whole numbers of the smallest unit, of any size.

use fvm_shared::bigint::{BigInt, Sign};
use vstd::prelude::*;

verus! {

/// The number that a big-endian string of bytes writes.
pub open spec fn be_value(bytes: Seq<u8>) -> nat
    decreases bytes.len(),
{
    if bytes.len() == 0 {
        0
    } else {
        be_value(bytes.drop_last()) * 256 + bytes.last() as nat
    }
}

/// A quantity of tokens, held as a sign and a big-endian magnitude.
#[derive(Debug)]
pub struct TokenAmount {
    negative: bool,
    magnitude: Vec<u8>,
}

impl View for TokenAmount {
    type V = int;

    /// The quantity, in the smallest unit.
    closed spec fn view(&self) -> int {
        if self.negative {
            -(be_value(self.magnitude@) as int)
        } else {
            be_value(self.magnitude@) as int
        }
    }
}

impl Clone for TokenAmount {
    fn clone(&self) -> (r: Self)
        ensures
            r@ == self@,
            r.sign() == self.sign(),
            r.digits() == self.digits(),
    {
        TokenAmount { negative: self.negative, magnitude: self.magnitude.clone() }
    }
}

/// Calls `BigInt::from` on a 128-bit integer and takes the sign
/// and big-endian magnitude that `BigInt::to_bytes_be` gives: they write the
/// same number.
#[verifier::external_body]
fn amount_of(atto: i128) -> (r: TokenAmount)
    ensures
        r@ == atto,
{
    let (sign, magnitude) = BigInt::from(atto).to_bytes_be();
    TokenAmount { negative: sign == Sign::Minus, magnitude }
}

/// Calls the addition of `fvm_shared::econ::TokenAmount` on the two amounts,
/// rebuilt with `BigInt::from_bytes_be`, and takes the sum apart with
/// `BigInt::to_bytes_be`: the result is the exact sum.
#[verifier::external_body]
fn amount_sum(a: &TokenAmount, b: &TokenAmount) -> (r: TokenAmount)
    ensures
        r@ == a@ + b@,
{
    let sa = if a.negative { Sign::Minus } else { Sign::Plus };
    let sb = if b.negative { Sign::Minus } else { Sign::Plus };
    let x = fvm_shared::econ::TokenAmount::from_atto(BigInt::from_bytes_be(sa, &a.magnitude));
    let y = fvm_shared::econ::TokenAmount::from_atto(BigInt::from_bytes_be(sb, &b.magnitude));
    let (sign, magnitude) = (x + y).atto().to_bytes_be();
    TokenAmount { negative: sign == Sign::Minus, magnitude }
}

/// Calls the subtraction of `fvm_shared::econ::TokenAmount` on the two
/// amounts, rebuilt with `BigInt::from_bytes_be`, and takes the difference
/// apart with `BigInt::to_bytes_be`: the result is the exact difference.
#[verifier::external_body]
fn amount_difference(a: &TokenAmount, b: &TokenAmount) -> (r: TokenAmount)
    ensures
        r@ == a@ - b@,
{
    let sa = if a.negative { Sign::Minus } else { Sign::Plus };
    let sb = if b.negative { Sign::Minus } else { Sign::Plus };
    let x = fvm_shared::econ::TokenAmount::from_atto(BigInt::from_bytes_be(sa, &a.magnitude));
    let y = fvm_shared::econ::TokenAmount::from_atto(BigInt::from_bytes_be(sb, &b.magnitude));
    let (sign, magnitude) = (x - y).atto().to_bytes_be();
    TokenAmount { negative: sign == Sign::Minus, magnitude }
}

/// Calls the ordering of `fvm_shared::econ::TokenAmount` on the two amounts,
/// rebuilt with `BigInt::from_bytes_be`: whether the first is the smaller.
#[verifier::external_body]
fn amount_less(a: &TokenAmount, b: &TokenAmount) -> (r: bool)
    ensures
        r == (a@ < b@),
{
    let sa = if a.negative { Sign::Minus } else { Sign::Plus };
    let sb = if b.negative { Sign::Minus } else { Sign::Plus };
    let x = fvm_shared::econ::TokenAmount::from_atto(BigInt::from_bytes_be(sa, &a.magnitude));
    let y = fvm_shared::econ::TokenAmount::from_atto(BigInt::from_bytes_be(sb, &b.magnitude));
    x < y
}

impl TokenAmount {
    /// Whether the held sign is minus.
    pub closed spec fn sign(&self) -> bool {
        self.negative
    }

    /// The held magnitude, most significant byte first.
    pub closed spec fn digits(&self) -> Seq<u8> {
        self.magnitude@
    }

    /// The quantity that a sign and a magnitude stand for.
    pub open spec fn value_of(negative: bool, digits: Seq<u8>) -> int {
        if negative {
            -(be_value(digits) as int)
        } else {
            be_value(digits) as int
        }
    }

    /// The quantity is the one that the held sign and magnitude stand for.
    pub proof fn lemma_view(&self)
        ensures
            self@ == Self::value_of(self.sign(), self.digits()),
    {
    }

    /// No tokens.
    pub fn zero() -> (r: TokenAmount)
        ensures
            r@ == 0,
    {
        TokenAmount { negative: false, magnitude: Vec::new() }
    }

    /// The amount of `atto` smallest units.
    pub fn from_atto(atto: i128) -> (r: TokenAmount)
        ensures
            r@ == atto,
    {
        amount_of(atto)
    }

    /// The amount that a sign and a big-endian magnitude stand for.
    pub fn from_parts(negative: bool, magnitude: Vec<u8>) -> (r: TokenAmount)
        ensures
            r.sign() == negative,
            r.digits() == magnitude@,
            r@ == Self::value_of(negative, magnitude@),
    {
        TokenAmount { negative, magnitude }
    }

    /// Whether the held sign is minus.
    pub fn sign_is_minus(&self) -> (b: bool)
        ensures
            b == self.sign(),
    {
        self.negative
    }

    /// The held magnitude, most significant byte first.
    pub fn magnitude(&self) -> (m: &Vec<u8>)
        ensures
            m@ == self.digits(),
    {
        &self.magnitude
    }

    /// The sum of two amounts.
    pub fn plus(&self, other: &TokenAmount) -> (r: TokenAmount)
        ensures
            r@ == self@ + other@,
    {
        amount_sum(self, other)
    }

    /// The difference of two amounts.
    pub fn minus(&self, other: &TokenAmount) -> (r: TokenAmount)
        ensures
            r@ == self@ - other@,
    {
        amount_difference(self, other)
    }

    /// Whether this amount is smaller than the other.
    pub fn less_than(&self, other: &TokenAmount) -> (b: bool)
        ensures
            b == (self@ < other@),
    {
        amount_less(self, other)
    }

    /// Whether the amount is below zero.
    pub fn is_negative(&self) -> (b: bool)
        ensures
            b == (self@ < 0),
    {
        let zero = TokenAmount::zero();
        amount_less(self, &zero)
    }

    /// Whether two amounts are the same quantity.
    pub fn same_amount(&self, other: &TokenAmount) -> (b: bool)
        ensures
            b == (self@ == other@),
    {
        !amount_less(self, other) && !amount_less(other, self)
    }
}

} // verus!
