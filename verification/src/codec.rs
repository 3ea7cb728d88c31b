//! What each type of the contract interface looks like on the wire.

use vstd::prelude::*;
use vstd::utf8::{decode_utf8, encode_utf8, valid_utf8};
use vstd::utf8::{encode_utf8_decode_utf8, encode_utf8_valid_utf8};
use crate::error::Error;
use crate::layout::Part;
use crate::reader::offset_at;
use crate::types::{Address, Bytes, H160, H256, U256};
use crate::word::{be_value, join, padding, pow256, word, zeros};
use crate::word::{lemma_be_bytes_len, lemma_be_value_of_bytes, lemma_pow256_values};

verus! {

/// The wire form of a type: which bytes a value of it takes, and which
/// value a run of bytes holds.
///
/// A static type fills one word of the head. A dynamic type has a body of
/// its own, which the head refers to by an offset word.
pub trait Codec: Sized + DeepView {
    /// Whether values of the type stand behind an offset word.
    spec fn is_dynamic() -> bool;

    /// The bytes of a value: its word where the type is static, its body
    /// where it is dynamic.
    spec fn encoding(value: Self::V) -> Seq<u8>;

    /// What is read where a value of the type starts at the first byte of
    /// `input`. Bytes behind the value are of no account.
    spec fn decoding(input: Seq<u8>) -> Result<Self::V, Error>;

    /// A static value takes one word, a dynamic one at least a word, and
    /// each a whole number of words.
    proof fn lemma_encoding_len(value: Self::V)
        ensures
            !Self::is_dynamic() ==> Self::encoding(value).len() == 32,
            Self::encoding(value).len() >= 32,
            Self::encoding(value).len() % 32 == 0,
    ;

    /// Reading what was written gives the value back, whatever follows it
    /// in the buffer.
    proof fn lemma_round_trip(value: Self::V, rest: Seq<u8>)
        requires
            Self::encoding(value).len() < pow256(32),
        ensures
            Self::decoding(Self::encoding(value) + rest) == Ok::<Self::V, Error>(value),
    ;

    /// An encoding that was cut short is refused as truncated, however
    /// little is missing.
    proof fn lemma_cut_short(value: Self::V, len: nat)
        requires
            Self::encoding(value).len() < pow256(32),
            len < Self::encoding(value).len(),
        ensures
            Self::decoding(Self::encoding(value).take(len as int)) == Err::<Self::V, Error>(
                Error::Truncated,
            ),
    ;
}

/// A written value of type `T`, as the layout sees it.
pub open spec fn part_of<T: Codec>(value: T::V) -> Part {
    Part { dynamic: T::is_dynamic(), bytes: T::encoding(value) }
}

/// What is read from the head slot at `at`: the value in the slot itself
/// where `T` is static, the value that the slot's offset points to where
/// `T` is dynamic. A slot that is not all there holds nothing.
pub open spec fn item_at<T: Codec>(input: Seq<u8>, at: nat) -> Result<T::V, Error> {
    if at + 32 > input.len() {
        Err(Error::Truncated)
    } else if T::is_dynamic() {
        match offset_at(input, at) {
            Ok(offset) => T::decoding(input.skip(offset as int)),
            Err(e) => Err(e),
        }
    } else {
        T::decoding(input.skip(at as int))
    }
}

/// The number in the first word of `input`, or `Truncated` where `input` is
/// shorter than a word.
pub open spec fn first_word(input: Seq<u8>) -> Result<nat, Error> {
    if input.len() < 32 {
        Err(Error::Truncated)
    } else {
        Ok(be_value(input.take(32)))
    }
}

/// The first word of a buffer that starts with the word of `n` is `n`.
pub proof fn lemma_first_word_of_word(n: nat, rest: Seq<u8>)
    requires
        n < pow256(32),
    ensures
        first_word(word(n) + rest) == Ok::<nat, Error>(n),
        word(n).len() == 32,
{
    lemma_be_bytes_len(n, 32);
    lemma_be_value_of_bytes(n, 32);
    assert((word(n) + rest).take(32) =~= word(n));
}

/// A word that was cut short is no word.
pub proof fn lemma_first_word_cut_short(n: nat, len: nat)
    requires
        len < 32,
    ensures
        first_word(word(n).take(len as int)) == Err::<nat, Error>(Error::Truncated),
{
    lemma_be_bytes_len(n, 32);
}

/// How a number relates to its upper half: it is below `2^128` exactly when
/// the upper half is zero, and then it is its lower half.
pub proof fn lemma_halves(hi: u128, lo: u128)
    ensures
        hi == 0 ==> join(hi, lo) == lo,
        hi != 0 ==> join(hi, lo) >= pow256(16),
        pow256(16) == 0x1_0000_0000_0000_0000_0000_0000_0000_0000,
{
    lemma_pow256_values();
    let p = pow256(16);
    if hi == 0 {
        assert(hi as nat * p == 0) by (nonlinear_arith)
            requires
                hi == 0,
        ;
    } else {
        assert(hi as nat * p >= p) by (nonlinear_arith)
            requires
                hi >= 1,
        ;
    }
}

impl Codec for bool {
    open spec fn is_dynamic() -> bool {
        false
    }

    open spec fn encoding(value: bool) -> Seq<u8> {
        word(if value { 1 } else { 0 })
    }

    /// Only the words 0 and 1 are booleans.
    open spec fn decoding(input: Seq<u8>) -> Result<bool, Error> {
        match first_word(input) {
            Err(e) => Err(e),
            Ok(n) => if n == 0 {
                Ok(false)
            } else if n == 1 {
                Ok(true)
            } else {
                Err(Error::OutOfRange)
            },
        }
    }

    proof fn lemma_encoding_len(value: bool) {
        lemma_be_bytes_len(if value { 1 } else { 0 }, 32);
    }

    proof fn lemma_round_trip(value: bool, rest: Seq<u8>) {
        lemma_pow256_values();
        crate::word::lemma_pow256_increases(16, 32);
        lemma_first_word_of_word(if value { 1 } else { 0 }, rest);
    }

    proof fn lemma_cut_short(value: bool, len: nat) {
        Self::lemma_encoding_len(value);
        lemma_first_word_cut_short(if value { 1 } else { 0 }, len);
    }
}

impl Codec for u64 {
    open spec fn is_dynamic() -> bool {
        false
    }

    open spec fn encoding(value: u64) -> Seq<u8> {
        word(value as nat)
    }

    /// A word that holds more than 64 bits can hold is refused, not cut
    /// down.
    open spec fn decoding(input: Seq<u8>) -> Result<u64, Error> {
        match first_word(input) {
            Err(e) => Err(e),
            Ok(n) => if n <= u64::MAX {
                Ok(n as u64)
            } else {
                Err(Error::OutOfRange)
            },
        }
    }

    proof fn lemma_encoding_len(value: u64) {
        lemma_be_bytes_len(value as nat, 32);
    }

    proof fn lemma_round_trip(value: u64, rest: Seq<u8>) {
        lemma_pow256_values();
        crate::word::lemma_pow256_increases(16, 32);
        lemma_first_word_of_word(value as nat, rest);
    }

    proof fn lemma_cut_short(value: u64, len: nat) {
        Self::lemma_encoding_len(value);
        lemma_first_word_cut_short(value as nat, len);
    }
}

impl Codec for u128 {
    open spec fn is_dynamic() -> bool {
        false
    }

    open spec fn encoding(value: u128) -> Seq<u8> {
        word(value as nat)
    }

    /// A word that holds more than 128 bits can hold is refused, not cut
    /// down.
    open spec fn decoding(input: Seq<u8>) -> Result<u128, Error> {
        match first_word(input) {
            Err(e) => Err(e),
            Ok(n) => if n <= u128::MAX {
                Ok(n as u128)
            } else {
                Err(Error::OutOfRange)
            },
        }
    }

    proof fn lemma_encoding_len(value: u128) {
        lemma_be_bytes_len(value as nat, 32);
    }

    proof fn lemma_round_trip(value: u128, rest: Seq<u8>) {
        lemma_pow256_values();
        crate::word::lemma_pow256_increases(16, 32);
        lemma_first_word_of_word(value as nat, rest);
    }

    proof fn lemma_cut_short(value: u128, len: nat) {
        Self::lemma_encoding_len(value);
        lemma_first_word_cut_short(value as nat, len);
    }
}

impl Codec for U256 {
    open spec fn is_dynamic() -> bool {
        false
    }

    open spec fn encoding(value: U256) -> Seq<u8> {
        word(value.value())
    }

    /// Every word is a 256-bit integer.
    open spec fn decoding(input: Seq<u8>) -> Result<U256, Error> {
        match first_word(input) {
            Err(e) => Err(e),
            Ok(n) => Ok(U256::of(n)),
        }
    }

    proof fn lemma_encoding_len(value: U256) {
        lemma_be_bytes_len(value.value(), 32);
    }

    proof fn lemma_round_trip(value: U256, rest: Seq<u8>) {
        value.lemma_of_value();
        lemma_first_word_of_word(value.value(), rest);
    }

    proof fn lemma_cut_short(value: U256, len: nat) {
        Self::lemma_encoding_len(value);
        lemma_first_word_cut_short(value.value(), len);
    }
}

impl Codec for H256 {
    open spec fn is_dynamic() -> bool {
        false
    }

    open spec fn encoding(value: H256) -> Seq<u8> {
        value.0@
    }

    /// Every word is a hash word.
    open spec fn decoding(input: Seq<u8>) -> Result<H256, Error> {
        if input.len() < 32 {
            Err(Error::Truncated)
        } else {
            Ok(H256::holding(input.take(32)))
        }
    }

    proof fn lemma_encoding_len(value: H256) {
    }

    proof fn lemma_round_trip(value: H256, rest: Seq<u8>) {
        assert((value.0@ + rest).take(32) =~= value.0@);
        value.lemma_holding();
    }

    proof fn lemma_cut_short(value: H256, len: nat) {
    }
}

impl Codec for Address {
    open spec fn is_dynamic() -> bool {
        false
    }

    /// The address stands right-aligned in its word, behind 12 zero bytes.
    open spec fn encoding(value: Address) -> Seq<u8> {
        zeros(12) + value.0.0@
    }

    /// The last 20 bytes of the word are the address. The 12 bytes in
    /// front of them are not looked at.
    open spec fn decoding(input: Seq<u8>) -> Result<Address, Error> {
        if input.len() < 32 {
            Err(Error::Truncated)
        } else {
            Ok(Address(H160::holding(input.subrange(12, 32))))
        }
    }

    proof fn lemma_encoding_len(value: Address) {
    }

    proof fn lemma_round_trip(value: Address, rest: Seq<u8>) {
        assert((zeros(12) + value.0.0@ + rest).subrange(12, 32) =~= value.0.0@);
        value.0.lemma_holding();
    }

    proof fn lemma_cut_short(value: Address, len: nat) {
    }
}

impl Codec for Bytes {
    open spec fn is_dynamic() -> bool {
        true
    }

    /// The length in bytes as a word, then the content, then zeros up to
    /// the next word boundary.
    open spec fn encoding(value: Seq<u8>) -> Seq<u8> {
        word(value.len()) + value + zeros(padding(value.len()))
    }

    /// The content is as long as the first word says. Content and padding
    /// must be there in full; what the padding holds is not looked at.
    open spec fn decoding(input: Seq<u8>) -> Result<Seq<u8>, Error> {
        match first_word(input) {
            Err(e) => Err(e),
            Ok(len) => if 32 + len + padding(len) > input.len() {
                Err(Error::Truncated)
            } else {
                Ok(input.subrange(32, 32 + len as int))
            },
        }
    }

    proof fn lemma_encoding_len(value: Seq<u8>) {
        lemma_be_bytes_len(value.len(), 32);
    }

    proof fn lemma_round_trip(value: Seq<u8>, rest: Seq<u8>) {
        lemma_be_bytes_len(value.len(), 32);
        let tail = value + zeros(padding(value.len())) + rest;
        assert(Self::encoding(value) + rest =~= word(value.len()) + tail);
        lemma_first_word_of_word(value.len(), tail);
        assert((Self::encoding(value) + rest).subrange(32, 32 + value.len() as int) =~= value);
    }

    proof fn lemma_cut_short(value: Seq<u8>, len: nat) {
        lemma_be_bytes_len(value.len(), 32);
        if len < 32 {
            assert(Self::encoding(value).take(len as int) =~= word(value.len()).take(len as int));
            lemma_first_word_cut_short(value.len(), len);
        } else {
            let tail = (value + zeros(padding(value.len()))).take(len - 32);
            assert(Self::encoding(value).take(len as int) =~= word(value.len()) + tail);
            lemma_first_word_of_word(value.len(), tail);
        }
    }
}

impl Codec for String {
    open spec fn is_dynamic() -> bool {
        true
    }

    /// A string is laid out as the blob of its UTF-8 bytes.
    open spec fn encoding(value: Seq<char>) -> Seq<u8> {
        Bytes::encoding(encode_utf8(value))
    }

    /// A blob whose content is not valid UTF-8 is no string.
    open spec fn decoding(input: Seq<u8>) -> Result<Seq<char>, Error> {
        match Bytes::decoding(input) {
            Err(e) => Err(e),
            Ok(content) => if valid_utf8(content) {
                Ok(decode_utf8(content))
            } else {
                Err(Error::InvalidEncoding)
            },
        }
    }

    proof fn lemma_encoding_len(value: Seq<char>) {
        Bytes::lemma_encoding_len(encode_utf8(value));
    }

    proof fn lemma_round_trip(value: Seq<char>, rest: Seq<u8>) {
        Bytes::lemma_round_trip(encode_utf8(value), rest);
        encode_utf8_valid_utf8(value);
        encode_utf8_decode_utf8(value);
    }

    proof fn lemma_cut_short(value: Seq<char>, len: nat) {
        Bytes::lemma_cut_short(encode_utf8(value), len);
    }
}

} // verus!
