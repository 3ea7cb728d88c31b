//! Function selectors: the four bytes in front of the arguments that say
//! which operation a call is for.

use sha3::{Digest, Keccak256};
use vstd::prelude::*;
use vstd::string::StringSliceAdditionalSpecFns;
use crate::error::Error;
use crate::word::{be_bytes, be_decode, be_encode, be_value};
use crate::word::{lemma_be_bytes_len, lemma_be_bytes_of_value, lemma_be_value_bound};
use crate::word::{lemma_be_value_of_bytes, lemma_narrow_iff_zero_prefix, lemma_pow256_values};

verus! {

/// A selector: four bytes, held as the number they denote big-endian, so
/// that selectors compare and order as their bytes do.
#[derive(Clone, Copy, Debug, PartialEq, Eq, Structural, PartialOrd, Ord, Hash)]
pub struct Selector(pub u32);

impl Selector {
    /// The four bytes, most significant first.
    pub open spec fn bytes(self) -> Seq<u8> {
        be_bytes(self.0 as nat, 4)
    }

    /// The four bytes, most significant first.
    pub fn to_be_bytes(&self) -> (out: [u8; 4])
        ensures
            out@ == self.bytes(),
    {
        let wide = be_encode(self.0 as u128);
        let out = [wide[12], wide[13], wide[14], wide[15]];
        proof {
            lemma_pow256_values();
            lemma_be_bytes_len(self.0 as nat, 16);
            lemma_be_value_of_bytes(self.0 as nat, 16);
            lemma_narrow_iff_zero_prefix(wide@, 4);
            assert(out@ =~= wide@.skip(12));
            lemma_be_bytes_of_value(out@);
        }
        out
    }

    /// The selector that four bytes denote.
    pub fn from_be_bytes(bytes: [u8; 4]) -> (r: Self)
        ensures
            r.bytes() == bytes@,
            r.0 == be_value(bytes@),
    {
        let value = be_decode(bytes.as_slice());
        proof {
            lemma_pow256_values();
            lemma_be_value_bound(bytes@);
            lemma_be_bytes_of_value(bytes@);
        }
        Selector(value as u32)
    }
}

/// The Keccak-256 hash of `data`: what `sha3::Keccak256` computes of it.
pub uninterp spec fn keccak256(data: Seq<u8>) -> Seq<u8>;

/// `sha3::Keccak256::digest`: hashes `data` in one call. The digest is the
/// Keccak-256 hash of the bytes handed in, 32 bytes long.
#[verifier::external_body]
fn keccak256_digest(data: &[u8]) -> (digest: [u8; 32])
    ensures
        digest@ == keccak256(data@),
{
    Keccak256::digest(data).into()
}

impl Selector {
    /// The selector that a 32-byte digest gives: its first four bytes.
    pub fn from_digest(digest: &[u8; 32]) -> (r: Self)
        ensures
            r.bytes() == digest@.take(4),
    {
        let r = Selector::from_be_bytes([digest[0], digest[1], digest[2], digest[3]]);
        assert(r.bytes() =~= digest@.take(4));
        r
    }
}

/// The selector of a function: the first four bytes of the Keccak-256 hash
/// of its canonical signature, such as `transfer(address,uint256)`.
pub fn compute_selector(signature: &str) -> (r: Selector)
    ensures
        r.bytes() == keccak256(signature.spec_bytes()).take(4),
{
    let digest = keccak256_digest(signature.as_bytes());
    Selector::from_digest(&digest)
}

/// The operations that a contract knows, each under its selector. An
/// operation is named by its place in the table.
pub struct SelectorTable {
    selectors: Vec<Selector>,
}

impl View for SelectorTable {
    type V = Seq<Selector>;

    closed spec fn view(&self) -> Seq<Selector> {
        self.selectors@
    }
}

impl SelectorTable {
    /// The table of the given selectors, in their order.
    pub fn new(selectors: Vec<Selector>) -> (r: Self)
        ensures
            r@ == selectors@,
    {
        SelectorTable { selectors }
    }

    /// The table of the functions with the given canonical signatures, in
    /// their order.
    pub fn from_signatures(signatures: &[&str]) -> (r: Self)
        ensures
            r@.len() == signatures@.len(),
            forall|i: int|
                0 <= i < signatures@.len() ==> (#[trigger] r@[i]).bytes() == keccak256(
                    signatures@[i].spec_bytes(),
                ).take(4),
    {
        let mut selectors: Vec<Selector> = Vec::new();
        let mut i: usize = 0;
        while i < signatures.len()
            invariant
                i <= signatures@.len(),
                selectors@.len() == i,
                forall|j: int|
                    0 <= j < i ==> (#[trigger] selectors@[j]).bytes() == keccak256(
                        signatures@[j].spec_bytes(),
                    ).take(4),
            decreases signatures@.len() - i,
        {
            selectors.push(compute_selector(signatures[i]));
            i += 1;
        }
        SelectorTable { selectors }
    }

    /// Number of operations in the table.
    pub fn len(&self) -> (n: usize)
        ensures
            n == self@.len(),
    {
        self.selectors.len()
    }

    /// The operation that `selector` names: the first place in the table
    /// that holds it. A selector that the table does not hold is unknown.
    pub fn lookup(&self, selector: Selector) -> (r: Result<usize, Error>)
        ensures
            match r {
                Ok(place) => {
                    &&& place < self@.len()
                    &&& self@[place as int] == selector
                    &&& forall|j: int| 0 <= j < place ==> self@[j] != selector
                },
                Err(e) => e == Error::UnknownSelector && !self@.contains(selector),
            },
    {
        let mut i: usize = 0;
        while i < self.selectors.len()
            invariant
                i <= self@.len(),
                forall|j: int| 0 <= j < i ==> self@[j] != selector,
            decreases self@.len() - i,
        {
            if self.selectors[i] == selector {
                return Ok(i);
            }
            i += 1;
        }
        Err(Error::UnknownSelector)
    }
}

} // verus!
