//! The fixed-size values of the format: 160-bit addresses, 256-bit hash
//! words and 256-bit unsigned integers, and the byte blob.

use vstd::prelude::*;
use vstd::array::spec_array_update;
use vstd::slice::slice_to_vec;
use vstd::string::StringSliceAdditionalSpecFns;
use vstd::utf8::valid_utf8;
use vstd::std_specs::cmp::PartialEqSpecImpl;
use vstd::std_specs::convert::FromSpecImpl;
use crate::error::Error;
use crate::word::{all_zero, be_value, pow256, word, zeros};
use crate::word::lemma_pow256_values;

verus! {

/// Whether two byte strings hold the same bytes.
pub fn same_bytes(a: &[u8], b: &[u8]) -> (r: bool)
    ensures
        r == (a@ == b@),
{
    if a.len() != b.len() {
        return false;
    }
    let mut i: usize = 0;
    while i < a.len()
        invariant
            i <= a@.len(),
            a@.len() == b@.len(),
            forall|j: int| 0 <= j < i ==> a@[j] == b@[j],
        decreases a@.len() - i,
    {
        if a[i] != b[i] {
            return false;
        }
        i += 1;
    }
    assert(a@ =~= b@);
    true
}

/// A 160-bit quantity, as 20 bytes.
#[derive(Clone, Copy, Debug)]
pub struct H160(pub [u8; 20]);

impl PartialEq for H160 {
    fn eq(&self, other: &Self) -> (r: bool) {
        let r = same_bytes(self.0.as_slice(), other.0.as_slice());
        assert(r ==> self.0 =~= other.0);
        r
    }
}

impl Eq for H160 {

}

impl PartialEqSpecImpl for H160 {
    open spec fn obeys_eq_spec() -> bool {
        true
    }

    open spec fn eq_spec(&self, other: &Self) -> bool {
        *self == *other
    }
}

impl H160 {
    /// The value whose bytes are all `byte`.
    pub fn repeat_byte(byte: u8) -> (r: Self)
        ensures
            r.0@ == Seq::new(20, |i: int| byte),
    {
        let r = H160([byte; 20]);
        assert(r.0@ =~= Seq::new(20, |i: int| byte));
        r
    }

    /// The value whose bytes are all zero.
    pub fn zero() -> (r: Self)
        ensures
            r.0@ == zeros(20),
    {
        let r = H160([0u8; 20]);
        assert(r.0@ =~= zeros(20));
        r
    }

    /// The value that holds the 20 bytes of `src`.
    pub fn from_slice(src: &[u8]) -> (r: Self)
        requires
            src@.len() == 20,
        ensures
            r.0@ == src@,
    {
        let mut bytes = [0u8; 20];
        let mut i: usize = 0;
        while i < 20
            invariant
                i <= 20,
                src@.len() == 20,
                forall|j: int| 0 <= j < i ==> bytes@[j] == src@[j],
            decreases 20 - i,
        {
            bytes[i] = src[i];
            i += 1;
        }
        assert(bytes@ =~= src@);
        H160(bytes)
    }

    /// The 20 bytes.
    pub fn as_bytes(&self) -> (r: &[u8])
        ensures
            r@ == self.0@,
    {
        self.0.as_slice()
    }

    /// The 20 bytes, as the array that holds them.
    pub fn as_fixed_bytes(&self) -> (r: &[u8; 20])
        ensures
            *r == self.0,
    {
        &self.0
    }

    /// Whether every byte is zero.
    pub fn is_zero(&self) -> (r: bool)
        ensures
            r == (self.0@ == zeros(20)),
    {
        let r = all_zero(self.0.as_slice());
        proof {
            crate::word::lemma_be_value_zero_iff(self.0@);
        }
        r
    }
}

/// A 256-bit quantity, as 32 bytes: one whole word.
#[derive(Clone, Copy, Debug)]
pub struct H256(pub [u8; 32]);

impl PartialEq for H256 {
    fn eq(&self, other: &Self) -> (r: bool) {
        let r = same_bytes(self.0.as_slice(), other.0.as_slice());
        assert(r ==> self.0 =~= other.0);
        r
    }
}

impl Eq for H256 {

}

impl PartialEqSpecImpl for H256 {
    open spec fn obeys_eq_spec() -> bool {
        true
    }

    open spec fn eq_spec(&self, other: &Self) -> bool {
        *self == *other
    }
}

impl H256 {
    /// The value whose bytes are all `byte`.
    pub fn repeat_byte(byte: u8) -> (r: Self)
        ensures
            r.0@ == Seq::new(32, |i: int| byte),
    {
        let r = H256([byte; 32]);
        assert(r.0@ =~= Seq::new(32, |i: int| byte));
        r
    }

    /// The value whose bytes are all zero.
    pub fn zero() -> (r: Self)
        ensures
            r.0@ == zeros(32),
    {
        let r = H256([0u8; 32]);
        assert(r.0@ =~= zeros(32));
        r
    }

    /// The value that holds the 32 bytes of `src`.
    pub fn from_slice(src: &[u8]) -> (r: Self)
        requires
            src@.len() == 32,
        ensures
            r.0@ == src@,
    {
        let mut bytes = [0u8; 32];
        let mut i: usize = 0;
        while i < 32
            invariant
                i <= 32,
                src@.len() == 32,
                forall|j: int| 0 <= j < i ==> bytes@[j] == src@[j],
            decreases 32 - i,
        {
            bytes[i] = src[i];
            i += 1;
        }
        assert(bytes@ =~= src@);
        H256(bytes)
    }

    /// The 32 bytes.
    pub fn as_bytes(&self) -> (r: &[u8])
        ensures
            r@ == self.0@,
    {
        self.0.as_slice()
    }

    /// The 32 bytes, as the array that holds them.
    pub fn as_fixed_bytes(&self) -> (r: &[u8; 32])
        ensures
            *r == self.0,
    {
        &self.0
    }

    /// Whether every byte is zero.
    pub fn is_zero(&self) -> (r: bool)
        ensures
            r == (self.0@ == zeros(32)),
    {
        let r = all_zero(self.0.as_slice());
        proof {
            crate::word::lemma_be_value_zero_iff(self.0@);
        }
        r
    }
}

impl From<[u8; 32]> for H256 {
    fn from(bytes: [u8; 32]) -> (r: Self) {
        H256(bytes)
    }
}

impl FromSpecImpl<[u8; 32]> for H256 {
    open spec fn obeys_from_spec() -> bool {
        true
    }

    open spec fn from_spec(bytes: [u8; 32]) -> Self {
        H256(bytes)
    }
}

impl From<[u8; 20]> for H160 {
    fn from(bytes: [u8; 20]) -> (r: Self) {
        H160(bytes)
    }
}

impl FromSpecImpl<[u8; 20]> for H160 {
    open spec fn obeys_from_spec() -> bool {
        true
    }

    open spec fn from_spec(bytes: [u8; 20]) -> Self {
        H160(bytes)
    }
}

impl From<H160> for H256 {
    /// The word that holds the 20 bytes right-aligned behind 12 zero bytes.
    fn from(value: H160) -> (r: Self)
        ensures
            r.0@ == zeros(12) + value.0@,
    {
        let mut bytes = [0u8; 32];
        let mut i: usize = 0;
        while i < 20
            invariant
                i <= 20,
                forall|j: int| 0 <= j < 12 ==> bytes@[j] == 0u8,
                forall|j: int| 0 <= j < i ==> bytes@[12 + j] == value.0@[j],
            decreases 20 - i,
        {
            bytes[12 + i] = value.0[i];
            i += 1;
        }
        let r = H256(bytes);
        proof {
            assert(r.0@ =~= zeros(12) + value.0@);
            r.lemma_holding();
        }
        r
    }
}

/// The hash word of an address: 12 zero bytes, then the address.
pub open spec fn padded(value: H160) -> H256 {
    H256::holding(zeros(12) + value.0@)
}

impl FromSpecImpl<H160> for H256 {
    open spec fn obeys_from_spec() -> bool {
        true
    }

    open spec fn from_spec(value: H160) -> Self {
        padded(value)
    }
}

/// An unsigned 256-bit integer, held as its upper and lower 128 bits.
#[derive(Clone, Copy, Debug, PartialEq, Eq, Structural, PartialOrd, Ord, Hash)]
pub struct U256 {
    pub hi: u128,
    pub lo: u128,
}

impl U256 {
    /// The number that the two halves make up.
    pub open spec fn value(self) -> nat {
        crate::word::join(self.hi, self.lo)
    }

    /// Zero.
    pub fn zero() -> (r: Self)
        ensures
            r.value() == 0,
    {
        assert(0 * pow256(16) == 0) by (nonlinear_arith);
        U256 { hi: 0, lo: 0 }
    }

    /// The number that up to 32 bytes denote, read big-endian.
    pub fn from_big_endian(src: &[u8]) -> (r: Self)
        requires
            src@.len() <= 32,
        ensures
            r.value() == be_value(src@),
    {
        let (hi, lo) = crate::word::be_decode_halves(src);
        U256 { hi, lo }
    }

    /// The word that holds the number.
    pub fn to_big_endian(&self) -> (out: [u8; 32])
        ensures
            out@ == word(self.value()),
    {
        crate::word::word_from_halves(self.hi, self.lo)
    }

    /// The number as a `usize`, where it fits.
    pub fn as_usize(&self) -> (r: Option<usize>)
        ensures
            match r {
                Some(n) => n == self.value(),
                None => self.value() > usize::MAX,
            },
    {
        proof {
            lemma_pow256_values();
            let p = pow256(16);
            if self.hi != 0 {
                assert(self.hi as nat * p >= p) by (nonlinear_arith)
                    requires
                        self.hi >= 1,
                ;
            } else {
                assert(self.hi as nat * p == 0) by (nonlinear_arith)
                    requires
                        self.hi == 0,
                ;
            }
        }
        if self.hi != 0 || self.lo > usize::MAX as u128 {
            None
        } else {
            Some(self.lo as usize)
        }
    }
}

impl From<u128> for U256 {
    fn from(value: u128) -> (r: Self) {
        U256 { hi: 0, lo: value }
    }
}

impl FromSpecImpl<u128> for U256 {
    open spec fn obeys_from_spec() -> bool {
        true
    }

    open spec fn from_spec(value: u128) -> Self {
        U256 { hi: 0, lo: value }
    }
}

impl From<u64> for U256 {
    fn from(value: u64) -> (r: Self) {
        U256 { hi: 0, lo: value as u128 }
    }
}

impl FromSpecImpl<u64> for U256 {
    open spec fn obeys_from_spec() -> bool {
        true
    }

    open spec fn from_spec(value: u64) -> Self {
        U256 { hi: 0, lo: value as u128 }
    }
}

impl From<usize> for U256 {
    fn from(value: usize) -> (r: Self) {
        U256 { hi: 0, lo: value as u128 }
    }
}

impl FromSpecImpl<usize> for U256 {
    open spec fn obeys_from_spec() -> bool {
        true
    }

    open spec fn from_spec(value: usize) -> Self {
        U256 { hi: 0, lo: value as u128 }
    }
}

/// The `address` type of a contract interface. A bare `H160` could also be
/// a `bytes20`, which is laid out differently, so an address is a type of
/// its own.
#[derive(Clone, Copy, Debug)]
pub struct Address(pub H160);

impl PartialEq for Address {
    fn eq(&self, other: &Self) -> (r: bool) {
        self.0 == other.0
    }
}

impl Eq for Address {

}

impl PartialEqSpecImpl for Address {
    open spec fn obeys_eq_spec() -> bool {
        true
    }

    open spec fn eq_spec(&self, other: &Self) -> bool {
        *self == *other
    }
}

impl From<H160> for Address {
    fn from(value: H160) -> (r: Self) {
        Address(value)
    }
}

impl FromSpecImpl<H160> for Address {
    open spec fn obeys_from_spec() -> bool {
        true
    }

    open spec fn from_spec(value: H160) -> Self {
        Address(value)
    }
}

impl From<Address> for H160 {
    fn from(value: Address) -> (r: Self) {
        value.0
    }
}

impl FromSpecImpl<Address> for H160 {
    open spec fn obeys_from_spec() -> bool {
        true
    }

    open spec fn from_spec(value: Address) -> Self {
        value.0
    }
}

/// The `bytes` and `string` types of a contract interface: a blob that is
/// laid out tightly packed behind its length, unlike an array of single
/// bytes, each of which would fill a word.
#[derive(Clone, Debug, PartialEq, Eq)]
pub struct Bytes(pub Vec<u8>);

impl View for Bytes {
    type V = Seq<u8>;

    open spec fn view(&self) -> Seq<u8> {
        self.0@
    }
}

/// `core::str::from_utf8`: the text that `bytes` spell, where they are valid
/// UTF-8, and nothing where they are not. The text has the very bytes that
/// were handed in.
#[verifier::external_body]
pub(crate) fn text_of(bytes: &[u8]) -> (r: Option<&str>)
    ensures
        r is Some <==> valid_utf8(bytes@),
        r is Some ==> r->0.spec_bytes() == bytes@,
{
    core::str::from_utf8(bytes).ok()
}

impl Bytes {
    /// The content, read as `bytes`.
    pub fn as_bytes(&self) -> (r: &[u8])
        ensures
            r@ == self@,
    {
        self.0.as_slice()
    }

    /// The content, read as `string`: refused where it is not valid UTF-8.
    pub fn as_str(&self) -> (r: Result<&str, Error>)
        ensures
            match r {
                Ok(text) => valid_utf8(self@) && text.spec_bytes() == self@,
                Err(e) => !valid_utf8(self@) && e == Error::InvalidEncoding,
            },
    {
        match text_of(self.0.as_slice()) {
            Some(text) => Ok(text),
            None => Err(Error::InvalidEncoding),
        }
    }

    /// The number of content bytes.
    pub fn len(&self) -> (n: usize)
        ensures
            n == self@.len(),
    {
        self.0.len()
    }
}

impl From<&[u8]> for Bytes {
    fn from(content: &[u8]) -> (r: Self)
        ensures
            r@ == content@,
    {
        Bytes(slice_to_vec(content))
    }
}

impl FromSpecImpl<&[u8]> for Bytes {
    open spec fn obeys_from_spec() -> bool {
        false
    }

    open spec fn from_spec(content: &[u8]) -> Self {
        arbitrary()
    }
}

impl From<&str> for Bytes {
    fn from(text: &str) -> (r: Self)
        ensures
            r@ == text.spec_bytes(),
    {
        Bytes(slice_to_vec(text.as_bytes()))
    }
}

impl FromSpecImpl<&str> for Bytes {
    open spec fn obeys_from_spec() -> bool {
        false
    }

    open spec fn from_spec(text: &str) -> Self {
        arbitrary()
    }
}

impl From<Vec<u8>> for Bytes {
    fn from(content: Vec<u8>) -> (r: Self) {
        Bytes(content)
    }
}

impl FromSpecImpl<Vec<u8>> for Bytes {
    open spec fn obeys_from_spec() -> bool {
        true
    }

    open spec fn from_spec(content: Vec<u8>) -> Self {
        Bytes(content)
    }
}

impl From<Bytes> for Vec<u8> {
    fn from(blob: Bytes) -> (r: Self) {
        blob.0
    }
}

impl FromSpecImpl<Bytes> for Vec<u8> {
    open spec fn obeys_from_spec() -> bool {
        true
    }

    open spec fn from_spec(blob: Bytes) -> Self {
        blob.0
    }
}

/// The array whose first `n` bytes are those of `bytes`, and whose other
/// bytes are zero.
pub open spec fn array_of<const N: usize>(bytes: Seq<u8>, n: nat) -> [u8; N]
    decreases n,
{
    if n == 0 {
        [0u8;N]
    } else {
        spec_array_update(array_of::<N>(bytes, (n - 1) as nat), n - 1, bytes[n - 1])
    }
}

/// The array of `N` bytes holds those very bytes.
pub proof fn lemma_array_of<const N: usize>(bytes: Seq<u8>, n: nat)
    requires
        n <= N,
        n <= bytes.len(),
    ensures
        forall|i: int| 0 <= i < n ==> array_of::<N>(bytes, n)@[i] == bytes[i],
        n == N && bytes.len() == N ==> array_of::<N>(bytes, n)@ == bytes,
    decreases n,
{
    if n > 0 {
        lemma_array_of::<N>(bytes, (n - 1) as nat);
    }
    if n == N && bytes.len() == N {
        assert(array_of::<N>(bytes, n)@ =~= bytes);
    }
}

impl H160 {
    /// The value that holds the 20 bytes of `bytes`.
    pub open spec fn holding(bytes: Seq<u8>) -> H160 {
        H160(array_of::<20>(bytes, 20))
    }

    /// The value made of 20 bytes holds those bytes.
    pub proof fn lemma_holding_bytes(bytes: Seq<u8>)
        requires
            bytes.len() == 20,
        ensures
            H160::holding(bytes).0@ == bytes,
    {
        lemma_array_of::<20>(bytes, 20);
    }

    /// Every value is the one made of its bytes.
    pub proof fn lemma_holding(self)
        ensures
            self == H160::holding(self.0@),
    {
        H160::lemma_holding_bytes(self.0@);
        assert(H160::holding(self.0@).0 =~= self.0);
    }
}

impl H256 {
    /// The value that holds the 32 bytes of `bytes`.
    pub open spec fn holding(bytes: Seq<u8>) -> H256 {
        H256(array_of::<32>(bytes, 32))
    }

    /// The value made of 32 bytes holds those bytes.
    pub proof fn lemma_holding_bytes(bytes: Seq<u8>)
        requires
            bytes.len() == 32,
        ensures
            H256::holding(bytes).0@ == bytes,
    {
        lemma_array_of::<32>(bytes, 32);
    }

    /// Every value is the one made of its bytes.
    pub proof fn lemma_holding(self)
        ensures
            self == H256::holding(self.0@),
    {
        H256::lemma_holding_bytes(self.0@);
        assert(H256::holding(self.0@).0 =~= self.0);
    }
}

impl U256 {
    /// The integer with the value `n`, as far as `n` fits 256 bits.
    pub open spec fn of(n: nat) -> U256 {
        U256 { hi: (n / pow256(16)) as u128, lo: (n % pow256(16)) as u128 }
    }

    /// Every integer is the one with its value, and its value fits one
    /// word.
    pub proof fn lemma_of_value(self)
        ensures
            self == U256::of(self.value()),
            self.value() < pow256(32),
    {
        lemma_pow256_values();
        crate::word::lemma_join_bound(self.hi, self.lo);
        let p = pow256(16);
        let n = self.value();
        assert(n / p == self.hi && n % p == self.lo) by (nonlinear_arith)
            requires
                n == self.hi as nat * p + self.lo as nat,
                (self.lo as nat) < p,
                p > 0,
        ;
    }
}

impl DeepView for H160 {
    type V = H160;

    open spec fn deep_view(&self) -> H160 {
        *self
    }
}

impl DeepView for H256 {
    type V = H256;

    open spec fn deep_view(&self) -> H256 {
        *self
    }
}

impl DeepView for U256 {
    type V = U256;

    open spec fn deep_view(&self) -> U256 {
        *self
    }
}

impl DeepView for Address {
    type V = Address;

    open spec fn deep_view(&self) -> Address {
        *self
    }
}

impl DeepView for Bytes {
    type V = Seq<u8>;

    open spec fn deep_view(&self) -> Seq<u8> {
        self.0@
    }
}

} // verus!
