//! Accounts of a small test chain and the addresses under which contracts
//! see them. Three named accounts have fixed addresses; an asset is found
//! under the address made of four `0xff` bytes and its 128-bit id.

use vstd::prelude::*;
use vstd::slice::slice_subrange;
use vstd::std_specs::convert::FromSpecImpl;
use crate::types::{H160, H256};
use crate::word::{be_bytes, be_decode, be_encode, be_value};
use crate::word::{lemma_be_bytes_len, lemma_be_value_of_bytes};
use crate::word::lemma_pow256_values;

verus! {

/// The accounts of the test chain.
pub type AccountId = Account;

/// The id of an asset.
pub type AssetId = u128;

/// An amount of the chain's currency or of an asset.
pub type Balance = u128;

/// A simple account type.
#[derive(Clone, Debug, PartialEq, Eq, Structural, PartialOrd, Ord)]
pub enum Account {
    Alice,
    Bob,
    Charlie,
    Bogus,
    AssetId(AssetId),
}

/// `n` times the byte `byte`.
pub open spec fn repeated(byte: u8, n: nat) -> Seq<u8> {
    Seq::new(n, |i: int| byte)
}

impl Account {
    /// The 20 bytes of the address that stands for the account.
    pub open spec fn address(self) -> Seq<u8> {
        match self {
            Account::Alice => repeated(0xAA, 20),
            Account::Bob => repeated(0xBB, 20),
            Account::Charlie => repeated(0xCC, 20),
            Account::AssetId(id) => repeated(0xff, 4) + be_bytes(id as nat, 16),
            Account::Bogus => repeated(0, 20),
        }
    }

    /// The account that an address of 20 bytes stands for. An address that
    /// stands for none is bogus.
    pub open spec fn of_address(address: Seq<u8>) -> Account {
        if address == repeated(0xAA, 20) {
            Account::Alice
        } else if address == repeated(0xBB, 20) {
            Account::Bob
        } else if address == repeated(0xCC, 20) {
            Account::Charlie
        } else if address.take(4) == repeated(0xff, 4) {
            Account::AssetId(be_value(address.skip(4)) as u128)
        } else {
            Account::Bogus
        }
    }

    /// The asset that the account stands for, if it stands for one.
    pub open spec fn asset(self) -> Option<AssetId> {
        match self {
            Account::AssetId(id) => Some(id),
            _ => None,
        }
    }

    /// Every account is the one that its own address stands for.
    pub proof fn lemma_address_round_trip(self)
        ensures
            self.address().len() == 20,
            Account::of_address(self.address()) == self,
    {
        let a = self.address();
        match self {
            Account::Alice => {
                assert(a[0] == 0xAA);
            },
            Account::Bob => {
                assert(a[0] == 0xBB);
                assert(repeated(0xAA, 20)[0] == 0xAA);
            },
            Account::Charlie => {
                assert(a[0] == 0xCC);
                assert(repeated(0xAA, 20)[0] == 0xAA);
                assert(repeated(0xBB, 20)[0] == 0xBB);
            },
            Account::Bogus => {
                assert(a[0] == 0);
                assert(a.take(4)[0] == 0);
                assert(repeated(0xAA, 20)[0] == 0xAA);
                assert(repeated(0xBB, 20)[0] == 0xBB);
                assert(repeated(0xCC, 20)[0] == 0xCC);
                assert(repeated(0xff, 4)[0] == 0xff);
            },
            Account::AssetId(id) => {
                lemma_be_bytes_len(id as nat, 16);
                lemma_pow256_values();
                lemma_be_value_of_bytes(id as nat, 16);
                assert(a[0] == 0xff);
                assert(repeated(0xAA, 20)[0] == 0xAA);
                assert(repeated(0xBB, 20)[0] == 0xBB);
                assert(repeated(0xCC, 20)[0] == 0xCC);
                assert(a.take(4) =~= repeated(0xff, 4));
                assert(a.skip(4) =~= be_bytes(id as nat, 16));
            },
        }
    }

    /// The account that `h160_account` stands for.
    pub fn into_account_id(h160_account: H160) -> (r: Account)
        ensures
            r == Account::of_address(h160_account.0@),
    {
        let alice = H160::repeat_byte(0xAA);
        let bob = H160::repeat_byte(0xBB);
        let charlie = H160::repeat_byte(0xCC);
        proof {
            if h160_account.0@ == repeated(0xAA, 20) {
                assert(h160_account.0 =~= alice.0);
            }
            if h160_account.0@ == repeated(0xBB, 20) {
                assert(h160_account.0 =~= bob.0);
            }
            if h160_account.0@ == repeated(0xCC, 20) {
                assert(h160_account.0 =~= charlie.0);
            }
        }
        if h160_account == alice {
            Account::Alice
        } else if h160_account == bob {
            Account::Bob
        } else if h160_account == charlie {
            Account::Charlie
        } else {
            match asset_of_address(&h160_account) {
                Some(id) => Account::AssetId(id),
                None => Account::Bogus,
            }
        }
    }

    /// The asset that the account stands for, if it stands for one.
    pub fn asset_id(&self) -> (r: Option<AssetId>)
        ensures
            r == self.asset(),
    {
        match self {
            Account::AssetId(id) => Some(*id),
            _ => None,
        }
    }
}

/// The asset whose address `address` is: the id behind four `0xff` bytes.
pub fn asset_of_address(address: &H160) -> (r: Option<AssetId>)
    ensures
        r == if address.0@.take(4) == repeated(0xff, 4) {
            Some(be_value(address.0@.skip(4)) as u128)
        } else {
            None
        },
{
    let bytes = address.as_bytes();
    if bytes[0] == 0xff && bytes[1] == 0xff && bytes[2] == 0xff && bytes[3] == 0xff {
        assert(bytes@.take(4) =~= repeated(0xff, 4));
        let id = be_decode(slice_subrange(bytes, 4, 20));
        assert(bytes@.subrange(4, 20) =~= bytes@.skip(4));
        Some(id)
    } else {
        proof {
            let four = repeated(0xff, 4);
            assert(four[0] == 0xff && four[1] == 0xff && four[2] == 0xff && four[3] == 0xff);
            let head = bytes@.take(4);
            assert(head[0] == bytes@[0] && head[1] == bytes@[1] && head[2] == bytes@[2] && head[3]
                == bytes@[3]);
        }
        None
    }
}

impl Default for Account {
    fn default() -> (r: Self)
        ensures
            r == Account::Bogus,
    {
        Account::Bogus
    }
}

impl From<Account> for H160 {
    /// The address that stands for the account.
    fn from(x: Account) -> (r: H160)
        ensures
            r.0@ == x.address(),
    {
        let r = match x {
            Account::Alice => H160::repeat_byte(0xAA),
            Account::Bob => H160::repeat_byte(0xBB),
            Account::Charlie => H160::repeat_byte(0xCC),
            Account::AssetId(asset_id) => {
                let mut data = [0u8; 20];
                let id_as_bytes = be_encode(asset_id);
                data[0] = 0xff;
                data[1] = 0xff;
                data[2] = 0xff;
                data[3] = 0xff;
                let mut i: usize = 0;
                while i < 16
                    invariant
                        i <= 16,
                        forall|j: int| 0 <= j < 4 ==> data@[j] == 0xffu8,
                        forall|j: int| 0 <= j < i ==> data@[4 + j] == id_as_bytes@[j],
                    decreases 16 - i,
                {
                    data[4 + i] = id_as_bytes[i];
                    i += 1;
                }
                proof {
                    lemma_be_bytes_len(asset_id as nat, 16);
                    assert(data@ =~= repeated(0xff, 4) + be_bytes(asset_id as nat, 16));
                }
                H160(data)
            },
            Account::Bogus => H160::zero(),
        };
        proof {
            assert(r.0@ =~= x.address());
            r.lemma_holding();
        }
        r
    }
}

impl FromSpecImpl<Account> for H160 {
    open spec fn obeys_from_spec() -> bool {
        true
    }

    open spec fn from_spec(x: Account) -> H160 {
        H160::holding(x.address())
    }
}

impl From<H160> for Account {
    fn from(x: H160) -> (r: Account) {
        Account::into_account_id(x)
    }
}

impl FromSpecImpl<H160> for Account {
    open spec fn obeys_from_spec() -> bool {
        true
    }

    open spec fn from_spec(x: H160) -> Account {
        Account::of_address(x.0@)
    }
}

impl From<Account> for H256 {
    /// The word that holds the account's address, right-aligned.
    fn from(x: Account) -> (r: H256)
        ensures
            r.0@ == crate::word::zeros(12) + x.address(),
    {
        let x: H160 = H160::from(x);
        let r = H256::from(x);
        proof {
            r.lemma_holding();
        }
        r
    }
}

impl FromSpecImpl<Account> for H256 {
    open spec fn obeys_from_spec() -> bool {
        true
    }

    open spec fn from_spec(x: Account) -> H256 {
        H256::holding(crate::word::zeros(12) + x.address())
    }
}

impl From<Account> for Option<AssetId> {
    /// The asset that the account stands for, if it stands for one.
    fn from(x: Account) -> (r: Option<AssetId>) {
        x.asset_id()
    }
}

impl FromSpecImpl<Account> for Option<AssetId> {
    open spec fn obeys_from_spec() -> bool {
        true
    }

    open spec fn from_spec(x: Account) -> Option<AssetId> {
        x.asset()
    }
}

/// The precompiled contracts of the test chain.
pub struct Precompiles;

impl Precompiles {
    /// This is how precompiles turn an account into the id of the asset
    /// that it stands for: by way of the account's address.
    pub fn account_to_asset_id(account: Account) -> (r: Option<AssetId>)
        ensures
            r == account.asset(),
    {
        proof {
            let a = account.address();
            match account {
                Account::AssetId(id) => {
                    lemma_be_bytes_len(id as nat, 16);
                    lemma_pow256_values();
                    lemma_be_value_of_bytes(id as nat, 16);
                    assert(a.take(4) =~= repeated(0xff, 4));
                    assert(a.skip(4) =~= be_bytes(id as nat, 16));
                },
                _ => {
                    assert(a.take(4)[0] == a[0]);
                    assert(repeated(0xff, 4)[0] == 0xff);
                },
            }
        }
        let h160_account: H160 = H160::from(account);
        asset_of_address(&h160_account)
    }
}

/// Sets up the state that the test chain starts from.
pub struct ExtBuilder {
    // endowed accounts with balances
    balances: Vec<(AccountId, Balance)>,
}

impl View for ExtBuilder {
    type V = Seq<(AccountId, Balance)>;

    closed spec fn view(&self) -> Seq<(AccountId, Balance)> {
        self.balances@
    }
}

impl Default for ExtBuilder {
    fn default() -> (r: ExtBuilder)
        ensures
            r@ == Seq::<(AccountId, Balance)>::empty(),
    {
        ExtBuilder { balances: Vec::new() }
    }
}

impl ExtBuilder {
    /// Replaces the endowed accounts by `balances`.
    pub fn with_balances(self, balances: Vec<(AccountId, Balance)>) -> (r: Self)
        ensures
            r@ == balances@,
    {
        let mut r = self;
        r.balances = balances;
        r
    }

    /// Hands out the endowed accounts with their balances.
    pub fn into_balances(self) -> (r: Vec<(AccountId, Balance)>)
        ensures
            r@ == self@,
    {
        self.balances
    }
}

} // verus!
