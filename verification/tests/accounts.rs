use precompile_utils::account::{asset_of_address, Account, ExtBuilder, Precompiles};
use precompile_utils::types::{H160, H256};

#[test]
fn named_accounts_have_fixed_addresses() {
    assert_eq!(H160::from(Account::Alice), H160::repeat_byte(0xAA));
    assert_eq!(H160::from(Account::Bob), H160::repeat_byte(0xBB));
    assert_eq!(H160::from(Account::Charlie), H160::repeat_byte(0xCC));
    assert_eq!(H160::from(Account::Bogus), H160::zero());
    assert_eq!(Account::into_account_id(H160::repeat_byte(0xAA)), Account::Alice);
    assert_eq!(Account::into_account_id(H160::repeat_byte(0xBB)), Account::Bob);
    assert_eq!(Account::into_account_id(H160::repeat_byte(0xCC)), Account::Charlie);
    assert_eq!(Account::default(), Account::Bogus);
}

#[test]
fn asset_address_is_prefix_and_id() {
    let id: u128 = 0x0102030405060708090a0b0c0d0e0f10;
    let address = H160::from(Account::AssetId(id));
    let mut expected = [0xffu8; 20];
    expected[4..].copy_from_slice(&id.to_be_bytes());
    assert_eq!(address, H160(expected));
    assert_eq!(Account::from(address), Account::AssetId(id));
    assert_eq!(asset_of_address(&address), Some(id));
    assert_eq!(asset_of_address(&H160::repeat_byte(0xff)), Some(u128::MAX));
}

#[test]
fn unknown_address_is_bogus() {
    assert_eq!(Account::into_account_id(H160::repeat_byte(0x01)), Account::Bogus);
    assert_eq!(Account::into_account_id(H160::zero()), Account::Bogus);
    let mut almost = [0xffu8; 20];
    almost[3] = 0xfe;
    assert_eq!(Account::into_account_id(H160(almost)), Account::Bogus);
    assert_eq!(asset_of_address(&H160(almost)), None);
}

#[test]
fn account_address_round_trip() {
    for account in [
        Account::Alice,
        Account::Bob,
        Account::Charlie,
        Account::Bogus,
        Account::AssetId(0),
        Account::AssetId(42),
        Account::AssetId(u128::MAX),
    ] {
        assert_eq!(Account::from(H160::from(account.clone())), account);
    }
}

#[test]
fn account_to_asset_id_only_for_assets() {
    assert_eq!(Precompiles::account_to_asset_id(Account::AssetId(7)), Some(7));
    assert_eq!(Precompiles::account_to_asset_id(Account::Alice), None);
    assert_eq!(Precompiles::account_to_asset_id(Account::Bogus), None);
    assert_eq!(Account::AssetId(7).asset_id(), Some(7));
    assert_eq!(Account::Bob.asset_id(), None);
    let asset: Option<u128> = Account::AssetId(9).into();
    assert_eq!(asset, Some(9));
    let none: Option<u128> = Account::Charlie.into();
    assert_eq!(none, None);
}

#[test]
fn account_as_hash_word_is_left_padded() {
    let word = H256::from(Account::Alice);
    assert_eq!(&word.as_bytes()[..12], &[0u8; 12]);
    assert_eq!(&word.as_bytes()[12..], &[0xAAu8; 20]);
}

#[test]
fn with_balances_replaces_the_endowment() {
    let builder = ExtBuilder::default();
    let builder = builder.with_balances(vec![(Account::Alice, 1000)]);
    let builder = builder.with_balances(vec![(Account::Bob, 5), (Account::Charlie, 6)]);
    assert_eq!(
        builder.into_balances(),
        vec![(Account::Bob, 5), (Account::Charlie, 6)]
    );
    assert_eq!(ExtBuilder::default().into_balances(), vec![]);
}
