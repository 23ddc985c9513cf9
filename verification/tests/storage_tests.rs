//! Storage-entry interpretation tests: block info, stake records, and
//! trustline balances, built from raw entries produced by an independent
//! implementation.
use kale::errors::CoreError;
use kale::storage::{
    decode_block_index, decode_block_info, decode_stake_record, decode_trustline_balance,
    decode_trustline_status, normalize_counter, BlockInfo, StakeRecord,
};
use kale::values::EncodedValue;

use stellar_xdr::{
    AccountId, AlphaNum4, AssetCode4, ContractDataDurability, ContractDataEntry, ContractId,
    ExtensionPoint, LedgerEntryData, Limits, PublicKey, ScAddress, ScBytes,
    ScContractInstance, ScMap, ScMapEntry, ScSymbol, ScVal, ScVec, TrustLineAsset, TrustLineEntry,
    TrustLineEntryExt, TrustLineFlags, Uint256, WriteXdr,
};

const CONTRACT_RAW: [u8; 32] = [22u8; 32];

fn contract_address() -> ScAddress {
    ScAddress::Contract(ContractId(stellar_xdr::Hash(CONTRACT_RAW)))
}

fn instance_entry_with_index(index: u32) -> Vec<u8> {
    let storage = ScMap(
        vec![ScMapEntry {
            key: ScVal::Vec(Some(ScVec(
                vec![ScVal::Symbol(ScSymbol("FarmIndex".try_into().unwrap()))]
                    .try_into()
                    .unwrap(),
            ))),
            val: ScVal::U32(index),
        }]
        .try_into()
        .unwrap(),
    );
    LedgerEntryData::ContractData(ContractDataEntry {
        ext: ExtensionPoint::V0,
        contract: contract_address(),
        key: ScVal::LedgerKeyContractInstance,
        durability: ContractDataDurability::Persistent,
        val: ScVal::ContractInstance(ScContractInstance {
            executable: stellar_xdr::ContractExecutable::StellarAsset,
            storage: Some(storage),
        }),
    })
    .to_xdr(Limits::none())
    .unwrap()
}

fn data_entry_with_val(val: ScVal) -> Vec<u8> {
    LedgerEntryData::ContractData(ContractDataEntry {
        ext: ExtensionPoint::V0,
        contract: contract_address(),
        key: ScVal::U32(1),
        durability: ContractDataDurability::Temporary,
        val,
    })
    .to_xdr(Limits::none())
    .unwrap()
}

fn map_with(key: &str, val: ScVal) -> ScVal {
    ScVal::Map(Some(ScMap(
        vec![ScMapEntry {
            key: ScVal::Symbol(ScSymbol(key.try_into().unwrap())),
            val,
        }]
        .try_into()
        .unwrap(),
    )))
}

#[test]
fn block_index_reads_from_instance_entry() {
    let entry = instance_entry_with_index(42);
    assert_eq!(decode_block_index(entry.as_slice()), Ok(42));
}

#[test]
fn absent_block_entry_means_no_entropy() {
    let entry = instance_entry_with_index(42);
    assert_eq!(
        decode_block_info(entry.as_slice(), &None),
        Ok(BlockInfo { block_index: 42, entropy: None })
    );
}

#[test]
fn present_block_entry_yields_entropy() {
    let instance = instance_entry_with_index(7);
    let block = data_entry_with_val(map_with(
        "entropy",
        ScVal::Bytes(ScBytes(vec![9u8; 32].try_into().unwrap())),
    ));
    assert_eq!(
        decode_block_info(instance.as_slice(), &Some(block)),
        Ok(BlockInfo { block_index: 7, entropy: Some(vec![9u8; 32]) })
    );
}

#[test]
fn wrong_entropy_length_is_malformed() {
    let instance = instance_entry_with_index(7);
    let block = data_entry_with_val(map_with(
        "entropy",
        ScVal::Bytes(ScBytes(vec![9u8; 31].try_into().unwrap())),
    ));
    assert_eq!(
        decode_block_info(instance.as_slice(), &Some(block)),
        Err(CoreError::MalformedValue)
    );
}

#[test]
fn missing_index_field_reports_missing_field() {
    let storage = ScMap(
        vec![ScMapEntry {
            key: ScVal::Vec(Some(ScVec(
                vec![ScVal::Symbol(ScSymbol("Other".try_into().unwrap()))]
                    .try_into()
                    .unwrap(),
            ))),
            val: ScVal::U32(1),
        }]
        .try_into()
        .unwrap(),
    );
    let entry = LedgerEntryData::ContractData(ContractDataEntry {
        ext: ExtensionPoint::V0,
        contract: contract_address(),
        key: ScVal::LedgerKeyContractInstance,
        durability: ContractDataDurability::Persistent,
        val: ScVal::ContractInstance(ScContractInstance {
            executable: stellar_xdr::ContractExecutable::StellarAsset,
            storage: Some(storage),
        }),
    })
    .to_xdr(Limits::none())
    .unwrap();
    assert_eq!(
        decode_block_index(entry.as_slice()),
        Err(CoreError::MissingField("blockIndex".to_string()))
    );
}

#[test]
fn instance_entry_with_wasm_executable_decodes() {
    let storage = ScMap(
        vec![ScMapEntry {
            key: ScVal::Vec(Some(ScVec(
                vec![ScVal::Symbol(ScSymbol("FarmIndex".try_into().unwrap()))]
                    .try_into()
                    .unwrap(),
            ))),
            val: ScVal::U32(11),
        }]
        .try_into()
        .unwrap(),
    );
    let entry = LedgerEntryData::ContractData(ContractDataEntry {
        ext: ExtensionPoint::V0,
        contract: contract_address(),
        key: ScVal::LedgerKeyContractInstance,
        durability: ContractDataDurability::Persistent,
        val: ScVal::ContractInstance(ScContractInstance {
            executable: stellar_xdr::ContractExecutable::Wasm(stellar_xdr::Hash([7u8; 32])),
            storage: Some(storage),
        }),
    })
    .to_xdr(Limits::none())
    .unwrap();
    assert_eq!(decode_block_index(entry.as_slice()), Ok(11));
}

#[test]
fn block_entry_without_entropy_field_means_no_entropy() {
    let instance = instance_entry_with_index(7);
    let block = data_entry_with_val(map_with("other", ScVal::U32(1)));
    assert_eq!(
        decode_block_info(instance.as_slice(), &Some(block)),
        Ok(BlockInfo { block_index: 7, entropy: None })
    );
}

#[test]
fn block_value_with_absent_map_body_is_malformed() {
    let instance = instance_entry_with_index(7);
    let block = data_entry_with_val(ScVal::Map(None));
    assert_eq!(
        decode_block_info(instance.as_slice(), &Some(block)),
        Err(CoreError::MalformedValue)
    );
}

#[test]
fn absent_stake_entry_means_no_record() {
    assert_eq!(
        decode_stake_record(&None),
        Ok(StakeRecord { exists: false, zeros: None })
    );
}

#[test]
fn stake_counter_shapes_decode() {
    // A bare integer is a submitted counter.
    let direct = data_entry_with_val(map_with("zeros", ScVal::U32(6)));
    assert_eq!(
        decode_stake_record(&Some(direct)),
        Ok(StakeRecord { exists: true, zeros: Some(6) })
    );

    // An empty sequence means no proof yet.
    let empty = data_entry_with_val(map_with(
        "zeros",
        ScVal::Vec(Some(ScVec(Vec::new().try_into().unwrap()))),
    ));
    assert_eq!(
        decode_stake_record(&Some(empty)),
        Ok(StakeRecord { exists: true, zeros: None })
    );

    // A one-element sequence wrapping an integer is a submitted counter.
    let wrapped = data_entry_with_val(map_with(
        "zeros",
        ScVal::Vec(Some(ScVec(vec![ScVal::U32(8)].try_into().unwrap()))),
    ));
    assert_eq!(
        decode_stake_record(&Some(wrapped)),
        Ok(StakeRecord { exists: true, zeros: Some(8) })
    );

    // A missing counter field also means no proof yet.
    let missing = data_entry_with_val(map_with("other", ScVal::U32(3)));
    assert_eq!(
        decode_stake_record(&Some(missing)),
        Ok(StakeRecord { exists: true, zeros: None })
    );
}

#[test]
fn unrecognized_counter_shape_is_malformed() {
    let bad = data_entry_with_val(map_with("zeros", ScVal::I64(-1)));
    assert_eq!(
        decode_stake_record(&Some(bad)),
        Err(CoreError::MalformedValue)
    );
    let two = data_entry_with_val(map_with(
        "zeros",
        ScVal::Vec(Some(ScVec(
            vec![ScVal::U32(1), ScVal::U32(2)].try_into().unwrap(),
        ))),
    ));
    assert_eq!(
        decode_stake_record(&Some(two)),
        Err(CoreError::MalformedValue)
    );
}

#[test]
fn stake_value_with_absent_map_body_is_malformed() {
    let entry = data_entry_with_val(ScVal::Map(None));
    assert_eq!(
        decode_stake_record(&Some(entry)),
        Err(CoreError::MalformedValue)
    );
}

#[test]
fn counter_normalization_is_exact() {
    assert_eq!(normalize_counter(&EncodedValue::U32(9)), Ok(Some(9)));
    assert_eq!(
        normalize_counter(&EncodedValue::Sequence(Some(vec![]))),
        Ok(None)
    );
    assert_eq!(
        normalize_counter(&EncodedValue::Sequence(Some(vec![EncodedValue::U32(4)]))),
        Ok(Some(4))
    );
    assert_eq!(
        normalize_counter(&EncodedValue::I32(4)),
        Err(CoreError::MalformedValue)
    );
}

#[test]
fn trustline_balance_reads_from_entry() {
    let entry = LedgerEntryData::Trustline(TrustLineEntry {
        account_id: AccountId(PublicKey::PublicKeyTypeEd25519(Uint256([1u8; 32]))),
        asset: TrustLineAsset::CreditAlphanum4(AlphaNum4 {
            asset_code: AssetCode4(*b"KALE"),
            issuer: AccountId(PublicKey::PublicKeyTypeEd25519(Uint256([2u8; 32]))),
        }),
        balance: 1234567,
        limit: i64::MAX,
        flags: TrustLineFlags::AuthorizedFlag as u32,
        ext: TrustLineEntryExt::V0,
    })
    .to_xdr(Limits::none())
    .unwrap();
    assert_eq!(decode_trustline_balance(entry.as_slice()), Ok(1234567));
}

#[test]
fn non_trustline_entry_is_malformed_for_balance() {
    let entry = instance_entry_with_index(1);
    assert_eq!(
        decode_trustline_balance(entry.as_slice()),
        Err(CoreError::MalformedValue)
    );
}

#[test]
fn trustline_status_reports_absence_and_balance() {
    assert_eq!(decode_trustline_status(&None), Ok((false, 0)));

    let entry = LedgerEntryData::Trustline(TrustLineEntry {
        account_id: AccountId(PublicKey::PublicKeyTypeEd25519(Uint256([1u8; 32]))),
        asset: TrustLineAsset::CreditAlphanum4(AlphaNum4 {
            asset_code: AssetCode4(*b"KALE"),
            issuer: AccountId(PublicKey::PublicKeyTypeEd25519(Uint256([2u8; 32]))),
        }),
        balance: 77,
        limit: i64::MAX,
        flags: TrustLineFlags::AuthorizedFlag as u32,
        ext: TrustLineEntryExt::V0,
    })
    .to_xdr(Limits::none())
    .unwrap();
    assert_eq!(decode_trustline_status(&Some(entry)), Ok((true, 77)));

    assert_eq!(
        decode_trustline_status(&Some(vec![1, 2, 3])),
        Err(CoreError::MalformedValue)
    );
}
