//! Ledger key construction and proof-digest tests: key determinism, wire
//! compatibility, and the digest corpus.
use kale::address::Address;
use kale::errors::CoreError;
use kale::keys::{encode_ledger_key, instance_key, temporary_key, trustline_key};
use kale::values::EncodedValue;
use kale::workhash::calculate_work_hash;

use sha3::Digest;
use stellar_xdr::{
    AccountId, AlphaNum4, AssetCode4, ContractDataDurability, ContractId, LedgerKey,
    LedgerKeyContractData, LedgerKeyTrustLine, Limits, PublicKey, ScAddress, ScSymbol, ScVal,
    ScVec, TrustLineAsset, Uint256, WriteXdr,
};

const CONTRACT_RAW: [u8; 32] = [22u8; 32];
const FARMER_RAW: [u8; 32] = [11u8; 32];

fn contract() -> Address {
    Address::Contract(CONTRACT_RAW.to_vec())
}

fn farmer() -> Address {
    Address::Account(FARMER_RAW.to_vec())
}

fn stake_key_fields() -> Vec<EncodedValue> {
    vec![
        EncodedValue::AddressVal(farmer()),
        EncodedValue::U32(5),
    ]
}

#[test]
fn temporary_key_is_deterministic() {
    let k1 = temporary_key(contract(), b"Pail", stake_key_fields()).unwrap();
    let k2 = temporary_key(contract(), b"Pail", stake_key_fields()).unwrap();
    assert_eq!(encode_ledger_key(&k1), encode_ledger_key(&k2));
}

#[test]
fn temporary_key_bytes_match_external_format() {
    let k = temporary_key(contract(), b"Pail", stake_key_fields()).unwrap();
    let theirs = LedgerKey::ContractData(LedgerKeyContractData {
        contract: ScAddress::Contract(ContractId(stellar_xdr::Hash(CONTRACT_RAW))),
        key: ScVal::Vec(Some(ScVec(
            vec![
                ScVal::Symbol(ScSymbol("Pail".try_into().unwrap())),
                ScVal::Address(ScAddress::Account(AccountId(PublicKey::PublicKeyTypeEd25519(
                    Uint256(FARMER_RAW),
                )))),
                ScVal::U32(5),
            ]
            .try_into()
            .unwrap(),
        ))),
        durability: ContractDataDurability::Temporary,
    })
    .to_xdr(Limits::none())
    .unwrap();
    assert_eq!(encode_ledger_key(&k), theirs);
}

#[test]
fn instance_key_bytes_match_external_format() {
    let k = instance_key(contract());
    let theirs = LedgerKey::ContractData(LedgerKeyContractData {
        contract: ScAddress::Contract(ContractId(stellar_xdr::Hash(CONTRACT_RAW))),
        key: ScVal::LedgerKeyContractInstance,
        durability: ContractDataDurability::Persistent,
    })
    .to_xdr(Limits::none())
    .unwrap();
    assert_eq!(encode_ledger_key(&k), theirs);
}

#[test]
fn trustline_key_bytes_match_external_format() {
    let issuer = Address::Account([33u8; 32].to_vec());
    let k = trustline_key(farmer(), b"KALE", issuer).unwrap();
    let theirs = LedgerKey::Trustline(LedgerKeyTrustLine {
        account_id: AccountId(PublicKey::PublicKeyTypeEd25519(Uint256(FARMER_RAW))),
        asset: TrustLineAsset::CreditAlphanum4(AlphaNum4 {
            asset_code: AssetCode4(*b"KALE"),
            issuer: AccountId(PublicKey::PublicKeyTypeEd25519(Uint256([33u8; 32]))),
        }),
    })
    .to_xdr(Limits::none())
    .unwrap();
    assert_eq!(encode_ledger_key(&k), theirs);
}

#[test]
fn trustline_key_needs_account_kinds() {
    assert_eq!(
        trustline_key(contract(), b"KALE", farmer()),
        Err(CoreError::UnsupportedAddressKind)
    );
}

#[test]
fn work_hash_matches_direct_computation() {
    let entropy = vec![5u8; 32];
    let h = calculate_work_hash(100, 7, &Some(entropy.clone()), &farmer()).unwrap();

    let mut preimage = Vec::new();
    preimage.extend_from_slice(&100u32.to_be_bytes());
    preimage.extend_from_slice(&7u64.to_be_bytes());
    preimage.extend_from_slice(&entropy);
    preimage.extend_from_slice(&FARMER_RAW);
    let expected = sha3::Keccak256::digest(&preimage);
    assert_eq!(h.as_slice(), expected.as_slice());
}

#[test]
fn work_hash_is_deterministic_and_collision_free_on_corpus() {
    let mut tuples: Vec<(u32, u64, Vec<u8>, Address)> = Vec::new();
    for i in 0..7u8 {
        tuples.push((100 + i as u32, 7, vec![3u8; 32], farmer()));
        tuples.push((100, 7 + i as u64, vec![3u8; 32], farmer()));
        let mut e = vec![3u8; 32];
        e[0] = 100 + i;
        tuples.push((100, 7, e, farmer()));
        let mut raw = FARMER_RAW;
        raw[31] = 100 + i;
        tuples.push((100, 7, vec![3u8; 32], Address::Account(raw.to_vec())));
    }
    // Deduplicate the four tuples that coincide at i == 0.
    tuples.dedup_by(|a, b| a == b);
    assert!(tuples.len() >= 20);

    let mut hashes: Vec<Vec<u8>> = Vec::new();
    for (bi, nonce, entropy, addr) in &tuples {
        let h1 = calculate_work_hash(*bi, *nonce, &Some(entropy.clone()), addr).unwrap();
        let h2 = calculate_work_hash(*bi, *nonce, &Some(entropy.clone()), addr).unwrap();
        assert_eq!(h1, h2, "the digest must be deterministic");
        hashes.push(h1);
    }
    for i in 0..hashes.len() {
        for j in 0..hashes.len() {
            if i != j && tuples[i] != tuples[j] {
                assert_ne!(hashes[i], hashes[j], "distinct inputs {i} and {j} collide");
            }
        }
    }
}

#[test]
fn missing_entropy_blocks_the_proof() {
    assert_eq!(
        calculate_work_hash(1, 2, &None, &farmer()),
        Err(CoreError::EntropyUnavailable)
    );
}
