//! Round-trip and wire-compatibility tests for the binary value codec.
use kale::address::Address;
use kale::codec::{decode, encode};
use kale::errors::CoreError;
use kale::values::{EncodedValue, MapEntry};

use stellar_xdr::ReadXdr;
use stellar_xdr::{
    AccountId, ContractId, Int128Parts, Limits, PublicKey, ScAddress, ScBytes, ScMap,
    ScMapEntry, ScSymbol, ScVal, ScVec, Uint256, WriteXdr,
};

fn round_trip(v: EncodedValue) -> EncodedValue {
    let bytes = encode(&v);
    let back = decode(bytes.as_slice()).expect("decoding an encoding must succeed");
    assert_eq!(back, v);
    back
}

fn xdr_bytes(v: &ScVal) -> Vec<u8> {
    v.to_xdr(Limits::none()).expect("xdr encoding")
}

#[test]
fn round_trip_integers() {
    round_trip(EncodedValue::U32(0));
    round_trip(EncodedValue::U32(u32::MAX));
    round_trip(EncodedValue::I32(-1));
    round_trip(EncodedValue::I32(i32::MIN));
    round_trip(EncodedValue::U64(7));
    round_trip(EncodedValue::U64(u64::MAX));
    round_trip(EncodedValue::I64(-42));
    round_trip(EncodedValue::I128 { hi: -1, lo: 5 });
    round_trip(EncodedValue::I128 { hi: i64::MIN, lo: u64::MAX });
}

#[test]
fn round_trip_bytes_and_symbols() {
    round_trip(EncodedValue::Bytes(vec![]));
    round_trip(EncodedValue::Bytes(vec![1]));
    round_trip(EncodedValue::Bytes(vec![1, 2, 3]));
    round_trip(EncodedValue::Bytes(vec![1, 2, 3, 4]));
    round_trip(EncodedValue::Bytes((0..=255).collect()));
    round_trip(EncodedValue::Symbol(b"Pail".to_vec()));
    round_trip(EncodedValue::Symbol(vec![]));
    round_trip(EncodedValue::Symbol(b"abcdefghijklmnopqrstuvwxyz012345".to_vec()));
}

#[test]
fn round_trip_nested() {
    let v = EncodedValue::Sequence(Some(vec![
        EncodedValue::Symbol(b"Pail".to_vec()),
        EncodedValue::AddressVal(Address::Account(vec![7u8; 32])),
        EncodedValue::U32(5),
        EncodedValue::Sequence(Some(vec![EncodedValue::I64(-9)])),
        EncodedValue::Sequence(None),
        EncodedValue::Mapping(Some(vec![MapEntry {
            key: EncodedValue::Symbol(b"zeros".to_vec()),
            val: EncodedValue::U32(11),
        }])),
        EncodedValue::Mapping(None),
        EncodedValue::InstanceMarker,
    ]));
    round_trip(v);
}

#[test]
fn encoding_matches_external_format() {
    let cases: Vec<(EncodedValue, ScVal)> = vec![
        (EncodedValue::U32(5), ScVal::U32(5)),
        (EncodedValue::I32(-7), ScVal::I32(-7)),
        (EncodedValue::U64(1 << 40), ScVal::U64(1 << 40)),
        (EncodedValue::I64(-1), ScVal::I64(-1)),
        (
            EncodedValue::I128 { hi: -3, lo: 12 },
            ScVal::I128(Int128Parts { hi: -3, lo: 12 }),
        ),
        (
            EncodedValue::Bytes(vec![9, 8, 7]),
            ScVal::Bytes(ScBytes(vec![9, 8, 7].try_into().unwrap())),
        ),
        (
            EncodedValue::Symbol(b"work".to_vec()),
            ScVal::Symbol(ScSymbol("work".try_into().unwrap())),
        ),
        (EncodedValue::InstanceMarker, ScVal::LedgerKeyContractInstance),
        (
            EncodedValue::AddressVal(Address::Account(vec![4u8; 32])),
            ScVal::Address(ScAddress::Account(AccountId(PublicKey::PublicKeyTypeEd25519(
                Uint256([4u8; 32]),
            )))),
        ),
        (
            EncodedValue::AddressVal(Address::Contract(vec![9u8; 32])),
            ScVal::Address(ScAddress::Contract(ContractId(stellar_xdr::Hash([9u8; 32])))),
        ),
        (
            EncodedValue::Sequence(Some(vec![
                EncodedValue::Symbol(b"Pail".to_vec()),
                EncodedValue::U32(5),
            ])),
            ScVal::Vec(Some(ScVec(vec![
                ScVal::Symbol(ScSymbol("Pail".try_into().unwrap())),
                ScVal::U32(5),
            ]
            .try_into()
            .unwrap()))),
        ),
        (
            EncodedValue::Mapping(Some(vec![MapEntry {
                key: EncodedValue::Symbol(b"entropy".to_vec()),
                val: EncodedValue::Bytes(vec![1u8; 32]),
            }])),
            ScVal::Map(Some(ScMap(vec![ScMapEntry {
                key: ScVal::Symbol(ScSymbol("entropy".try_into().unwrap())),
                val: ScVal::Bytes(ScBytes(vec![1u8; 32].try_into().unwrap())),
            }]
            .try_into()
            .unwrap()))),
        ),
    ];
    for (ours, theirs) in cases {
        assert_eq!(encode(&ours), xdr_bytes(&theirs));
    }
}

#[test]
fn external_decoder_reads_our_encoding() {
    let v = EncodedValue::Sequence(Some(vec![
        EncodedValue::Symbol(b"Block".to_vec()),
        EncodedValue::U32(77),
    ]));
    let bytes = encode(&v);
    let theirs = <ScVal as ReadXdr>::from_xdr(bytes.as_slice(), Limits::none()).expect("external decode");
    assert_eq!(bytes, xdr_bytes(&theirs));
}

#[test]
fn declared_count_beyond_available_bytes_is_malformed() {
    // Tag 16 (sequence), body present, count 1000, but no element bytes.
    let mut bytes = vec![0, 0, 0, 16, 0, 0, 0, 1];
    bytes.extend_from_slice(&1000u32.to_be_bytes());
    assert_eq!(decode(bytes.as_slice()), Err(CoreError::MalformedValue));
}

#[test]
fn truncated_input_is_malformed() {
    let full = encode(&EncodedValue::U64(123456789));
    for cut in 0..full.len() {
        assert_eq!(
            decode(&full[..cut]),
            Err(CoreError::MalformedValue),
            "prefix of length {cut} must not decode"
        );
    }
}

#[test]
fn unknown_tag_is_malformed() {
    // Tag 7 is a timepoint, which this codec does not accept.
    let bytes = vec![0, 0, 0, 7, 0, 0, 0, 0, 0, 0, 0, 1];
    assert_eq!(decode(bytes.as_slice()), Err(CoreError::MalformedValue));
}

#[test]
fn trailing_bytes_are_malformed() {
    let mut bytes = encode(&EncodedValue::U32(1));
    bytes.push(0);
    assert_eq!(decode(bytes.as_slice()), Err(CoreError::MalformedValue));
}

#[test]
fn nonzero_padding_is_malformed() {
    // Bytes payload of length 1 must be padded with three zero bytes.
    let bytes = vec![0, 0, 0, 13, 0, 0, 0, 1, 0xAA, 1, 0, 0];
    assert_eq!(decode(bytes.as_slice()), Err(CoreError::MalformedValue));
}

#[test]
fn symbol_longer_than_limit_is_rejected() {
    assert_eq!(
        kale::values::symbol_value(&[b'a'; 33]),
        Err(CoreError::SymbolTooLong)
    );
    assert!(kale::values::symbol_value(&[b'a'; 32]).is_ok());
}
