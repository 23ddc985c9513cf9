//! Strkey parse/format tests, including the parse-after-format law on
//! concrete keys and cross-checks against an independent implementation.
use kale::address::{parse, Address};
use kale::errors::CoreError;

const CONTRACT_TEXT: &str = "CDSWUUXGPWDZG76ISK6SUCVPZJMD5YUV66J2FXFXFGDX25XKZJIEITAO";
const ISSUER_TEXT: &str = "GCHPTWXMT3HYF4RLZHWBNRF4MPXLTJ76ISHMSYIWCCDXWUYOQG5MR2AB";

#[test]
fn parse_known_contract() {
    let a = parse(CONTRACT_TEXT.as_bytes()).expect("contract key parses");
    match &a {
        Address::Contract(raw) => {
            let reference = match stellar_strkey::Strkey::from_string(CONTRACT_TEXT).unwrap() {
                stellar_strkey::Strkey::Contract(c) => c.0,
                other => panic!("unexpected kind {other:?}"),
            };
            assert_eq!(raw.as_slice(), reference.as_slice());
        }
        Address::Account(_) => panic!("wrong kind"),
    }
    assert_eq!(kale::address::format(&a), CONTRACT_TEXT.as_bytes().to_vec());
}

#[test]
fn parse_known_account() {
    let a = parse(ISSUER_TEXT.as_bytes()).expect("account key parses");
    match &a {
        Address::Account(raw) => {
            let reference = match stellar_strkey::Strkey::from_string(ISSUER_TEXT).unwrap() {
                stellar_strkey::Strkey::PublicKeyEd25519(pk) => pk.0,
                other => panic!("unexpected kind {other:?}"),
            };
            assert_eq!(raw.as_slice(), reference.as_slice());
        }
        Address::Contract(_) => panic!("wrong kind"),
    }
    assert_eq!(kale::address::format(&a), ISSUER_TEXT.as_bytes().to_vec());
}

#[test]
fn format_matches_external_implementation() {
    let raw = [13u8; 32];
    let ours = kale::address::format(&Address::Account(raw.to_vec()));
    let theirs = stellar_strkey::Strkey::PublicKeyEd25519(stellar_strkey::ed25519::PublicKey(raw))
        .to_string();
    assert_eq!(ours, theirs.as_bytes().to_vec());

    let ours_c = kale::address::format(&Address::Contract(raw.to_vec()));
    let theirs_c = stellar_strkey::Strkey::Contract(stellar_strkey::Contract(raw)).to_string();
    assert_eq!(ours_c, theirs_c.as_bytes().to_vec());
}

#[test]
fn parse_after_format_round_trips() {
    for fill in [0u8, 1, 17, 255] {
        let account = Address::Account(vec![fill; 32]);
        assert_eq!(parse(kale::address::format(&account).as_slice()), Ok(account));
        let contract = Address::Contract(vec![fill; 32]);
        assert_eq!(parse(kale::address::format(&contract).as_slice()), Ok(contract));
    }
}

#[test]
fn corrupt_checksum_is_invalid() {
    let mut text = CONTRACT_TEXT.as_bytes().to_vec();
    let last = text.len() - 1;
    text[last] = if text[last] == b'A' { b'B' } else { b'A' };
    assert_eq!(parse(text.as_slice()), Err(CoreError::InvalidAddressFormat));
}

#[test]
fn foreign_characters_are_invalid() {
    let mut text = CONTRACT_TEXT.as_bytes().to_vec();
    text[10] = b'1';
    assert_eq!(parse(text.as_slice()), Err(CoreError::InvalidAddressFormat));
    text[10] = b'?';
    assert_eq!(parse(text.as_slice()), Err(CoreError::InvalidAddressFormat));
}

#[test]
fn wrong_length_is_invalid() {
    assert_eq!(parse(b""), Err(CoreError::InvalidAddressFormat));
    assert_eq!(parse(b"GABC"), Err(CoreError::InvalidAddressFormat));
    let mut text = ISSUER_TEXT.as_bytes().to_vec();
    text.pop();
    assert_eq!(parse(text.as_slice()), Err(CoreError::InvalidAddressFormat));
}

#[test]
fn other_key_kinds_are_unsupported() {
    let pre_auth = stellar_strkey::Strkey::PreAuthTx(stellar_strkey::PreAuthTx([5u8; 32]))
        .to_string();
    assert_eq!(
        parse(pre_auth.as_bytes()),
        Err(CoreError::UnsupportedAddressKind)
    );
    let muxed = stellar_strkey::Strkey::MuxedAccountEd25519(stellar_strkey::ed25519::MuxedAccount {
        ed25519: [5u8; 32],
        id: 7,
    })
    .to_string();
    assert_eq!(
        parse(muxed.as_bytes()),
        Err(CoreError::UnsupportedAddressKind)
    );
}
