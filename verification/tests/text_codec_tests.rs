//! Base64 and hex text codec tests, cross-checked against independent
//! implementations.
use base64::Engine;
use kale::base64::{decode_base64, encode_base64};
use kale::errors::CoreError;
use kale::hex::encode_hex;

#[test]
fn base64_matches_external_implementation() {
    let samples: Vec<Vec<u8>> = vec![
        vec![],
        vec![0],
        vec![255],
        vec![1, 2],
        vec![1, 2, 3],
        vec![1, 2, 3, 4],
        vec![1, 2, 3, 4, 5],
        (0..=255).collect(),
    ];
    for s in samples {
        let ours = encode_base64(s.as_slice());
        let theirs = base64::engine::general_purpose::STANDARD.encode(&s);
        assert_eq!(ours, theirs.as_bytes().to_vec());
        assert_eq!(decode_base64(ours.as_slice()), Ok(s));
    }
}

#[test]
fn base64_rejects_bad_text() {
    assert_eq!(
        decode_base64(b"abc"),
        Err(CoreError::MalformedValue),
        "ragged length"
    );
    assert_eq!(
        decode_base64(b"a%=="),
        Err(CoreError::MalformedValue),
        "foreign character"
    );
    assert_eq!(
        decode_base64(b"ab=c"),
        Err(CoreError::MalformedValue),
        "padding in the middle"
    );
    // 'B' carries nonzero unused bits for a single-byte final group.
    assert_eq!(
        decode_base64(b"aB=="),
        Err(CoreError::MalformedValue),
        "nonzero trailing bits"
    );
}

#[test]
fn hex_matches_external_implementation() {
    let samples: Vec<Vec<u8>> = vec![vec![], vec![0], vec![0xAB, 0xCD, 0xEF], (0..=255).collect()];
    for s in samples {
        let ours = encode_hex(s.as_slice());
        let theirs = hex::encode(&s);
        assert_eq!(ours, theirs.as_bytes().to_vec());
    }
}

#[test]
fn api_text_helpers_render_expected_strings() {
    let addr = kale::address::Address::Account([11u8; 32].to_vec());
    let text = kale::api::address_text(&addr);
    let reference =
        stellar_strkey::Strkey::PublicKeyEd25519(stellar_strkey::ed25519::PublicKey([11u8; 32]))
            .to_string();
    assert_eq!(text.as_str(), reference.as_str());

    let h = kale::api::hex_text(&[0xDE, 0xAD, 0xBE, 0xEF]);
    assert_eq!(h, "deadbeef");
}

#[test]
fn response_shapes_carry_domain_records() {
    let info = kale::storage::BlockInfo { block_index: 9, entropy: Some(vec![0xAB; 32]) };
    let resp = kale::api::block_info_response(&info);
    assert_eq!(resp.block_index, 9);
    assert_eq!(resp.entropy, Some("ab".repeat(32)));

    let rec = kale::storage::StakeRecord { exists: true, zeros: Some(4) };
    let p = kale::api::pail_data_response(&rec);
    assert!(p.has_pail && p.has_worked);
    assert_eq!(p.leading_zeros, 4);

    let none_rec = kale::storage::StakeRecord { exists: true, zeros: None };
    let p2 = kale::api::pail_data_response(&none_rec);
    assert!(p2.has_pail && !p2.has_worked);
    assert_eq!(p2.leading_zeros, 0);

    let st = kale::api::account_status_response(Some(55), true);
    assert!(st.exists && st.has_trustline);
    assert_eq!(st.xlm_balance, 55);
    let st2 = kale::api::account_status_response(None, false);
    assert!(!st2.exists && !st2.has_trustline);
    assert_eq!(st2.xlm_balance, 0);
}
