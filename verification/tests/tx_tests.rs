//! Draft assembly, simulation application, and envelope codec tests,
//! including the end-to-end preparation scenario and cross-checks of the
//! envelope bytes against an independent implementation.
use base64::Engine;
use kale::address::Address;
use kale::errors::CoreError;
use kale::simulate::{apply, SimulationOutcome};
use kale::txbuild::{
    build_draft, build_trustline_draft, decode_auth_entry, decode_envelope, encode_envelope,
    AuthEntry, AuthInvocation, Credentials, OpBody, Transaction,
};
use kale::values::EncodedValue;

use stellar_xdr::ReadXdr;
use stellar_xdr::{
    AccountId, ContractId, InvokeContractArgs, InvokeHostFunctionOp, Limits, Memo,
    MuxedAccount, Operation, OperationBody, Preconditions, PublicKey, ScAddress, ScBytes, ScSymbol,
    ScVal, SequenceNumber, SorobanAuthorizationEntry, SorobanAuthorizedFunction,
    SorobanAuthorizedInvocation, SorobanCredentials, SorobanResources, SorobanTransactionData,
    SorobanTransactionDataExt, TransactionEnvelope, TransactionExt, TransactionV1Envelope, Uint256,
    WriteXdr,
};

const SOURCE_RAW: [u8; 32] = [11u8; 32];
const CONTRACT_RAW: [u8; 32] = [22u8; 32];

fn source() -> Address {
    Address::Account(SOURCE_RAW.to_vec())
}

fn contract() -> Address {
    Address::Contract(CONTRACT_RAW.to_vec())
}

fn b64(bytes: &[u8]) -> Vec<u8> {
    base64::engine::general_purpose::STANDARD
        .encode(bytes)
        .into_bytes()
}

fn sample_resource_blob() -> Vec<u8> {
    SorobanTransactionData {
        ext: SorobanTransactionDataExt::V0,
        resources: SorobanResources {
            footprint: stellar_xdr::LedgerFootprint {
                read_only: Vec::new().try_into().unwrap(),
                read_write: Vec::new().try_into().unwrap(),
            },
            instructions: 1000,
            disk_read_bytes: 64,
            write_bytes: 32,
        },
        resource_fee: 500,
    }
    .to_xdr(Limits::none())
    .unwrap()
}

fn sample_auth_entry_bytes() -> Vec<u8> {
    SorobanAuthorizationEntry {
        credentials: SorobanCredentials::SourceAccount,
        root_invocation: SorobanAuthorizedInvocation {
            function: SorobanAuthorizedFunction::ContractFn(InvokeContractArgs {
                contract_address: ScAddress::Contract(ContractId(stellar_xdr::Hash(CONTRACT_RAW))),
                function_name: ScSymbol("work".try_into().unwrap()),
                args: vec![ScVal::U32(5)].try_into().unwrap(),
            }),
            sub_invocations: Vec::new().try_into().unwrap(),
        },
    }
    .to_xdr(Limits::none())
    .unwrap()
}

#[test]
fn build_draft_sets_sequence_fee_and_empty_auth() {
    let t = build_draft(
        &source(),
        &contract(),
        b"plant",
        vec![EncodedValue::U32(5)],
        Some(41),
    )
    .expect("draft builds");
    assert_eq!(t.source, SOURCE_RAW.to_vec());
    assert_eq!(t.fee, 100);
    assert_eq!(t.seq_num, 42);
    assert_eq!(t.ext, None);
    match &t.op {
        OpBody::Invoke { function, args, auth, .. } => {
            assert_eq!(function, &b"plant".to_vec());
            assert_eq!(args.len(), 1);
            assert!(auth.is_empty());
        }
        OpBody::ChangeTrust { .. } => panic!("wrong operation"),
    }
}

#[test]
fn build_draft_errors() {
    assert_eq!(
        build_draft(&source(), &contract(), b"plant", vec![], None),
        Err(CoreError::AccountNotFound)
    );
    assert_eq!(
        build_draft(&contract(), &contract(), b"plant", vec![], Some(1)),
        Err(CoreError::UnsupportedAddressKind)
    );
    assert_eq!(
        build_draft(&source(), &contract(), &[b'x'; 33], vec![], Some(1)),
        Err(CoreError::SymbolTooLong)
    );
}

#[test]
fn draft_is_deterministic() {
    let make = || {
        build_draft(
            &source(),
            &contract(),
            b"plant",
            vec![EncodedValue::U32(5)],
            Some(41),
        )
        .unwrap()
    };
    assert_eq!(encode_envelope(&make()), encode_envelope(&make()));
}

#[test]
fn envelope_bytes_match_external_format() {
    let t = build_draft(
        &source(),
        &contract(),
        b"plant",
        vec![EncodedValue::U32(5)],
        Some(41),
    )
    .unwrap();
    let ours = encode_envelope(&t);

    let theirs = TransactionEnvelope::Tx(TransactionV1Envelope {
        tx: stellar_xdr::Transaction {
            source_account: MuxedAccount::Ed25519(Uint256(SOURCE_RAW)),
            fee: 100,
            seq_num: SequenceNumber(42),
            cond: Preconditions::None,
            memo: Memo::None,
            operations: vec![Operation {
                source_account: None,
                body: OperationBody::InvokeHostFunction(InvokeHostFunctionOp {
                    host_function: stellar_xdr::HostFunction::InvokeContract(InvokeContractArgs {
                        contract_address: ScAddress::Contract(ContractId(stellar_xdr::Hash(CONTRACT_RAW))),
                        function_name: ScSymbol("plant".try_into().unwrap()),
                        args: vec![ScVal::U32(5)].try_into().unwrap(),
                    }),
                    auth: Vec::new().try_into().unwrap(),
                }),
            }]
            .try_into()
            .unwrap(),
            ext: TransactionExt::V0,
        },
        signatures: Vec::new().try_into().unwrap(),
    })
    .to_xdr(Limits::none())
    .unwrap();

    assert_eq!(ours, theirs);
}

#[test]
fn trustline_envelope_bytes_match_external_format() {
    let issuer = Address::Account([33u8; 32].to_vec());
    let t = build_trustline_draft(&source(), b"KALE", &issuer, Some(9)).unwrap();
    let ours = encode_envelope(&t);

    let theirs = TransactionEnvelope::Tx(TransactionV1Envelope {
        tx: stellar_xdr::Transaction {
            source_account: MuxedAccount::Ed25519(Uint256(SOURCE_RAW)),
            fee: 100,
            seq_num: SequenceNumber(10),
            cond: Preconditions::None,
            memo: Memo::None,
            operations: vec![Operation {
                source_account: None,
                body: OperationBody::ChangeTrust(stellar_xdr::ChangeTrustOp {
                    line: stellar_xdr::ChangeTrustAsset::CreditAlphanum4(stellar_xdr::AlphaNum4 {
                        asset_code: stellar_xdr::AssetCode4(*b"KALE"),
                        issuer: AccountId(PublicKey::PublicKeyTypeEd25519(Uint256([33u8; 32]))),
                    }),
                    limit: i64::MAX,
                }),
            }]
            .try_into()
            .unwrap(),
            ext: TransactionExt::V0,
        },
        signatures: Vec::new().try_into().unwrap(),
    })
    .to_xdr(Limits::none())
    .unwrap();

    assert_eq!(ours, theirs);
}

#[test]
fn failed_simulation_is_rejected_and_draft_unchanged() {
    let draft = build_draft(&source(), &contract(), b"work", vec![], Some(1)).unwrap();
    let sim = SimulationOutcome {
        error: Some("x".to_string()),
        auth: vec![],
        transaction_data: b64(&sample_resource_blob()),
        min_resource_fee: 2500,
    };
    let r = apply(&draft, &sim);
    assert_eq!(r, Err(CoreError::SimulationFailed("x".to_string())));
    assert_eq!(draft.fee, 100);
    match &draft.op {
        OpBody::Invoke { auth, .. } => assert!(auth.is_empty()),
        OpBody::ChangeTrust { .. } => panic!("wrong operation"),
    }
    assert_eq!(draft.ext, None);
}

#[test]
fn fee_is_inclusion_fee_plus_resource_fee() {
    let draft = build_draft(&source(), &contract(), b"work", vec![], Some(1)).unwrap();
    let sim = SimulationOutcome {
        error: None,
        auth: vec![],
        transaction_data: b64(&sample_resource_blob()),
        min_resource_fee: 2500,
    };
    let t = apply(&draft, &sim).expect("apply succeeds");
    assert_eq!(t.fee, 2600);
}

#[test]
fn missing_transaction_data_is_rejected() {
    let draft = build_draft(&source(), &contract(), b"work", vec![], Some(1)).unwrap();
    let sim = SimulationOutcome {
        error: None,
        auth: vec![],
        transaction_data: vec![],
        min_resource_fee: 10,
    };
    assert_eq!(
        apply(&draft, &sim),
        Err(CoreError::MissingField("transactionData".to_string()))
    );
}

#[test]
fn undecodable_auth_entry_is_rejected() {
    let draft = build_draft(&source(), &contract(), b"work", vec![], Some(1)).unwrap();
    let sim = SimulationOutcome {
        error: None,
        auth: vec![b"%%%not-base64%%%".to_vec()],
        transaction_data: b64(&sample_resource_blob()),
        min_resource_fee: 10,
    };
    assert_eq!(apply(&draft, &sim), Err(CoreError::MalformedAuthEntry));

    let sim2 = SimulationOutcome {
        error: None,
        auth: vec![b64(b"garbage-that-is-not-an-entry")],
        transaction_data: b64(&sample_resource_blob()),
        min_resource_fee: 10,
    };
    assert_eq!(apply(&draft, &sim2), Err(CoreError::MalformedAuthEntry));
}

#[test]
fn auth_entry_decodes_from_external_encoding() {
    let bytes = sample_auth_entry_bytes();
    let entry = decode_auth_entry(bytes.as_slice()).expect("entry decodes");
    assert_eq!(entry.credentials, Credentials::SourceAccount);
    assert_eq!(entry.root_invocation.function, b"work".to_vec());
    assert_eq!(entry.root_invocation.args, vec![EncodedValue::U32(5)]);
    assert!(entry.root_invocation.sub_invocations.is_empty());
}

#[test]
fn end_to_end_preparation_scenario() {
    let farmer = source();
    let args = vec![
        EncodedValue::AddressVal(Address::Account(SOURCE_RAW.to_vec())),
        EncodedValue::Bytes(vec![0u8; 32]),
        EncodedValue::U64(7),
    ];
    let draft = build_draft(&farmer, &contract(), b"work", args, Some(99)).unwrap();

    let sim = SimulationOutcome {
        error: None,
        auth: vec![b64(&sample_auth_entry_bytes())],
        transaction_data: b64(&sample_resource_blob()),
        min_resource_fee: 500,
    };
    let prepared = apply(&draft, &sim).expect("apply succeeds");
    assert_eq!(prepared.fee, 600);
    match &prepared.op {
        OpBody::Invoke { auth, .. } => {
            assert_eq!(auth.len(), 1);
            assert_eq!(
                auth[0],
                decode_auth_entry(sample_auth_entry_bytes().as_slice()).unwrap()
            );
        }
        OpBody::ChangeTrust { .. } => panic!("wrong operation"),
    }
    assert_eq!(prepared.ext, Some(sample_resource_blob()));

    let bytes = encode_envelope(&prepared);
    let back = decode_envelope(bytes.as_slice()).expect("our envelope decodes");
    assert_eq!(back, prepared);

    // The external implementation accepts the prepared envelope verbatim.
    let parsed = TransactionEnvelope::from_xdr(bytes.as_slice(), Limits::none())
        .expect("external parser accepts the envelope");
    assert_eq!(parsed.to_xdr(Limits::none()).unwrap(), bytes);
}

#[test]
fn envelope_round_trips_without_extension() {
    let t = build_draft(&source(), &contract(), b"plant", vec![EncodedValue::I64(-5)], Some(3))
        .unwrap();
    let bytes = encode_envelope(&t);
    assert_eq!(decode_envelope(bytes.as_slice()), Ok(t));
}

#[test]
fn envelope_round_trips_with_address_credentials() {
    let entry = AuthEntry {
        credentials: Credentials::AddressCreds {
            address: Address::Account([3u8; 32].to_vec()),
            nonce: -12345,
            signature_expiration_ledger: 777,
            signature: EncodedValue::Sequence(Some(vec![])),
        },
        root_invocation: AuthInvocation {
            contract: Address::Contract(CONTRACT_RAW.to_vec()),
            function: b"work".to_vec(),
            args: vec![EncodedValue::U32(1)],
            sub_invocations: vec![AuthInvocation {
                contract: Address::Contract(CONTRACT_RAW.to_vec()),
                function: b"inner".to_vec(),
                args: vec![],
                sub_invocations: vec![],
            }],
        },
    };
    let t = Transaction {
        source: SOURCE_RAW.to_vec(),
        fee: 2600,
        seq_num: 42,
        op: OpBody::Invoke {
            contract: Address::Contract(CONTRACT_RAW.to_vec()),
            function: b"work".to_vec(),
            args: vec![EncodedValue::U32(9)],
            auth: vec![entry],
        },
        ext: Some(sample_resource_blob()),
    };
    let bytes = encode_envelope(&t);
    assert_eq!(decode_envelope(bytes.as_slice()), Ok(t));
}

#[test]
fn trustline_envelope_round_trips() {
    let issuer = Address::Account([33u8; 32].to_vec());
    let t = build_trustline_draft(&source(), b"KALELONGCODE", &issuer, Some(9)).unwrap();
    let bytes = encode_envelope(&t);
    assert_eq!(decode_envelope(bytes.as_slice()), Ok(t));
}
