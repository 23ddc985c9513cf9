//! Canonical ledger lookup keys and their wire encoding.
//!
//! Two keys built from equal logical inputs serialize to identical bytes,
//! which is what makes remote lookups hit the intended slot: the encoder's
//! contract pins the bytes as a function of the key value alone.
use vstd::prelude::*;

use crate::address::Address;
use crate::bytesutil::{be32, push_be32, push_slice, push_zeros, zeros};
use crate::codec::{enc_addr, enc_value, encode_into};
use crate::errors::CoreError;
use crate::values::{list_model, value_model, wf_model, EncodedValue, ValueModel};

verus! {

/// How long the ledger keeps the slot.
#[derive(Debug, Clone, Copy, PartialEq, Eq)]
pub enum Durability {
    Temporary,
    Persistent,
}

/// A storage-slot address on the remote ledger.
#[derive(Debug, PartialEq, Eq)]
pub enum LedgerKey {
    /// A contract's storage entry: the instance slot or a keyed record.
    ContractData { contract: Address, key: EncodedValue, durability: Durability },
    /// An account's trustline for an issued asset.
    Trustline { account: Vec<u8>, asset_code: Vec<u8>, issuer: Vec<u8> },
}

pub const KEY_KIND_TRUSTLINE: u32 = 1;

pub const KEY_KIND_CONTRACT_DATA: u32 = 6;

/// The wire word of a durability class.
pub open spec fn durability_word(d: Durability) -> u32 {
    match d {
        Durability::Temporary => 0,
        Durability::Persistent => 1,
    }
}

/// Validity of a key's parts.
pub open spec fn wf_key(k: LedgerKey) -> bool {
    match k {
        LedgerKey::ContractData { contract, key, durability } => contract.wf() && wf_model(
            value_model(key),
        ),
        LedgerKey::Trustline { account, asset_code, issuer } => account@.len() == 32 && issuer@.len()
            == 32 && 0 < asset_code@.len() <= 12,
    }
}

/// A trustline asset: the short or long alphanumeric form, chosen by code
/// length, with the code right-padded with zero bytes.
pub open spec fn enc_trustline_asset(code: Seq<u8>, issuer: Seq<u8>) -> Seq<u8> {
    if code.len() <= 4 {
        be32(1) + code + zeros(4 - code.len()) + be32(0) + issuer
    } else {
        be32(2) + code + zeros(12 - code.len()) + be32(0) + issuer
    }
}

/// The wire bytes of a ledger key.
pub open spec fn enc_ledger_key(k: LedgerKey) -> Seq<u8> {
    match k {
        LedgerKey::ContractData { contract, key, durability } => be32(KEY_KIND_CONTRACT_DATA)
            + enc_addr(contract@) + enc_value(value_model(key)) + be32(durability_word(durability)),
        LedgerKey::Trustline { account, asset_code, issuer } => be32(KEY_KIND_TRUSTLINE) + be32(0)
            + account@ + enc_trustline_asset(asset_code@, issuer@),
    }
}

/// Serializes a ledger key to its exact wire bytes.
pub fn encode_ledger_key(k: &LedgerKey) -> (r: Vec<u8>)
    requires
        wf_key(*k),
    ensures
        r@ == enc_ledger_key(*k),
{
    let mut out: Vec<u8> = Vec::new();
    match k {
        LedgerKey::ContractData { contract, key, durability } => {
            push_be32(&mut out, KEY_KIND_CONTRACT_DATA);
            match contract {
                Address::Account(b) => {
                    push_be32(&mut out, crate::codec::ADDR_KIND_ACCOUNT);
                    push_be32(&mut out, 0);
                    push_slice(&mut out, b.as_slice());
                }
                Address::Contract(b) => {
                    push_be32(&mut out, crate::codec::ADDR_KIND_CONTRACT);
                    push_slice(&mut out, b.as_slice());
                }
            }
            encode_into(key, &mut out);
            match durability {
                Durability::Temporary => push_be32(&mut out, 0),
                Durability::Persistent => push_be32(&mut out, 1),
            }
            assert(out@ =~= enc_ledger_key(*k));
        }
        LedgerKey::Trustline { account, asset_code, issuer } => {
            push_be32(&mut out, KEY_KIND_TRUSTLINE);
            push_be32(&mut out, 0);
            push_slice(&mut out, account.as_slice());
            if asset_code.len() <= 4 {
                push_be32(&mut out, 1);
                push_slice(&mut out, asset_code.as_slice());
                push_zeros(&mut out, 4 - asset_code.len());
            } else {
                push_be32(&mut out, 2);
                push_slice(&mut out, asset_code.as_slice());
                push_zeros(&mut out, 12 - asset_code.len());
            }
            push_be32(&mut out, 0);
            push_slice(&mut out, issuer.as_slice());
            assert(out@ =~= enc_ledger_key(*k));
        }
    }
    out
}

/// The fixed sentinel key of a contract's configuration/instance slot.
pub fn instance_key(contract: Address) -> (r: LedgerKey)
    requires
        contract.wf(),
    ensures
        r == (LedgerKey::ContractData {
            contract,
            key: EncodedValue::InstanceMarker,
            durability: Durability::Persistent,
        }),
        wf_key(r),
{
    LedgerKey::ContractData {
        contract,
        key: EncodedValue::InstanceMarker,
        durability: Durability::Persistent,
    }
}

/// A keyed temporary record: the payload is the namespace symbol followed
/// by the extra fields, wrapped as one sequence value.
pub fn temporary_key(contract: Address, namespace: &[u8], extra: Vec<EncodedValue>) -> (r: Result<
    LedgerKey,
    CoreError,
>)
    requires
        contract.wf(),
        extra@.len() < u32::MAX,
        forall|i: int| 0 <= i < extra@.len() ==> wf_model(value_model(#[trigger] extra@[i])),
    ensures
        namespace@.len() > 32 ==> r == Err::<LedgerKey, _>(CoreError::SymbolTooLong),
        namespace@.len() <= 32 ==> (r matches Ok(k) && k matches LedgerKey::ContractData {
            contract: c,
            key,
            durability,
        } && c == contract && durability == Durability::Temporary && value_model(key)
            == ValueModel::Sequence(
            Option::Some(seq![ValueModel::Symbol(namespace@)] + list_model(extra@)),
        ) && wf_key(k)),
{
    if namespace.len() > 32 {
        return Err(CoreError::SymbolTooLong);
    }
    let ghost extra0 = extra@;
    let mut fields: Vec<EncodedValue> = Vec::new();
    let sym = vstd::slice::slice_to_vec(namespace);
    fields.push(EncodedValue::Symbol(sym));
    let mut extra = extra;
    fields.append(&mut extra);
    proof {
        crate::values::lemma_list_model_len(fields@);
        crate::values::lemma_list_model_len(extra0);
        assert(fields@.len() == 1 + extra0.len());
        assert(fields@[0] == EncodedValue::Symbol(sym));
        assert(forall|i: int| 0 <= i < extra0.len() ==> fields@[i + 1] == #[trigger] extra0[i]);
        let target = seq![ValueModel::Symbol(namespace@)] + list_model(extra0);
        assert forall|i: int| 0 <= i < fields@.len() implies list_model(fields@)[i]
            == target[i] by {
            assert(list_model(fields@)[i] == value_model(fields@[i]));
            if i == 0 {
                assert(fields@[0] == EncodedValue::Symbol(sym));
            } else {
                assert(fields@[i] == extra0[i - 1]);
                assert(list_model(extra0)[i - 1] == value_model(extra0[i - 1]));
            }
        }
        assert(list_model(fields@) =~= target);
        let ms = list_model(fields@);
        assert forall|i: int| 0 <= i < ms.len() implies wf_model(#[trigger] ms[i]) by {
            if i == 0 {
                assert(ms[0] == ValueModel::Symbol(namespace@));
            } else {
                assert(ms[i] == value_model(extra0[i - 1]));
            }
        }
        assert(wf_model(ValueModel::Sequence(Option::Some(ms))));
    }
    let k = LedgerKey::ContractData {
        contract,
        key: EncodedValue::Sequence(Some(fields)),
        durability: Durability::Temporary,
    };
    Ok(k)
}

/// The trustline slot of an account for an issued asset.
///
/// Both the holder and the issuer must be plain account keys.
pub fn trustline_key(account: Address, asset_code: &[u8], issuer: Address) -> (r: Result<
    LedgerKey,
    CoreError,
>)
    requires
        account.wf(),
        issuer.wf(),
        0 < asset_code@.len() <= 12,
    ensures
        (account matches Address::Contract(_) || issuer matches Address::Contract(_)) ==> r == Err::<
            LedgerKey,
            _,
        >(CoreError::UnsupportedAddressKind),
        (account matches Address::Account(_) && issuer matches Address::Account(_)) ==> (r matches
            Ok(k) && k matches LedgerKey::Trustline { account: a2, asset_code: c2, issuer: i2 }
            && a2@ == account.raw() && c2@ == asset_code@ && i2@ == issuer.raw() && wf_key(k)),
{
    let acct = match account {
        Address::Account(b) => b,
        Address::Contract(_) => {
            return Err(CoreError::UnsupportedAddressKind);
        }
    };
    let iss = match issuer {
        Address::Account(b) => b,
        Address::Contract(_) => {
            return Err(CoreError::UnsupportedAddressKind);
        }
    };
    let code = vstd::slice::slice_to_vec(asset_code);
    Ok(LedgerKey::Trustline { account: acct, asset_code: code, issuer: iss })
}

} // verus!
