//! The request/response shapes of the HTTP boundary, and the glue that
//! turns domain records into them.
//!
//! These types hold plain values only; the serving layer owns its own
//! serializable copies and converts.  The helpers here also assemble the
//! contract-call arguments and storage keys for each logical action, so
//! the byte-level schema of the remote contract lives in one verified
//! place.
use vstd::prelude::*;

use crate::address::{lemma_b32_ascii, Address};
use crate::base64::{b64_enc, lemma_b64_ascii};
use crate::errors::CoreError;
use crate::hex::{encode_hex, hex_of, lemma_hex_ascii};
use crate::keys::{temporary_key, LedgerKey};
use crate::storage::{BlockInfo, StakeRecord};
use crate::txbuild::{enc_envelope, encode_envelope, wf_tx, Transaction};
use crate::values::{list_model, value_model, wf_model, EncodedValue, ValueModel};

verus! {

#[derive(Debug, PartialEq, Eq)]
pub struct PubkeyResponse {
    pub pubkey: Option<String>,
    pub error: Option<String>,
}

#[derive(Debug, PartialEq, Eq)]
pub struct PlantPrepareRequest {
    pub public_key: String,
    pub amount: String,
}

#[derive(Debug, PartialEq, Eq)]
pub struct PlantPrepareResponse {
    pub xdr: String,
    pub network: String,
}

#[derive(Debug, PartialEq, Eq)]
pub struct PlantSubmitRequest {
    pub signed_xdr: String,
}

#[derive(Debug, PartialEq, Eq)]
pub struct PlantSubmitResponse {
    pub hash: String,
}

#[derive(Debug, PartialEq, Eq)]
pub struct ErrorResponse {
    pub error: String,
}

#[derive(Debug, PartialEq, Eq)]
pub struct CheckPlantedRequest {
    pub public_key: String,
}

#[derive(Debug, PartialEq, Eq)]
pub struct CheckPlantedResponse {
    pub has_planted: bool,
}

#[derive(Debug, PartialEq, Eq)]
pub struct BlockInfoResponse {
    pub block_index: u32,
    pub entropy: Option<String>,
}

#[derive(Debug, PartialEq, Eq)]
pub struct WorkPrepareRequest {
    pub public_key: String,
    pub nonce: String,
}

#[derive(Debug, PartialEq, Eq)]
pub struct WorkPrepareResponse {
    pub xdr: String,
    pub network: String,
}

#[derive(Debug, PartialEq, Eq)]
pub struct WorkSubmitRequest {
    pub signed_xdr: String,
}

#[derive(Debug, PartialEq, Eq)]
pub struct WorkSubmitResponse {
    pub hash: String,
}

#[derive(Debug, PartialEq, Eq)]
pub struct PailDataRequest {
    pub public_key: String,
    pub block_index: u32,
}

#[derive(Debug, PartialEq, Eq)]
pub struct PailDataResponse {
    pub has_pail: bool,
    pub has_worked: bool,
    pub leading_zeros: u32,
}

#[derive(Debug, PartialEq, Eq)]
pub struct HarvestPrepareRequest {
    pub public_key: String,
    pub block_index: u32,
}

#[derive(Debug, PartialEq, Eq)]
pub struct HarvestPrepareResponse {
    pub xdr: String,
    pub network: String,
}

#[derive(Debug, PartialEq, Eq)]
pub struct HarvestSubmitRequest {
    pub signed_xdr: String,
}

#[derive(Debug, PartialEq, Eq)]
pub struct HarvestSubmitResponse {
    pub hash: String,
}

#[derive(Debug, PartialEq, Eq)]
pub struct AccountStatusRequest {
    pub public_key: String,
}

#[derive(Debug, PartialEq, Eq)]
pub struct AccountStatusResponse {
    pub exists: bool,
    pub xlm_balance: i64,
    pub has_trustline: bool,
}

#[derive(Debug, PartialEq, Eq)]
pub struct FundAccountRequest {
    pub public_key: String,
}

#[derive(Debug, PartialEq, Eq)]
pub struct FundAccountResponse {
    pub success: bool,
}

#[derive(Debug, PartialEq, Eq)]
pub struct TrustlinePrepareRequest {
    pub public_key: String,
}

#[derive(Debug, PartialEq, Eq)]
pub struct TrustlinePrepareResponse {
    pub xdr: String,
    pub network: String,
}

#[derive(Debug, PartialEq, Eq)]
pub struct TrustlineSubmitRequest {
    pub signed_xdr: String,
}

#[derive(Debug, PartialEq, Eq)]
pub struct TrustlineSubmitResponse {
    pub hash: String,
}

#[derive(Debug, PartialEq, Eq)]
pub struct AllFarmersRequest {
    pub block_index: u32,
    pub farmer_addresses: Vec<String>,
}

#[derive(Debug, PartialEq, Eq)]
pub struct FarmerPailInfo {
    pub farmer_address: String,
    pub has_pail: bool,
    pub has_worked: bool,
    pub leading_zeros: u32,
}

#[derive(Debug, PartialEq, Eq)]
pub struct AllFarmersResponse {
    pub farmers: Vec<FarmerPailInfo>,
}

/// Relies on String::from_utf8: ASCII bytes are valid UTF-8 and convert to
/// the same sequence of characters.
#[verifier::external_body]
fn ascii_string(bytes: &[u8]) -> (r: String)
    requires
        forall|i: int| 0 <= i < bytes@.len() ==> bytes@[i] < 128,
    ensures
        r@.len() == bytes@.len(),
        forall|i: int| 0 <= i < bytes@.len() ==> r@[i] == bytes@[i] as char,
{
    String::from_utf8(bytes.to_vec()).unwrap_or_default()
}

/// The strkey text of an address, as a string.
pub fn address_text(a: &Address) -> (r: String)
    requires
        a.wf(),
    ensures
        r@.len() == 56,
        forall|i: int|
            0 <= i < 56 ==> r@[i] == crate::address::strkey_text(a@)[i] as char,
{
    let bytes = crate::address::format(a);
    proof {
        lemma_b32_ascii(crate::address::strkey_payload(a@) + seq![
            crate::address::crc_lo(crate::address::crc16(crate::address::strkey_payload(a@))),
            crate::address::crc_hi(crate::address::crc16(crate::address::strkey_payload(a@))),
        ]);
    }
    ascii_string(bytes.as_slice())
}

/// The base64 text of an unsigned envelope, as a string.
pub fn envelope_text(t: &Transaction) -> (r: String)
    requires
        wf_tx(t@),
    ensures
        r@.len() == b64_enc(enc_envelope(t@)).len(),
        forall|i: int|
            0 <= i < r@.len() ==> r@[i] == b64_enc(enc_envelope(t@))[i] as char,
{
    let bytes = encode_envelope(t);
    let b64 = crate::base64::encode_base64(bytes.as_slice());
    proof {
        lemma_b64_ascii(enc_envelope(t@));
    }
    ascii_string(b64.as_slice())
}

/// The lowercase hex text of a byte string, as a string.
pub fn hex_text(bytes: &[u8]) -> (r: String)
    ensures
        r@.len() == 2 * bytes@.len(),
        forall|i: int| 0 <= i < r@.len() ==> r@[i] == hex_of(bytes@)[i] as char,
{
    let h = encode_hex(bytes);
    proof {
        lemma_hex_ascii(bytes@);
    }
    ascii_string(h.as_slice())
}

/// The argument list of a staking call: the participant and the amount.
pub fn build_plant_args(farmer: &Address, amount: i128) -> (r: Vec<EncodedValue>)
    requires
        farmer.wf(),
    ensures
        list_model(r@).len() == 2,
        list_model(r@)[0] == ValueModel::AddressVal(farmer@),
        (list_model(r@)[1] matches ValueModel::I128 { hi, lo } && hi * 0x1_0000_0000_0000_0000 + lo
            == amount as int),
        forall|i: int| 0 <= i < r@.len() ==> wf_model(value_model(#[trigger] r@[i])),
{
    let mut args: Vec<EncodedValue> = Vec::new();
    args.push(EncodedValue::AddressVal(crate::address::clone_address(farmer)));
    args.push(crate::values::i128_value(amount));
    proof {
        crate::values::lemma_list_model_len(args@);
        assert(list_model(args@)[0] == value_model(args@[0]));
        assert(list_model(args@)[1] == value_model(args@[1]));
    }
    args
}

/// The argument list of a proof submission: participant, digest, nonce.
pub fn build_work_args(farmer: &Address, digest: Vec<u8>, nonce: u64) -> (r: Vec<EncodedValue>)
    requires
        farmer.wf(),
        digest@.len() == 32,
    ensures
        list_model(r@).len() == 3,
        list_model(r@)[0] == ValueModel::AddressVal(farmer@),
        list_model(r@)[1] == ValueModel::Bytes(digest@),
        list_model(r@)[2] == ValueModel::U64(nonce),
        forall|i: int| 0 <= i < r@.len() ==> wf_model(value_model(#[trigger] r@[i])),
{
    let mut args: Vec<EncodedValue> = Vec::new();
    args.push(EncodedValue::AddressVal(crate::address::clone_address(farmer)));
    args.push(EncodedValue::Bytes(digest));
    args.push(EncodedValue::U64(nonce));
    proof {
        crate::values::lemma_list_model_len(args@);
        assert(list_model(args@)[0] == value_model(args@[0]));
        assert(list_model(args@)[1] == value_model(args@[1]));
        assert(list_model(args@)[2] == value_model(args@[2]));
    }
    args
}

/// The argument list of a reward claim: participant and block index.
pub fn build_harvest_args(farmer: &Address, block_index: u32) -> (r: Vec<EncodedValue>)
    requires
        farmer.wf(),
    ensures
        list_model(r@).len() == 2,
        list_model(r@)[0] == ValueModel::AddressVal(farmer@),
        list_model(r@)[1] == ValueModel::U32(block_index),
        forall|i: int| 0 <= i < r@.len() ==> wf_model(value_model(#[trigger] r@[i])),
{
    let mut args: Vec<EncodedValue> = Vec::new();
    args.push(EncodedValue::AddressVal(crate::address::clone_address(farmer)));
    args.push(EncodedValue::U32(block_index));
    proof {
        crate::values::lemma_list_model_len(args@);
        assert(list_model(args@)[0] == value_model(args@[0]));
        assert(list_model(args@)[1] == value_model(args@[1]));
    }
    args
}

/// The stake-record namespace symbol.
pub open spec fn pail_namespace() -> Seq<u8> {
    seq![80u8, 97, 105, 108]
}

/// The block-record namespace symbol.
pub open spec fn block_namespace() -> Seq<u8> {
    seq![66u8, 108, 111, 99, 107]
}

/// The temporary-storage key of a participant's stake record for a block.
pub fn pail_key(contract: Address, farmer: &Address, block_index: u32) -> (r: LedgerKey)
    requires
        contract.wf(),
        farmer.wf(),
    ensures
        (r matches LedgerKey::ContractData { contract: c, key, durability } && c == contract
            && durability == crate::keys::Durability::Temporary && value_model(key)
            == ValueModel::Sequence(
            Option::Some(
                seq![
                    ValueModel::Symbol(pail_namespace()),
                    ValueModel::AddressVal(farmer@),
                    ValueModel::U32(block_index),
                ],
            ),
        ) && crate::keys::wf_key(r)),
{
    let ns: Vec<u8> = vec![80u8, 97, 105, 108];
    let mut extra: Vec<EncodedValue> = Vec::new();
    extra.push(EncodedValue::AddressVal(crate::address::clone_address(farmer)));
    extra.push(EncodedValue::U32(block_index));
    proof {
        crate::values::lemma_list_model_len(extra@);
        assert(list_model(extra@)[0] == value_model(extra@[0]));
        assert(list_model(extra@)[1] == value_model(extra@[1]));
        assert(ns@ =~= pail_namespace());
    }
    let r = temporary_key(contract, ns.as_slice(), extra);
    match r {
        Ok(k) => {
            proof {
                assert(seq![ValueModel::Symbol(pail_namespace())] + list_model(extra@) =~= seq![
                    ValueModel::Symbol(pail_namespace()),
                    ValueModel::AddressVal(farmer@),
                    ValueModel::U32(block_index),
                ]);
            }
            k
        }
        Err(_) => {
            proof {
                assert(false);
            }
            LedgerKey::ContractData {
                contract: Address::Contract(Vec::new()),
                key: EncodedValue::InstanceMarker,
                durability: crate::keys::Durability::Temporary,
            }
        }
    }
}

/// The temporary-storage key of a block's record.
pub fn block_key(contract: Address, block_index: u32) -> (r: LedgerKey)
    requires
        contract.wf(),
    ensures
        (r matches LedgerKey::ContractData { contract: c, key, durability } && c == contract
            && durability == crate::keys::Durability::Temporary && value_model(key)
            == ValueModel::Sequence(
            Option::Some(
                seq![ValueModel::Symbol(block_namespace()), ValueModel::U32(block_index)],
            ),
        ) && crate::keys::wf_key(r)),
{
    let ns: Vec<u8> = vec![66u8, 108, 111, 99, 107];
    let mut extra: Vec<EncodedValue> = Vec::new();
    extra.push(EncodedValue::U32(block_index));
    proof {
        crate::values::lemma_list_model_len(extra@);
        assert(list_model(extra@)[0] == value_model(extra@[0]));
        assert(ns@ =~= block_namespace());
    }
    let r = temporary_key(contract, ns.as_slice(), extra);
    match r {
        Ok(k) => {
            proof {
                assert(seq![ValueModel::Symbol(block_namespace())] + list_model(extra@) =~= seq![
                    ValueModel::Symbol(block_namespace()),
                    ValueModel::U32(block_index),
                ]);
            }
            k
        }
        Err(_) => {
            proof {
                assert(false);
            }
            LedgerKey::ContractData {
                contract: Address::Contract(Vec::new()),
                key: EncodedValue::InstanceMarker,
                durability: crate::keys::Durability::Temporary,
            }
        }
    }
}

/// The response shape of a block-info query: the entropy rendered as hex.
pub fn block_info_response(info: &BlockInfo) -> (r: BlockInfoResponse)
    ensures
        r.block_index == info.block_index,
        (info.entropy is None ==> r.entropy is None),
        (info.entropy matches Some(e) ==> (r.entropy matches Some(h) && h@.len() == 2 * e@.len()
            && (forall|i: int| 0 <= i < h@.len() ==> h@[i] == hex_of(e@)[i] as char))),
{
    let entropy = match &info.entropy {
        None => None,
        Some(e) => Some(hex_text(e.as_slice())),
    };
    BlockInfoResponse { block_index: info.block_index, entropy }
}

/// The response shape of a stake-record query.
pub fn pail_data_response(rec: &StakeRecord) -> (r: PailDataResponse)
    ensures
        r.has_pail == rec.exists,
        r.has_worked == (rec.zeros is Some),
        (rec.zeros matches Some(z) ==> r.leading_zeros == z),
        (rec.zeros is None ==> r.leading_zeros == 0),
{
    PailDataResponse {
        has_pail: rec.exists,
        has_worked: match rec.zeros {
            Some(_) => true,
            None => false,
        },
        leading_zeros: match rec.zeros {
            Some(z) => z,
            None => 0,
        },
    }
}

/// The response shape of an account-status query: an absent balance means
/// the account does not exist and reports zero.
pub fn account_status_response(xlm_balance: Option<i64>, has_trustline: bool) -> (r:
    AccountStatusResponse)
    ensures
        r.exists == (xlm_balance is Some),
        (xlm_balance matches Some(b) ==> r.xlm_balance == b),
        (xlm_balance is None ==> r.xlm_balance == 0),
        r.has_trustline == has_trustline,
{
    match xlm_balance {
        Some(b) => AccountStatusResponse { exists: true, xlm_balance: b, has_trustline },
        None => AccountStatusResponse { exists: false, xlm_balance: 0, has_trustline },
    }
}

} // verus!
