//! Merging a simulation result into a draft transaction.
//!
//! The applier never mutates the draft it is given: it either fails, leaving
//! every earlier view intact, or produces a new transaction with the
//! simulator's authorization entries, resource specification and fee.
use vstd::prelude::*;

use crate::base64::{b64_dec, decode_base64};
use crate::errors::CoreError;
use crate::txbuild::{
    auth_entry_model, auth_list_model, dec_auth_entry_full, decode_auth_entry, wf_auth_entry,
    wf_tx, AuthEntry, AuthEntryModel, OpBody, OpModel, Transaction, TxModel, BASE_INCLUSION_FEE,
};

verus! {

/// What the remote simulator reported, as plain values.
///
/// Authorization entries and the resource specification arrive as base64
/// text; an empty `transaction_data` means the simulator attached none.
pub struct SimulationOutcome {
    /// The simulator's error message, verbatim, when simulation failed.
    pub error: Option<String>,
    /// Base64 text of each per-operation authorization entry, in order.
    pub auth: Vec<Vec<u8>>,
    /// Base64 text of the opaque resource specification.
    pub transaction_data: Vec<u8>,
    /// The simulator's fee estimate.
    pub min_resource_fee: u64,
}

/// The decoded models of a list of base64 authorization entry texts, or
/// `None` when any of them is undecodable.
pub open spec fn dec_auth_blobs(bs: Seq<Vec<u8>>) -> Option<Seq<AuthEntryModel>>
    decreases bs.len(),
{
    if bs.len() == 0 {
        Option::Some(Seq::empty())
    } else {
        match dec_auth_blobs(bs.drop_last()) {
            Option::None => Option::None,
            Option::Some(front) => match b64_dec(bs.last()@) {
                Option::None => Option::None,
                Option::Some(raw) => match dec_auth_entry_full(raw) {
                    Option::None => Option::None,
                    Option::Some(e) => Option::Some(front.push(e)),
                },
            },
        }
    }
}

/// Merges a successful simulation into a draft, or reports exactly why it
/// cannot be merged.
///
/// On success the new transaction keeps the draft's source, sequence number
/// and invocation, replaces the authorization list with the simulator's
/// entries in order, attaches the opaque resource specification, and sets
/// the fee to the inclusion fee plus the simulator's estimate.  A failed
/// simulation, a missing resource specification, or any undecodable field
/// is an error, and the draft is never altered.
#[verifier::loop_isolation(false)]
#[verifier::spinoff_prover]
#[verifier::rlimit(100)]
pub fn apply(draft: &Transaction, sim: &SimulationOutcome) -> (r: Result<Transaction, CoreError>)
    requires
        wf_tx(draft@),
        draft@.op is Invoke,
        sim.min_resource_fee + BASE_INCLUSION_FEE <= u32::MAX,
        sim.auth@.len() <= u32::MAX,
    ensures
        (sim.error matches Some(m) ==> (r matches Err(e) && e matches CoreError::SimulationFailed(
            msg,
        ) && msg@ == m@)),
        (sim.error is None && sim.transaction_data@.len() == 0 ==> (r matches Err(e) && e matches
            CoreError::MissingField(f) && f@ == "transactionData"@)),
        (sim.error is None && sim.transaction_data@.len() > 0 && b64_dec(sim.transaction_data@)
            is None ==> r == Err::<Transaction, _>(CoreError::MalformedValue)),
        (sim.error is None && sim.transaction_data@.len() > 0 && b64_dec(sim.transaction_data@)
            is Some && dec_auth_blobs(sim.auth@) is None ==> r == Err::<Transaction, _>(
            CoreError::MalformedAuthEntry,
        )),
        (dec_auth_blobs(sim.auth@) matches Some(entries) ==> (b64_dec(sim.transaction_data@)
            matches Some(blob) ==> ((sim.error is None && sim.transaction_data@.len() > 0) ==> (
        r matches Ok(t) && (draft@.op matches OpModel::Invoke { contract, function, args, auth }
            && t@ == (TxModel {
            source: draft@.source,
            fee: (BASE_INCLUSION_FEE + sim.min_resource_fee) as u32,
            seq_num: draft@.seq_num,
            op: OpModel::Invoke { contract, function, args, auth: entries },
            ext: Option::Some(blob),
        })) && wf_tx(t@))))),
{
    match &sim.error {
        Some(m) => {
            let msg = copy_string(m);
            return Err(CoreError::SimulationFailed(msg));
        }
        None => {}
    }
    if sim.transaction_data.len() == 0 {
        return Err(CoreError::MissingField(literal_string("transactionData")));
    }
    let blob = match decode_base64(sim.transaction_data.as_slice()) {
        Ok(b) => b,
        Err(_) => {
            return Err(CoreError::MalformedValue);
        }
    };
    let n = sim.auth.len();
    let mut entries: Vec<AuthEntry> = Vec::new();
    let mut i: usize = 0;
    proof {
        assert(sim.auth@.take(0) =~= Seq::<Vec<u8>>::empty());
        assert(entries@ =~= Seq::<AuthEntry>::empty());
        assert(auth_list_model(entries@) =~= Seq::<AuthEntryModel>::empty());
    }
    while i < n
        invariant
            i <= n,
            n == sim.auth@.len(),
            entries@.len() == i as int,
            dec_auth_blobs(sim.auth@.take(i as int)) == Some(auth_list_model(entries@)),
            forall|j: int|
                0 <= j < entries@.len() ==> wf_auth_entry(
                    auth_entry_model(#[trigger] entries@[j]),
                ),
        decreases n - i,
    {
        let ghost pre = entries@;
        let raw = match decode_base64(sim.auth[i].as_slice()) {
            Ok(b) => b,
            Err(_) => {
                proof {
                    lemma_dec_auth_blobs_extends(sim.auth@, i as int);
                }
                return Err(CoreError::MalformedAuthEntry);
            }
        };
        let entry = match decode_auth_entry(raw.as_slice()) {
            Ok(e) => e,
            Err(_) => {
                proof {
                    lemma_dec_auth_blobs_extends(sim.auth@, i as int);
                }
                return Err(CoreError::MalformedAuthEntry);
            }
        };
        entries.push(entry);
        proof {
            crate::txbuild::lemma_auth_list_model_snoc(pre, entry);
            assert(sim.auth@.take(i + 1).drop_last() =~= sim.auth@.take(i as int));
            assert(sim.auth@.take(i + 1).last() == sim.auth@[i as int]);
        }
        i = i + 1;
    }
    proof {
        assert(sim.auth@.take(n as int) =~= sim.auth@);
    }
    let (contract, function, args) = match &draft.op {
        OpBody::Invoke { contract, function, args, auth: _ } => {
            (
                crate::address::clone_address(contract),
                vstd::slice::slice_to_vec(function.as_slice()),
                crate::values::clone_values(args),
            )
        }
        OpBody::ChangeTrust { .. } => {
            proof {
                assert(false);
            }
            return Err(CoreError::MalformedValue);
        }
    };
    let fee: u32 = BASE_INCLUSION_FEE + (sim.min_resource_fee as u32);
    let t = Transaction {
        source: vstd::slice::slice_to_vec(draft.source.as_slice()),
        fee,
        seq_num: draft.seq_num,
        op: OpBody::Invoke { contract, function, args, auth: entries },
        ext: Some(blob),
    };
    proof {
        if let OpModel::Invoke { contract: c0, function: f0, args: a0, auth: au0 } = draft@.op {
            assert(t@ =~= (TxModel {
                source: draft@.source,
                fee: (BASE_INCLUSION_FEE + sim.min_resource_fee) as u32,
                seq_num: draft@.seq_num,
                op: OpModel::Invoke {
                    contract: c0,
                    function: f0,
                    args: a0,
                    auth: auth_list_model(entries@),
                },
                ext: Option::Some(b64_dec(sim.transaction_data@)->Some_0),
            }));
            crate::txbuild::lemma_auth_list_model_len(entries@);
            assert forall|j: int|
                0 <= j < auth_list_model(entries@).len() implies wf_auth_entry(
                #[trigger] auth_list_model(entries@)[j],
            ) by {
                assert(auth_list_model(entries@)[j] == auth_entry_model(entries@[j]));
            }
        }
    }
    Ok(t)
}

/// A prefix failure dooms the whole list of entry texts.
proof fn lemma_dec_auth_blobs_extends(bs: Seq<Vec<u8>>, i: int)
    requires
        0 <= i < bs.len(),
        (b64_dec(bs[i]@) is None || (b64_dec(bs[i]@) matches Some(raw) && dec_auth_entry_full(raw)
            is None)),
    ensures
        dec_auth_blobs(bs) is None,
    decreases bs.len(),
{
    if bs.len() > 0 {
        if i == bs.len() - 1 {
            assert(bs.last() == bs[i]);
        } else {
            assert(bs.drop_last()[i] == bs[i]);
            lemma_dec_auth_blobs_extends(bs.drop_last(), i);
        }
    }
}

/// Copies a string; the copy has the same characters.
fn copy_string(s: &String) -> (r: String)
    ensures
        r@ == s@,
{
    s.clone()
}

/// A `String` holding the given literal's characters.
fn literal_string(s: &str) -> (r: String)
    ensures
        r@ == s@,
{
    <String as vstd::string::StringExecFns>::from_str(s)
}

} // verus!
