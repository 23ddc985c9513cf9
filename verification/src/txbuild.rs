//! Unsigned invocation transactions: the draft model, its assembly from
//! plain inputs, and the byte-exact envelope codec.
use vstd::prelude::*;

use crate::address::Address;
use crate::bytesutil::{be32, be64, i64_of_u64, push_be32, push_be64, push_slice, u64_of_i64, zeros};
use crate::codec::{
    enc_addr, enc_list, enc_opaque, enc_value, encode_into, lemma_enc_list_snoc, push_opaque,
};
use crate::errors::CoreError;
use crate::keys::enc_trustline_asset;
use crate::values::{
    list_model, value_model, wf_model, AddrModel, EncodedValue, ValueModel,
};

verus! {

/// One authorized invocation: the contract call the entry approves, with
/// nested sub-invocations.
#[derive(Debug, PartialEq, Eq)]
pub struct AuthInvocation {
    pub contract: Address,
    pub function: Vec<u8>,
    pub args: Vec<EncodedValue>,
    pub sub_invocations: Vec<AuthInvocation>,
}

/// Who authorizes an entry: the transaction source itself, or a separate
/// address carrying its own signature material.
#[derive(Debug, PartialEq, Eq)]
pub enum Credentials {
    SourceAccount,
    AddressCreds {
        address: Address,
        nonce: i64,
        signature_expiration_ledger: u32,
        signature: EncodedValue,
    },
}

/// One authorization entry from the simulator.
#[derive(Debug, PartialEq, Eq)]
pub struct AuthEntry {
    pub credentials: Credentials,
    pub root_invocation: AuthInvocation,
}

/// The single operation a draft carries.
#[derive(Debug, PartialEq, Eq)]
pub enum OpBody {
    /// A contract function invocation.
    Invoke { contract: Address, function: Vec<u8>, args: Vec<EncodedValue>, auth: Vec<AuthEntry> },
    /// A change-trust operation for an issued asset.
    ChangeTrust { asset_code: Vec<u8>, issuer: Vec<u8>, limit: i64 },
}

/// An unsigned transaction draft.
#[derive(Debug, PartialEq, Eq)]
pub struct Transaction {
    /// The 32-byte Ed25519 key of the source account.
    pub source: Vec<u8>,
    pub fee: u32,
    pub seq_num: i64,
    pub op: OpBody,
    /// The opaque resource specification attached after simulation.
    pub ext: Option<Vec<u8>>,
}

/// The mathematical image of an `AuthInvocation`.
#[verifier::ext_equal]
pub struct InvocationModel {
    pub contract: AddrModel,
    pub function: Seq<u8>,
    pub args: Seq<ValueModel>,
    pub sub_invocations: Seq<InvocationModel>,
}

/// The mathematical image of a `Credentials`.
#[verifier::ext_equal]
pub enum CredModel {
    SourceAccount,
    AddressCreds { address: AddrModel, nonce: i64, signature_expiration_ledger: u32, signature: ValueModel },
}

/// The mathematical image of an `AuthEntry`.
#[verifier::ext_equal]
pub struct AuthEntryModel {
    pub credentials: CredModel,
    pub root_invocation: InvocationModel,
}

/// The mathematical image of an `OpBody`.
#[verifier::ext_equal]
pub enum OpModel {
    Invoke { contract: AddrModel, function: Seq<u8>, args: Seq<ValueModel>, auth: Seq<AuthEntryModel> },
    ChangeTrust { asset_code: Seq<u8>, issuer: Seq<u8>, limit: i64 },
}

/// The mathematical image of a `Transaction`.
#[verifier::ext_equal]
pub struct TxModel {
    pub source: Seq<u8>,
    pub fee: u32,
    pub seq_num: i64,
    pub op: OpModel,
    pub ext: Option<Seq<u8>>,
}

/// The model of an invocation.
pub open spec fn invocation_model(v: AuthInvocation) -> InvocationModel
    decreases v,
    via invocation_model_decreases
{
    InvocationModel {
        contract: v.contract@,
        function: v.function@,
        args: list_model(v.args@),
        sub_invocations: inv_list_model(v.sub_invocations@),
    }
}

/// The models of a list of invocations, in order.
pub open spec fn inv_list_model(s: Seq<AuthInvocation>) -> Seq<InvocationModel>
    decreases s,
    via inv_list_model_decreases
{
    if s.len() == 0 {
        Seq::empty()
    } else {
        seq![invocation_model(s[0])] + inv_list_model(s.drop_first())
    }
}

#[via_fn]
proof fn invocation_model_decreases(v: AuthInvocation) {
    assert(decreases_to!(v => v.sub_invocations));
    broadcast use vstd::std_specs::vec::axiom_vec_decreases_to_view;

    assert(decreases_to!(v.sub_invocations => v.sub_invocations@));
}

#[via_fn]
proof fn inv_list_model_decreases(s: Seq<AuthInvocation>) {
    if s.len() > 0 {
        vstd::seq::axiom_seq_index_decreases(s, 0);
        vstd::seq::axiom_seq_subrange_decreases(s, 1, s.len() as int);
    }
}

pub proof fn lemma_inv_list_model_len(s: Seq<AuthInvocation>)
    ensures
        inv_list_model(s).len() == s.len(),
        forall|i: int|
            0 <= i < s.len() ==> inv_list_model(s)[i] == invocation_model(#[trigger] s[i]),
    decreases s.len(),
{
    if s.len() > 0 {
        lemma_inv_list_model_len(s.drop_first());
        assert(forall|i: int| 1 <= i < s.len() ==> s.drop_first()[i - 1] == #[trigger] s[i]);
    }
}

/// The model of a credentials value.
pub open spec fn cred_model(c: Credentials) -> CredModel {
    match c {
        Credentials::SourceAccount => CredModel::SourceAccount,
        Credentials::AddressCreds { address, nonce, signature_expiration_ledger, signature } =>
            CredModel::AddressCreds {
            address: address@,
            nonce,
            signature_expiration_ledger,
            signature: value_model(signature),
        },
    }
}

/// The model of an authorization entry.
pub open spec fn auth_entry_model(e: AuthEntry) -> AuthEntryModel {
    AuthEntryModel {
        credentials: cred_model(e.credentials),
        root_invocation: invocation_model(e.root_invocation),
    }
}

/// The models of a list of authorization entries, in order.
pub open spec fn auth_list_model(s: Seq<AuthEntry>) -> Seq<AuthEntryModel>
    decreases s.len(),
{
    if s.len() == 0 {
        Seq::empty()
    } else {
        seq![auth_entry_model(s[0])] + auth_list_model(s.drop_first())
    }
}

pub proof fn lemma_auth_list_model_len(s: Seq<AuthEntry>)
    ensures
        auth_list_model(s).len() == s.len(),
        forall|i: int|
            0 <= i < s.len() ==> auth_list_model(s)[i] == auth_entry_model(#[trigger] s[i]),
    decreases s.len(),
{
    if s.len() > 0 {
        lemma_auth_list_model_len(s.drop_first());
        assert(forall|i: int| 1 <= i < s.len() ==> s.drop_first()[i - 1] == #[trigger] s[i]);
    }
}

/// The model of an operation.
pub open spec fn op_model(o: OpBody) -> OpModel {
    match o {
        OpBody::Invoke { contract, function, args, auth } => OpModel::Invoke {
            contract: contract@,
            function: function@,
            args: list_model(args@),
            auth: auth_list_model(auth@),
        },
        OpBody::ChangeTrust { asset_code, issuer, limit } => OpModel::ChangeTrust {
            asset_code: asset_code@,
            issuer: issuer@,
            limit,
        },
    }
}

/// The model of a transaction draft.
pub open spec fn tx_model(t: Transaction) -> TxModel {
    TxModel {
        source: t.source@,
        fee: t.fee,
        seq_num: t.seq_num,
        op: op_model(t.op),
        ext: match t.ext {
            Option::None => Option::None,
            Option::Some(b) => Option::Some(b@),
        },
    }
}

impl View for Transaction {
    type V = TxModel;

    open spec fn view(&self) -> TxModel {
        tx_model(*self)
    }
}

/// Validity of an invocation model.
pub open spec fn wf_invocation(v: InvocationModel) -> bool
    decreases v,
{
    &&& v.contract.wf()
    &&& v.function.len() <= 32
    &&& v.args.len() <= u32::MAX
    &&& (forall|i: int| 0 <= i < v.args.len() ==> wf_model(#[trigger] v.args[i]))
    &&& v.sub_invocations.len() <= u32::MAX
    &&& (forall|i: int|
        0 <= i < v.sub_invocations.len() ==> wf_invocation(#[trigger] v.sub_invocations[i]))
}

/// Validity of a credentials model.
pub open spec fn wf_cred(c: CredModel) -> bool {
    match c {
        CredModel::SourceAccount => true,
        CredModel::AddressCreds { address, nonce, signature_expiration_ledger, signature } =>
            address.wf() && wf_model(signature),
    }
}

/// Validity of an authorization entry model.
pub open spec fn wf_auth_entry(e: AuthEntryModel) -> bool {
    wf_cred(e.credentials) && wf_invocation(e.root_invocation)
}

/// Validity of an operation model.
pub open spec fn wf_op(o: OpModel) -> bool {
    match o {
        OpModel::Invoke { contract, function, args, auth } => {
            &&& contract.wf()
            &&& function.len() <= 32
            &&& args.len() <= u32::MAX
            &&& (forall|i: int| 0 <= i < args.len() ==> wf_model(#[trigger] args[i]))
            &&& auth.len() <= u32::MAX
            &&& (forall|i: int| 0 <= i < auth.len() ==> wf_auth_entry(#[trigger] auth[i]))
        },
        OpModel::ChangeTrust { asset_code, issuer, limit } => {
            &&& 0 < asset_code.len() <= 12
            &&& asset_code[asset_code.len() - 1] != 0
            &&& issuer.len() == 32
        },
    }
}

/// Validity of a transaction draft model.
pub open spec fn wf_tx(t: TxModel) -> bool {
    &&& t.source.len() == 32
    &&& wf_op(t.op)
}

/// The wire bytes of an invocation.
pub open spec fn enc_invocation(v: InvocationModel) -> Seq<u8>
    decreases v,
    via enc_invocation_decreases
{
    be32(0) + enc_addr(v.contract) + enc_opaque(v.function) + be32(v.args.len() as u32) + enc_list(
        v.args,
    ) + be32(v.sub_invocations.len() as u32) + enc_inv_list(v.sub_invocations)
}

/// The concatenated wire bytes of a list of invocations.
pub open spec fn enc_inv_list(s: Seq<InvocationModel>) -> Seq<u8>
    decreases s,
    via enc_inv_list_decreases
{
    if s.len() == 0 {
        Seq::empty()
    } else {
        enc_invocation(s[0]) + enc_inv_list(s.drop_first())
    }
}

#[via_fn]
proof fn enc_invocation_decreases(v: InvocationModel) {
    assert(decreases_to!(v => v.sub_invocations));
}

#[via_fn]
proof fn enc_inv_list_decreases(s: Seq<InvocationModel>) {
    if s.len() > 0 {
        vstd::seq::axiom_seq_index_decreases(s, 0);
        vstd::seq::axiom_seq_subrange_decreases(s, 1, s.len() as int);
    }
}

pub proof fn lemma_enc_inv_list_snoc(s: Seq<InvocationModel>, v: InvocationModel)
    ensures
        enc_inv_list(s.push(v)) == enc_inv_list(s) + enc_invocation(v),
    decreases s.len(),
{
    let whole = s.push(v);
    if s.len() == 0 {
        assert(whole[0] == v);
        assert(whole.drop_first() =~= Seq::<InvocationModel>::empty());
        assert(enc_inv_list(whole.drop_first()) == Seq::<u8>::empty());
        assert(enc_inv_list(s) == Seq::<u8>::empty());
        assert(enc_inv_list(whole) =~= enc_inv_list(s) + enc_invocation(v));
    } else {
        lemma_enc_inv_list_snoc(s.drop_first(), v);
        assert(whole.drop_first() =~= s.drop_first().push(v));
        assert(whole[0] == s[0]);
        assert(enc_inv_list(whole) =~= enc_inv_list(s) + enc_invocation(v));
    }
}

/// The wire bytes of a credentials value.
pub open spec fn enc_cred(c: CredModel) -> Seq<u8> {
    match c {
        CredModel::SourceAccount => be32(0),
        CredModel::AddressCreds { address, nonce, signature_expiration_ledger, signature } => be32(
            1,
        ) + enc_addr(address) + be64(u64_of_i64(nonce)) + be32(signature_expiration_ledger)
            + enc_value(signature),
    }
}

/// The wire bytes of an authorization entry.
pub open spec fn enc_auth_entry(e: AuthEntryModel) -> Seq<u8> {
    enc_cred(e.credentials) + enc_invocation(e.root_invocation)
}

/// The concatenated wire bytes of a list of authorization entries.
pub open spec fn enc_auth_list(s: Seq<AuthEntryModel>) -> Seq<u8>
    decreases s.len(),
{
    if s.len() == 0 {
        Seq::empty()
    } else {
        enc_auth_entry(s[0]) + enc_auth_list(s.drop_first())
    }
}

pub proof fn lemma_enc_auth_list_snoc(s: Seq<AuthEntryModel>, e: AuthEntryModel)
    ensures
        enc_auth_list(s.push(e)) == enc_auth_list(s) + enc_auth_entry(e),
    decreases s.len(),
{
    let whole = s.push(e);
    if s.len() == 0 {
        assert(whole[0] == e);
        assert(whole.drop_first() =~= Seq::<AuthEntryModel>::empty());
        assert(enc_auth_list(whole.drop_first()) == Seq::<u8>::empty());
        assert(enc_auth_list(s) == Seq::<u8>::empty());
        assert(enc_auth_list(whole) =~= enc_auth_list(s) + enc_auth_entry(e));
    } else {
        lemma_enc_auth_list_snoc(s.drop_first(), e);
        assert(whole.drop_first() =~= s.drop_first().push(e));
        assert(whole[0] == s[0]);
        assert(enc_auth_list(whole) =~= enc_auth_list(s) + enc_auth_entry(e));
    }
}

/// The wire bytes of the single operation.
pub open spec fn enc_op(o: OpModel) -> Seq<u8> {
    match o {
        OpModel::Invoke { contract, function, args, auth } => be32(0) + be32(24) + be32(0)
            + enc_addr(contract) + enc_opaque(function) + be32(args.len() as u32) + enc_list(args)
            + be32(auth.len() as u32) + enc_auth_list(auth),
        OpModel::ChangeTrust { asset_code, issuer, limit } => be32(0) + be32(6)
            + enc_trustline_asset(asset_code, issuer) + be64(u64_of_i64(limit)),
    }
}

/// The wire bytes of the transaction body.
pub open spec fn enc_tx(t: TxModel) -> Seq<u8> {
    be32(0) + t.source + be32(t.fee) + be64(u64_of_i64(t.seq_num)) + be32(0) + be32(0) + be32(1)
        + enc_op(t.op) + (match t.ext {
        Option::None => be32(0),
        Option::Some(b) => be32(1) + b,
    })
}

/// The wire bytes of the unsigned envelope: the transaction wrapped with
/// its type word and an empty signature list.
pub open spec fn enc_envelope(t: TxModel) -> Seq<u8> {
    be32(2) + enc_tx(t) + be32(0)
}

/// Appends the wire bytes of an invocation.
#[verifier::loop_isolation(false)]
#[verifier::spinoff_prover]
#[verifier::rlimit(100)]
pub fn encode_invocation_into(v: &AuthInvocation, out: &mut Vec<u8>)
    requires
        wf_invocation(invocation_model(*v)),
    ensures
        final(out)@ == old(out)@ + enc_invocation(invocation_model(*v)),
    decreases *v,
{
    let ghost m = invocation_model(*v);
    let AuthInvocation { contract, function, args, sub_invocations } = v;
    push_be32(out, 0);
    match contract {
        Address::Account(b) => {
            push_be32(out, crate::codec::ADDR_KIND_ACCOUNT);
            push_be32(out, 0);
            push_slice(out, b.as_slice());
        }
        Address::Contract(b) => {
            push_be32(out, crate::codec::ADDR_KIND_CONTRACT);
            push_slice(out, b.as_slice());
        }
    }
    push_opaque(out, function.as_slice());
    proof {
        crate::values::lemma_list_model_len(args@);
    }
    push_be32(out, args.len() as u32);
    let ghost head1 = out@;
    let n = args.len();
    let mut i: usize = 0;
    while i < n
        invariant
            i <= n,
            n == args@.len(),
            out@ == head1 + enc_list(m.args.take(i as int)),
        decreases n - i,
    {
        proof {
            assert(m.args[i as int] == value_model(args@[i as int]));
            assert(wf_model(m.args[i as int]));
        }
        encode_into(&args[i], out);
        proof {
            lemma_enc_list_snoc(m.args.take(i as int), m.args[i as int]);
            assert(m.args.take(i + 1 as int) =~= m.args.take(i as int).push(m.args[i as int]));
        }
        i = i + 1;
    }
    proof {
        assert(m.args.take(n as int) =~= m.args);
        lemma_inv_list_model_len(sub_invocations@);
    }
    push_be32(out, sub_invocations.len() as u32);
    let ghost head2 = out@;
    let ns = sub_invocations.len();
    let mut j: usize = 0;
    while j < ns
        invariant
            j <= ns,
            ns == sub_invocations@.len(),
            out@ == head2 + enc_inv_list(m.sub_invocations.take(j as int)),
        decreases ns - j,
    {
        proof {
            assert(decreases_to!(*v => *sub_invocations));
            broadcast use vstd::std_specs::vec::axiom_vec_decreases_to_view;

            assert(decreases_to!(*sub_invocations => sub_invocations@));
            vstd::seq::axiom_seq_index_decreases(sub_invocations@, j as int);
            assert(m.sub_invocations[j as int] == invocation_model(sub_invocations@[j as int]));
            assert(wf_invocation(m.sub_invocations[j as int]));
        }
        encode_invocation_into(&sub_invocations[j], out);
        proof {
            lemma_enc_inv_list_snoc(m.sub_invocations.take(j as int), m.sub_invocations[j as int]);
            assert(m.sub_invocations.take(j + 1 as int) =~= m.sub_invocations.take(
                j as int,
            ).push(m.sub_invocations[j as int]));
        }
        j = j + 1;
    }
    proof {
        assert(m.sub_invocations.take(ns as int) =~= m.sub_invocations);
        assert(final(out)@ =~= old(out)@ + enc_invocation(m));
    }
}

/// Appends the wire bytes of an authorization entry.
pub fn encode_auth_entry_into(e: &AuthEntry, out: &mut Vec<u8>)
    requires
        wf_auth_entry(auth_entry_model(*e)),
    ensures
        final(out)@ == old(out)@ + enc_auth_entry(auth_entry_model(*e)),
{
    match &e.credentials {
        Credentials::SourceAccount => {
            push_be32(out, 0);
        }
        Credentials::AddressCreds { address, nonce, signature_expiration_ledger, signature } => {
            push_be32(out, 1);
            match address {
                Address::Account(b) => {
                    push_be32(out, crate::codec::ADDR_KIND_ACCOUNT);
                    push_be32(out, 0);
                    push_slice(out, b.as_slice());
                }
                Address::Contract(b) => {
                    push_be32(out, crate::codec::ADDR_KIND_CONTRACT);
                    push_slice(out, b.as_slice());
                }
            }
            push_be64(out, crate::bytesutil::u64_rep(*nonce));
            push_be32(out, *signature_expiration_ledger);
            encode_into(signature, out);
        }
    }
    proof {
        assert(out@ =~= old(out)@ + enc_cred(cred_model(e.credentials)));
    }
    encode_invocation_into(&e.root_invocation, out);
    proof {
        assert(final(out)@ =~= old(out)@ + enc_auth_entry(auth_entry_model(*e)));
    }
}

/// Appends the wire bytes of an invocation operation body.
#[verifier::loop_isolation(false)]
#[verifier::spinoff_prover]
#[verifier::rlimit(100)]
fn encode_invoke_op(
    contract: &Address,
    function: &Vec<u8>,
    args: &Vec<EncodedValue>,
    auth: &Vec<AuthEntry>,
    out: &mut Vec<u8>,
)
    requires
        wf_op(
            OpModel::Invoke {
                contract: contract@,
                function: function@,
                args: list_model(args@),
                auth: auth_list_model(auth@),
            },
        ),
    ensures
        final(out)@ == old(out)@ + enc_op(
            OpModel::Invoke {
                contract: contract@,
                function: function@,
                args: list_model(args@),
                auth: auth_list_model(auth@),
            },
        ),
{
    push_be32(out, 0);
    push_be32(out, 24);
    push_be32(out, 0);
    match contract {
        Address::Account(b) => {
            push_be32(out, crate::codec::ADDR_KIND_ACCOUNT);
            push_be32(out, 0);
            push_slice(out, b.as_slice());
        }
        Address::Contract(b) => {
            push_be32(out, crate::codec::ADDR_KIND_CONTRACT);
            push_slice(out, b.as_slice());
        }
    }
    push_opaque(out, function.as_slice());
    proof {
        crate::values::lemma_list_model_len(args@);
    }
    let ghost am = list_model(args@);
    push_be32(out, args.len() as u32);
    let ghost head1 = out@;
    let n = args.len();
    let mut i: usize = 0;
    while i < n
        invariant
            i <= n,
            n == args@.len(),
            am == list_model(args@),
            out@ == head1 + enc_list(am.take(i as int)),
        decreases n - i,
    {
        proof {
            assert(am[i as int] == value_model(args@[i as int]));
            assert(wf_model(am[i as int]));
        }
        encode_into(&args[i], out);
        proof {
            lemma_enc_list_snoc(am.take(i as int), am[i as int]);
            assert(am.take(i + 1 as int) =~= am.take(i as int).push(am[i as int]));
        }
        i = i + 1;
    }
    proof {
        assert(am.take(n as int) =~= am);
        lemma_auth_list_model_len(auth@);
    }
    let ghost aum = auth_list_model(auth@);
    push_be32(out, auth.len() as u32);
    let ghost head2 = out@;
    let na = auth.len();
    let mut j: usize = 0;
    while j < na
        invariant
            j <= na,
            na == auth@.len(),
            aum == auth_list_model(auth@),
            out@ == head2 + enc_auth_list(aum.take(j as int)),
        decreases na - j,
    {
        proof {
            assert(aum[j as int] == auth_entry_model(auth@[j as int]));
            assert(wf_auth_entry(aum[j as int]));
        }
        encode_auth_entry_into(&auth[j], out);
        proof {
            lemma_enc_auth_list_snoc(aum.take(j as int), aum[j as int]);
            assert(aum.take(j + 1 as int) =~= aum.take(j as int).push(aum[j as int]));
        }
        j = j + 1;
    }
    proof {
        assert(aum.take(na as int) =~= aum);
        assert(final(out)@ =~= old(out)@ + enc_op(
            OpModel::Invoke {
                contract: contract@,
                function: function@,
                args: list_model(args@),
                auth: auth_list_model(auth@),
            },
        ));
    }
}

/// Appends the wire bytes of the single operation.
#[verifier::spinoff_prover]
pub fn encode_op_into(op: &OpBody, out: &mut Vec<u8>)
    requires
        wf_op(op_model(*op)),
    ensures
        final(out)@ == old(out)@ + enc_op(op_model(*op)),
{
    match op {
        OpBody::Invoke { contract, function, args, auth } => {
            encode_invoke_op(contract, function, args, auth, out);
        }
        OpBody::ChangeTrust { asset_code, issuer, limit } => {
            push_be32(out, 0);
            push_be32(out, 6);
            if asset_code.len() <= 4 {
                push_be32(out, 1);
                push_slice(out, asset_code.as_slice());
                crate::bytesutil::push_zeros(out, 4 - asset_code.len());
            } else {
                push_be32(out, 2);
                push_slice(out, asset_code.as_slice());
                crate::bytesutil::push_zeros(out, 12 - asset_code.len());
            }
            push_be32(out, 0);
            push_slice(out, issuer.as_slice());
            push_be64(out, crate::bytesutil::u64_rep(*limit));
            proof {
                assert(final(out)@ =~= old(out)@ + enc_op(op_model(*op)));
            }
        }
    }
}

/// Serializes an unsigned transaction envelope to its exact wire bytes.
pub fn encode_envelope(t: &Transaction) -> (r: Vec<u8>)
    requires
        wf_tx(t@),
    ensures
        r@ == enc_envelope(t@),
{
    let mut out: Vec<u8> = Vec::new();
    push_be32(&mut out, 2);
    push_be32(&mut out, 0);
    push_slice(&mut out, t.source.as_slice());
    push_be32(&mut out, t.fee);
    push_be64(&mut out, crate::bytesutil::u64_rep(t.seq_num));
    push_be32(&mut out, 0);
    push_be32(&mut out, 0);
    push_be32(&mut out, 1);
    encode_op_into(&t.op, &mut out);
    match &t.ext {
        None => {
            push_be32(&mut out, 0);
        }
        Some(b) => {
            push_be32(&mut out, 1);
            push_slice(&mut out, b.as_slice());
        }
    }
    push_be32(&mut out, 0);
    proof {
        assert(out@ =~= enc_envelope(t@));
    }
    out
}


/// Trailing zero padding stripped from a fixed-width asset code field.
pub open spec fn strip_zeros(s: Seq<u8>) -> Seq<u8>
    decreases s.len(),
{
    if s.len() == 0 || s.last() != 0 {
        s
    } else {
        strip_zeros(s.drop_last())
    }
}

/// Decodes one authorized invocation starting at `pos`.
///
/// Only the contract-function arm is supported; the contract-creation arms
/// fail, as does any entry the core could not re-encode.
pub open spec fn dec_invocation(s: Seq<u8>, pos: int) -> Option<(InvocationModel, int)>
    decreases s.len() - pos, 0int, 0int,
{
    if pos < 0 || pos + 4 > s.len() {
        Option::None
    } else if crate::codec::rd32(s, pos) != 0 {
        Option::None
    } else {
        match crate::codec::dec_addr(s, pos + 4) {
            Option::None => Option::None,
            Option::Some((contract, p1)) => if !(pos + 4 < p1 && p1 <= s.len()) {
                Option::None
            } else {
                match crate::codec::dec_opaque(s, p1) {
                    Option::None => Option::None,
                    Option::Some((f, p2)) => if f.len() > 32 || !(p1 < p2 && p2 + 4 <= s.len()) {
                        Option::None
                    } else {
                        match crate::codec::dec_list(s, p2 + 4, crate::codec::rd32(s, p2) as int) {
                            Option::None => Option::None,
                            Option::Some((args, p3)) => if !(p2 + 4 <= p3 && p3 + 4 <= s.len()) {
                                Option::None
                            } else {
                                match dec_inv_list(s, p3 + 4, crate::codec::rd32(s, p3) as int) {
                                    Option::None => Option::None,
                                    Option::Some((subs, p4)) => Option::Some(
                                        (
                                            InvocationModel {
                                                contract,
                                                function: f,
                                                args,
                                                sub_invocations: subs,
                                            },
                                            p4,
                                        ),
                                    ),
                                }
                            },
                        }
                    },
                }
            },
        }
    }
}

/// Decodes `n` consecutive invocations starting at `pos`.
pub open spec fn dec_inv_list(s: Seq<u8>, pos: int, n: int) -> Option<(Seq<InvocationModel>, int)>
    decreases s.len() - pos, 1int, n,
{
    if n <= 0 {
        Option::Some((Seq::empty(), pos))
    } else {
        match dec_invocation(s, pos) {
            Option::Some((v, p2)) => if pos < p2 && p2 <= s.len() {
                match dec_inv_list(s, p2, n - 1) {
                    Option::Some((vs, p3)) => Option::Some((seq![v] + vs, p3)),
                    Option::None => Option::None,
                }
            } else {
                Option::None
            },
            Option::None => Option::None,
        }
    }
}

/// Decodes the credentials of an authorization entry.
pub open spec fn dec_cred(s: Seq<u8>, pos: int) -> Option<(CredModel, int)> {
    if pos < 0 || pos + 4 > s.len() {
        Option::None
    } else {
        let disc = crate::codec::rd32(s, pos);
        if disc == 0 {
            Option::Some((CredModel::SourceAccount, pos + 4))
        } else if disc == 1 {
            match crate::codec::dec_addr(s, pos + 4) {
                Option::None => Option::None,
                Option::Some((a, p1)) => if p1 + 12 > s.len() {
                    Option::None
                } else {
                    match crate::codec::dec_value(s, p1 + 12) {
                        Option::None => Option::None,
                        Option::Some((sig, p2)) => Option::Some(
                            (
                                CredModel::AddressCreds {
                                    address: a,
                                    nonce: i64_of_u64(crate::codec::rd64(s, p1)),
                                    signature_expiration_ledger: crate::codec::rd32(s, p1 + 8),
                                    signature: sig,
                                },
                                p2,
                            ),
                        ),
                    }
                },
            }
        } else {
            Option::None
        }
    }
}

/// Decodes one authorization entry starting at `pos`.
pub open spec fn dec_auth_entry_at(s: Seq<u8>, pos: int) -> Option<(AuthEntryModel, int)> {
    match dec_cred(s, pos) {
        Option::None => Option::None,
        Option::Some((c, p1)) => if !(pos < p1 && p1 <= s.len()) {
            Option::None
        } else {
            match dec_invocation(s, p1) {
                Option::None => Option::None,
                Option::Some((root, p2)) => Option::Some(
                    (AuthEntryModel { credentials: c, root_invocation: root }, p2),
                ),
            }
        },
    }
}

/// A whole-buffer authorization entry: one entry consuming every byte.
pub open spec fn dec_auth_entry_full(s: Seq<u8>) -> Option<AuthEntryModel> {
    match dec_auth_entry_at(s, 0) {
        Option::None => Option::None,
        Option::Some((e, p)) => if p == s.len() {
            Option::Some(e)
        } else {
            Option::None
        },
    }
}

/// Decodes `n` consecutive authorization entries starting at `pos`.
pub open spec fn dec_auth_list(s: Seq<u8>, pos: int, n: int) -> Option<(Seq<AuthEntryModel>, int)>
    decreases n,
{
    if n <= 0 {
        Option::Some((Seq::empty(), pos))
    } else {
        match dec_auth_entry_at(s, pos) {
            Option::Some((e, p2)) => if pos < p2 && p2 <= s.len() {
                match dec_auth_list(s, p2, n - 1) {
                    Option::Some((es, p3)) => Option::Some((seq![e] + es, p3)),
                    Option::None => Option::None,
                }
            } else {
                Option::None
            },
            Option::None => Option::None,
        }
    }
}

/// Decodes the single operation of a draft.
pub open spec fn dec_op(s: Seq<u8>, pos: int) -> Option<(OpModel, int)> {
    if pos < 0 || pos + 12 > s.len() {
        Option::None
    } else if crate::codec::rd32(s, pos) != 0 {
        Option::None
    } else {
        let body = crate::codec::rd32(s, pos + 4);
        if body == 24 {
            if crate::codec::rd32(s, pos + 8) != 0 {
                Option::None
            } else {
                match crate::codec::dec_addr(s, pos + 12) {
                    Option::None => Option::None,
                    Option::Some((contract, p1)) => match crate::codec::dec_opaque(s, p1) {
                        Option::None => Option::None,
                        Option::Some((f, p2)) => if f.len() > 32 || p2 + 4 > s.len() {
                            Option::None
                        } else {
                            match crate::codec::dec_list(
                                s,
                                p2 + 4,
                                crate::codec::rd32(s, p2) as int,
                            ) {
                                Option::None => Option::None,
                                Option::Some((args, p3)) => if p3 + 4 > s.len() {
                                    Option::None
                                } else {
                                    match dec_auth_list(
                                        s,
                                        p3 + 4,
                                        crate::codec::rd32(s, p3) as int,
                                    ) {
                                        Option::None => Option::None,
                                        Option::Some((auth, p4)) => Option::Some(
                                            (
                                                OpModel::Invoke {
                                                    contract,
                                                    function: f,
                                                    args,
                                                    auth,
                                                },
                                                p4,
                                            ),
                                        ),
                                    }
                                },
                            }
                        },
                    },
                }
            }
        } else if body == 6 {
            let disc = crate::codec::rd32(s, pos + 8);
            if disc == 1 {
                if pos + 60 > s.len() || crate::codec::rd32(s, pos + 16) != 0 {
                    Option::None
                } else {
                    Option::Some(
                        (
                            OpModel::ChangeTrust {
                                asset_code: strip_zeros(s.subrange(pos + 12, pos + 16)),
                                issuer: s.subrange(pos + 20, pos + 52),
                                limit: i64_of_u64(crate::codec::rd64(s, pos + 52)),
                            },
                            pos + 60,
                        ),
                    )
                }
            } else if disc == 2 {
                if pos + 68 > s.len() || crate::codec::rd32(s, pos + 24) != 0 {
                    Option::None
                } else {
                    Option::Some(
                        (
                            OpModel::ChangeTrust {
                                asset_code: strip_zeros(s.subrange(pos + 12, pos + 24)),
                                issuer: s.subrange(pos + 28, pos + 60),
                                limit: i64_of_u64(crate::codec::rd64(s, pos + 60)),
                            },
                            pos + 68,
                        ),
                    )
                }
            } else {
                Option::None
            }
        } else {
            Option::None
        }
    }
}

/// Decodes a whole unsigned envelope back into a draft model.
///
/// Succeeds exactly for the byte strings this crate's encoder produces:
/// the envelope type word, a transaction with one supported operation and
/// no preconditions or memo, and an empty signature list.
pub open spec fn dec_envelope(s: Seq<u8>) -> Option<TxModel> {
    if s.len() < 64 {
        Option::None
    } else if crate::codec::rd32(s, 0) != 2 || crate::codec::rd32(s, 4) != 0 {
        Option::None
    } else if crate::codec::rd32(s, 52) != 0 || crate::codec::rd32(s, 56) != 0
        || crate::codec::rd32(s, 60) != 1 {
        Option::None
    } else {
        match dec_op(s, 64) {
            Option::None => Option::None,
            Option::Some((op, p)) => if p + 4 > s.len() {
                Option::None
            } else {
                let tx = TxModel {
                    source: s.subrange(8, 40),
                    fee: crate::codec::rd32(s, 40),
                    seq_num: i64_of_u64(crate::codec::rd64(s, 44)),
                    op,
                    ext: Option::None,
                };
                let extword = crate::codec::rd32(s, p);
                if extword == 0 {
                    if p + 8 == s.len() && crate::codec::rd32(s, p + 4) == 0 {
                        Option::Some(tx)
                    } else {
                        Option::None
                    }
                } else if extword == 1 {
                    if p + 8 <= s.len() && crate::codec::rd32(s, s.len() - 4) == 0 {
                        Option::Some(
                            TxModel { ext: Option::Some(s.subrange(p + 4, s.len() - 4)), ..tx },
                        )
                    } else {
                        Option::None
                    }
                } else {
                    Option::None
                }
            },
        }
    }
}


pub proof fn lemma_inv_list_model_snoc(s: Seq<AuthInvocation>, v: AuthInvocation)
    ensures
        inv_list_model(s.push(v)) == inv_list_model(s) + seq![invocation_model(v)],
{
    lemma_inv_list_model_len(s.push(v));
    lemma_inv_list_model_len(s);
    assert forall|i: int| 0 <= i < s.len() + 1 implies inv_list_model(s.push(v))[i] == (
    inv_list_model(s) + seq![invocation_model(v)])[i] by {
        assert(inv_list_model(s.push(v))[i] == invocation_model(s.push(v)[i]));
        if i < s.len() {
            assert(s.push(v)[i] == s[i]);
            assert(inv_list_model(s)[i] == invocation_model(s[i]));
        } else {
            assert(s.push(v)[i] == v);
        }
    }
    assert(inv_list_model(s.push(v)) =~= inv_list_model(s) + seq![invocation_model(v)]);
}

pub proof fn lemma_auth_list_model_snoc(s: Seq<AuthEntry>, e: AuthEntry)
    ensures
        auth_list_model(s.push(e)) == auth_list_model(s) + seq![auth_entry_model(e)],
{
    lemma_auth_list_model_len(s.push(e));
    lemma_auth_list_model_len(s);
    assert forall|i: int| 0 <= i < s.len() + 1 implies auth_list_model(s.push(e))[i] == (
    auth_list_model(s) + seq![auth_entry_model(e)])[i] by {
        assert(auth_list_model(s.push(e))[i] == auth_entry_model(s.push(e)[i]));
        if i < s.len() {
            assert(s.push(e)[i] == s[i]);
            assert(auth_list_model(s)[i] == auth_entry_model(s[i]));
        } else {
            assert(s.push(e)[i] == e);
        }
    }
    assert(auth_list_model(s.push(e)) =~= auth_list_model(s) + seq![auth_entry_model(e)]);
}

/// Strips the trailing zero padding from a fixed-width code field.
#[verifier::loop_isolation(false)]
fn stripped(sub: &[u8]) -> (r: Vec<u8>)
    ensures
        r@ == strip_zeros(sub@),
{
    let mut end = sub.len();
    proof {
        assert(sub@.take(end as int) =~= sub@);
    }
    while end > 0 && sub[end - 1] == 0
        invariant
            end <= sub@.len(),
            strip_zeros(sub@) == strip_zeros(sub@.take(end as int)),
        decreases end,
    {
        proof {
            assert(sub@.take(end as int).last() == 0);
            assert(sub@.take(end as int).drop_last() =~= sub@.take(end - 1));
        }
        end = end - 1;
    }
    proof {
        if end > 0 {
            assert(sub@.take(end as int).last() == sub@[end - 1]);
        }
        assert(strip_zeros(sub@.take(end as int)) == sub@.take(end as int));
    }
    let out = vstd::slice::slice_to_vec(vstd::slice::slice_subrange(sub, 0, end));
    proof {
        assert(sub@.subrange(0, end as int) =~= sub@.take(end as int));
    }
    out
}

/// Decodes one authorized invocation, mirroring `dec_invocation`.
#[verifier::loop_isolation(false)]
#[verifier::spinoff_prover]
#[verifier::rlimit(100)]
pub fn decode_invocation_at(s: &[u8], pos: usize) -> (r: Result<(AuthInvocation, usize), CoreError>)
    requires
        pos <= s@.len(),
    ensures
        (r matches Ok(t) ==> dec_invocation(s@, pos as int) == Some(
            (invocation_model(t.0), t.1 as int),
        ) && pos < t.1 <= s@.len() && wf_invocation(invocation_model(t.0))),
        (r matches Err(e) ==> dec_invocation(s@, pos as int) is None && e
            == CoreError::MalformedAuthEntry),
    decreases s@.len() - pos,
{
    if s.len() - pos < 4 {
        return Err(CoreError::MalformedAuthEntry);
    }
    if crate::bytesutil::read_be32(s, pos) != 0 {
        return Err(CoreError::MalformedAuthEntry);
    }
    let (contract, p1) = match crate::codec::decode_addr(s, pos + 4) {
        Ok(t) => t,
        Err(_) => {
            return Err(CoreError::MalformedAuthEntry);
        }
    };
    let (function, p2) = match crate::codec::decode_opaque(s, p1) {
        Ok(t) => t,
        Err(_) => {
            return Err(CoreError::MalformedAuthEntry);
        }
    };
    if function.len() > 32 {
        return Err(CoreError::MalformedAuthEntry);
    }
    if s.len() - p2 < 4 {
        return Err(CoreError::MalformedAuthEntry);
    }
    let nargs = crate::bytesutil::read_be32(s, p2);
    let (args, p3) = match crate::codec::decode_list(s, p2 + 4, nargs) {
        Ok(t) => t,
        Err(_) => {
            return Err(CoreError::MalformedAuthEntry);
        }
    };
    proof {
        crate::codec::lemma_dec_list_sound(s@, p2 + 4, nargs as int);
    }
    if s.len() - p3 < 4 {
        return Err(CoreError::MalformedAuthEntry);
    }
    let nsubs = crate::bytesutil::read_be32(s, p3);
    let mut subs: Vec<AuthInvocation> = Vec::new();
    let mut cur: usize = p3 + 4;
    let mut i: u32 = 0;
    proof {
        assert(subs@ =~= Seq::<AuthInvocation>::empty());
        assert(inv_list_model(subs@) =~= Seq::<InvocationModel>::empty());
        if let Option::Some((rest, p)) = dec_inv_list(s@, p3 + 4, nsubs as int) {
            assert(inv_list_model(subs@) + rest =~= rest);
        }
    }
    while i < nsubs
        invariant
            pos < p3 + 4 <= cur <= s@.len(),
            i <= nsubs,
            subs@.len() == i as int,
            forall|j: int|
                0 <= j < subs@.len() ==> wf_invocation(invocation_model(#[trigger] subs@[j])),
            (match dec_inv_list(s@, cur as int, nsubs as int - i as int) {
                Option::Some((rest, p)) => dec_inv_list(s@, p3 + 4, nsubs as int) == Some(
                    (inv_list_model(subs@) + rest, p),
                ),
                Option::None => dec_inv_list(s@, p3 + 4, nsubs as int) is None,
            }),
        decreases nsubs - i,
    {
        let ghost pre = subs@;
        let ghost k = nsubs as int - i as int;
        match decode_invocation_at(s, cur) {
            Err(e) => {
                return Err(e);
            }
            Ok((v, pn)) => {
                subs.push(v);
                proof {
                    lemma_inv_list_model_snoc(pre, v);
                    if let Option::Some((rest, p)) = dec_inv_list(s@, pn as int, k - 1) {
                        assert(inv_list_model(subs@) + rest =~= inv_list_model(pre) + (seq![
                            invocation_model(v),
                        ] + rest));
                    }
                }
                cur = pn;
                i = i + 1;
            }
        }
    }
    proof {
        assert(dec_inv_list(s@, cur as int, 0) == Some(
            (Seq::<InvocationModel>::empty(), cur as int),
        ));
        assert(inv_list_model(subs@) + Seq::<InvocationModel>::empty() =~= inv_list_model(subs@));
    }
    let inv = AuthInvocation { contract, function, args, sub_invocations: subs };
    proof {
        crate::values::lemma_list_model_len(inv.args@);
        lemma_inv_list_model_len(inv.sub_invocations@);
        assert(invocation_model(inv) == (InvocationModel {
            contract: inv.contract@,
            function: inv.function@,
            args: list_model(inv.args@),
            sub_invocations: inv_list_model(inv.sub_invocations@),
        }));
        let m = invocation_model(inv);
        match &inv.contract {
            Address::Account(b) => {
                assert(m.contract.wf());
            }
            Address::Contract(b) => {
                assert(m.contract.wf());
            }
        }
        assert(m.args.len() <= u32::MAX);
        assert(m.sub_invocations.len() == nsubs as int);
        assert forall|j: int| 0 <= j < m.args.len() implies wf_model(#[trigger] m.args[j]) by {}
        assert forall|j: int| 0 <= j < m.sub_invocations.len() implies wf_invocation(
            #[trigger] m.sub_invocations[j],
        ) by {
            assert(m.sub_invocations[j] == invocation_model(subs@[j]));
        }
        assert(wf_invocation(m));
    }
    Ok((inv, cur))
}

/// Decodes an entry's credentials, mirroring `dec_cred`.
pub fn decode_cred_at(s: &[u8], pos: usize) -> (r: Result<(Credentials, usize), CoreError>)
    requires
        pos <= s@.len(),
    ensures
        (r matches Ok(t) ==> dec_cred(s@, pos as int) == Some((cred_model(t.0), t.1 as int)) && pos
            < t.1 <= s@.len() && wf_cred(cred_model(t.0))),
        (r matches Err(e) ==> dec_cred(s@, pos as int) is None && e
            == CoreError::MalformedAuthEntry),
{
    if s.len() - pos < 4 {
        return Err(CoreError::MalformedAuthEntry);
    }
    let disc = crate::bytesutil::read_be32(s, pos);
    if disc == 0 {
        Ok((Credentials::SourceAccount, pos + 4))
    } else if disc == 1 {
        let (address, p1) = match crate::codec::decode_addr(s, pos + 4) {
            Ok(t) => t,
            Err(_) => {
                return Err(CoreError::MalformedAuthEntry);
            }
        };
        if s.len() - p1 < 12 {
            return Err(CoreError::MalformedAuthEntry);
        }
        let nonce = crate::bytesutil::i64_rep(crate::bytesutil::read_be64(s, p1));
        let sig_exp = crate::bytesutil::read_be32(s, p1 + 8);
        let (signature, p2) = match crate::codec::decode_at(s, p1 + 12) {
            Ok(t) => t,
            Err(_) => {
                return Err(CoreError::MalformedAuthEntry);
            }
        };
        proof {
            crate::codec::lemma_dec_value_sound(s@, p1 + 12);
        }
        Ok(
            (
                Credentials::AddressCreds {
                    address,
                    nonce,
                    signature_expiration_ledger: sig_exp,
                    signature,
                },
                p2,
            ),
        )
    } else {
        Err(CoreError::MalformedAuthEntry)
    }
}

/// Decodes one authorization entry at a position.
pub fn decode_auth_entry_at(s: &[u8], pos: usize) -> (r: Result<(AuthEntry, usize), CoreError>)
    requires
        pos <= s@.len(),
    ensures
        (r matches Ok(t) ==> dec_auth_entry_at(s@, pos as int) == Some(
            (auth_entry_model(t.0), t.1 as int),
        ) && pos < t.1 <= s@.len() && wf_auth_entry(auth_entry_model(t.0))),
        (r matches Err(e) ==> dec_auth_entry_at(s@, pos as int) is None && e
            == CoreError::MalformedAuthEntry),
{
    let (credentials, p1) = match decode_cred_at(s, pos) {
        Ok(t) => t,
        Err(e) => {
            return Err(e);
        }
    };
    let (root_invocation, p2) = match decode_invocation_at(s, p1) {
        Ok(t) => t,
        Err(e) => {
            return Err(e);
        }
    };
    Ok((AuthEntry { credentials, root_invocation }, p2))
}

/// Decodes one authorization entry that must consume its whole buffer.
///
/// Every failure, including trailing bytes, is `MalformedAuthEntry` and is
/// never silently dropped.
pub fn decode_auth_entry(s: &[u8]) -> (r: Result<AuthEntry, CoreError>)
    ensures
        (r matches Ok(e) ==> dec_auth_entry_full(s@) == Some(auth_entry_model(e))
            && wf_auth_entry(auth_entry_model(e))),
        (r matches Err(e) ==> dec_auth_entry_full(s@) is None && e
            == CoreError::MalformedAuthEntry),
{
    match decode_auth_entry_at(s, 0) {
        Err(e) => Err(e),
        Ok((entry, p)) => {
            if p == s.len() {
                Ok(entry)
            } else {
                Err(CoreError::MalformedAuthEntry)
            }
        }
    }
}

/// Decodes the single operation, mirroring `dec_op`.
#[verifier::loop_isolation(false)]
#[verifier::spinoff_prover]
#[verifier::rlimit(100)]
pub fn decode_op_at(s: &[u8], pos: usize) -> (r: Result<(OpBody, usize), CoreError>)
    requires
        pos <= s@.len(),
    ensures
        (r matches Ok(t) ==> dec_op(s@, pos as int) == Some((op_model(t.0), t.1 as int)) && pos
            < t.1 <= s@.len()),
        (r matches Err(e) ==> dec_op(s@, pos as int) is None && e == CoreError::MalformedValue),
{
    if s.len() - pos < 12 {
        return Err(CoreError::MalformedValue);
    }
    if crate::bytesutil::read_be32(s, pos) != 0 {
        return Err(CoreError::MalformedValue);
    }
    let body = crate::bytesutil::read_be32(s, pos + 4);
    if body == 24 {
        if crate::bytesutil::read_be32(s, pos + 8) != 0 {
            return Err(CoreError::MalformedValue);
        }
        let (contract, p1) = match crate::codec::decode_addr(s, pos + 12) {
            Ok(t) => t,
            Err(e) => {
                return Err(e);
            }
        };
        let (function, p2) = match crate::codec::decode_opaque(s, p1) {
            Ok(t) => t,
            Err(e) => {
                return Err(e);
            }
        };
        if function.len() > 32 {
            return Err(CoreError::MalformedValue);
        }
        if s.len() - p2 < 4 {
            return Err(CoreError::MalformedValue);
        }
        let nargs = crate::bytesutil::read_be32(s, p2);
        let (args, p3) = match crate::codec::decode_list(s, p2 + 4, nargs) {
            Ok(t) => t,
            Err(e) => {
                return Err(e);
            }
        };
        if s.len() - p3 < 4 {
            return Err(CoreError::MalformedValue);
        }
        let nauth = crate::bytesutil::read_be32(s, p3);
        let mut auth: Vec<AuthEntry> = Vec::new();
        let mut cur: usize = p3 + 4;
        let mut i: u32 = 0;
        proof {
            assert(auth@ =~= Seq::<AuthEntry>::empty());
            assert(auth_list_model(auth@) =~= Seq::<AuthEntryModel>::empty());
            if let Option::Some((rest, p)) = dec_auth_list(s@, p3 + 4, nauth as int) {
                assert(auth_list_model(auth@) + rest =~= rest);
            }
        }
        while i < nauth
            invariant
                pos < p3 + 4 <= cur <= s@.len(),
                i <= nauth,
                (match dec_auth_list(s@, cur as int, nauth as int - i as int) {
                    Option::Some((rest, p)) => dec_auth_list(s@, p3 + 4, nauth as int) == Some(
                        (auth_list_model(auth@) + rest, p),
                    ),
                    Option::None => dec_auth_list(s@, p3 + 4, nauth as int) is None,
                }),
            decreases nauth - i,
        {
            let ghost pre = auth@;
            let ghost k = nauth as int - i as int;
            match decode_auth_entry_at(s, cur) {
                Err(_) => {
                    return Err(CoreError::MalformedValue);
                }
                Ok((e, pn)) => {
                    auth.push(e);
                    proof {
                        lemma_auth_list_model_snoc(pre, e);
                        if let Option::Some((rest, p)) = dec_auth_list(s@, pn as int, k - 1) {
                            assert(auth_list_model(auth@) + rest =~= auth_list_model(pre) + (seq![
                                auth_entry_model(e),
                            ] + rest));
                        }
                    }
                    cur = pn;
                    i = i + 1;
                }
            }
        }
        proof {
            assert(dec_auth_list(s@, cur as int, 0) == Some(
                (Seq::<AuthEntryModel>::empty(), cur as int),
            ));
            assert(auth_list_model(auth@) + Seq::<AuthEntryModel>::empty() =~= auth_list_model(
                auth@,
            ));
        }
        let op = OpBody::Invoke { contract, function, args, auth };
        proof {
            crate::values::lemma_list_model_len(args@);
        }
        Ok((op, cur))
    } else if body == 6 {
        let disc = crate::bytesutil::read_be32(s, pos + 8);
        if disc == 1 {
            if s.len() - pos < 60 {
                return Err(CoreError::MalformedValue);
            }
            if crate::bytesutil::read_be32(s, pos + 16) != 0 {
                return Err(CoreError::MalformedValue);
            }
            let code = stripped(vstd::slice::slice_subrange(s, pos + 12, pos + 16));
            let issuer = vstd::slice::slice_to_vec(
                vstd::slice::slice_subrange(s, pos + 20, pos + 52),
            );
            let limit = crate::bytesutil::i64_rep(crate::bytesutil::read_be64(s, pos + 52));
            Ok((OpBody::ChangeTrust { asset_code: code, issuer, limit }, pos + 60))
        } else if disc == 2 {
            if s.len() - pos < 68 {
                return Err(CoreError::MalformedValue);
            }
            if crate::bytesutil::read_be32(s, pos + 24) != 0 {
                return Err(CoreError::MalformedValue);
            }
            let code = stripped(vstd::slice::slice_subrange(s, pos + 12, pos + 24));
            let issuer = vstd::slice::slice_to_vec(
                vstd::slice::slice_subrange(s, pos + 28, pos + 60),
            );
            let limit = crate::bytesutil::i64_rep(crate::bytesutil::read_be64(s, pos + 60));
            Ok((OpBody::ChangeTrust { asset_code: code, issuer, limit }, pos + 68))
        } else {
            Err(CoreError::MalformedValue)
        }
    } else {
        Err(CoreError::MalformedValue)
    }
}

/// Decodes an unsigned envelope back into a draft.
///
/// Succeeds exactly for the byte strings `encode_envelope` can produce;
/// everything else fails with `MalformedValue` and never yields a partial
/// draft.
pub fn decode_envelope(s: &[u8]) -> (r: Result<Transaction, CoreError>)
    ensures
        (r matches Ok(t) ==> dec_envelope(s@) == Some(t@)),
        (r matches Err(e) ==> dec_envelope(s@) is None && e == CoreError::MalformedValue),
{
    if s.len() < 64 {
        return Err(CoreError::MalformedValue);
    }
    if crate::bytesutil::read_be32(s, 0) != 2 || crate::bytesutil::read_be32(s, 4) != 0 {
        return Err(CoreError::MalformedValue);
    }
    if crate::bytesutil::read_be32(s, 52) != 0 || crate::bytesutil::read_be32(s, 56) != 0
        || crate::bytesutil::read_be32(s, 60) != 1 {
        return Err(CoreError::MalformedValue);
    }
    let (op, p) = match decode_op_at(s, 64) {
        Ok(t) => t,
        Err(e) => {
            return Err(e);
        }
    };
    if s.len() - p < 4 {
        return Err(CoreError::MalformedValue);
    }
    let source = vstd::slice::slice_to_vec(vstd::slice::slice_subrange(s, 8, 40));
    let fee = crate::bytesutil::read_be32(s, 40);
    let seq_num = crate::bytesutil::i64_rep(crate::bytesutil::read_be64(s, 44));
    let extword = crate::bytesutil::read_be32(s, p);
    if extword == 0 {
        if s.len() - p == 8 && crate::bytesutil::read_be32(s, p + 4) == 0 {
            Ok(Transaction { source, fee, seq_num, op, ext: None })
        } else {
            Err(CoreError::MalformedValue)
        }
    } else if extword == 1 {
        if s.len() - p >= 8 && crate::bytesutil::read_be32(s, s.len() - 4) == 0 {
            let ext = vstd::slice::slice_to_vec(vstd::slice::slice_subrange(s, p + 4, s.len() - 4));
            Ok(Transaction { source, fee, seq_num, op, ext: Some(ext) })
        } else {
            Err(CoreError::MalformedValue)
        }
    } else {
        Err(CoreError::MalformedValue)
    }
}


pub const BASE_INCLUSION_FEE: u32 = 100;

/// Assembles an unsigned invocation draft from plain inputs.
///
/// The sequence number is strictly the fetched value plus one; the fee is
/// the placeholder inclusion fee until simulation is applied; the
/// authorization list starts empty and the extension slot absent.  Given
/// the same sequence number and arguments the draft, and hence its
/// envelope bytes, are identical across calls.
pub fn build_draft(
    source: &Address,
    contract: &Address,
    function: &[u8],
    args: Vec<EncodedValue>,
    account_seq: Option<i64>,
) -> (r: Result<Transaction, CoreError>)
    requires
        source.wf(),
        contract.wf(),
        args@.len() <= u32::MAX,
        forall|i: int| 0 <= i < args@.len() ==> wf_model(value_model(#[trigger] args@[i])),
        (account_seq matches Some(q) ==> q < i64::MAX),
    ensures
        (source matches Address::Contract(_) ==> r == Err::<Transaction, _>(
            CoreError::UnsupportedAddressKind,
        )),
        (source matches Address::Account(_) && account_seq is None ==> r == Err::<Transaction, _>(
            CoreError::AccountNotFound,
        )),
        (source matches Address::Account(_) && account_seq is Some && function@.len() > 32 ==> r
            == Err::<Transaction, _>(CoreError::SymbolTooLong)),
        (account_seq matches Some(q) ==> ((source matches Address::Account(_) && function@.len()
            <= 32) ==> (r matches Ok(t) && t@ == (TxModel {
            source: source.raw(),
            fee: BASE_INCLUSION_FEE,
            seq_num: (q + 1) as i64,
            op: OpModel::Invoke {
                contract: contract@,
                function: function@,
                args: list_model(args@),
                auth: Seq::empty(),
            },
            ext: Option::None,
        }) && wf_tx(t@)))),
{
    let raw = match source {
        Address::Account(b) => vstd::slice::slice_to_vec(b.as_slice()),
        Address::Contract(_) => {
            return Err(CoreError::UnsupportedAddressKind);
        }
    };
    let q = match account_seq {
        Some(q) => q,
        None => {
            return Err(CoreError::AccountNotFound);
        }
    };
    if function.len() > 32 {
        return Err(CoreError::SymbolTooLong);
    }
    let ghost args0 = args@;
    let t = Transaction {
        source: raw,
        fee: BASE_INCLUSION_FEE,
        seq_num: q + 1,
        op: OpBody::Invoke {
            contract: crate::address::clone_address(contract),
            function: vstd::slice::slice_to_vec(function),
            args,
            auth: Vec::new(),
        },
        ext: None,
    };
    proof {
        assert(auth_list_model(Seq::<AuthEntry>::empty()) =~= Seq::<AuthEntryModel>::empty());
        crate::values::lemma_list_model_len(args0);
        assert forall|i: int| 0 <= i < list_model(args0).len() implies wf_model(
            #[trigger] list_model(args0)[i],
        ) by {
            assert(list_model(args0)[i] == value_model(args0[i]));
        }
        assert(t@ =~= (TxModel {
            source: source.raw(),
            fee: BASE_INCLUSION_FEE,
            seq_num: (q + 1) as i64,
            op: OpModel::Invoke {
                contract: contract@,
                function: function@,
                args: list_model(args0),
                auth: Seq::empty(),
            },
            ext: Option::None,
        }));
    }
    Ok(t)
}

/// Assembles an unsigned change-trust draft from plain inputs.
///
/// The trust limit is the maximum representable amount; the source and
/// issuer must both be plain account keys.
pub fn build_trustline_draft(
    source: &Address,
    asset_code: &[u8],
    issuer: &Address,
    account_seq: Option<i64>,
) -> (r: Result<Transaction, CoreError>)
    requires
        source.wf(),
        issuer.wf(),
        0 < asset_code@.len() <= 12,
        asset_code@.last() != 0,
        (account_seq matches Some(q) ==> q < i64::MAX),
    ensures
        ((source matches Address::Contract(_) || issuer matches Address::Contract(_)) ==> r
            == Err::<Transaction, _>(CoreError::UnsupportedAddressKind)),
        (source matches Address::Account(_) && issuer matches Address::Account(_) && account_seq
            is None ==> r == Err::<Transaction, _>(CoreError::AccountNotFound)),
        (account_seq matches Some(q) ==> ((source matches Address::Account(_) && issuer matches
            Address::Account(_)) ==> (r matches Ok(t) && t@ == (TxModel {
            source: source.raw(),
            fee: BASE_INCLUSION_FEE,
            seq_num: (q + 1) as i64,
            op: OpModel::ChangeTrust {
                asset_code: asset_code@,
                issuer: issuer.raw(),
                limit: i64::MAX,
            },
            ext: Option::None,
        }) && wf_tx(t@)))),
{
    let raw = match source {
        Address::Account(b) => vstd::slice::slice_to_vec(b.as_slice()),
        Address::Contract(_) => {
            return Err(CoreError::UnsupportedAddressKind);
        }
    };
    let iss = match issuer {
        Address::Account(b) => vstd::slice::slice_to_vec(b.as_slice()),
        Address::Contract(_) => {
            return Err(CoreError::UnsupportedAddressKind);
        }
    };
    let q = match account_seq {
        Some(q) => q,
        None => {
            return Err(CoreError::AccountNotFound);
        }
    };
    let t = Transaction {
        source: raw,
        fee: BASE_INCLUSION_FEE,
        seq_num: q + 1,
        op: OpBody::ChangeTrust {
            asset_code: vstd::slice::slice_to_vec(asset_code),
            issuer: iss,
            limit: i64::MAX,
        },
        ext: None,
    };
    proof {
        assert(t@ =~= (TxModel {
            source: source.raw(),
            fee: BASE_INCLUSION_FEE,
            seq_num: (q + 1) as i64,
            op: OpModel::ChangeTrust {
                asset_code: asset_code@,
                issuer: issuer.raw(),
                limit: i64::MAX,
            },
            ext: Option::None,
        }));
    }
    Ok(t)
}


/// Round trip for an invocation written at `pos`.
#[verifier::spinoff_prover]
#[verifier::rlimit(100)]
pub proof fn lemma_dec_enc_invocation(s: Seq<u8>, pos: int, m: InvocationModel)
    requires
        wf_invocation(m),
        0 <= pos,
        pos + enc_invocation(m).len() <= s.len(),
        s.subrange(pos, pos + enc_invocation(m).len()) == enc_invocation(m),
    ensures
        dec_invocation(s, pos) == Some((m, pos + enc_invocation(m).len())),
    decreases m,
{
    let ea = enc_addr(m.contract);
    let ef = enc_opaque(m.function);
    let el = enc_list(m.args);
    let es = enc_inv_list(m.sub_invocations);
    let p1 = pos + 4 + ea.len();
    let p2 = p1 + ef.len();
    let p3 = p2 + 4 + el.len();
    let p4 = p3 + 4 + es.len();
    crate::codec::lemma_cat_split(
        s,
        pos,
        be32(0) + ea + ef + be32(m.args.len() as u32) + el + be32(m.sub_invocations.len() as u32),
        es,
    );
    crate::codec::lemma_cat_split(
        s,
        pos,
        be32(0) + ea + ef + be32(m.args.len() as u32) + el,
        be32(m.sub_invocations.len() as u32),
    );
    crate::codec::lemma_cat_split(s, pos, be32(0) + ea + ef + be32(m.args.len() as u32), el);
    crate::codec::lemma_cat_split(s, pos, be32(0) + ea + ef, be32(m.args.len() as u32));
    crate::codec::lemma_cat_split(s, pos, be32(0) + ea, ef);
    crate::codec::lemma_cat_split(s, pos, be32(0), ea);
    crate::codec::lemma_rd32(s, pos, 0);
    crate::codec::lemma_dec_enc_addr(s, pos + 4, m.contract);
    crate::codec::lemma_dec_enc_opaque(s, p1, m.function);
    crate::codec::lemma_rd32(s, p2, m.args.len() as u32);
    crate::codec::lemma_dec_enc_list(s, p2 + 4, m.args);
    crate::codec::lemma_rd32(s, p3, m.sub_invocations.len() as u32);
    lemma_dec_enc_inv_list(s, p3 + 4, m.sub_invocations);
}

/// Round trip for a list of invocations written at `pos`.
pub proof fn lemma_dec_enc_inv_list(s: Seq<u8>, pos: int, ms: Seq<InvocationModel>)
    requires
        forall|i: int| 0 <= i < ms.len() ==> wf_invocation(#[trigger] ms[i]),
        0 <= pos,
        pos + enc_inv_list(ms).len() <= s.len(),
        s.subrange(pos, pos + enc_inv_list(ms).len()) == enc_inv_list(ms),
    ensures
        dec_inv_list(s, pos, ms.len() as int) == Some((ms, pos + enc_inv_list(ms).len())),
    decreases ms,
{
    if ms.len() == 0 {
        assert(ms =~= Seq::<InvocationModel>::empty());
    } else {
        let head = ms[0];
        let rest = ms.drop_first();
        assert(enc_inv_list(ms) == enc_invocation(head) + enc_inv_list(rest));
        crate::codec::lemma_cat_split(s, pos, enc_invocation(head), enc_inv_list(rest));
        vstd::seq::axiom_seq_index_decreases(ms, 0);
        vstd::seq::axiom_seq_subrange_decreases(ms, 1, ms.len() as int);
        lemma_dec_enc_invocation(s, pos, head);
        let p2 = pos + enc_invocation(head).len();
        assert(forall|i: int| 0 <= i < rest.len() ==> wf_invocation(#[trigger] rest[i])) by {
            assert(forall|i: int| 0 <= i < rest.len() ==> rest[i] == #[trigger] ms[i + 1]);
        }
        lemma_dec_enc_inv_list(s, p2, rest);
        assert(seq![head] + rest =~= ms);
    }
}

/// Round trip for an entry's credentials written at `pos`.
pub proof fn lemma_dec_enc_cred(s: Seq<u8>, pos: int, c: CredModel)
    requires
        wf_cred(c),
        0 <= pos,
        pos + enc_cred(c).len() <= s.len(),
        s.subrange(pos, pos + enc_cred(c).len()) == enc_cred(c),
    ensures
        dec_cred(s, pos) == Some((c, pos + enc_cred(c).len())),
{
    match c {
        CredModel::SourceAccount => {
            assert(s.subrange(pos, pos + 4) =~= enc_cred(c));
            crate::codec::lemma_rd32(s, pos, 0);
        }
        CredModel::AddressCreds { address, nonce, signature_expiration_ledger, signature } => {
            let ea = enc_addr(address);
            let ev = enc_value(signature);
            let p1 = pos + 4 + ea.len();
            crate::codec::lemma_cat_split(
                s,
                pos,
                be32(1) + ea + be64(u64_of_i64(nonce)) + be32(signature_expiration_ledger),
                ev,
            );
            crate::codec::lemma_cat_split(
                s,
                pos,
                be32(1) + ea + be64(u64_of_i64(nonce)),
                be32(signature_expiration_ledger),
            );
            crate::codec::lemma_cat_split(s, pos, be32(1) + ea, be64(u64_of_i64(nonce)));
            crate::codec::lemma_cat_split(s, pos, be32(1), ea);
            crate::codec::lemma_rd32(s, pos, 1);
            crate::codec::lemma_dec_enc_addr(s, pos + 4, address);
            crate::codec::lemma_rd64(s, p1, u64_of_i64(nonce));
            crate::bytesutil::lemma_signed64_round_trip(nonce);
            crate::codec::lemma_rd32(s, p1 + 8, signature_expiration_ledger);
            crate::codec::lemma_dec_enc_value(s, p1 + 12, signature);
        }
    }
}

/// Round trip for one authorization entry written at `pos`.
pub proof fn lemma_dec_enc_auth_entry(s: Seq<u8>, pos: int, e: AuthEntryModel)
    requires
        wf_auth_entry(e),
        0 <= pos,
        pos + enc_auth_entry(e).len() <= s.len(),
        s.subrange(pos, pos + enc_auth_entry(e).len()) == enc_auth_entry(e),
    ensures
        dec_auth_entry_at(s, pos) == Some((e, pos + enc_auth_entry(e).len())),
{
    crate::codec::lemma_cat_split(s, pos, enc_cred(e.credentials), enc_invocation(
        e.root_invocation,
    ));
    lemma_dec_enc_cred(s, pos, e.credentials);
    let p1 = pos + enc_cred(e.credentials).len();
    lemma_dec_enc_invocation(s, p1, e.root_invocation);
}

/// Round trip for a whole-buffer authorization entry.
pub proof fn lemma_auth_entry_round_trip(e: AuthEntryModel)
    requires
        wf_auth_entry(e),
    ensures
        dec_auth_entry_full(enc_auth_entry(e)) == Some(e),
{
    let s = enc_auth_entry(e);
    assert(s.subrange(0, s.len() as int) =~= s);
    lemma_dec_enc_auth_entry(s, 0, e);
}

/// Round trip for a list of authorization entries written at `pos`.
pub proof fn lemma_dec_enc_auth_list(s: Seq<u8>, pos: int, es: Seq<AuthEntryModel>)
    requires
        forall|i: int| 0 <= i < es.len() ==> wf_auth_entry(#[trigger] es[i]),
        0 <= pos,
        pos + enc_auth_list(es).len() <= s.len(),
        s.subrange(pos, pos + enc_auth_list(es).len()) == enc_auth_list(es),
    ensures
        dec_auth_list(s, pos, es.len() as int) == Some((es, pos + enc_auth_list(es).len())),
    decreases es.len(),
{
    if es.len() == 0 {
        assert(es =~= Seq::<AuthEntryModel>::empty());
    } else {
        let head = es[0];
        let rest = es.drop_first();
        assert(enc_auth_list(es) == enc_auth_entry(head) + enc_auth_list(rest));
        crate::codec::lemma_cat_split(s, pos, enc_auth_entry(head), enc_auth_list(rest));
        lemma_dec_enc_auth_entry(s, pos, head);
        let p2 = pos + enc_auth_entry(head).len();
        assert(forall|i: int| 0 <= i < rest.len() ==> wf_auth_entry(#[trigger] rest[i])) by {
            assert(forall|i: int| 0 <= i < rest.len() ==> rest[i] == #[trigger] es[i + 1]);
        }
        lemma_dec_enc_auth_list(s, p2, rest);
        assert(seq![head] + rest =~= es);
    }
}


/// Stripping the padding recovers a code whose last byte is not zero.
proof fn lemma_strip_pad(c: Seq<u8>, k: int)
    requires
        c.len() > 0,
        c.last() != 0,
        k >= 0,
    ensures
        strip_zeros(c + zeros(k)) == c,
    decreases k,
{
    if k == 0 {
        assert(c + zeros(0) =~= c);
    } else {
        let whole = c + zeros(k);
        assert(whole.last() == 0);
        assert(whole.drop_last() =~= c + zeros(k - 1));
        lemma_strip_pad(c, k - 1);
    }
}

/// Round trip for an invocation operation written at `pos`.
#[verifier::spinoff_prover]
#[verifier::rlimit(100)]
proof fn lemma_dec_enc_op_invoke(s: Seq<u8>, pos: int, o: OpModel)
    requires
        wf_op(o),
        o is Invoke,
        0 <= pos,
        pos + enc_op(o).len() <= s.len(),
        s.subrange(pos, pos + enc_op(o).len()) == enc_op(o),
    ensures
        dec_op(s, pos) == Some((o, pos + enc_op(o).len())),
{
    if let OpModel::Invoke { contract, function, args, auth } = o {
        let ea = enc_addr(contract);
        let ef = enc_opaque(function);
        let el = enc_list(args);
        let eau = enc_auth_list(auth);
        let p1 = pos + 12 + ea.len();
        let p2 = p1 + ef.len();
        let p3 = p2 + 4 + el.len();
        crate::codec::lemma_cat_split(
            s,
            pos,
            be32(0) + be32(24) + be32(0) + ea + ef + be32(args.len() as u32) + el + be32(
                auth.len() as u32,
            ),
            eau,
        );
        crate::codec::lemma_cat_split(
            s,
            pos,
            be32(0) + be32(24) + be32(0) + ea + ef + be32(args.len() as u32) + el,
            be32(auth.len() as u32),
        );
        crate::codec::lemma_cat_split(
            s,
            pos,
            be32(0) + be32(24) + be32(0) + ea + ef + be32(args.len() as u32),
            el,
        );
        crate::codec::lemma_cat_split(
            s,
            pos,
            be32(0) + be32(24) + be32(0) + ea + ef,
            be32(args.len() as u32),
        );
        crate::codec::lemma_cat_split(s, pos, be32(0) + be32(24) + be32(0) + ea, ef);
        crate::codec::lemma_cat_split(s, pos, be32(0) + be32(24) + be32(0), ea);
        crate::codec::lemma_cat_split(s, pos, be32(0) + be32(24), be32(0));
        crate::codec::lemma_cat_split(s, pos, be32(0), be32(24));
        crate::codec::lemma_rd32(s, pos, 0);
        crate::codec::lemma_rd32(s, pos + 4, 24);
        crate::codec::lemma_rd32(s, pos + 8, 0);
        crate::codec::lemma_dec_enc_addr(s, pos + 12, contract);
        crate::codec::lemma_dec_enc_opaque(s, p1, function);
        crate::codec::lemma_rd32(s, p2, args.len() as u32);
        crate::codec::lemma_dec_enc_list(s, p2 + 4, args);
        crate::codec::lemma_rd32(s, p3, auth.len() as u32);
        lemma_dec_enc_auth_list(s, p3 + 4, auth);
    }
}

/// Round trip for a change-trust operation written at `pos`.
#[verifier::spinoff_prover]
#[verifier::rlimit(100)]
proof fn lemma_dec_enc_op_change_trust(s: Seq<u8>, pos: int, o: OpModel)
    requires
        wf_op(o),
        o is ChangeTrust,
        0 <= pos,
        pos + enc_op(o).len() <= s.len(),
        s.subrange(pos, pos + enc_op(o).len()) == enc_op(o),
    ensures
        dec_op(s, pos) == Some((o, pos + enc_op(o).len())),
{
    if let OpModel::ChangeTrust { asset_code, issuer, limit } = o {
        let ta = crate::keys::enc_trustline_asset(asset_code, issuer);
        crate::codec::lemma_cat_split(s, pos, be32(0) + be32(6) + ta, be64(u64_of_i64(limit)));
        crate::codec::lemma_cat_split(s, pos, be32(0) + be32(6), ta);
        crate::codec::lemma_cat_split(s, pos, be32(0), be32(6));
        crate::codec::lemma_rd32(s, pos, 0);
        crate::codec::lemma_rd32(s, pos + 4, 6);
        crate::bytesutil::lemma_signed64_round_trip(limit);
        if asset_code.len() <= 4 {
            let pad = zeros(4 - asset_code.len());
            let body = be32(1) + asset_code + pad;
            assert(ta =~= (body + be32(0)) + issuer);
            crate::codec::lemma_cat_split(s, pos + 8, body + be32(0), issuer);
            crate::codec::lemma_cat_split(s, pos + 8, body, be32(0));
            assert(body =~= be32(1) + (asset_code + pad));
            crate::codec::lemma_cat_split(s, pos + 8, be32(1), asset_code + pad);
            crate::codec::lemma_rd32(s, pos + 8, 1);
            crate::codec::lemma_rd32(s, pos + 16, 0);
            assert(s.subrange(pos + 12, pos + 16) == asset_code + pad);
            lemma_strip_pad(asset_code, 4 - asset_code.len() as int);
            assert(s.subrange(pos + 20, pos + 52) == issuer);
            crate::codec::lemma_rd64(s, pos + 52, u64_of_i64(limit));
        } else {
            let pad = zeros(12 - asset_code.len());
            let body = be32(2) + asset_code + pad;
            assert(ta =~= (body + be32(0)) + issuer);
            crate::codec::lemma_cat_split(s, pos + 8, body + be32(0), issuer);
            crate::codec::lemma_cat_split(s, pos + 8, body, be32(0));
            assert(body =~= be32(2) + (asset_code + pad));
            crate::codec::lemma_cat_split(s, pos + 8, be32(2), asset_code + pad);
            crate::codec::lemma_rd32(s, pos + 8, 2);
            crate::codec::lemma_rd32(s, pos + 24, 0);
            assert(s.subrange(pos + 12, pos + 24) == asset_code + pad);
            lemma_strip_pad(asset_code, 12 - asset_code.len() as int);
            assert(s.subrange(pos + 28, pos + 60) == issuer);
            crate::codec::lemma_rd64(s, pos + 60, u64_of_i64(limit));
        }
    }
}

/// Round trip for the single operation written at `pos`.
pub proof fn lemma_dec_enc_op(s: Seq<u8>, pos: int, o: OpModel)
    requires
        wf_op(o),
        0 <= pos,
        pos + enc_op(o).len() <= s.len(),
        s.subrange(pos, pos + enc_op(o).len()) == enc_op(o),
    ensures
        dec_op(s, pos) == Some((o, pos + enc_op(o).len())),
{
    match o {
        OpModel::Invoke { .. } => lemma_dec_enc_op_invoke(s, pos, o),
        OpModel::ChangeTrust { .. } => lemma_dec_enc_op_change_trust(s, pos, o),
    }
}


} // verus!
