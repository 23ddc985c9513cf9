//! The tagged binary value model used for contract arguments and storage.
//!
//! `EncodedValue` is the executable representation; `ValueModel` is its
//! mathematical image, used by every contract in the crate.
use vstd::prelude::*;
use vstd::slice::slice_to_vec;

use crate::address::Address;
use crate::errors::CoreError;

verus! {

/// One entry of an ordered wire mapping.
#[derive(Debug, PartialEq, Eq)]
pub struct MapEntry {
    pub key: EncodedValue,
    pub val: EncodedValue,
}

/// A value of the ledger's tagged, length-prefixed binary format.
///
/// The variant set mirrors the wire tags the core produces and reads.  A
/// sequence or mapping body is optional on the wire, so those variants carry
/// an `Option`.  Mapping entries keep wire order; the format demands keys in
/// its own ascending key order, which this codec neither imposes nor checks.
#[derive(Debug, PartialEq, Eq)]
pub enum EncodedValue {
    U32(u32),
    I32(i32),
    U64(u64),
    I64(i64),
    /// A 128-bit integer as two halves; the value is `hi * 2^64 + lo`.
    I128 { hi: i64, lo: u64 },
    Bytes(Vec<u8>),
    /// A symbol of at most 32 bytes.
    Symbol(Vec<u8>),
    Sequence(Option<Vec<EncodedValue>>),
    Mapping(Option<Vec<MapEntry>>),
    AddressVal(Address),
    /// The sentinel key addressing a contract's instance storage slot.
    InstanceMarker,
}

/// The mathematical image of an `Address`.
pub enum AddrModel {
    Account(Seq<u8>),
    Contract(Seq<u8>),
}

/// The mathematical image of a `MapEntry`.
pub struct EntryModel {
    pub key: ValueModel,
    pub val: ValueModel,
}

/// The mathematical image of an `EncodedValue`.
pub enum ValueModel {
    U32(u32),
    I32(i32),
    U64(u64),
    I64(i64),
    I128 { hi: i64, lo: u64 },
    Bytes(Seq<u8>),
    Symbol(Seq<u8>),
    Sequence(Option<Seq<ValueModel>>),
    Mapping(Option<Seq<EntryModel>>),
    AddressVal(AddrModel),
    InstanceMarker,
}

impl AddrModel {
    /// The raw 32 bytes behind either kind.
    pub open spec fn raw(self) -> Seq<u8> {
        match self {
            AddrModel::Account(b) => b,
            AddrModel::Contract(b) => b,
        }
    }

    /// Both kinds carry exactly 32 raw bytes.
    pub open spec fn wf(self) -> bool {
        self.raw().len() == 32
    }
}

impl View for Address {
    type V = AddrModel;

    open spec fn view(&self) -> AddrModel {
        match self {
            Address::Account(b) => AddrModel::Account(b@),
            Address::Contract(b) => AddrModel::Contract(b@),
        }
    }
}

/// The model of an executable value.
pub open spec fn value_model(v: EncodedValue) -> ValueModel
    decreases v,
    via value_model_decreases
{
    match v {
        EncodedValue::U32(x) => ValueModel::U32(x),
        EncodedValue::I32(x) => ValueModel::I32(x),
        EncodedValue::U64(x) => ValueModel::U64(x),
        EncodedValue::I64(x) => ValueModel::I64(x),
        EncodedValue::I128 { hi, lo } => ValueModel::I128 { hi, lo },
        EncodedValue::Bytes(b) => ValueModel::Bytes(b@),
        EncodedValue::Symbol(s) => ValueModel::Symbol(s@),
        EncodedValue::Sequence(o) => ValueModel::Sequence(
            match o {
                Option::None => Option::None,
                Option::Some(items) => Option::Some(list_model(items@)),
            },
        ),
        EncodedValue::Mapping(o) => ValueModel::Mapping(
            match o {
                Option::None => Option::None,
                Option::Some(entries) => Option::Some(entries_model(entries@)),
            },
        ),
        EncodedValue::AddressVal(a) => ValueModel::AddressVal(a@),
        EncodedValue::InstanceMarker => ValueModel::InstanceMarker,
    }
}

/// The models of a list of executable values, in order.
pub open spec fn list_model(s: Seq<EncodedValue>) -> Seq<ValueModel>
    decreases s,
    via list_model_decreases
{
    if s.len() == 0 {
        Seq::empty()
    } else {
        seq![value_model(s[0])] + list_model(s.drop_first())
    }
}

/// The models of a list of executable mapping entries, in order.
pub open spec fn entries_model(s: Seq<MapEntry>) -> Seq<EntryModel>
    decreases s,
    via entries_model_decreases
{
    if s.len() == 0 {
        Seq::empty()
    } else {
        seq![EntryModel { key: value_model(s[0].key), val: value_model(s[0].val) }]
            + entries_model(s.drop_first())
    }
}

#[via_fn]
proof fn value_model_decreases(v: EncodedValue) {
    match v {
        EncodedValue::Sequence(o) => {
            if let Option::Some(items) = o {
                assert(decreases_to!(v => items));
                broadcast use vstd::std_specs::vec::axiom_vec_decreases_to_view;

                assert(decreases_to!(items => items@));
            }
        }
        EncodedValue::Mapping(o) => {
            if let Option::Some(entries) = o {
                assert(decreases_to!(v => entries));
                broadcast use vstd::std_specs::vec::axiom_vec_decreases_to_view;

                assert(decreases_to!(entries => entries@));
            }
        }
        _ => {}
    }
}

#[via_fn]
proof fn list_model_decreases(s: Seq<EncodedValue>) {
    if s.len() > 0 {
        vstd::seq::axiom_seq_index_decreases(s, 0);
        vstd::seq::axiom_seq_subrange_decreases(s, 1, s.len() as int);
    }
}

#[via_fn]
proof fn entries_model_decreases(s: Seq<MapEntry>) {
    if s.len() > 0 {
        vstd::seq::axiom_seq_index_decreases(s, 0);
        vstd::seq::axiom_seq_subrange_decreases(s, 1, s.len() as int);
        assert(decreases_to!(s[0] => s[0].key));
        assert(decreases_to!(s[0] => s[0].val));
    }
}

pub proof fn lemma_list_model_len(s: Seq<EncodedValue>)
    ensures
        list_model(s).len() == s.len(),
        forall|i: int| 0 <= i < s.len() ==> list_model(s)[i] == value_model(#[trigger] s[i]),
    decreases s.len(),
{
    if s.len() > 0 {
        lemma_list_model_len(s.drop_first());
        assert(forall|i: int|
            1 <= i < s.len() ==> s.drop_first()[i - 1] == #[trigger] s[i]);
    }
}

pub proof fn lemma_entries_model_len(s: Seq<MapEntry>)
    ensures
        entries_model(s).len() == s.len(),
        forall|i: int|
            0 <= i < s.len() ==> entries_model(s)[i] == (EntryModel {
                key: value_model(#[trigger] s[i].key),
                val: value_model(s[i].val),
            }),
    decreases s.len(),
{
    if s.len() > 0 {
        lemma_entries_model_len(s.drop_first());
        assert(forall|i: int|
            1 <= i < s.len() ==> s.drop_first()[i - 1] == #[trigger] s[i]);
    }
}

pub proof fn lemma_list_model_snoc(s: Seq<EncodedValue>, v: EncodedValue)
    ensures
        list_model(s.push(v)) == list_model(s) + seq![value_model(v)],
{
    lemma_list_model_len(s.push(v));
    lemma_list_model_len(s);
    assert forall|i: int| 0 <= i < s.len() + 1 implies list_model(s.push(v))[i] == (list_model(s)
        + seq![value_model(v)])[i] by {
        if i < s.len() {
            assert(s.push(v)[i] == s[i]);
        } else {
            assert(s.push(v)[i] == v);
        }
    }
    assert(list_model(s.push(v)) =~= list_model(s) + seq![value_model(v)]);
}

pub proof fn lemma_entries_model_snoc(s: Seq<MapEntry>, e: MapEntry)
    ensures
        entries_model(s.push(e)) == entries_model(s) + seq![
            EntryModel { key: value_model(e.key), val: value_model(e.val) },
        ],
{
    lemma_entries_model_len(s.push(e));
    lemma_entries_model_len(s);
    let tail = seq![EntryModel { key: value_model(e.key), val: value_model(e.val) }];
    assert forall|i: int| 0 <= i < s.len() + 1 implies entries_model(s.push(e))[i] == (
    entries_model(s) + tail)[i] by {
        assert(entries_model(s.push(e))[i] == (EntryModel {
            key: value_model(s.push(e)[i].key),
            val: value_model(s.push(e)[i].val),
        }));
        if i < s.len() {
            assert(s.push(e)[i] == s[i]);
            assert(entries_model(s)[i] == (EntryModel {
                key: value_model(s[i].key),
                val: value_model(s[i].val),
            }));
        } else {
            assert(s.push(e)[i] == e);
        }
    }
    assert(entries_model(s.push(e)) =~= entries_model(s) + tail);
}

impl View for EncodedValue {
    type V = ValueModel;

    open spec fn view(&self) -> ValueModel {
        value_model(*self)
    }
}

impl View for MapEntry {
    type V = EntryModel;

    open spec fn view(&self) -> EntryModel {
        EntryModel { key: value_model(self.key), val: value_model(self.val) }
    }
}

/// Structural validity: symbol and count limits hold recursively.
pub open spec fn wf_model(m: ValueModel) -> bool
    decreases m,
{
    match m {
        ValueModel::U32(_) => true,
        ValueModel::I32(_) => true,
        ValueModel::U64(_) => true,
        ValueModel::I64(_) => true,
        ValueModel::I128 { .. } => true,
        ValueModel::Bytes(b) => b.len() <= u32::MAX,
        ValueModel::Symbol(s) => s.len() <= 32,
        ValueModel::Sequence(o) => match o {
            Option::None => true,
            Option::Some(ms) => ms.len() <= u32::MAX && (forall|i: int|
                0 <= i < ms.len() ==> wf_model(#[trigger] ms[i])),
        },
        ValueModel::Mapping(o) => match o {
            Option::None => true,
            Option::Some(es) => es.len() <= u32::MAX && (forall|i: int|
                0 <= i < es.len() ==> wf_model(#[trigger] es[i].key) && wf_model(es[i].val)),
        },
        ValueModel::AddressVal(a) => a.wf(),
        ValueModel::InstanceMarker => true,
    }
}

/// Builds a symbol value, refusing text longer than the 32-byte wire limit.
pub fn symbol_value(text: &[u8]) -> (r: Result<EncodedValue, CoreError>)
    ensures
        text@.len() <= 32 ==> (r matches Ok(v) && v@ == ValueModel::Symbol(text@)),
        text@.len() > 32 ==> r == Err::<EncodedValue, _>(CoreError::SymbolTooLong),
        r matches Ok(v) ==> wf_model(v@),
{
    if text.len() > 32 {
        Err(CoreError::SymbolTooLong)
    } else {
        let v = slice_to_vec(text);
        Ok(EncodedValue::Symbol(v))
    }
}

/// Splits a 128-bit integer into the wire's `(hi, lo)` halves.
///
/// The mathematical value always satisfies `hi * 2^64 + lo == amount`.
pub fn i128_parts(amount: i128) -> (r: (i64, u64))
    ensures
        r.0 * 0x1_0000_0000_0000_0000 + r.1 == amount as int,
{
    let hi: i64 = (amount >> 64) as i64;
    let lo: u64 = amount as u64;
    proof {
        assert(((amount >> 64) as i64) * 0x1_0000_0000_0000_0000 + (amount as u64) == amount)
            by (bit_vector);
    }
    (hi, lo)
}

/// Builds the 128-bit integer value for a mathematical amount.
pub fn i128_value(amount: i128) -> (r: EncodedValue)
    ensures
        r@ matches ValueModel::I128 { hi, lo } && hi * 0x1_0000_0000_0000_0000 + lo
            == amount as int,
        wf_model(r@),
{
    let (hi, lo) = i128_parts(amount);
    EncodedValue::I128 { hi, lo }
}


/// Copies a value; the copy has the same model.
#[verifier::loop_isolation(false)]
#[verifier::spinoff_prover]
pub fn clone_value(v: &EncodedValue) -> (r: EncodedValue)
    ensures
        value_model(r) == value_model(*v),
    decreases *v,
{
    match v {
        EncodedValue::U32(x) => EncodedValue::U32(*x),
        EncodedValue::I32(x) => EncodedValue::I32(*x),
        EncodedValue::U64(x) => EncodedValue::U64(*x),
        EncodedValue::I64(x) => EncodedValue::I64(*x),
        EncodedValue::I128 { hi, lo } => EncodedValue::I128 { hi: *hi, lo: *lo },
        EncodedValue::Bytes(b) => EncodedValue::Bytes(slice_to_vec(b.as_slice())),
        EncodedValue::Symbol(s) => EncodedValue::Symbol(slice_to_vec(s.as_slice())),
        EncodedValue::Sequence(o) => {
            match o {
                Option::None => EncodedValue::Sequence(None),
                Option::Some(items) => {
                    let ghost lm = list_model(items@);
                    proof {
                        lemma_list_model_len(items@);
                    }
                    let n = items.len();
                    let mut out: Vec<EncodedValue> = Vec::new();
                    let mut i: usize = 0;
                    proof {
                        assert(out@ =~= Seq::<EncodedValue>::empty());
                        assert(list_model(out@) =~= lm.take(0));
                    }
                    while i < n
                        invariant
                            i <= n,
                            n == items@.len(),
                            lm == list_model(items@),
                            list_model(out@) == lm.take(i as int),
                        decreases n - i,
                    {
                        let ghost pre = out@;
                        proof {
                            assert(decreases_to!(*v => *items));
                            broadcast use vstd::std_specs::vec::axiom_vec_decreases_to_view;

                            assert(decreases_to!(*items => items@));
                            vstd::seq::axiom_seq_index_decreases(items@, i as int);
                        }
                        let c = clone_value(&items[i]);
                        out.push(c);
                        proof {
                            lemma_list_model_snoc(pre, c);
                            assert(lm[i as int] == value_model(items@[i as int]));
                            assert(lm.take(i + 1 as int) =~= lm.take(i as int).push(lm[i as int]));
                        }
                        i = i + 1;
                    }
                    proof {
                        assert(lm.take(n as int) =~= lm);
                    }
                    EncodedValue::Sequence(Some(out))
                }
            }
        }
        EncodedValue::Mapping(o) => {
            match o {
                Option::None => EncodedValue::Mapping(None),
                Option::Some(entries) => {
                    let ghost em = entries_model(entries@);
                    proof {
                        lemma_entries_model_len(entries@);
                    }
                    let n = entries.len();
                    let mut out: Vec<MapEntry> = Vec::new();
                    let mut i: usize = 0;
                    proof {
                        assert(out@ =~= Seq::<MapEntry>::empty());
                        assert(entries_model(out@) =~= em.take(0));
                    }
                    while i < n
                        invariant
                            i <= n,
                            n == entries@.len(),
                            em == entries_model(entries@),
                            entries_model(out@) == em.take(i as int),
                        decreases n - i,
                    {
                        let ghost pre = out@;
                        proof {
                            assert(decreases_to!(*v => *entries));
                            broadcast use vstd::std_specs::vec::axiom_vec_decreases_to_view;

                            assert(decreases_to!(*entries => entries@));
                            vstd::seq::axiom_seq_index_decreases(entries@, i as int);
                            assert(decreases_to!(entries@[i as int] => entries@[i as int].key));
                            assert(decreases_to!(entries@[i as int] => entries@[i as int].val));
                        }
                        let ck = clone_value(&entries[i].key);
                        let cv = clone_value(&entries[i].val);
                        let e = MapEntry { key: ck, val: cv };
                        out.push(e);
                        proof {
                            lemma_entries_model_snoc(pre, e);
                            assert(em[i as int] == (EntryModel {
                                key: value_model(entries@[i as int].key),
                                val: value_model(entries@[i as int].val),
                            }));
                            assert(em.take(i + 1 as int) =~= em.take(i as int).push(em[i as int]));
                        }
                        i = i + 1;
                    }
                    proof {
                        assert(em.take(n as int) =~= em);
                    }
                    EncodedValue::Mapping(Some(out))
                }
            }
        }
        EncodedValue::AddressVal(a) => EncodedValue::AddressVal(crate::address::clone_address(a)),
        EncodedValue::InstanceMarker => EncodedValue::InstanceMarker,
    }
}

/// Copies a list of values; the copy has the same models in order.
#[verifier::loop_isolation(false)]
pub fn clone_values(items: &Vec<EncodedValue>) -> (r: Vec<EncodedValue>)
    ensures
        list_model(r@) == list_model(items@),
{
    let ghost lm = list_model(items@);
    proof {
        lemma_list_model_len(items@);
    }
    let n = items.len();
    let mut out: Vec<EncodedValue> = Vec::new();
    let mut i: usize = 0;
    proof {
        assert(out@ =~= Seq::<EncodedValue>::empty());
        assert(list_model(out@) =~= lm.take(0));
    }
    while i < n
        invariant
            i <= n,
            n == items@.len(),
            lm == list_model(items@),
            list_model(out@) == lm.take(i as int),
        decreases n - i,
    {
        let ghost pre = out@;
        let c = clone_value(&items[i]);
        out.push(c);
        proof {
            lemma_list_model_snoc(pre, c);
            assert(lm[i as int] == value_model(items@[i as int]));
            assert(lm.take(i + 1 as int) =~= lm.take(i as int).push(lm[i as int]));
        }
        i = i + 1;
    }
    proof {
        assert(lm.take(n as int) =~= lm);
    }
    out
}

} // verus!