//! The binary value codec: tag constants, the specification-level encoding
//! and decoding functions, the executable encoder and decoder, and the
//! round-trip and soundness lemmas relating them.
//!
//! The wire layout is fixed by the external ledger: a four-byte big-endian
//! tag, then a payload.  Variable-length payloads carry a four-byte count and
//! are zero-padded to a four-byte boundary.
use vstd::prelude::*;

use crate::address::Address;
use crate::bytesutil::{
    be32, be32_val, be64, be64_val, i32_of_u32, i64_of_u64, lemma_be32_of_be32_val,
    lemma_be32_val_of_be32, lemma_be64_val_of_be64, push_be32, push_be64, push_slice, push_zeros,
    read_be32, read_be64, u32_of_i32, u64_of_i64, zeros,
};
use crate::errors::CoreError;
use crate::values::{
    entries_model, lemma_entries_model_len, lemma_list_model_len, list_model, value_model,
    wf_model, AddrModel, EncodedValue, EntryModel, MapEntry, ValueModel,
};

verus! {

pub const TAG_U32: u32 = 3;

pub const TAG_I32: u32 = 4;

pub const TAG_U64: u32 = 5;

pub const TAG_I64: u32 = 6;

pub const TAG_I128: u32 = 10;

pub const TAG_BYTES: u32 = 13;

pub const TAG_SYMBOL: u32 = 15;

pub const TAG_VEC: u32 = 16;

pub const TAG_MAP: u32 = 17;

pub const TAG_ADDRESS: u32 = 18;

pub const TAG_INSTANCE_MARKER: u32 = 20;

pub const ADDR_KIND_ACCOUNT: u32 = 0;

pub const ADDR_KIND_CONTRACT: u32 = 1;

/// Zero bytes needed to reach the next four-byte boundary.
pub open spec fn pad_len(n: int) -> int {
    if n % 4 == 0 {
        0
    } else {
        4 - (n % 4)
    }
}

/// A count-prefixed, zero-padded opaque byte payload.
pub open spec fn enc_opaque(b: Seq<u8>) -> Seq<u8> {
    be32(b.len() as u32) + b + zeros(pad_len(b.len() as int))
}

/// The wire form of an address: a kind discriminant, then the raw key.  An
/// account key carries one more discriminant for its key type.
pub open spec fn enc_addr(a: AddrModel) -> Seq<u8> {
    match a {
        AddrModel::Account(b) => be32(ADDR_KIND_ACCOUNT) + be32(0) + b,
        AddrModel::Contract(b) => be32(ADDR_KIND_CONTRACT) + b,
    }
}

/// The wire encoding of a value.
pub open spec fn enc_value(m: ValueModel) -> Seq<u8>
    decreases m,
{
    match m {
        ValueModel::U32(x) => be32(TAG_U32) + be32(x),
        ValueModel::I32(x) => be32(TAG_I32) + be32(u32_of_i32(x)),
        ValueModel::U64(x) => be32(TAG_U64) + be64(x),
        ValueModel::I64(x) => be32(TAG_I64) + be64(u64_of_i64(x)),
        ValueModel::I128 { hi, lo } => be32(TAG_I128) + be64(u64_of_i64(hi)) + be64(lo),
        ValueModel::Bytes(b) => be32(TAG_BYTES) + enc_opaque(b),
        ValueModel::Symbol(s) => be32(TAG_SYMBOL) + enc_opaque(s),
        ValueModel::Sequence(o) => match o {
            Option::None => be32(TAG_VEC) + be32(0),
            Option::Some(ms) => be32(TAG_VEC) + be32(1) + be32(ms.len() as u32) + enc_list(ms),
        },
        ValueModel::Mapping(o) => match o {
            Option::None => be32(TAG_MAP) + be32(0),
            Option::Some(es) => be32(TAG_MAP) + be32(1) + be32(es.len() as u32) + enc_entries(es),
        },
        ValueModel::AddressVal(a) => be32(TAG_ADDRESS) + enc_addr(a),
        ValueModel::InstanceMarker => be32(TAG_INSTANCE_MARKER),
    }
}

/// The concatenated encodings of a sequence body.
pub open spec fn enc_list(ms: Seq<ValueModel>) -> Seq<u8>
    decreases ms,
    via enc_list_decreases
{
    if ms.len() == 0 {
        Seq::empty()
    } else {
        enc_value(ms[0]) + enc_list(ms.drop_first())
    }
}

/// The concatenated key/value encodings of a mapping body.
pub open spec fn enc_entries(es: Seq<EntryModel>) -> Seq<u8>
    decreases es,
    via enc_entries_decreases
{
    if es.len() == 0 {
        Seq::empty()
    } else {
        enc_value(es[0].key) + enc_value(es[0].val) + enc_entries(es.drop_first())
    }
}

#[via_fn]
proof fn enc_list_decreases(ms: Seq<ValueModel>) {
    if ms.len() > 0 {
        vstd::seq::axiom_seq_index_decreases(ms, 0);
        vstd::seq::axiom_seq_subrange_decreases(ms, 1, ms.len() as int);
    }
}

#[via_fn]
proof fn enc_entries_decreases(es: Seq<EntryModel>) {
    if es.len() > 0 {
        vstd::seq::axiom_seq_index_decreases(es, 0);
        vstd::seq::axiom_seq_subrange_decreases(es, 1, es.len() as int);
        assert(decreases_to!(es[0] => es[0].key));
        assert(decreases_to!(es[0] => es[0].val));
    }
}

pub proof fn lemma_enc_list_snoc(ms: Seq<ValueModel>, m: ValueModel)
    ensures
        enc_list(ms.push(m)) == enc_list(ms) + enc_value(m),
    decreases ms.len(),
{
    let whole = ms.push(m);
    if ms.len() == 0 {
        assert(whole.len() == 1);
        assert(whole[0] == m);
        assert(whole.drop_first() =~= Seq::<ValueModel>::empty());
        assert(enc_list(whole.drop_first()) == Seq::<u8>::empty());
        assert(enc_list(ms) == Seq::<u8>::empty());
        assert(enc_list(whole) =~= enc_list(ms) + enc_value(m));
    } else {
        lemma_enc_list_snoc(ms.drop_first(), m);
        assert(whole.drop_first() =~= ms.drop_first().push(m));
        assert(whole[0] == ms[0]);
        assert(enc_list(whole) =~= enc_list(ms) + enc_value(m));
    }
}

pub proof fn lemma_enc_entries_snoc(es: Seq<EntryModel>, e: EntryModel)
    ensures
        enc_entries(es.push(e)) == enc_entries(es) + enc_value(e.key) + enc_value(e.val),
    decreases es.len(),
{
    let whole = es.push(e);
    if es.len() == 0 {
        assert(whole.len() == 1);
        assert(whole[0] == e);
        assert(whole.drop_first() =~= Seq::<EntryModel>::empty());
        assert(enc_entries(whole.drop_first()) == Seq::<u8>::empty());
        assert(enc_entries(es) == Seq::<u8>::empty());
        assert(enc_entries(whole) =~= enc_entries(es) + enc_value(e.key) + enc_value(e.val));
    } else {
        lemma_enc_entries_snoc(es.drop_first(), e);
        assert(whole.drop_first() =~= es.drop_first().push(e));
        assert(whole[0] == es[0]);
        assert(enc_entries(whole) =~= enc_entries(es) + enc_value(e.key) + enc_value(e.val));
    }
}

/// Appends a count-prefixed, zero-padded byte payload.
pub fn push_opaque(out: &mut Vec<u8>, b: &[u8])
    requires
        b@.len() <= u32::MAX,
    ensures
        final(out)@ == old(out)@ + enc_opaque(b@),
{
    push_be32(out, b.len() as u32);
    push_slice(out, b);
    let rem: usize = b.len() % 4;
    let pad: usize = if rem == 0 {
        0
    } else {
        4 - rem
    };
    push_zeros(out, pad);
    assert(final(out)@ =~= old(out)@ + enc_opaque(b@));
}

/// Appends the wire form of an address.
fn push_addr(out: &mut Vec<u8>, a: &Address)
    ensures
        final(out)@ == old(out)@ + enc_addr(a@),
{
    match a {
        Address::Account(b) => {
            push_be32(out, ADDR_KIND_ACCOUNT);
            push_be32(out, 0);
            push_slice(out, b.as_slice());
            assert(final(out)@ =~= old(out)@ + enc_addr(a@));
        }
        Address::Contract(b) => {
            push_be32(out, ADDR_KIND_CONTRACT);
            push_slice(out, b.as_slice());
            assert(final(out)@ =~= old(out)@ + enc_addr(a@));
        }
    }
}

/// Appends the wire encoding of `v` to `out`.
#[verifier::loop_isolation(false)]
pub fn encode_into(v: &EncodedValue, out: &mut Vec<u8>)
    requires
        wf_model(v@),
    ensures
        final(out)@ == old(out)@ + enc_value(v@),
    decreases *v,
{
    match v {
        EncodedValue::U32(x) => {
            push_be32(out, TAG_U32);
            push_be32(out, *x);
            assert(final(out)@ =~= old(out)@ + enc_value(v@));
        }
        EncodedValue::I32(x) => {
            push_be32(out, TAG_I32);
            push_be32(out, crate::bytesutil::u32_rep(*x));
            assert(final(out)@ =~= old(out)@ + enc_value(v@));
        }
        EncodedValue::U64(x) => {
            push_be32(out, TAG_U64);
            push_be64(out, *x);
            assert(final(out)@ =~= old(out)@ + enc_value(v@));
        }
        EncodedValue::I64(x) => {
            push_be32(out, TAG_I64);
            push_be64(out, crate::bytesutil::u64_rep(*x));
            assert(final(out)@ =~= old(out)@ + enc_value(v@));
        }
        EncodedValue::I128 { hi, lo } => {
            push_be32(out, TAG_I128);
            push_be64(out, crate::bytesutil::u64_rep(*hi));
            push_be64(out, *lo);
            assert(final(out)@ =~= old(out)@ + enc_value(v@));
        }
        EncodedValue::Bytes(b) => {
            push_be32(out, TAG_BYTES);
            push_opaque(out, b.as_slice());
            assert(final(out)@ =~= old(out)@ + enc_value(v@));
        }
        EncodedValue::Symbol(s) => {
            push_be32(out, TAG_SYMBOL);
            push_opaque(out, s.as_slice());
            assert(final(out)@ =~= old(out)@ + enc_value(v@));
        }
        EncodedValue::Sequence(o) => {
            match o {
                Option::None => {
                    push_be32(out, TAG_VEC);
                    push_be32(out, 0);
                    assert(final(out)@ =~= old(out)@ + enc_value(v@));
                }
                Option::Some(items) => {
                    let ghost lm = list_model(items@);
                    proof {
                        lemma_list_model_len(items@);
                    }
                    push_be32(out, TAG_VEC);
                    push_be32(out, 1);
                    push_be32(out, items.len() as u32);
                    let ghost head = out@;
                    let n = items.len();
                    let mut i: usize = 0;
                    while i < n
                        invariant
                            i <= n,
                            n == items@.len(),
                            lm == list_model(items@),
                            lm.len() == n,
                            forall|j: int| 0 <= j < n ==> lm[j] == value_model(#[trigger] items@[j]),
                            forall|j: int| 0 <= j < n ==> wf_model(#[trigger] lm[j]),
                            out@ == head + enc_list(lm.take(i as int)),
                        decreases n - i,
                    {
                        proof {
                            assert(decreases_to!(*v => *items));
                            broadcast use vstd::std_specs::vec::axiom_vec_decreases_to_view;

                            assert(decreases_to!(*items => items@));
                            vstd::seq::axiom_seq_index_decreases(items@, i as int);
                        }
                        encode_into(&items[i], out);
                        proof {
                            lemma_enc_list_snoc(lm.take(i as int), lm[i as int]);
                            assert(lm.take(i + 1 as int) =~= lm.take(i as int).push(lm[i as int]));
                        }
                        i = i + 1;
                    }
                    proof {
                        assert(lm.take(n as int) =~= lm);
                    }
                    assert(final(out)@ =~= old(out)@ + enc_value(v@));
                }
            }
        }
        EncodedValue::Mapping(o) => {
            match o {
                Option::None => {
                    push_be32(out, TAG_MAP);
                    push_be32(out, 0);
                    assert(final(out)@ =~= old(out)@ + enc_value(v@));
                }
                Option::Some(entries) => {
                    let ghost em = entries_model(entries@);
                    proof {
                        lemma_entries_model_len(entries@);
                    }
                    push_be32(out, TAG_MAP);
                    push_be32(out, 1);
                    push_be32(out, entries.len() as u32);
                    let ghost head = out@;
                    let n = entries.len();
                    let mut i: usize = 0;
                    while i < n
                        invariant
                            i <= n,
                            n == entries@.len(),
                            em == entries_model(entries@),
                            em.len() == n,
                            forall|j: int|
                                0 <= j < n ==> em[j] == (EntryModel {
                                    key: value_model(#[trigger] entries@[j].key),
                                    val: value_model(entries@[j].val),
                                }),
                            forall|j: int|
                                0 <= j < n ==> wf_model(#[trigger] em[j].key) && wf_model(
                                    em[j].val,
                                ),
                            out@ == head + enc_entries(em.take(i as int)),
                        decreases n - i,
                    {
                        proof {
                            assert(decreases_to!(*v => *entries));
                            broadcast use vstd::std_specs::vec::axiom_vec_decreases_to_view;

                            assert(decreases_to!(*entries => entries@));
                            vstd::seq::axiom_seq_index_decreases(entries@, i as int);
                            assert(decreases_to!(entries@[i as int] => entries@[i as int].key));
                            assert(decreases_to!(entries@[i as int] => entries@[i as int].val));
                            assert(em[i as int].key == value_model(entries@[i as int].key));
                            assert(em[i as int].val == value_model(entries@[i as int].val));
                            assert(wf_model(em[i as int].key));
                            assert(wf_model(em[i as int].val));
                        }
                        encode_into(&entries[i].key, out);
                        encode_into(&entries[i].val, out);
                        proof {
                            lemma_enc_entries_snoc(em.take(i as int), em[i as int]);
                            assert(em.take(i + 1 as int) =~= em.take(i as int).push(em[i as int]));
                            assert(out@ =~= head + enc_entries(em.take(i + 1 as int)));
                        }
                        i = i + 1;
                    }
                    proof {
                        assert(em.take(n as int) =~= em);
                    }
                    assert(final(out)@ =~= old(out)@ + enc_value(v@));
                }
            }
        }
        EncodedValue::AddressVal(a) => {
            push_be32(out, TAG_ADDRESS);
            push_addr(out, a);
            assert(final(out)@ =~= old(out)@ + enc_value(v@));
        }
        EncodedValue::InstanceMarker => {
            push_be32(out, TAG_INSTANCE_MARKER);
            assert(final(out)@ =~= old(out)@ + enc_value(v@));
        }
    }
}

/// Encodes a value to its exact wire bytes.
pub fn encode(v: &EncodedValue) -> (r: Vec<u8>)
    requires
        wf_model(v@),
    ensures
        r@ == enc_value(v@),
{
    let mut out: Vec<u8> = Vec::new();
    encode_into(v, &mut out);
    out
}

/// The 32-bit value read at `pos`; meaningful when `pos + 4 <= s.len()`.
pub open spec fn rd32(s: Seq<u8>, pos: int) -> u32 {
    be32_val(s[pos], s[pos + 1], s[pos + 2], s[pos + 3])
}

/// The 64-bit value read at `pos`; meaningful when `pos + 8 <= s.len()`.
pub open spec fn rd64(s: Seq<u8>, pos: int) -> u64 {
    be64_val(
        s[pos],
        s[pos + 1],
        s[pos + 2],
        s[pos + 3],
        s[pos + 4],
        s[pos + 5],
        s[pos + 6],
        s[pos + 7],
    )
}

/// Decodes a count-prefixed, zero-padded opaque payload starting at `pos`.
pub open spec fn dec_opaque(s: Seq<u8>, pos: int) -> Option<(Seq<u8>, int)> {
    if pos + 4 > s.len() {
        Option::None
    } else {
        let n = rd32(s, pos) as int;
        let body = pos + 4;
        let end = body + n;
        let padded_end = end + pad_len(n);
        if padded_end > s.len() {
            Option::None
        } else if s.subrange(end, padded_end) != zeros(pad_len(n)) {
            Option::None
        } else {
            Option::Some((s.subrange(body, end), padded_end))
        }
    }
}

/// Decodes an address starting at `pos`.
pub open spec fn dec_addr(s: Seq<u8>, pos: int) -> Option<(AddrModel, int)> {
    if pos + 4 > s.len() {
        Option::None
    } else {
        let kind = rd32(s, pos);
        if kind == ADDR_KIND_ACCOUNT {
            if pos + 40 <= s.len() && rd32(s, pos + 4) == 0 {
                Option::Some((AddrModel::Account(s.subrange(pos + 8, pos + 40)), pos + 40))
            } else {
                Option::None
            }
        } else if kind == ADDR_KIND_CONTRACT {
            if pos + 36 <= s.len() {
                Option::Some((AddrModel::Contract(s.subrange(pos + 4, pos + 36)), pos + 36))
            } else {
                Option::None
            }
        } else {
            Option::None
        }
    }
}

/// Decodes one value starting at `pos`; `None` is a hard decode failure.
pub open spec fn dec_value(s: Seq<u8>, pos: int) -> Option<(ValueModel, int)>
    decreases s.len() - pos, 0int, 0int,
{
    if pos < 0 || pos + 4 > s.len() {
        Option::None
    } else {
        let tag = rd32(s, pos);
        let p = pos + 4;
        if tag == TAG_U32 {
            if p + 4 <= s.len() {
                Option::Some((ValueModel::U32(rd32(s, p)), p + 4))
            } else {
                Option::None
            }
        } else if tag == TAG_I32 {
            if p + 4 <= s.len() {
                Option::Some((ValueModel::I32(i32_of_u32(rd32(s, p))), p + 4))
            } else {
                Option::None
            }
        } else if tag == TAG_U64 {
            if p + 8 <= s.len() {
                Option::Some((ValueModel::U64(rd64(s, p)), p + 8))
            } else {
                Option::None
            }
        } else if tag == TAG_I64 {
            if p + 8 <= s.len() {
                Option::Some((ValueModel::I64(i64_of_u64(rd64(s, p))), p + 8))
            } else {
                Option::None
            }
        } else if tag == TAG_I128 {
            if p + 16 <= s.len() {
                Option::Some(
                    (ValueModel::I128 { hi: i64_of_u64(rd64(s, p)), lo: rd64(s, p + 8) }, p + 16),
                )
            } else {
                Option::None
            }
        } else if tag == TAG_BYTES {
            match dec_opaque(s, p) {
                Option::Some((b, p2)) => Option::Some((ValueModel::Bytes(b), p2)),
                Option::None => Option::None,
            }
        } else if tag == TAG_SYMBOL {
            match dec_opaque(s, p) {
                Option::Some((b, p2)) => if b.len() <= 32 {
                    Option::Some((ValueModel::Symbol(b), p2))
                } else {
                    Option::None
                },
                Option::None => Option::None,
            }
        } else if tag == TAG_VEC {
            if p + 4 > s.len() {
                Option::None
            } else {
                let flag = rd32(s, p);
                if flag == 0 {
                    Option::Some((ValueModel::Sequence(Option::None), p + 4))
                } else if flag == 1 {
                    if p + 8 <= s.len() {
                        match dec_list(s, p + 8, rd32(s, p + 4) as int) {
                            Option::Some((ms, p2)) => Option::Some(
                                (ValueModel::Sequence(Option::Some(ms)), p2),
                            ),
                            Option::None => Option::None,
                        }
                    } else {
                        Option::None
                    }
                } else {
                    Option::None
                }
            }
        } else if tag == TAG_MAP {
            if p + 4 > s.len() {
                Option::None
            } else {
                let flag = rd32(s, p);
                if flag == 0 {
                    Option::Some((ValueModel::Mapping(Option::None), p + 4))
                } else if flag == 1 {
                    if p + 8 <= s.len() {
                        match dec_entries(s, p + 8, rd32(s, p + 4) as int) {
                            Option::Some((es, p2)) => Option::Some(
                                (ValueModel::Mapping(Option::Some(es)), p2),
                            ),
                            Option::None => Option::None,
                        }
                    } else {
                        Option::None
                    }
                } else {
                    Option::None
                }
            }
        } else if tag == TAG_ADDRESS {
            match dec_addr(s, p) {
                Option::Some((a, p2)) => Option::Some((ValueModel::AddressVal(a), p2)),
                Option::None => Option::None,
            }
        } else if tag == TAG_INSTANCE_MARKER {
            Option::Some((ValueModel::InstanceMarker, p))
        } else {
            Option::None
        }
    }
}

/// Decodes exactly `n` consecutive values starting at `pos`.
///
/// The position checks around each element always hold of real decodes (see
/// `lemma_dec_value_bounds`); they are spelled out so the recursion is
/// visibly well founded.
pub open spec fn dec_list(s: Seq<u8>, pos: int, n: int) -> Option<(Seq<ValueModel>, int)>
    decreases s.len() - pos, 1int, n,
{
    if n <= 0 {
        Option::Some((Seq::empty(), pos))
    } else {
        match dec_value(s, pos) {
            Option::Some((m, p2)) => if pos < p2 && p2 <= s.len() {
                match dec_list(s, p2, n - 1) {
                    Option::Some((ms, p3)) => Option::Some((seq![m] + ms, p3)),
                    Option::None => Option::None,
                }
            } else {
                Option::None
            },
            Option::None => Option::None,
        }
    }
}

/// Decodes exactly `n` consecutive key/value pairs starting at `pos`.
pub open spec fn dec_entries(s: Seq<u8>, pos: int, n: int) -> Option<(Seq<EntryModel>, int)>
    decreases s.len() - pos, 1int, n,
{
    if n <= 0 {
        Option::Some((Seq::empty(), pos))
    } else {
        match dec_value(s, pos) {
            Option::Some((k, pk)) => if pos < pk && pk <= s.len() {
                match dec_value(s, pk) {
                    Option::Some((vv, pv)) => if pk < pv && pv <= s.len() {
                        match dec_entries(s, pv, n - 1) {
                            Option::Some((es, p3)) => Option::Some(
                                (seq![EntryModel { key: k, val: vv }] + es, p3),
                            ),
                            Option::None => Option::None,
                        }
                    } else {
                        Option::None
                    },
                    Option::None => Option::None,
                }
            } else {
                Option::None
            },
            Option::None => Option::None,
        }
    }
}

/// A whole-buffer decode: one value that consumes every byte.
pub open spec fn dec_top(s: Seq<u8>) -> Option<ValueModel> {
    match dec_value(s, 0) {
        Option::Some((m, p)) => if p == s.len() {
            Option::Some(m)
        } else {
            Option::None
        },
        Option::None => Option::None,
    }
}

/// A concatenation written into `s` at `pos` splits into its two parts.
pub proof fn lemma_cat_split(s: Seq<u8>, pos: int, a: Seq<u8>, b: Seq<u8>)
    requires
        0 <= pos,
        pos + a.len() + b.len() <= s.len(),
        s.subrange(pos, pos + a.len() + b.len()) == a + b,
    ensures
        s.subrange(pos, pos + a.len()) == a,
        s.subrange(pos + a.len(), pos + a.len() + b.len()) == b,
{
    let whole = s.subrange(pos, pos + a.len() + b.len());
    assert forall|i: int| 0 <= i < a.len() implies s.subrange(pos, pos + a.len())[i] == a[i] by {
        assert(whole[i] == (a + b)[i]);
    }
    assert(s.subrange(pos, pos + a.len()) =~= a);
    assert forall|i: int| 0 <= i < b.len() implies s.subrange(
        pos + a.len(),
        pos + a.len() + b.len(),
    )[i] == b[i] by {
        assert(whole[a.len() + i] == (a + b)[a.len() + i]);
    }
    assert(s.subrange(pos + a.len(), pos + a.len() + b.len()) =~= b);
}

/// Reading four bytes that hold `be32(x)` yields `x`.
pub proof fn lemma_rd32(s: Seq<u8>, pos: int, x: u32)
    requires
        0 <= pos,
        pos + 4 <= s.len(),
        s.subrange(pos, pos + 4) == be32(x),
    ensures
        rd32(s, pos) == x,
{
    let sub = s.subrange(pos, pos + 4);
    assert(s[pos] == sub[0] && s[pos + 1] == sub[1] && s[pos + 2] == sub[2] && s[pos + 3]
        == sub[3]);
    lemma_be32_val_of_be32(x);
}

/// Reading eight bytes that hold `be64(x)` yields `x`.
pub proof fn lemma_rd64(s: Seq<u8>, pos: int, x: u64)
    requires
        0 <= pos,
        pos + 8 <= s.len(),
        s.subrange(pos, pos + 8) == be64(x),
    ensures
        rd64(s, pos) == x,
{
    let sub = s.subrange(pos, pos + 8);
    assert(s[pos] == sub[0] && s[pos + 1] == sub[1] && s[pos + 2] == sub[2] && s[pos + 3] == sub[3]
        && s[pos + 4] == sub[4] && s[pos + 5] == sub[5] && s[pos + 6] == sub[6] && s[pos + 7]
        == sub[7]);
    lemma_be64_val_of_be64(x);
}

/// Every encoding starts with a four-byte tag.
pub proof fn lemma_enc_value_min_len(m: ValueModel)
    ensures
        enc_value(m).len() >= 4,
{
}

/// Round trip for the flat (non-nested) variants.
#[verifier::spinoff_prover]
proof fn lemma_dec_enc_flat(s: Seq<u8>, pos: int, m: ValueModel)
    requires
        wf_model(m),
        0 <= pos,
        pos + enc_value(m).len() <= s.len(),
        s.subrange(pos, pos + enc_value(m).len()) == enc_value(m),
        !(m matches ValueModel::Sequence(_)),
        !(m matches ValueModel::Mapping(_)),
    ensures
        dec_value(s, pos) == Some((m, pos + enc_value(m).len())),
{
    match m {
        ValueModel::U32(x) => {
            lemma_cat_split(s, pos, be32(TAG_U32), be32(x));
            lemma_rd32(s, pos, TAG_U32);
            lemma_rd32(s, pos + 4, x);
        }
        ValueModel::I32(x) => {
            lemma_cat_split(s, pos, be32(TAG_I32), be32(u32_of_i32(x)));
            lemma_rd32(s, pos, TAG_I32);
            lemma_rd32(s, pos + 4, u32_of_i32(x));
            crate::bytesutil::lemma_signed32_round_trip(x);
        }
        ValueModel::U64(x) => {
            lemma_cat_split(s, pos, be32(TAG_U64), be64(x));
            lemma_rd32(s, pos, TAG_U64);
            lemma_rd64(s, pos + 4, x);
        }
        ValueModel::I64(x) => {
            lemma_cat_split(s, pos, be32(TAG_I64), be64(u64_of_i64(x)));
            lemma_rd32(s, pos, TAG_I64);
            lemma_rd64(s, pos + 4, u64_of_i64(x));
            crate::bytesutil::lemma_signed64_round_trip(x);
        }
        ValueModel::I128 { hi, lo } => {
            assert(enc_value(m) =~= be32(TAG_I128) + (be64(u64_of_i64(hi)) + be64(lo)));
            lemma_cat_split(s, pos, be32(TAG_I128), be64(u64_of_i64(hi)) + be64(lo));
            lemma_rd32(s, pos, TAG_I128);
            lemma_cat_split(s, pos + 4, be64(u64_of_i64(hi)), be64(lo));
            lemma_rd64(s, pos + 4, u64_of_i64(hi));
            lemma_rd64(s, pos + 12, lo);
            crate::bytesutil::lemma_signed64_round_trip(hi);
        }
        ValueModel::Bytes(b) => {
            lemma_cat_split(s, pos, be32(TAG_BYTES), enc_opaque(b));
            lemma_rd32(s, pos, TAG_BYTES);
            lemma_dec_enc_opaque(s, pos + 4, b);
        }
        ValueModel::Symbol(b) => {
            lemma_cat_split(s, pos, be32(TAG_SYMBOL), enc_opaque(b));
            lemma_rd32(s, pos, TAG_SYMBOL);
            lemma_dec_enc_opaque(s, pos + 4, b);
        }
        ValueModel::AddressVal(a) => {
            lemma_cat_split(s, pos, be32(TAG_ADDRESS), enc_addr(a));
            lemma_rd32(s, pos, TAG_ADDRESS);
            match a {
                AddrModel::Account(b) => {
                    assert(enc_addr(a) =~= (be32(ADDR_KIND_ACCOUNT) + be32(0)) + b);
                    lemma_cat_split(s, pos + 4, be32(ADDR_KIND_ACCOUNT) + be32(0), b);
                    lemma_cat_split(s, pos + 4, be32(ADDR_KIND_ACCOUNT), be32(0));
                    lemma_rd32(s, pos + 4, ADDR_KIND_ACCOUNT);
                    lemma_rd32(s, pos + 8, 0);
                    assert(s.subrange(pos + 12, pos + 44) == b);
                }
                AddrModel::Contract(b) => {
                    lemma_cat_split(s, pos + 4, be32(ADDR_KIND_CONTRACT), b);
                    lemma_rd32(s, pos + 4, ADDR_KIND_CONTRACT);
                    assert(s.subrange(pos + 8, pos + 40) == b);
                }
            }
        }
        ValueModel::InstanceMarker => {
            assert(s.subrange(pos, pos + 4) =~= enc_value(m));
            lemma_rd32(s, pos, TAG_INSTANCE_MARKER);
        }
        _ => {}
    }
}

/// Round trip: decoding an encoding written at `pos` recovers the value.
#[verifier::spinoff_prover]
#[verifier::rlimit(100)]
pub proof fn lemma_dec_enc_value(s: Seq<u8>, pos: int, m: ValueModel)
    requires
        wf_model(m),
        0 <= pos,
        pos + enc_value(m).len() <= s.len(),
        s.subrange(pos, pos + enc_value(m).len()) == enc_value(m),
    ensures
        dec_value(s, pos) == Some((m, pos + enc_value(m).len())),
    decreases m,
{
    let whole = enc_value(m);
    match m {
        ValueModel::Sequence(o) => {
            match o {
                Option::None => {
                    lemma_cat_split(s, pos, be32(TAG_VEC), be32(0));
                    lemma_rd32(s, pos, TAG_VEC);
                    lemma_rd32(s, pos + 4, 0);
                }
                Option::Some(ms) => {
                    let header = be32(TAG_VEC) + be32(1) + be32(ms.len() as u32);
                    assert(whole =~= header + enc_list(ms));
                    lemma_cat_split(s, pos, header, enc_list(ms));
                    assert(header =~= (be32(TAG_VEC) + be32(1)) + be32(ms.len() as u32));
                    lemma_cat_split(s, pos, be32(TAG_VEC) + be32(1), be32(ms.len() as u32));
                    lemma_cat_split(s, pos, be32(TAG_VEC), be32(1));
                    lemma_rd32(s, pos, TAG_VEC);
                    lemma_rd32(s, pos + 4, 1);
                    lemma_rd32(s, pos + 8, ms.len() as u32);
                    lemma_dec_enc_list(s, pos + 12, ms);
                }
            }
        }
        ValueModel::Mapping(o) => {
            match o {
                Option::None => {
                    lemma_cat_split(s, pos, be32(TAG_MAP), be32(0));
                    lemma_rd32(s, pos, TAG_MAP);
                    lemma_rd32(s, pos + 4, 0);
                }
                Option::Some(es) => {
                    let header = be32(TAG_MAP) + be32(1) + be32(es.len() as u32);
                    assert(whole =~= header + enc_entries(es));
                    lemma_cat_split(s, pos, header, enc_entries(es));
                    assert(header =~= (be32(TAG_MAP) + be32(1)) + be32(es.len() as u32));
                    lemma_cat_split(s, pos, be32(TAG_MAP) + be32(1), be32(es.len() as u32));
                    lemma_cat_split(s, pos, be32(TAG_MAP), be32(1));
                    lemma_rd32(s, pos, TAG_MAP);
                    lemma_rd32(s, pos + 4, 1);
                    lemma_rd32(s, pos + 8, es.len() as u32);
                    lemma_dec_enc_entries(s, pos + 12, es);
                }
            }
        }
        _ => {
            lemma_dec_enc_flat(s, pos, m);
        }
    }
}

/// Round trip for an opaque payload.
pub proof fn lemma_dec_enc_opaque(s: Seq<u8>, pos: int, b: Seq<u8>)
    requires
        b.len() <= u32::MAX,
        0 <= pos,
        pos + enc_opaque(b).len() <= s.len(),
        s.subrange(pos, pos + enc_opaque(b).len()) == enc_opaque(b),
    ensures
        dec_opaque(s, pos) == Some((b, pos + enc_opaque(b).len())),
{
    let n = b.len() as int;
    let pad = pad_len(n);
    assert(enc_opaque(b) =~= (be32(b.len() as u32) + b) + zeros(pad));
    lemma_cat_split(s, pos, be32(b.len() as u32) + b, zeros(pad));
    lemma_cat_split(s, pos, be32(b.len() as u32), b);
    lemma_rd32(s, pos, b.len() as u32);
    assert(s.subrange(pos + 4, pos + 4 + n) == b);
    assert(s.subrange(pos + 4 + n, pos + 4 + n + pad) == zeros(pad));
}

/// Round trip for a sequence body of `ms.len()` values.
pub proof fn lemma_dec_enc_list(s: Seq<u8>, pos: int, ms: Seq<ValueModel>)
    requires
        forall|i: int| 0 <= i < ms.len() ==> wf_model(#[trigger] ms[i]),
        0 <= pos,
        pos + enc_list(ms).len() <= s.len(),
        s.subrange(pos, pos + enc_list(ms).len()) == enc_list(ms),
    ensures
        dec_list(s, pos, ms.len() as int) == Some((ms, pos + enc_list(ms).len())),
    decreases ms,
{
    if ms.len() == 0 {
        assert(ms =~= Seq::<ValueModel>::empty());
    } else {
        let head = ms[0];
        let rest = ms.drop_first();
        assert(enc_list(ms) == enc_value(head) + enc_list(rest));
        lemma_cat_split(s, pos, enc_value(head), enc_list(rest));
        lemma_enc_value_min_len(head);
        lemma_dec_enc_value(s, pos, head);
        let p2 = pos + enc_value(head).len();
        vstd::seq::axiom_seq_index_decreases(ms, 0);
        vstd::seq::axiom_seq_subrange_decreases(ms, 1, ms.len() as int);
        assert(forall|i: int| 0 <= i < rest.len() ==> wf_model(#[trigger] rest[i])) by {
            assert(forall|i: int| 0 <= i < rest.len() ==> rest[i] == #[trigger] ms[i + 1]);
        }
        lemma_dec_enc_list(s, p2, rest);
        assert(seq![head] + rest =~= ms);
    }
}

/// Round trip for a mapping body of `es.len()` entries.
pub proof fn lemma_dec_enc_entries(s: Seq<u8>, pos: int, es: Seq<EntryModel>)
    requires
        forall|i: int|
            0 <= i < es.len() ==> wf_model(#[trigger] es[i].key) && wf_model(es[i].val),
        0 <= pos,
        pos + enc_entries(es).len() <= s.len(),
        s.subrange(pos, pos + enc_entries(es).len()) == enc_entries(es),
    ensures
        dec_entries(s, pos, es.len() as int) == Some((es, pos + enc_entries(es).len())),
    decreases es,
{
    if es.len() == 0 {
        assert(es =~= Seq::<EntryModel>::empty());
    } else {
        let head = es[0];
        let rest = es.drop_first();
        assert(enc_entries(es) == enc_value(head.key) + enc_value(head.val) + enc_entries(rest));
        assert(enc_entries(es) =~= enc_value(head.key) + (enc_value(head.val)
            + enc_entries(rest)));
        lemma_cat_split(s, pos, enc_value(head.key), enc_value(head.val) + enc_entries(rest));
        let pk = pos + enc_value(head.key).len();
        lemma_cat_split(s, pk, enc_value(head.val), enc_entries(rest));
        let pv = pk + enc_value(head.val).len();
        lemma_enc_value_min_len(head.key);
        lemma_enc_value_min_len(head.val);
        vstd::seq::axiom_seq_index_decreases(es, 0);
        vstd::seq::axiom_seq_subrange_decreases(es, 1, es.len() as int);
        assert(decreases_to!(es[0] => es[0].key));
        assert(decreases_to!(es[0] => es[0].val));
        lemma_dec_enc_value(s, pos, head.key);
        lemma_dec_enc_value(s, pk, head.val);
        assert(forall|i: int|
            0 <= i < rest.len() ==> wf_model(#[trigger] rest[i].key) && wf_model(rest[i].val)) by {
            assert(forall|i: int| 0 <= i < rest.len() ==> rest[i] == #[trigger] es[i + 1]);
        }
        lemma_dec_enc_entries(s, pv, rest);
        assert(seq![head] + rest =~= es);
    }
}

/// The law behind the codec: every well-formed value decodes from its own
/// encoding, back to itself and consuming every byte.
pub proof fn lemma_round_trip(m: ValueModel)
    requires
        wf_model(m),
    ensures
        dec_top(enc_value(m)) == Some(m),
{
    let s = enc_value(m);
    assert(s.subrange(0, s.len() as int) =~= s);
    lemma_dec_enc_value(s, 0, m);
}

/// The four bytes at `pos` are the encoding of the value read there.
pub proof fn lemma_be32_bytes(s: Seq<u8>, pos: int)
    requires
        0 <= pos,
        pos + 4 <= s.len(),
    ensures
        be32(rd32(s, pos)) == s.subrange(pos, pos + 4),
{
    lemma_be32_of_be32_val(s[pos], s[pos + 1], s[pos + 2], s[pos + 3]);
    assert(s.subrange(pos, pos + 4) =~= seq![s[pos], s[pos + 1], s[pos + 2], s[pos + 3]]);
}

/// The eight bytes at `pos` are the encoding of the value read there.
pub proof fn lemma_be64_bytes(s: Seq<u8>, pos: int)
    requires
        0 <= pos,
        pos + 8 <= s.len(),
    ensures
        be64(rd64(s, pos)) == s.subrange(pos, pos + 8),
{
    crate::bytesutil::lemma_be64_of_be64_val(
        s[pos],
        s[pos + 1],
        s[pos + 2],
        s[pos + 3],
        s[pos + 4],
        s[pos + 5],
        s[pos + 6],
        s[pos + 7],
    );
    assert(s.subrange(pos, pos + 8) =~= seq![
        s[pos],
        s[pos + 1],
        s[pos + 2],
        s[pos + 3],
        s[pos + 4],
        s[pos + 5],
        s[pos + 6],
        s[pos + 7],
    ]);
}

/// Soundness of opaque decoding: the payload re-encodes to the read bytes.
proof fn lemma_dec_opaque_sound(s: Seq<u8>, pos: int)
    requires
        0 <= pos,
    ensures
        dec_opaque(s, pos) matches Some((b, p2)) ==> {
            &&& b.len() <= u32::MAX
            &&& pos + 4 <= p2 <= s.len()
            &&& enc_opaque(b) == s.subrange(pos, p2)
        },
{
    if pos + 4 <= s.len() {
        let n = rd32(s, pos) as int;
        let body = pos + 4;
        let end = body + n;
        let padded_end = end + pad_len(n);
        if padded_end <= s.len() && s.subrange(end, padded_end) == zeros(pad_len(n)) {
            let b = s.subrange(body, end);
            lemma_be32_bytes(s, pos);
            assert(b.len() == n);
            assert(be32(b.len() as u32) == s.subrange(pos, pos + 4));
            assert(enc_opaque(b) == s.subrange(pos, pos + 4) + s.subrange(body, end) + s.subrange(
                end,
                padded_end,
            ));
            assert(s.subrange(pos, pos + 4) + s.subrange(body, end) + s.subrange(end, padded_end)
                =~= s.subrange(pos, padded_end));
        }
    }
}

/// Soundness: whatever decodes is well formed and re-encodes to the very
/// bytes it was read from.
#[verifier::spinoff_prover]
#[verifier::rlimit(100)]
pub proof fn lemma_dec_value_sound(s: Seq<u8>, pos: int)
    ensures
        dec_value(s, pos) matches Some((m, p2)) ==> {
            &&& wf_model(m)
            &&& 0 <= pos
            &&& pos + 4 <= p2 <= s.len()
            &&& enc_value(m) == s.subrange(pos, p2)
        },
    decreases s.len() - pos, 0int, 0int,
{
    if pos < 0 || pos + 4 > s.len() {
    } else {
        let tag = rd32(s, pos);
        let p = pos + 4;
        lemma_be32_bytes(s, pos);
        if tag == TAG_U32 {
            if p + 4 <= s.len() {
                lemma_be32_bytes(s, p);
                assert(s.subrange(pos, p) + s.subrange(p, p + 4) =~= s.subrange(pos, p + 4));
            }
        } else if tag == TAG_I32 {
            if p + 4 <= s.len() {
                lemma_be32_bytes(s, p);
                crate::bytesutil::lemma_unsigned32_round_trip(rd32(s, p));
                assert(s.subrange(pos, p) + s.subrange(p, p + 4) =~= s.subrange(pos, p + 4));
            }
        } else if tag == TAG_U64 {
            if p + 8 <= s.len() {
                lemma_be64_bytes(s, p);
                assert(s.subrange(pos, p) + s.subrange(p, p + 8) =~= s.subrange(pos, p + 8));
            }
        } else if tag == TAG_I64 {
            if p + 8 <= s.len() {
                lemma_be64_bytes(s, p);
                crate::bytesutil::lemma_unsigned64_round_trip(rd64(s, p));
                assert(s.subrange(pos, p) + s.subrange(p, p + 8) =~= s.subrange(pos, p + 8));
            }
        } else if tag == TAG_I128 {
            if p + 16 <= s.len() {
                lemma_be64_bytes(s, p);
                lemma_be64_bytes(s, p + 8);
                crate::bytesutil::lemma_unsigned64_round_trip(rd64(s, p));
                assert(s.subrange(pos, p) + s.subrange(p, p + 8) + s.subrange(p + 8, p + 16) =~= s
                    .subrange(pos, p + 16));
            }
        } else if tag == TAG_BYTES {
            lemma_dec_opaque_sound(s, p);
            if let Option::Some((b, p2)) = dec_opaque(s, p) {
                assert(s.subrange(pos, p) + s.subrange(p, p2) =~= s.subrange(pos, p2));
            }
        } else if tag == TAG_SYMBOL {
            lemma_dec_opaque_sound(s, p);
            if let Option::Some((b, p2)) = dec_opaque(s, p) {
                assert(s.subrange(pos, p) + s.subrange(p, p2) =~= s.subrange(pos, p2));
            }
        } else if tag == TAG_VEC {
            if p + 4 <= s.len() {
                let flag = rd32(s, p);
                lemma_be32_bytes(s, p);
                if flag == 0 {
                    assert(s.subrange(pos, p) + s.subrange(p, p + 4) =~= s.subrange(pos, p + 4));
                } else if flag == 1 && p + 8 <= s.len() {
                    let n = rd32(s, p + 4) as int;
                    lemma_be32_bytes(s, p + 4);
                    lemma_dec_list_sound(s, p + 8, n);
                    if let Option::Some((ms, p2)) = dec_list(s, p + 8, n) {
                        assert(ms.len() == n);
                        assert(be32(ms.len() as u32) == s.subrange(p + 4, p + 8));
                        assert(s.subrange(pos, p) + s.subrange(p, p + 4) + s.subrange(p + 4, p + 8)
                            + s.subrange(p + 8, p2) =~= s.subrange(pos, p2));
                    }
                }
            }
        } else if tag == TAG_MAP {
            if p + 4 <= s.len() {
                let flag = rd32(s, p);
                lemma_be32_bytes(s, p);
                if flag == 0 {
                    assert(s.subrange(pos, p) + s.subrange(p, p + 4) =~= s.subrange(pos, p + 4));
                } else if flag == 1 && p + 8 <= s.len() {
                    let n = rd32(s, p + 4) as int;
                    lemma_be32_bytes(s, p + 4);
                    lemma_dec_entries_sound(s, p + 8, n);
                    if let Option::Some((es, p2)) = dec_entries(s, p + 8, n) {
                        assert(es.len() == n);
                        assert(be32(es.len() as u32) == s.subrange(p + 4, p + 8));
                        assert(s.subrange(pos, p) + s.subrange(p, p + 4) + s.subrange(p + 4, p + 8)
                            + s.subrange(p + 8, p2) =~= s.subrange(pos, p2));
                    }
                }
            }
        } else if tag == TAG_ADDRESS {
            if p + 4 <= s.len() {
                let kind = rd32(s, p);
                lemma_be32_bytes(s, p);
                if kind == ADDR_KIND_ACCOUNT {
                    if p + 40 <= s.len() && rd32(s, p + 4) == 0 {
                        lemma_be32_bytes(s, p + 4);
                        assert(s.subrange(pos, p) + s.subrange(p, p + 4) + s.subrange(p + 4, p + 8)
                            + s.subrange(p + 8, p + 40) =~= s.subrange(pos, p + 40));
                    }
                } else if kind == ADDR_KIND_CONTRACT {
                    if p + 36 <= s.len() {
                        assert(s.subrange(pos, p) + s.subrange(p, p + 4) + s.subrange(p + 4, p
                            + 36) =~= s.subrange(pos, p + 36));
                    }
                }
            }
        } else if tag == TAG_INSTANCE_MARKER {
            assert(enc_value(ValueModel::InstanceMarker) == s.subrange(pos, p));
        }
    }
}

/// Soundness for sequence bodies.
#[verifier::spinoff_prover]
#[verifier::rlimit(100)]
pub proof fn lemma_dec_list_sound(s: Seq<u8>, pos: int, n: int)
    requires
        0 <= pos <= s.len(),
    ensures
        dec_list(s, pos, n) matches Some((ms, p2)) ==> {
            &&& forall|i: int| 0 <= i < ms.len() ==> wf_model(#[trigger] ms[i])
            &&& ms.len() == (if n >= 0 {
                n
            } else {
                0
            })
            &&& pos <= p2 <= s.len()
            &&& enc_list(ms) == s.subrange(pos, p2)
        },
    decreases s.len() - pos, 1int, n,
{
    if n <= 0 {
        assert(s.subrange(pos, pos) =~= Seq::<u8>::empty());
    } else {
        lemma_dec_value_sound(s, pos);
        match dec_value(s, pos) {
            Option::Some((m0, pm)) => {
                if pos < pm && pm <= s.len() {
                    lemma_dec_list_sound(s, pm, n - 1);
                    match dec_list(s, pm, n - 1) {
                        Option::Some((rest, p3)) => {
                            let ms = seq![m0] + rest;
                            assert(ms[0] == m0);
                            assert(ms.drop_first() =~= rest);
                            assert(enc_list(ms) == enc_value(m0) + enc_list(rest));
                            assert(s.subrange(pos, pm) + s.subrange(pm, p3) =~= s.subrange(
                                pos,
                                p3,
                            ));
                            assert(forall|i: int|
                                0 <= i < ms.len() ==> wf_model(#[trigger] ms[i])) by {
                                assert(forall|i: int|
                                    1 <= i < ms.len() ==> #[trigger] ms[i] == rest[i - 1]);
                            }
                        }
                        Option::None => {}
                    }
                }
            }
            Option::None => {}
        }
    }
}

/// Soundness for mapping bodies.
#[verifier::spinoff_prover]
#[verifier::rlimit(100)]
pub proof fn lemma_dec_entries_sound(s: Seq<u8>, pos: int, n: int)
    requires
        0 <= pos <= s.len(),
    ensures
        dec_entries(s, pos, n) matches Some((es, p2)) ==> {
            &&& forall|i: int|
                0 <= i < es.len() ==> wf_model(#[trigger] es[i].key) && wf_model(es[i].val)
            &&& es.len() == (if n >= 0 {
                n
            } else {
                0
            })
            &&& pos <= p2 <= s.len()
            &&& enc_entries(es) == s.subrange(pos, p2)
        },
    decreases s.len() - pos, 1int, n,
{
    if n <= 0 {
        assert(s.subrange(pos, pos) =~= Seq::<u8>::empty());
    } else {
        lemma_dec_value_sound(s, pos);
        match dec_value(s, pos) {
            Option::Some((k, pk)) => {
                if pos < pk && pk <= s.len() {
                    lemma_dec_value_sound(s, pk);
                    match dec_value(s, pk) {
                        Option::Some((vv, pv)) => {
                            if pk < pv && pv <= s.len() {
                                lemma_dec_entries_sound(s, pv, n - 1);
                                match dec_entries(s, pv, n - 1) {
                                    Option::Some((rest, p3)) => {
                                        let e0 = EntryModel { key: k, val: vv };
                                        let es = seq![e0] + rest;
                                        assert(es[0] == e0);
                                        assert(es.drop_first() =~= rest);
                                        assert(enc_entries(es) == enc_value(k) + enc_value(vv)
                                            + enc_entries(rest));
                                        assert(s.subrange(pos, pk) + s.subrange(pk, pv)
                                            + s.subrange(pv, p3) =~= s.subrange(pos, p3));
                                        assert(forall|i: int|
                                            0 <= i < es.len() ==> wf_model(#[trigger] es[i].key)
                                                && wf_model(es[i].val)) by {
                                            assert(forall|i: int|
                                                1 <= i < es.len() ==> #[trigger] es[i] == rest[i
                                                    - 1]);
                                        }
                                    }
                                    Option::None => {}
                                }
                            }
                        }
                        Option::None => {}
                    }
                }
            }
            Option::None => {}
        }
    }
}

pub proof fn lemma_dec_value_bounds(s: Seq<u8>, pos: int)
    ensures
        dec_value(s, pos) matches Some((m, p2)) ==> 0 <= pos && pos + 4 <= p2 <= s.len(),
    decreases s.len() - pos, 0int, 0int,
{
    if pos < 0 || pos + 4 > s.len() {
    } else {
        let tag = rd32(s, pos);
        let p = pos + 4;
        if tag == TAG_VEC {
            if p + 8 <= s.len() && rd32(s, p) == 1 {
                lemma_dec_list_bounds(s, p + 8, rd32(s, p + 4) as int);
            }
        } else if tag == TAG_MAP {
            if p + 8 <= s.len() && rd32(s, p) == 1 {
                lemma_dec_entries_bounds(s, p + 8, rd32(s, p + 4) as int);
            }
        }
    }
}

pub proof fn lemma_dec_list_bounds(s: Seq<u8>, pos: int, n: int)
    ensures
        dec_list(s, pos, n) matches Some((ms, p2)) ==> {
            &&& pos <= p2
            &&& ms.len() == (if n >= 0 {
                n
            } else {
                0
            })
            &&& n > 0 ==> pos + 4 * n <= p2 <= s.len()
        },
    decreases s.len() - pos, 1int, n,
{
    if n <= 0 {
    } else {
        lemma_dec_value_bounds(s, pos);
        match dec_value(s, pos) {
            Option::Some((m, p2)) => {
                if pos < p2 && p2 <= s.len() {
                    lemma_dec_list_bounds(s, p2, n - 1);
                }
            }
            Option::None => {}
        }
    }
}

pub proof fn lemma_dec_entries_bounds(s: Seq<u8>, pos: int, n: int)
    ensures
        dec_entries(s, pos, n) matches Some((es, p2)) ==> {
            &&& pos <= p2
            &&& es.len() == (if n >= 0 {
                n
            } else {
                0
            })
            &&& n > 0 ==> pos + 8 * n <= p2 <= s.len()
        },
    decreases s.len() - pos, 1int, n,
{
    if n <= 0 {
    } else {
        lemma_dec_value_bounds(s, pos);
        match dec_value(s, pos) {
            Option::Some((k, pk)) => {
                if pos < pk && pk <= s.len() {
                    lemma_dec_value_bounds(s, pk);
                    match dec_value(s, pk) {
                        Option::Some((vv, pv)) => {
                            if pk < pv && pv <= s.len() {
                                lemma_dec_entries_bounds(s, pv, n - 1);
                            }
                        }
                        Option::None => {}
                    }
                }
            }
            Option::None => {}
        }
    }
}


/// Checks that every byte in `[from, to)` is zero.
fn check_zeros(s: &[u8], from: usize, to: usize) -> (r: bool)
    requires
        from <= to <= s@.len(),
    ensures
        r == (s@.subrange(from as int, to as int) == zeros(to - from)),
{
    let mut i: usize = from;
    while i < to
        invariant
            from <= i <= to <= s@.len(),
            forall|j: int| from <= j < i ==> s@[j] == 0,
        decreases to - i,
    {
        if s[i] != 0 {
            proof {
                assert(s@.subrange(from as int, to as int)[i - from] != 0);
                assert(zeros(to - from)[i - from] == 0);
            }
            return false;
        }
        i = i + 1;
    }
    proof {
        assert(s@.subrange(from as int, to as int) =~= zeros(to - from));
    }
    true
}

/// Decodes one value starting at `pos`, mirroring `dec_value` exactly.
#[verifier::loop_isolation(false)]
#[verifier::rlimit(100)]
pub fn decode_at(s: &[u8], pos: usize) -> (r: Result<(EncodedValue, usize), CoreError>)
    requires
        pos <= s@.len(),
    ensures
        (r matches Ok(t) ==> dec_value(s@, pos as int) == Some((t.0@, t.1 as int)) && pos < t.1
            <= s@.len()),
        (r matches Err(e) ==> dec_value(s@, pos as int) is None && e == CoreError::MalformedValue),
    decreases s@.len() - pos, 0int, 0int,
{
    if s.len() - pos < 4 {
        return Err(CoreError::MalformedValue);
    }
    let tag = read_be32(s, pos);
    let p = pos + 4;
    if tag == TAG_U32 {
        if s.len() - p < 4 {
            Err(CoreError::MalformedValue)
        } else {
            Ok((EncodedValue::U32(read_be32(s, p)), p + 4))
        }
    } else if tag == TAG_I32 {
        if s.len() - p < 4 {
            Err(CoreError::MalformedValue)
        } else {
            Ok((EncodedValue::I32(crate::bytesutil::i32_rep(read_be32(s, p))), p + 4))
        }
    } else if tag == TAG_U64 {
        if s.len() - p < 8 {
            Err(CoreError::MalformedValue)
        } else {
            Ok((EncodedValue::U64(read_be64(s, p)), p + 8))
        }
    } else if tag == TAG_I64 {
        if s.len() - p < 8 {
            Err(CoreError::MalformedValue)
        } else {
            Ok((EncodedValue::I64(crate::bytesutil::i64_rep(read_be64(s, p))), p + 8))
        }
    } else if tag == TAG_I128 {
        if s.len() - p < 16 {
            Err(CoreError::MalformedValue)
        } else {
            let hi = crate::bytesutil::i64_rep(read_be64(s, p));
            let lo = read_be64(s, p + 8);
            Ok((EncodedValue::I128 { hi, lo }, p + 16))
        }
    } else if tag == TAG_BYTES {
        match decode_opaque(s, p) {
            Ok((b, p2)) => Ok((EncodedValue::Bytes(b), p2)),
            Err(e) => Err(e),
        }
    } else if tag == TAG_SYMBOL {
        match decode_opaque(s, p) {
            Ok((b, p2)) => {
                if b.len() <= 32 {
                    Ok((EncodedValue::Symbol(b), p2))
                } else {
                    Err(CoreError::MalformedValue)
                }
            }
            Err(e) => Err(e),
        }
    } else if tag == TAG_VEC {
        if s.len() - p < 4 {
            Err(CoreError::MalformedValue)
        } else {
            let flag = read_be32(s, p);
            if flag == 0 {
                Ok((EncodedValue::Sequence(None), p + 4))
            } else if flag == 1 {
                if s.len() - p < 8 {
                    Err(CoreError::MalformedValue)
                } else {
                    let n = read_be32(s, p + 4);
                    match decode_list(s, p + 8, n) {
                        Ok((items, p2)) => Ok((EncodedValue::Sequence(Some(items)), p2)),
                        Err(e) => Err(e),
                    }
                }
            } else {
                Err(CoreError::MalformedValue)
            }
        }
    } else if tag == TAG_MAP {
        if s.len() - p < 4 {
            Err(CoreError::MalformedValue)
        } else {
            let flag = read_be32(s, p);
            if flag == 0 {
                Ok((EncodedValue::Mapping(None), p + 4))
            } else if flag == 1 {
                if s.len() - p < 8 {
                    Err(CoreError::MalformedValue)
                } else {
                    let n = read_be32(s, p + 4);
                    match decode_entries(s, p + 8, n) {
                        Ok((entries, p2)) => Ok((EncodedValue::Mapping(Some(entries)), p2)),
                        Err(e) => Err(e),
                    }
                }
            } else {
                Err(CoreError::MalformedValue)
            }
        }
    } else if tag == TAG_ADDRESS {
        if s.len() - p < 4 {
            Err(CoreError::MalformedValue)
        } else {
            let kind = read_be32(s, p);
            if kind == ADDR_KIND_ACCOUNT {
                if s.len() - p >= 40 {
                    if read_be32(s, p + 4) == 0 {
                        let raw = vstd::slice::slice_to_vec(
                            vstd::slice::slice_subrange(s, p + 8, p + 40),
                        );
                        Ok((EncodedValue::AddressVal(Address::Account(raw)), p + 40))
                    } else {
                        Err(CoreError::MalformedValue)
                    }
                } else {
                    Err(CoreError::MalformedValue)
                }
            } else if kind == ADDR_KIND_CONTRACT {
                if s.len() - p >= 36 {
                    let raw = vstd::slice::slice_to_vec(
                        vstd::slice::slice_subrange(s, p + 4, p + 36),
                    );
                    Ok((EncodedValue::AddressVal(Address::Contract(raw)), p + 36))
                } else {
                    Err(CoreError::MalformedValue)
                }
            } else {
                Err(CoreError::MalformedValue)
            }
        }
    } else if tag == TAG_INSTANCE_MARKER {
        Ok((EncodedValue::InstanceMarker, p))
    } else {
        Err(CoreError::MalformedValue)
    }
}

/// Decodes a count-prefixed, zero-padded opaque payload, mirroring
/// `dec_opaque`.
pub fn decode_opaque(s: &[u8], pos: usize) -> (r: Result<(Vec<u8>, usize), CoreError>)
    requires
        pos <= s@.len(),
    ensures
        (r matches Ok(t) ==> dec_opaque(s@, pos as int) == Some((t.0@, t.1 as int)) && pos < t.1
            <= s@.len()),
        (r matches Err(e) ==> dec_opaque(s@, pos as int) is None && e == CoreError::MalformedValue),
{
    if s.len() - pos < 4 {
        return Err(CoreError::MalformedValue);
    }
    let n = read_be32(s, pos);
    let body: u128 = pos as u128 + 4;
    let end: u128 = body + n as u128;
    let rem: u128 = (n as u128) % 4;
    let pad: u128 = if rem == 0 {
        0
    } else {
        4 - rem
    };
    let pend: u128 = end + pad;
    if pend > s.len() as u128 {
        return Err(CoreError::MalformedValue);
    }
    let body_us = body as usize;
    let end_us = end as usize;
    let pend_us = pend as usize;
    if !check_zeros(s, end_us, pend_us) {
        return Err(CoreError::MalformedValue);
    }
    let bytes = vstd::slice::slice_to_vec(vstd::slice::slice_subrange(s, body_us, end_us));
    Ok((bytes, pend_us))
}

/// Decodes `n` consecutive values, mirroring `dec_list`.
#[verifier::loop_isolation(false)]
pub fn decode_list(s: &[u8], pos: usize, n: u32) -> (r: Result<(Vec<EncodedValue>, usize), CoreError>)
    requires
        pos <= s@.len(),
    ensures
        (r matches Ok(t) ==> dec_list(s@, pos as int, n as int) == Some(
            (list_model(t.0@), t.1 as int),
        ) && pos <= t.1 <= s@.len()),
        (r matches Err(e) ==> dec_list(s@, pos as int, n as int) is None && e
            == CoreError::MalformedValue),
    decreases s@.len() - pos, 1int, 0int,
{
    let mut items: Vec<EncodedValue> = Vec::new();
    let mut cur: usize = pos;
    let mut i: u32 = 0;
    proof {
        assert(items@ =~= Seq::<EncodedValue>::empty());
        assert(list_model(items@) =~= Seq::<ValueModel>::empty());
        if let Option::Some((rest, p)) = dec_list(s@, pos as int, n as int) {
            assert(list_model(items@) + rest =~= rest);
        }
    }
    while i < n
        invariant
            pos <= cur <= s@.len(),
            i <= n,
            (match dec_list(s@, cur as int, n as int - i as int) {
                Option::Some((rest, p)) => dec_list(s@, pos as int, n as int) == Some(
                    (list_model(items@) + rest, p),
                ),
                Option::None => dec_list(s@, pos as int, n as int) is None,
            }),
        decreases n - i,
    {
        let ghost pre_items = items@;
        let ghost k = n as int - i as int;
        match decode_at(s, cur) {
            Err(e) => {
                return Err(e);
            }
            Ok((v, p2)) => {
                items.push(v);
                proof {
                    crate::values::lemma_list_model_snoc(pre_items, v);
                    if let Option::Some((rest, p)) = dec_list(s@, p2 as int, k - 1) {
                        assert(list_model(items@) + rest =~= list_model(pre_items) + (seq![
                            value_model(v),
                        ] + rest));
                    }
                }
                cur = p2;
                i = i + 1;
            }
        }
    }
    proof {
        assert(dec_list(s@, cur as int, 0) == Some((Seq::<ValueModel>::empty(), cur as int)));
        assert(list_model(items@) + Seq::<ValueModel>::empty() =~= list_model(items@));
    }
    Ok((items, cur))
}

/// Decodes `n` consecutive key/value pairs, mirroring `dec_entries`.
#[verifier::loop_isolation(false)]
pub fn decode_entries(s: &[u8], pos: usize, n: u32) -> (r: Result<
    (Vec<MapEntry>, usize),
    CoreError,
>)
    requires
        pos <= s@.len(),
    ensures
        (r matches Ok(t) ==> dec_entries(s@, pos as int, n as int) == Some(
            (entries_model(t.0@), t.1 as int),
        ) && pos <= t.1 <= s@.len()),
        (r matches Err(e) ==> dec_entries(s@, pos as int, n as int) is None && e
            == CoreError::MalformedValue),
    decreases s@.len() - pos, 1int, 0int,
{
    let mut entries: Vec<MapEntry> = Vec::new();
    let mut cur: usize = pos;
    let mut i: u32 = 0;
    proof {
        assert(entries@ =~= Seq::<MapEntry>::empty());
        assert(entries_model(entries@) =~= Seq::<EntryModel>::empty());
        if let Option::Some((rest, p)) = dec_entries(s@, pos as int, n as int) {
            assert(entries_model(entries@) + rest =~= rest);
        }
    }
    while i < n
        invariant
            pos <= cur <= s@.len(),
            i <= n,
            (match dec_entries(s@, cur as int, n as int - i as int) {
                Option::Some((rest, p)) => dec_entries(s@, pos as int, n as int) == Some(
                    (entries_model(entries@) + rest, p),
                ),
                Option::None => dec_entries(s@, pos as int, n as int) is None,
            }),
        decreases n - i,
    {
        let ghost pre_entries = entries@;
        let ghost k = n as int - i as int;
        match decode_at(s, cur) {
            Err(e) => {
                return Err(e);
            }
            Ok((key, pk)) => {
                match decode_at(s, pk) {
                    Err(e) => {
                        return Err(e);
                    }
                    Ok((val, pv)) => {
                        let ghost e0 = EntryModel {
                            key: value_model(key),
                            val: value_model(val),
                        };
                        entries.push(MapEntry { key, val });
                        proof {
                            crate::values::lemma_entries_model_snoc(
                                pre_entries,
                                MapEntry { key, val },
                            );
                            if let Option::Some((rest, p)) = dec_entries(s@, pv as int, k - 1) {
                                assert(entries_model(entries@) + rest =~= entries_model(
                                    pre_entries,
                                ) + (seq![e0] + rest));
                            }
                        }
                        cur = pv;
                        i = i + 1;
                    }
                }
            }
        }
    }
    proof {
        assert(dec_entries(s@, cur as int, 0) == Some((Seq::<EntryModel>::empty(), cur as int)));
        assert(entries_model(entries@) + Seq::<EntryModel>::empty() =~= entries_model(entries@));
    }
    Ok((entries, cur))
}

/// Decodes a whole buffer into one value.
///
/// Succeeds exactly when the bytes are the complete encoding of one
/// well-formed value; trailing bytes, truncation, an unknown tag or an
/// impossible declared count all fail with `MalformedValue` and never yield
/// a partial result.
pub fn decode(s: &[u8]) -> (r: Result<EncodedValue, CoreError>)
    ensures
        (r matches Ok(v) ==> dec_top(s@) == Some(v@) && wf_model(v@)),
        (r matches Err(e) ==> dec_top(s@) is None && e == CoreError::MalformedValue),
{
    match decode_at(s, 0) {
        Err(e) => Err(e),
        Ok((v, p)) => {
            if p == s.len() {
                proof {
                    lemma_dec_value_sound(s@, 0);
                }
                Ok(v)
            } else {
                Err(CoreError::MalformedValue)
            }
        }
    }
}


/// Decodes an address, mirroring `dec_addr`.
pub fn decode_addr(s: &[u8], pos: usize) -> (r: Result<(Address, usize), CoreError>)
    requires
        pos <= s@.len(),
    ensures
        (r matches Ok(t) ==> dec_addr(s@, pos as int) == Some((t.0@, t.1 as int)) && pos < t.1
            <= s@.len() && t.0.wf()),
        (r matches Err(e) ==> dec_addr(s@, pos as int) is None && e == CoreError::MalformedValue),
{
    if s.len() - pos < 4 {
        return Err(CoreError::MalformedValue);
    }
    let kind = read_be32(s, pos);
    if kind == ADDR_KIND_ACCOUNT {
        if s.len() - pos >= 40 {
            if read_be32(s, pos + 4) == 0 {
                let raw = vstd::slice::slice_to_vec(vstd::slice::slice_subrange(s, pos + 8, pos + 40));
                Ok((Address::Account(raw), pos + 40))
            } else {
                Err(CoreError::MalformedValue)
            }
        } else {
            Err(CoreError::MalformedValue)
        }
    } else if kind == ADDR_KIND_CONTRACT {
        if s.len() - pos >= 36 {
            let raw = vstd::slice::slice_to_vec(vstd::slice::slice_subrange(s, pos + 4, pos + 36));
            Ok((Address::Contract(raw), pos + 36))
        } else {
            Err(CoreError::MalformedValue)
        }
    } else {
        Err(CoreError::MalformedValue)
    }
}


/// A declared sequence count that exceeds the available bytes can never
/// decode: every element consumes at least four bytes, so the decoder
/// fails outright rather than returning a truncated value.
pub proof fn lemma_count_overrun(s: Seq<u8>, pos: int)
    requires
        0 <= pos,
        pos + 12 <= s.len(),
        rd32(s, pos) == TAG_VEC,
        rd32(s, pos + 4) == 1,
        4 * (rd32(s, pos + 8) as int) > s.len() - pos - 12,
    ensures
        dec_value(s, pos) is None,
{
    let n = rd32(s, pos + 8) as int;
    lemma_dec_list_bounds(s, pos + 12, n);
}


/// Round trip for an address: decoding an encoding recovers the address.
pub proof fn lemma_dec_enc_addr(s: Seq<u8>, pos: int, a: AddrModel)
    requires
        a.wf(),
        0 <= pos,
        pos + enc_addr(a).len() <= s.len(),
        s.subrange(pos, pos + enc_addr(a).len()) == enc_addr(a),
    ensures
        dec_addr(s, pos) == Some((a, pos + enc_addr(a).len())),
{
    match a {
        AddrModel::Account(b) => {
            assert(enc_addr(a) =~= (be32(ADDR_KIND_ACCOUNT) + be32(0)) + b);
            lemma_cat_split(s, pos, be32(ADDR_KIND_ACCOUNT) + be32(0), b);
            lemma_cat_split(s, pos, be32(ADDR_KIND_ACCOUNT), be32(0));
            lemma_rd32(s, pos, ADDR_KIND_ACCOUNT);
            lemma_rd32(s, pos + 4, 0);
            assert(s.subrange(pos + 8, pos + 40) == b);
        }
        AddrModel::Contract(b) => {
            lemma_cat_split(s, pos, be32(ADDR_KIND_CONTRACT), b);
            lemma_rd32(s, pos, ADDR_KIND_CONTRACT);
            assert(s.subrange(pos + 4, pos + 36) == b);
        }
    }
}

} // verus!