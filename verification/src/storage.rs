//! Interpreting raw ledger entries into domain records.
//!
//! The decoders never swallow a malformed shape into a default: a corrupt
//! entry is always a codec error, and only a genuinely absent entry or
//! field becomes an absent record.
use vstd::prelude::*;
use vstd::string::StringSliceAdditionalSpecFns;

use crate::bytesutil::bytes_eq;
use crate::codec::{
    dec_addr, dec_entries, dec_value, decode_addr, decode_at, decode_entries, rd32, rd64,
};
use crate::errors::CoreError;
use crate::values::{
    clone_value, entries_model, lemma_entries_model_len, lemma_list_model_len, value_model,
    wf_model, EncodedValue, EntryModel, MapEntry, ValueModel,
};

verus! {

/// The current block's index, and its entropy once somebody has
/// initialized the block.
#[derive(Debug, PartialEq, Eq)]
pub struct BlockInfo {
    pub block_index: u32,
    /// Absent exactly when no participant has initialized the block yet.
    pub entropy: Option<Vec<u8>>,
}

/// A participant's stake record.
#[derive(Debug, PartialEq, Eq)]
pub struct StakeRecord {
    /// Whether the participant has staked in the block at all.
    pub exists: bool,
    /// The proof-difficulty counter; absent while the participant has
    /// staked but not yet submitted proof of work.
    pub zeros: Option<u32>,
}

/// The name of the instance-storage field that holds the block index.
pub open spec fn farm_index_name() -> Seq<u8> {
    seq![70u8, 97, 114, 109, 73, 110, 100, 101, 120]
}

/// The name of the block-entry field that holds the entropy.
pub open spec fn entropy_name() -> Seq<u8> {
    seq![101u8, 110, 116, 114, 111, 112, 121]
}

/// The name of the stake-record field that holds the counter.
pub open spec fn zeros_name() -> Seq<u8> {
    seq![122u8, 101, 114, 111, 115]
}

/// The instance-storage mapping inside a raw contract-instance entry.
///
/// The entry must be contract data whose value carries the instance tag;
/// its storage mapping must be present and the bytes fully consumed.
pub open spec fn dec_instance_entry(s: Seq<u8>) -> Option<Seq<EntryModel>> {
    if s.len() < 12 {
        Option::None
    } else if rd32(s, 0) != 6 || rd32(s, 4) != 0 {
        Option::None
    } else {
        match dec_addr(s, 8) {
            Option::None => Option::None,
            Option::Some((owner, p1)) => match dec_value(s, p1) {
                Option::None => Option::None,
                Option::Some((slot_key, p2)) => if p2 + 8 > s.len() {
                    Option::None
                } else if rd32(s, p2 + 4) != 19 {
                    Option::None
                } else {
                    let p3 = p2 + 8;
                    if p3 + 4 > s.len() {
                        Option::None
                    } else {
                        let exec_kind = rd32(s, p3);
                        if exec_kind != 0 && exec_kind != 1 {
                            Option::None
                        } else {
                            let p4 = if exec_kind == 0 {
                                p3 + 36
                            } else {
                                p3 + 4
                            };
                            if p4 + 8 > s.len() {
                                Option::None
                            } else if rd32(s, p4) != 1 {
                                Option::None
                            } else {
                                match dec_entries(s, p4 + 8, rd32(s, p4 + 4) as int) {
                                    Option::None => Option::None,
                                    Option::Some((es, pe)) => if pe == s.len() {
                                        Option::Some(es)
                                    } else {
                                        Option::None
                                    },
                                }
                            }
                        }
                    }
                },
            },
        }
    }
}

/// The stored value inside a raw keyed contract-data entry.
pub open spec fn dec_data_entry_val(s: Seq<u8>) -> Option<ValueModel> {
    if s.len() < 12 {
        Option::None
    } else if rd32(s, 0) != 6 || rd32(s, 4) != 0 {
        Option::None
    } else {
        match dec_addr(s, 8) {
            Option::None => Option::None,
            Option::Some((owner, p1)) => match dec_value(s, p1) {
                Option::None => Option::None,
                Option::Some((slot_key, p2)) => if p2 + 4 > s.len() {
                    Option::None
                } else {
                    match dec_value(s, p2 + 4) {
                        Option::None => Option::None,
                        Option::Some((v, p3)) => if p3 == s.len() {
                            Option::Some(v)
                        } else {
                            Option::None
                        },
                    }
                },
            },
        }
    }
}

/// Whether an instance-storage key wraps the given field name: a sequence
/// whose first element is that symbol.
pub open spec fn wrapped_key_matches(k: ValueModel, name: Seq<u8>) -> bool {
    match k {
        ValueModel::Sequence(o) => match o {
            Option::Some(ks) => ks.len() >= 1 && (ks[0] matches ValueModel::Symbol(sym) && sym
                == name),
            Option::None => false,
        },
        _ => false,
    }
}

/// The first instance-storage value stored under the given field name.
pub open spec fn instance_lookup(es: Seq<EntryModel>, name: Seq<u8>) -> Option<ValueModel>
    decreases es.len(),
{
    if es.len() == 0 {
        Option::None
    } else if wrapped_key_matches(es[0].key, name) {
        Option::Some(es[0].val)
    } else {
        instance_lookup(es.drop_first(), name)
    }
}

/// Whether a mapping key is the given plain symbol.
pub open spec fn symbol_key_matches(k: ValueModel, name: Seq<u8>) -> bool {
    k matches ValueModel::Symbol(sym) && sym == name
}

/// The first mapping value stored under the given plain symbol key.
pub open spec fn map_lookup(es: Seq<EntryModel>, name: Seq<u8>) -> Option<ValueModel>
    decreases es.len(),
{
    if es.len() == 0 {
        Option::None
    } else if symbol_key_matches(es[0].key, name) {
        Option::Some(es[0].val)
    } else {
        map_lookup(es.drop_first(), name)
    }
}

/// One counter value normalized from its wire shapes: a bare unsigned
/// integer or a one-element sequence wrapping one is a present counter, an
/// empty sequence is an absent counter, and anything else is malformed.
pub open spec fn normalize_counter_spec(v: ValueModel) -> Option<Option<u32>> {
    match v {
        ValueModel::U32(x) => Option::Some(Option::Some(x)),
        ValueModel::Sequence(o) => match o {
            Option::Some(items) => if items.len() == 0 {
                Option::Some(Option::None)
            } else if items.len() == 1 && items[0] is U32 {
                Option::Some(Option::Some(items[0]->U32_0))
            } else {
                Option::None
            },
            Option::None => Option::None,
        },
        _ => Option::None,
    }
}

/// Decodes the instance-storage mapping of a raw contract-instance entry.
pub fn decode_instance_entries(s: &[u8]) -> (r: Result<Vec<MapEntry>, CoreError>)
    ensures
        (r matches Ok(v) ==> dec_instance_entry(s@) == Some(entries_model(v@))),
        (r matches Err(e) ==> dec_instance_entry(s@) is None && e == CoreError::MalformedValue),
{
    if s.len() < 12 {
        return Err(CoreError::MalformedValue);
    }
    if crate::bytesutil::read_be32(s, 0) != 6 || crate::bytesutil::read_be32(s, 4) != 0 {
        return Err(CoreError::MalformedValue);
    }
    let (_owner, p1) = match decode_addr(s, 8) {
        Ok(t) => t,
        Err(e) => {
            return Err(e);
        }
    };
    let (_slot_key, p2) = match decode_at(s, p1) {
        Ok(t) => t,
        Err(e) => {
            return Err(e);
        }
    };
    if s.len() - p2 < 8 {
        return Err(CoreError::MalformedValue);
    }
    if crate::bytesutil::read_be32(s, p2 + 4) != 19 {
        return Err(CoreError::MalformedValue);
    }
    let p3 = p2 + 8;
    if s.len() - p3 < 4 {
        return Err(CoreError::MalformedValue);
    }
    let exec_kind = crate::bytesutil::read_be32(s, p3);
    if exec_kind != 0 && exec_kind != 1 {
        return Err(CoreError::MalformedValue);
    }
    let p4 = if exec_kind == 0 {
        if s.len() - p3 < 36 {
            return Err(CoreError::MalformedValue);
        }
        p3 + 36
    } else {
        p3 + 4
    };
    if s.len() - p4 < 8 {
        return Err(CoreError::MalformedValue);
    }
    if crate::bytesutil::read_be32(s, p4) != 1 {
        return Err(CoreError::MalformedValue);
    }
    let count = crate::bytesutil::read_be32(s, p4 + 4);
    let (entries, pe) = match decode_entries(s, p4 + 8, count) {
        Ok(t) => t,
        Err(e) => {
            return Err(e);
        }
    };
    if pe != s.len() {
        return Err(CoreError::MalformedValue);
    }
    Ok(entries)
}

/// Decodes the stored value of a raw keyed contract-data entry.
pub fn decode_data_entry_val(s: &[u8]) -> (r: Result<EncodedValue, CoreError>)
    ensures
        (r matches Ok(v) ==> dec_data_entry_val(s@) == Some(value_model(v)) && wf_model(
            value_model(v),
        )),
        (r matches Err(e) ==> dec_data_entry_val(s@) is None && e == CoreError::MalformedValue),
{
    if s.len() < 12 {
        return Err(CoreError::MalformedValue);
    }
    if crate::bytesutil::read_be32(s, 0) != 6 || crate::bytesutil::read_be32(s, 4) != 0 {
        return Err(CoreError::MalformedValue);
    }
    let (_owner, p1) = match decode_addr(s, 8) {
        Ok(t) => t,
        Err(e) => {
            return Err(e);
        }
    };
    let (_slot_key, p2) = match decode_at(s, p1) {
        Ok(t) => t,
        Err(e) => {
            return Err(e);
        }
    };
    if s.len() - p2 < 4 {
        return Err(CoreError::MalformedValue);
    }
    let (v, p3) = match decode_at(s, p2 + 4) {
        Ok(t) => t,
        Err(e) => {
            return Err(e);
        }
    };
    if p3 != s.len() {
        return Err(CoreError::MalformedValue);
    }
    proof {
        crate::codec::lemma_dec_value_sound(s@, p2 + 4);
    }
    Ok(v)
}

/// Finds the instance-storage value stored under a wrapped field name.
#[verifier::loop_isolation(false)]
pub fn instance_storage_value(entries: &Vec<MapEntry>, name: &[u8]) -> (r: Option<EncodedValue>)
    ensures
        (r matches Some(v) ==> instance_lookup(entries_model(entries@), name@) == Some(
            value_model(v),
        )),
        (r is None ==> instance_lookup(entries_model(entries@), name@) is None),
{
    let ghost em = entries_model(entries@);
    proof {
        lemma_entries_model_len(entries@);
        assert(em.skip(0) =~= em);
    }
    let n = entries.len();
    let mut i: usize = 0;
    while i < n
        invariant
            i <= n,
            n == entries@.len(),
            em == entries_model(entries@),
            instance_lookup(em, name@) == instance_lookup(em.skip(i as int), name@),
        decreases n - i,
    {
        proof {
            assert(em.skip(i as int)[0] == em[i as int]);
            assert(em[i as int].key == value_model(entries@[i as int].key));
        }
        let mut matched = false;
        match &entries[i].key {
            EncodedValue::Sequence(o) => {
                match o {
                    Some(ks) => {
                        if ks.len() >= 1 {
                            proof {
                                lemma_list_model_len(ks@);
                            }
                            match &ks[0] {
                                EncodedValue::Symbol(sym) => {
                                    if bytes_eq(sym.as_slice(), name) {
                                        matched = true;
                                    }
                                }
                                _ => {}
                            }
                        }
                    }
                    None => {}
                }
            }
            _ => {}
        }
        if matched {
            proof {
                assert(wrapped_key_matches(em[i as int].key, name@));
                assert(instance_lookup(em.skip(i as int), name@) == Some(em[i as int].val));
                assert(em[i as int].val == value_model(entries@[i as int].val));
            }
            return Some(clone_value(&entries[i].val));
        }
        proof {
            assert(!wrapped_key_matches(em[i as int].key, name@));
            assert(em.skip(i as int).drop_first() =~= em.skip(i + 1));
        }
        i = i + 1;
    }
    proof {
        assert(em.skip(n as int) =~= Seq::<EntryModel>::empty());
    }
    None
}

/// Finds the mapping value stored under a plain symbol key.
#[verifier::loop_isolation(false)]
pub fn map_value(entries: &Vec<MapEntry>, name: &[u8]) -> (r: Option<EncodedValue>)
    ensures
        (r matches Some(v) ==> map_lookup(entries_model(entries@), name@) == Some(value_model(v))),
        (r is None ==> map_lookup(entries_model(entries@), name@) is None),
{
    let ghost em = entries_model(entries@);
    proof {
        lemma_entries_model_len(entries@);
        assert(em.skip(0) =~= em);
    }
    let n = entries.len();
    let mut i: usize = 0;
    while i < n
        invariant
            i <= n,
            n == entries@.len(),
            em == entries_model(entries@),
            map_lookup(em, name@) == map_lookup(em.skip(i as int), name@),
        decreases n - i,
    {
        proof {
            assert(em.skip(i as int)[0] == em[i as int]);
            assert(em[i as int].key == value_model(entries@[i as int].key));
        }
        let mut matched = false;
        match &entries[i].key {
            EncodedValue::Symbol(sym) => {
                if bytes_eq(sym.as_slice(), name) {
                    matched = true;
                }
            }
            _ => {}
        }
        if matched {
            proof {
                assert(symbol_key_matches(em[i as int].key, name@));
                assert(map_lookup(em.skip(i as int), name@) == Some(em[i as int].val));
                assert(em[i as int].val == value_model(entries@[i as int].val));
            }
            return Some(clone_value(&entries[i].val));
        }
        proof {
            assert(!symbol_key_matches(em[i as int].key, name@));
            assert(em.skip(i as int).drop_first() =~= em.skip(i + 1));
        }
        i = i + 1;
    }
    proof {
        assert(em.skip(n as int) =~= Seq::<EntryModel>::empty());
    }
    None
}

/// Reads the block index from a raw contract-instance entry.
///
/// The index always comes from the instance entry; an absent or
/// wrong-typed field is a missing-field error, a corrupt entry a codec
/// error.
pub fn decode_block_index(instance: &[u8]) -> (r: Result<u32, CoreError>)
    ensures
        (dec_instance_entry(instance@) is None ==> r == Err::<u32, _>(CoreError::MalformedValue)),
        (dec_instance_entry(instance@) matches Some(es) ==> (match instance_lookup(
            es,
            farm_index_name(),
        ) {
            Option::Some(ValueModel::U32(x)) => r == Ok::<_, CoreError>(x),
            _ => (r matches Err(e) && e matches CoreError::MissingField(f) && f@
                == "blockIndex"@),
        })),
{
    let entries = match decode_instance_entries(instance) {
        Ok(v) => v,
        Err(e) => {
            return Err(e);
        }
    };
    let name: Vec<u8> = vec![70u8, 97, 114, 109, 73, 110, 100, 101, 120];
    proof {
        assert(name@ =~= farm_index_name());
    }
    match instance_storage_value(&entries, name.as_slice()) {
        Some(EncodedValue::U32(x)) => Ok(x),
        _ => Err(
            CoreError::MissingField(
                <String as vstd::string::StringExecFns>::from_str("blockIndex"),
            ),
        ),
    }
}

/// Decodes the current block's index and entropy.
///
/// The block index always comes from the instance entry.  The entropy is
/// absent exactly when nobody has initialized the block: the block entry
/// does not exist, or its mapping carries no entropy field.  A located
/// entropy value that is not exactly 32 bytes, a block value that is not a
/// mapping with a present body, or an undecodable entry is a codec error.
#[verifier::spinoff_prover]
#[verifier::rlimit(100)]
pub fn decode_block_info(instance: &[u8], block_entry: &Option<Vec<u8>>) -> (r: Result<
    BlockInfo,
    CoreError,
>)
    ensures
        (dec_instance_entry(instance@) is None ==> r == Err::<BlockInfo, _>(
            CoreError::MalformedValue,
        )),
        (dec_instance_entry(instance@) matches Some(es) ==> (match instance_lookup(
            es,
            farm_index_name(),
        ) {
            Option::Some(ValueModel::U32(i)) => (match block_entry {
                Option::None => (r matches Ok(info) && info.block_index == i && info.entropy
                    is None),
                Option::Some(raw) => (match dec_data_entry_val(raw@) {
                    Option::None => r == Err::<BlockInfo, _>(CoreError::MalformedValue),
                    Option::Some(v) => (match v {
                        ValueModel::Mapping(o) => (match o {
                            Option::Some(m) => (match map_lookup(m, entropy_name()) {
                                Option::None => (r matches Ok(info) && info.block_index == i
                                    && info.entropy is None),
                                Option::Some(ev) => (match ev {
                                    ValueModel::Bytes(b) => (if b.len() == 32 {
                                        (r matches Ok(info) && info.block_index == i && (
                                        info.entropy matches Some(eb) && eb@ == b))
                                    } else {
                                        r == Err::<BlockInfo, _>(CoreError::MalformedValue)
                                    }),
                                    _ => r == Err::<BlockInfo, _>(CoreError::MalformedValue),
                                }),
                            }),
                            Option::None => r == Err::<BlockInfo, _>(CoreError::MalformedValue),
                        }),
                        _ => r == Err::<BlockInfo, _>(CoreError::MalformedValue),
                    }),
                }),
            }),
            _ => (r matches Err(e) && e matches CoreError::MissingField(f) && f@
                == "blockIndex"@),
        })),
{
    let block_index = match decode_block_index(instance) {
        Ok(x) => x,
        Err(e) => {
            return Err(e);
        }
    };
    let entropy: Option<Vec<u8>> = match block_entry {
        None => None,
        Some(raw) => {
            let v = match decode_data_entry_val(raw.as_slice()) {
                Ok(v) => v,
                Err(e) => {
                    return Err(e);
                }
            };
            let m = match v {
                EncodedValue::Mapping(Some(m)) => m,
                _ => {
                    return Err(CoreError::MalformedValue);
                }
            };
            let name: Vec<u8> = vec![101u8, 110, 116, 114, 111, 112, 121];
            proof {
                assert(name@ =~= entropy_name());
            }
            match map_value(&m, name.as_slice()) {
                None => None,
                Some(EncodedValue::Bytes(b)) => {
                    if b.len() == 32 {
                        Some(b)
                    } else {
                        return Err(CoreError::MalformedValue);
                    }
                }
                Some(_) => {
                    return Err(CoreError::MalformedValue);
                }
            }
        }
    };
    Ok(BlockInfo { block_index, entropy })
}

/// Normalizes the counter field's wire shapes into an optional value.
pub fn normalize_counter(v: &EncodedValue) -> (r: Result<Option<u32>, CoreError>)
    ensures
        (r matches Ok(c) ==> normalize_counter_spec(value_model(*v)) == Some(c)),
        (r matches Err(e) ==> normalize_counter_spec(value_model(*v)) is None && e
            == CoreError::MalformedValue),
{
    match v {
        EncodedValue::U32(x) => Ok(Some(*x)),
        EncodedValue::Sequence(o) => {
            match o {
                Some(items) => {
                    proof {
                        lemma_list_model_len(items@);
                    }
                    if items.len() == 0 {
                        Ok(None)
                    } else if items.len() == 1 {
                        match &items[0] {
                            EncodedValue::U32(x) => Ok(Some(*x)),
                            _ => Err(CoreError::MalformedValue),
                        }
                    } else {
                        Err(CoreError::MalformedValue)
                    }
                }
                None => Err(CoreError::MalformedValue),
            }
        }
        _ => Err(CoreError::MalformedValue),
    }
}

/// Decodes a participant's stake record.
///
/// An absent entry is an absent record; a present entry must be a mapping
/// with a present body, and its counter field is normalized: a missing
/// field or an empty sequence means no proof yet, a bare integer or a
/// one-element sequence wrapping one is the submitted counter, and any
/// other shape -- including a mapping whose body is absent -- is a codec
/// error, never a silent absence.
pub fn decode_stake_record(entry: &Option<Vec<u8>>) -> (r: Result<StakeRecord, CoreError>)
    ensures
        (entry is None ==> (r matches Ok(rec) && rec.exists == false && rec.zeros is None)),
        (entry matches Some(raw) ==> (match dec_data_entry_val(raw@) {
            Option::None => r == Err::<StakeRecord, _>(CoreError::MalformedValue),
            Option::Some(v) => match v {
                ValueModel::Mapping(o) => (match o {
                    Option::Some(m) => (match map_lookup(m, zeros_name()) {
                        Option::None => (r matches Ok(rec) && rec.exists && rec.zeros is None),
                        Option::Some(zv) => (match normalize_counter_spec(zv) {
                            Option::Some(c) => (r matches Ok(rec) && rec.exists && rec.zeros
                                == c),
                            Option::None => r == Err::<StakeRecord, _>(CoreError::MalformedValue),
                        }),
                    }),
                    Option::None => r == Err::<StakeRecord, _>(CoreError::MalformedValue),
                }),
                _ => r == Err::<StakeRecord, _>(CoreError::MalformedValue),
            },
        })),
{
    let raw = match entry {
        None => {
            return Ok(StakeRecord { exists: false, zeros: None });
        }
        Some(raw) => raw,
    };
    let v = match decode_data_entry_val(raw.as_slice()) {
        Ok(v) => v,
        Err(e) => {
            return Err(e);
        }
    };
    let m = match v {
        EncodedValue::Mapping(Some(m)) => m,
        _ => {
            return Err(CoreError::MalformedValue);
        }
    };
    let name: Vec<u8> = vec![122u8, 101, 114, 111, 115];
    proof {
        assert(name@ =~= zeros_name());
    }
    match map_value(&m, name.as_slice()) {
        None => Ok(StakeRecord { exists: true, zeros: None }),
        Some(zv) => {
            match normalize_counter(&zv) {
                Ok(c) => Ok(StakeRecord { exists: true, zeros: c }),
                Err(e) => Err(e),
            }
        }
    }
}

/// Reads one instance-storage value by its wrapped field name, straight
/// from the raw contract-instance entry.
pub fn parse_instance_storage_value(entry: &[u8], key_name: &str) -> (r: Result<
    EncodedValue,
    CoreError,
>)
    ensures
        (dec_instance_entry(entry@) is None ==> r == Err::<EncodedValue, _>(
            CoreError::MalformedValue,
        )),
        (dec_instance_entry(entry@) matches Some(es) ==> (match instance_lookup(
            es,
            key_name.spec_bytes(),
        ) {
            Option::Some(v) => (r matches Ok(found) && value_model(found) == v),
            Option::None => (r matches Err(e) && e matches CoreError::MissingField(f) && f@
                == key_name@),
        })),
{
    let entries = match decode_instance_entries(entry) {
        Ok(v) => v,
        Err(e) => {
            return Err(e);
        }
    };
    match instance_storage_value(&entries, key_name.as_bytes()) {
        Some(v) => Ok(v),
        None => Err(
            CoreError::MissingField(<String as vstd::string::StringExecFns>::from_str(key_name)),
        ),
    }
}

/// The balance inside a raw trustline entry, behind whichever asset form
/// the trustline uses.
pub open spec fn dec_trustline_balance(s: Seq<u8>) -> Option<i64> {
    if s.len() < 44 {
        Option::None
    } else if rd32(s, 0) != 1 || rd32(s, 4) != 0 {
        Option::None
    } else {
        let disc = rd32(s, 40);
        if disc == 0 {
            if s.len() >= 52 {
                Option::Some(crate::bytesutil::i64_of_u64(rd64(s, 44)))
            } else {
                Option::None
            }
        } else if disc == 1 {
            if s.len() >= 92 && rd32(s, 48) == 0 {
                Option::Some(crate::bytesutil::i64_of_u64(rd64(s, 84)))
            } else {
                Option::None
            }
        } else if disc == 2 {
            if s.len() >= 100 && rd32(s, 56) == 0 {
                Option::Some(crate::bytesutil::i64_of_u64(rd64(s, 92)))
            } else {
                Option::None
            }
        } else if disc == 3 {
            if s.len() >= 84 {
                Option::Some(crate::bytesutil::i64_of_u64(rd64(s, 76)))
            } else {
                Option::None
            }
        } else {
            Option::None
        }
    }
}

/// Reads the balance out of a raw trustline entry.
pub fn decode_trustline_balance(s: &[u8]) -> (r: Result<i64, CoreError>)
    ensures
        (r matches Ok(b) ==> dec_trustline_balance(s@) == Some(b)),
        (r matches Err(e) ==> dec_trustline_balance(s@) is None && e == CoreError::MalformedValue),
{
    if s.len() < 44 {
        return Err(CoreError::MalformedValue);
    }
    if crate::bytesutil::read_be32(s, 0) != 1 || crate::bytesutil::read_be32(s, 4) != 0 {
        return Err(CoreError::MalformedValue);
    }
    let disc = crate::bytesutil::read_be32(s, 40);
    if disc == 0 {
        if s.len() >= 52 {
            Ok(crate::bytesutil::i64_rep(crate::bytesutil::read_be64(s, 44)))
        } else {
            Err(CoreError::MalformedValue)
        }
    } else if disc == 1 {
        if s.len() >= 92 {
            if crate::bytesutil::read_be32(s, 48) == 0 {
                Ok(crate::bytesutil::i64_rep(crate::bytesutil::read_be64(s, 84)))
            } else {
                Err(CoreError::MalformedValue)
            }
        } else {
            Err(CoreError::MalformedValue)
        }
    } else if disc == 2 {
        if s.len() >= 100 {
            if crate::bytesutil::read_be32(s, 56) == 0 {
                Ok(crate::bytesutil::i64_rep(crate::bytesutil::read_be64(s, 92)))
            } else {
                Err(CoreError::MalformedValue)
            }
        } else {
            Err(CoreError::MalformedValue)
        }
    } else if disc == 3 {
        if s.len() >= 84 {
            Ok(crate::bytesutil::i64_rep(crate::bytesutil::read_be64(s, 76)))
        } else {
            Err(CoreError::MalformedValue)
        }
    } else {
        Err(CoreError::MalformedValue)
    }
}


/// Decodes a trustline lookup result: an absent entry means the account
/// holds no trustline and reports a zero balance; a present entry must
/// decode, and yields the held balance.
pub fn decode_trustline_status(entry: &Option<Vec<u8>>) -> (r: Result<(bool, i64), CoreError>)
    ensures
        (entry is None ==> r == Ok::<_, CoreError>((false, 0i64))),
        (entry matches Some(raw) ==> (match dec_trustline_balance(raw@) {
            Option::Some(b) => r == Ok::<_, CoreError>((true, b)),
            Option::None => r == Err::<(bool, i64), _>(CoreError::MalformedValue),
        })),
{
    match entry {
        None => Ok((false, 0)),
        Some(raw) => {
            match decode_trustline_balance(raw.as_slice()) {
                Ok(balance) => Ok((true, balance)),
                Err(e) => Err(e),
            }
        }
    }
}

} // verus!