//! Typed addresses and the strkey text codec.
//!
//! An address is either an Ed25519 account key or a contract id, each exactly
//! 32 raw bytes.  The text form is the 56-character strkey encoding: a version
//! byte, the 32-byte payload, and a CRC16 checksum, all in unpadded base32.
use vstd::prelude::*;

use crate::errors::CoreError;
use crate::values::AddrModel;

verus! {

/// A typed 32-byte ledger identity.
#[derive(Debug, Clone, PartialEq, Eq)]
pub enum Address {
    /// A plain Ed25519 account public key.
    Account(Vec<u8>),
    /// A contract id.
    Contract(Vec<u8>),
}

impl Address {
    /// Both kinds carry exactly 32 raw bytes.
    pub open spec fn wf(&self) -> bool {
        self.raw().len() == 32
    }

    /// The raw 32 bytes behind either kind.
    pub open spec fn raw(&self) -> Seq<u8> {
        match self {
            Address::Account(b) => b@,
            Address::Contract(b) => b@,
        }
    }
}

/// One shift of the CRC16 register, with the XMODEM polynomial on carry.
pub open spec fn crc_step(c: u16) -> u16 {
    if c < 0x8000 {
        (c * 2) as u16
    } else {
        (((c * 2) % 0x1_0000) as u16) ^ 0x1021
    }
}

/// `k` shifts of the CRC16 register.
pub open spec fn crc_steps(c: u16, k: nat) -> u16
    decreases k,
{
    if k == 0 {
        c
    } else {
        crc_steps(crc_step(c), (k - 1) as nat)
    }
}

/// Folds one byte into the CRC16 register.
pub open spec fn crc_update(c: u16, b: u8) -> u16 {
    crc_steps(c ^ (((b as u16) * 0x100) as u16), 8)
}

/// The CRC16/XMODEM checksum of a byte string, with initial register zero.
pub open spec fn crc16(s: Seq<u8>) -> u16
    decreases s.len(),
{
    if s.len() == 0 {
        0
    } else {
        crc_update(crc16(s.drop_last()), s.last())
    }
}

/// One shift of the CRC16 register, as executable code.
fn crc_step_exec(c: u16) -> (r: u16)
    ensures
        r == crc_step(c),
{
    if c < 0x8000 {
        c * 2
    } else {
        ((((c as u32) * 2) % 0x1_0000) as u16) ^ 0x1021
    }
}

/// The CRC16/XMODEM checksum, as executable code.
pub fn crc16_compute(data: &[u8]) -> (r: u16)
    ensures
        r == crc16(data@),
{
    let n = data.len();
    let mut c: u16 = 0;
    let mut i: usize = 0;
    while i < n
        invariant
            i <= n,
            n == data@.len(),
            c == crc16(data@.take(i as int)),
        decreases n - i,
    {
        let b = data[i];
        let start: u16 = c ^ ((b as u16) * 0x100);
        let mut k: usize = 0;
        let mut x: u16 = start;
        while k < 8
            invariant
                k <= 8,
                crc_steps(start, 8) == crc_steps(x, (8 - k) as nat),
            decreases 8 - k,
        {
            x = crc_step_exec(x);
            k = k + 1;
        }
        proof {
            assert(crc_steps(x, 0) == x);
            assert(data@.take(i + 1).drop_last() =~= data@.take(i as int));
            assert(data@.take(i + 1).last() == b);
        }
        c = x;
        i = i + 1;
    }
    proof {
        assert(data@.take(n as int) =~= data@);
    }
    c
}

/// The base32 character for a five-bit value.
pub open spec fn b32_char(v: u8) -> u8 {
    if v < 26 {
        (65 + v) as u8
    } else {
        (24 + v) as u8
    }
}

/// The five-bit value of a base32 character, or -1 for a foreign character.
pub open spec fn b32_val(c: u8) -> int {
    if 65 <= c <= 90 {
        c - 65
    } else if 50 <= c <= 55 {
        c - 50 + 26
    } else {
        -1
    }
}

/// The eight characters encoding a five-byte group.
pub open spec fn b32_enc_group(b0: u8, b1: u8, b2: u8, b3: u8, b4: u8) -> Seq<u8> {
    seq![
        b32_char((b0 / 8) as u8),
        b32_char(((b0 % 8) * 4 + b1 / 64) as u8),
        b32_char(((b1 / 2) % 32) as u8),
        b32_char(((b1 % 2) * 16 + b2 / 16) as u8),
        b32_char(((b2 % 16) * 2 + b3 / 128) as u8),
        b32_char(((b3 / 4) % 32) as u8),
        b32_char(((b3 % 4) * 8 + b4 / 32) as u8),
        b32_char((b4 % 32) as u8),
    ]
}

/// The base32 text of a byte string whose length is a multiple of five.
pub open spec fn b32_enc(s: Seq<u8>) -> Seq<u8>
    decreases s.len(),
{
    if s.len() < 5 {
        Seq::empty()
    } else {
        b32_enc_group(s[0], s[1], s[2], s[3], s[4]) + b32_enc(s.skip(5))
    }
}

pub proof fn lemma_b32_char_val(v: u8)
    requires
        v < 32,
    ensures
        b32_val(b32_char(v)) == v as int,
{
}

/// The five bytes recovered from eight five-bit values.
pub open spec fn b32_dec_group(
    v0: int,
    v1: int,
    v2: int,
    v3: int,
    v4: int,
    v5: int,
    v6: int,
    v7: int,
) -> Seq<u8> {
    seq![
        (v0 * 8 + v1 / 4) as u8,
        ((v1 % 4) * 64 + v2 * 2 + v3 / 16) as u8,
        ((v3 % 16) * 16 + v4 / 2) as u8,
        ((v4 % 2) * 128 + v5 * 4 + v6 / 8) as u8,
        ((v6 % 8) * 32 + v7) as u8,
    ]
}

/// Decoding the characters of an encoded group recovers the five bytes.
pub proof fn lemma_b32_group_round_trip(b0: u8, b1: u8, b2: u8, b3: u8, b4: u8)
    ensures
        b32_dec_group(
            b32_val(b32_enc_group(b0, b1, b2, b3, b4)[0]),
            b32_val(b32_enc_group(b0, b1, b2, b3, b4)[1]),
            b32_val(b32_enc_group(b0, b1, b2, b3, b4)[2]),
            b32_val(b32_enc_group(b0, b1, b2, b3, b4)[3]),
            b32_val(b32_enc_group(b0, b1, b2, b3, b4)[4]),
            b32_val(b32_enc_group(b0, b1, b2, b3, b4)[5]),
            b32_val(b32_enc_group(b0, b1, b2, b3, b4)[6]),
            b32_val(b32_enc_group(b0, b1, b2, b3, b4)[7]),
        ) =~= seq![b0, b1, b2, b3, b4],
{
    lemma_b32_char_val((b0 / 8) as u8);
    lemma_b32_char_val(((b0 % 8) * 4 + b1 / 64) as u8);
    lemma_b32_char_val(((b1 / 2) % 32) as u8);
    lemma_b32_char_val(((b1 % 2) * 16 + b2 / 16) as u8);
    lemma_b32_char_val(((b2 % 16) * 2 + b3 / 128) as u8);
    lemma_b32_char_val(((b3 / 4) % 32) as u8);
    lemma_b32_char_val(((b3 % 4) * 8 + b4 / 32) as u8);
    lemma_b32_char_val((b4 % 32) as u8);
    assert((b0 / 8) * 8 + ((b0 % 8) * 4 + b1 / 64) / 4 == b0) by (bit_vector);
    assert((((b0 % 8) * 4 + b1 / 64) % 4) * 64 + ((b1 / 2) % 32) * 2 + ((b1 % 2) * 16 + b2 / 16)
        / 16 == b1) by (bit_vector);
    assert((((b1 % 2) * 16 + b2 / 16) % 16) * 16 + ((b2 % 16) * 2 + b3 / 128) / 2 == b2)
        by (bit_vector);
    assert((((b2 % 16) * 2 + b3 / 128) % 2) * 128 + ((b3 / 4) % 32) * 4 + ((b3 % 4) * 8 + b4 / 32)
        / 8 == b3) by (bit_vector);
    assert((((b3 % 4) * 8 + b4 / 32) % 8) * 32 + (b4 % 32) == b4) by (bit_vector);
}

/// Re-encoding the five bytes decoded from eight valid values gives back
/// the same characters.
pub proof fn lemma_b32_group_reencode(
    c0: u8,
    c1: u8,
    c2: u8,
    c3: u8,
    c4: u8,
    c5: u8,
    c6: u8,
    c7: u8,
)
    requires
        b32_val(c0) >= 0,
        b32_val(c1) >= 0,
        b32_val(c2) >= 0,
        b32_val(c3) >= 0,
        b32_val(c4) >= 0,
        b32_val(c5) >= 0,
        b32_val(c6) >= 0,
        b32_val(c7) >= 0,
    ensures
        ({
            let d = b32_dec_group(
                b32_val(c0),
                b32_val(c1),
                b32_val(c2),
                b32_val(c3),
                b32_val(c4),
                b32_val(c5),
                b32_val(c6),
                b32_val(c7),
            );
            b32_enc_group(d[0], d[1], d[2], d[3], d[4]) =~= seq![c0, c1, c2, c3, c4, c5, c6, c7]
        }),
{
    let v0 = b32_val(c0);
    let v1 = b32_val(c1);
    let v2 = b32_val(c2);
    let v3 = b32_val(c3);
    let v4 = b32_val(c4);
    let v5 = b32_val(c5);
    let v6 = b32_val(c6);
    let v7 = b32_val(c7);
    assert(v0 < 32 && v1 < 32 && v2 < 32 && v3 < 32 && v4 < 32 && v5 < 32 && v6 < 32 && v7 < 32);
    let w0 = v0 as u8;
    let w1 = v1 as u8;
    let w2 = v2 as u8;
    let w3 = v3 as u8;
    let w4 = v4 as u8;
    let w5 = v5 as u8;
    let w6 = v6 as u8;
    let w7 = v7 as u8;
    let d0 = (v0 * 8 + v1 / 4) as u8;
    let d1 = ((v1 % 4) * 64 + v2 * 2 + v3 / 16) as u8;
    let d2 = ((v3 % 16) * 16 + v4 / 2) as u8;
    let d3 = ((v4 % 2) * 128 + v5 * 4 + v6 / 8) as u8;
    let d4 = ((v6 % 8) * 32 + v7) as u8;
    assert(d0 == (w0 * 8 + w1 / 4) as u8);
    assert(d1 == ((w1 % 4) * 64 + w2 * 2 + w3 / 16) as u8);
    assert(d2 == ((w3 % 16) * 16 + w4 / 2) as u8);
    assert(d3 == ((w4 % 2) * 128 + w5 * 4 + w6 / 8) as u8);
    assert(d4 == ((w6 % 8) * 32 + w7) as u8);
    assert(d0 / 8 == w0 && (d0 % 8) * 4 + d1 / 64 == w1 && (d1 / 2) % 32 == w2 && (d1 % 2) * 16
        + d2 / 16 == w3 && (d2 % 16) * 2 + d3 / 128 == w4 && (d3 / 4) % 32 == w5 && (d3 % 4) * 8
        + d4 / 32 == w6 && d4 % 32 == w7) by (bit_vector)
        requires
            w0 < 32 && w1 < 32 && w2 < 32 && w3 < 32 && w4 < 32 && w5 < 32 && w6 < 32 && w7 < 32,
            d0 == (w0 * 8 + w1 / 4) as u8,
            d1 == ((w1 % 4) * 64 + w2 * 2 + w3 / 16) as u8,
            d2 == ((w3 % 16) * 16 + w4 / 2) as u8,
            d3 == ((w4 % 2) * 128 + w5 * 4 + w6 / 8) as u8,
            d4 == ((w6 % 8) * 32 + w7) as u8,
    ;
    assert(b32_char((d0 / 8) as u8) == c0);
    assert(b32_char(((d0 % 8) * 4 + d1 / 64) as u8) == c1);
    assert(b32_char(((d1 / 2) % 32) as u8) == c2);
    assert(b32_char(((d1 % 2) * 16 + d2 / 16) as u8) == c3);
    assert(b32_char(((d2 % 16) * 2 + d3 / 128) as u8) == c4);
    assert(b32_char(((d3 / 4) % 32) as u8) == c5);
    assert(b32_char(((d3 % 4) * 8 + d4 / 32) as u8) == c6);
    assert(b32_char((d4 % 32) as u8) == c7);
}


pub const VER_ACCOUNT: u8 = 48;

pub const VER_CONTRACT: u8 = 16;

pub const VER_SEED: u8 = 144;

pub const VER_PRE_AUTH: u8 = 152;

pub const VER_HASH_X: u8 = 184;

/// The version byte that opens the strkey payload of each kind.
pub open spec fn version_byte(a: AddrModel) -> u8 {
    match a {
        AddrModel::Account(_) => VER_ACCOUNT,
        AddrModel::Contract(_) => VER_CONTRACT,
    }
}

/// Version byte followed by the raw 32 key bytes.
pub open spec fn strkey_payload(a: AddrModel) -> Seq<u8> {
    seq![version_byte(a)] + a.raw()
}

/// The low checksum byte; the checksum travels little-endian.
pub open spec fn crc_lo(c: u16) -> u8 {
    (c % 0x100) as u8
}

/// The high checksum byte.
pub open spec fn crc_hi(c: u16) -> u8 {
    (c / 0x100) as u8
}

/// The complete strkey text of an address: base32 over payload + checksum.
pub open spec fn strkey_text(a: AddrModel) -> Seq<u8> {
    let p = strkey_payload(a);
    b32_enc(p + seq![crc_lo(crc16(p)), crc_hi(crc16(p))])
}

/// Base32 decoding of a full text; any foreign character or ragged length
/// fails.
pub open spec fn b32_dec_all(t: Seq<u8>) -> Option<Seq<u8>>
    decreases t.len(),
{
    if t.len() == 0 {
        Option::Some(Seq::empty())
    } else if t.len() < 8 {
        Option::None
    } else if b32_val(t[0]) < 0 || b32_val(t[1]) < 0 || b32_val(t[2]) < 0 || b32_val(t[3]) < 0
        || b32_val(t[4]) < 0 || b32_val(t[5]) < 0 || b32_val(t[6]) < 0 || b32_val(t[7]) < 0 {
        Option::None
    } else {
        match b32_dec_all(t.skip(8)) {
            Option::Some(rest) => Option::Some(
                b32_dec_group(
                    b32_val(t[0]),
                    b32_val(t[1]),
                    b32_val(t[2]),
                    b32_val(t[3]),
                    b32_val(t[4]),
                    b32_val(t[5]),
                    b32_val(t[6]),
                    b32_val(t[7]),
                ) + rest,
            ),
            Option::None => Option::None,
        }
    }
}

/// What parsing a text yields: the address, or the error the text deserves.
///
/// A leading `M` or `P` names a multiplexed or signed-payload key, which the
/// core does not accept; other supported-length key kinds are validated in
/// full before being classified.
pub open spec fn parse_spec(t: Seq<u8>) -> Result<AddrModel, CoreError> {
    if t.len() > 0 && (t[0] == 77 || t[0] == 80) {
        Err(CoreError::UnsupportedAddressKind)
    } else if t.len() != 56 {
        Err(CoreError::InvalidAddressFormat)
    } else {
        match b32_dec_all(t) {
            Option::None => Err(CoreError::InvalidAddressFormat),
            Option::Some(d) => {
                let c = crc16(d.take(33));
                if d[33] != crc_lo(c) || d[34] != crc_hi(c) {
                    Err(CoreError::InvalidAddressFormat)
                } else if d[0] == VER_ACCOUNT {
                    Ok(AddrModel::Account(d.subrange(1, 33)))
                } else if d[0] == VER_CONTRACT {
                    Ok(AddrModel::Contract(d.subrange(1, 33)))
                } else if d[0] == VER_SEED || d[0] == VER_PRE_AUTH || d[0] == VER_HASH_X {
                    Err(CoreError::UnsupportedAddressKind)
                } else {
                    Err(CoreError::InvalidAddressFormat)
                }
            },
        }
    }
}

pub proof fn lemma_b32_enc_len(s: Seq<u8>)
    requires
        s.len() % 5 == 0,
    ensures
        b32_enc(s).len() == s.len() / 5 * 8,
    decreases s.len(),
{
    if s.len() >= 5 {
        lemma_b32_enc_len(s.skip(5));
    }
}

/// Decoding an encoding of whole groups recovers the bytes.
#[verifier::spinoff_prover]
#[verifier::rlimit(100)]
pub proof fn lemma_b32_dec_enc(s: Seq<u8>)
    requires
        s.len() % 5 == 0,
    ensures
        b32_dec_all(b32_enc(s)) == Some(s),
    decreases s.len(),
{
    if s.len() == 0 {
        assert(b32_enc(s) =~= Seq::<u8>::empty());
        assert(s =~= Seq::<u8>::empty());
    } else {
        let g = b32_enc_group(s[0], s[1], s[2], s[3], s[4]);
        let t = b32_enc(s);
        assert(t == g + b32_enc(s.skip(5)));
        lemma_b32_enc_len(s.skip(5));
        lemma_b32_dec_enc(s.skip(5));
        assert(t.skip(8) =~= b32_enc(s.skip(5)));
        assert(t[0] == g[0] && t[1] == g[1] && t[2] == g[2] && t[3] == g[3] && t[4] == g[4] && t[5]
            == g[5] && t[6] == g[6] && t[7] == g[7]);
        lemma_b32_group_round_trip(s[0], s[1], s[2], s[3], s[4]);
        assert(b32_val(g[0]) >= 0 && b32_val(g[1]) >= 0 && b32_val(g[2]) >= 0 && b32_val(g[3]) >= 0
            && b32_val(g[4]) >= 0 && b32_val(g[5]) >= 0 && b32_val(g[6]) >= 0 && b32_val(g[7])
            >= 0);
        assert(b32_dec_group(
            b32_val(t[0]),
            b32_val(t[1]),
            b32_val(t[2]),
            b32_val(t[3]),
            b32_val(t[4]),
            b32_val(t[5]),
            b32_val(t[6]),
            b32_val(t[7]),
        ) + s.skip(5) =~= s);
    }
}

/// Re-encoding a successful decode gives back the same text.
#[verifier::spinoff_prover]
#[verifier::rlimit(100)]
pub proof fn lemma_b32_enc_dec(t: Seq<u8>)
    ensures
        b32_dec_all(t) matches Some(d) ==> {
            &&& d.len() % 5 == 0
            &&& d.len() * 8 == t.len() * 5
            &&& b32_enc(d) == t
        },
    decreases t.len(),
{
    if t.len() == 0 {
        assert(b32_enc(Seq::<u8>::empty()) =~= Seq::<u8>::empty());
        assert(t =~= Seq::<u8>::empty());
    } else if t.len() < 8 {
    } else {
        if b32_val(t[0]) >= 0 && b32_val(t[1]) >= 0 && b32_val(t[2]) >= 0 && b32_val(t[3]) >= 0
            && b32_val(t[4]) >= 0 && b32_val(t[5]) >= 0 && b32_val(t[6]) >= 0 && b32_val(t[7])
            >= 0 {
            lemma_b32_enc_dec(t.skip(8));
            if let Option::Some(rest) = b32_dec_all(t.skip(8)) {
                let g = b32_dec_group(
                    b32_val(t[0]),
                    b32_val(t[1]),
                    b32_val(t[2]),
                    b32_val(t[3]),
                    b32_val(t[4]),
                    b32_val(t[5]),
                    b32_val(t[6]),
                    b32_val(t[7]),
                );
                let d = g + rest;
                lemma_b32_group_reencode(t[0], t[1], t[2], t[3], t[4], t[5], t[6], t[7]);
                assert(d[0] == g[0] && d[1] == g[1] && d[2] == g[2] && d[3] == g[3] && d[4]
                    == g[4]);
                assert(d.skip(5) =~= rest);
                assert(b32_enc_group(d[0], d[1], d[2], d[3], d[4]) =~= seq![
                    t[0],
                    t[1],
                    t[2],
                    t[3],
                    t[4],
                    t[5],
                    t[6],
                    t[7],
                ]);
                assert(b32_enc(d) =~= t);
            }
        }
    }
}

/// Parsing the text of a supported address yields that address: the formal
/// statement that `parse` is a left inverse of `format`.
#[verifier::spinoff_prover]
#[verifier::rlimit(100)]
pub proof fn lemma_parse_format(a: AddrModel)
    requires
        a.wf(),
    ensures
        parse_spec(strkey_text(a)) == Ok::<AddrModel, CoreError>(a),
{
    let p = strkey_payload(a);
    let c = crc16(p);
    let d = p + seq![crc_lo(c), crc_hi(c)];
    let t = strkey_text(a);
    assert(p.len() == 33);
    assert(d.len() == 35);
    lemma_b32_enc_len(d);
    assert(t.len() == 56);
    lemma_b32_dec_enc(d);
    assert(b32_dec_all(t) == Some(d));
    assert(t[0] == b32_enc_group(d[0], d[1], d[2], d[3], d[4])[0]);
    assert(d[0] == version_byte(a));
    assert(t[0] == b32_char((version_byte(a) / 8) as u8));
    assert(t[0] != 77 && t[0] != 80);
    assert(d.take(33) =~= p);
    assert(d[33] == crc_lo(c) && d[34] == crc_hi(c));
    assert(d.subrange(1, 33) =~= a.raw());
    match a {
        AddrModel::Account(raw) => {
            assert(parse_spec(t) == Ok::<AddrModel, CoreError>(AddrModel::Account(d.subrange(1, 33))));
        }
        AddrModel::Contract(raw) => {
            assert(parse_spec(t) == Ok::<AddrModel, CoreError>(AddrModel::Contract(d.subrange(1, 33))));
        }
    }
}

/// Whatever parses successfully is well formed and re-formats to the very
/// text that was parsed: `format` is a left inverse of `parse`.
#[verifier::spinoff_prover]
#[verifier::rlimit(100)]
pub proof fn lemma_parse_sound(t: Seq<u8>)
    ensures
        parse_spec(t) matches Ok(am) ==> am.wf() && t == strkey_text(am),
{
    if parse_spec(t) is Ok {
        lemma_b32_enc_dec(t);
        if let Option::Some(d) = b32_dec_all(t) {
            let am = parse_spec(t)->Ok_0;
            assert(d.len() == 35);
            assert(strkey_payload(am) =~= d.take(33));
            let c = crc16(d.take(33));
            assert(strkey_payload(am) + seq![crc_lo(c), crc_hi(c)] =~= d);
            assert(strkey_text(am) == b32_enc(d));
        }
    }
}

/// The base32 character of a five-bit value, as executable code.
fn b32_char_of(v: u8) -> (r: u8)
    requires
        v < 32,
    ensures
        r == b32_char(v),
{
    if v < 26 {
        65 + v
    } else {
        24 + v
    }
}

/// The five-bit value of a base32 character, as executable code.
fn b32_val_of(c: u8) -> (r: Option<u8>)
    ensures
        (r matches Some(v) ==> b32_val(c) == v as int),
        (r is None ==> b32_val(c) < 0),
{
    if 65 <= c && c <= 90 {
        Some(c - 65)
    } else if 50 <= c && c <= 55 {
        Some(c - 50 + 26)
    } else {
        None
    }
}

/// Formats an address as its 56-character strkey text (ASCII bytes).
#[verifier::loop_isolation(false)]
pub fn format(a: &Address) -> (r: Vec<u8>)
    requires
        a.wf(),
    ensures
        r@ == strkey_text(a@),
        r@.len() == 56,
{
    let mut data: Vec<u8> = Vec::new();
    match a {
        Address::Account(b) => {
            data.push(VER_ACCOUNT);
            crate::bytesutil::push_slice(&mut data, b.as_slice());
        }
        Address::Contract(b) => {
            data.push(VER_CONTRACT);
            crate::bytesutil::push_slice(&mut data, b.as_slice());
        }
    }
    proof {
        assert(data@ =~= strkey_payload(a@));
    }
    let c = crc16_compute(data.as_slice());
    data.push((c % 0x100) as u8);
    data.push((c / 0x100) as u8);
    let ghost d = data@;
    proof {
        assert(d =~= strkey_payload(a@) + seq![
            crc_lo(crc16(strkey_payload(a@))),
            crc_hi(crc16(strkey_payload(a@))),
        ]);
        lemma_b32_enc_len(d);
    }
    let mut out: Vec<u8> = Vec::new();
    let mut g: usize = 0;
    proof {
        assert(d.skip(0) =~= d);
    }
    while g < 7
        invariant
            g <= 7,
            data@ == d,
            d.len() == 35,
            b32_enc(d) == out@ + b32_enc(d.skip(5 * g as int)),
        decreases 7 - g,
    {
        let base = 5 * g;
        let b0 = data[base];
        let b1 = data[base + 1];
        let b2 = data[base + 2];
        let b3 = data[base + 3];
        let b4 = data[base + 4];
        let ghost pre = out@;
        out.push(b32_char_of(b0 / 8));
        out.push(b32_char_of((b0 % 8) * 4 + b1 / 64));
        out.push(b32_char_of((b1 / 2) % 32));
        out.push(b32_char_of((b1 % 2) * 16 + b2 / 16));
        out.push(b32_char_of((b2 % 16) * 2 + b3 / 128));
        out.push(b32_char_of((b3 / 4) % 32));
        out.push(b32_char_of((b3 % 4) * 8 + b4 / 32));
        out.push(b32_char_of(b4 % 32));
        proof {
            let rest = d.skip(5 * g as int);
            assert(rest[0] == b0 && rest[1] == b1 && rest[2] == b2 && rest[3] == b3 && rest[4]
                == b4);
            assert(out@ =~= pre + b32_enc_group(b0, b1, b2, b3, b4));
            assert(rest.skip(5) =~= d.skip(5 * (g + 1) as int));
            assert(b32_enc(rest) == b32_enc_group(b0, b1, b2, b3, b4) + b32_enc(rest.skip(5)));
            assert(pre + b32_enc(rest) =~= out@ + b32_enc(d.skip(5 * (g + 1) as int)));
        }
        g = g + 1;
    }
    proof {
        assert(d.skip(35) =~= Seq::<u8>::empty());
        assert(b32_enc(Seq::<u8>::empty()) =~= Seq::<u8>::empty());
        assert(out@ =~= b32_enc(d));
    }
    out
}

/// Parses a strkey text (ASCII bytes) into a typed address.
///
/// Returns `InvalidAddressFormat` for wrong length, foreign characters, a
/// bad checksum or an unknown version byte, and `UnsupportedAddressKind`
/// for key kinds the core refuses: multiplexed and signed-payload keys by
/// their leading character, and otherwise well-formed seed, pre-auth and
/// hash-x keys by their version byte.
#[verifier::loop_isolation(false)]
pub fn parse(text: &[u8]) -> (r: Result<Address, CoreError>)
    ensures
        (r matches Ok(a) ==> a.wf() && parse_spec(text@) == Ok::<AddrModel, CoreError>(a@) && text@ == strkey_text(a@)),
        (r matches Err(e) ==> parse_spec(text@) == Err::<AddrModel, CoreError>(e)),
{
    if text.len() > 0 && (text[0] == 77 || text[0] == 80) {
        return Err(CoreError::UnsupportedAddressKind);
    }
    if text.len() != 56 {
        return Err(CoreError::InvalidAddressFormat);
    }
    let mut data: Vec<u8> = Vec::new();
    let mut g: usize = 0;
    proof {
        assert(text@.skip(0) =~= text@);
        if let Option::Some(rest) = b32_dec_all(text@) {
            assert(Seq::<u8>::empty() + rest =~= rest);
        }
    }
    while g < 7
        invariant
            g <= 7,
            text@.len() == 56,
            data@.len() == 5 * g,
            (match b32_dec_all(text@.skip(8 * g as int)) {
                Option::Some(rest) => b32_dec_all(text@) == Some(data@ + rest),
                Option::None => b32_dec_all(text@) is None,
            }),
        decreases 7 - g,
    {
        let base = 8 * g;
        let ghost rest0 = text@.skip(8 * g as int);
        let mut vals: [u8; 8] = [0, 0, 0, 0, 0, 0, 0, 0];
        let mut ok = true;
        let mut j: usize = 0;
        while j < 8
            invariant
                j <= 8,
                base == 8 * g,
                g < 7,
                text@.len() == 56,
                ok ==> forall|k: int|
                    0 <= k < j ==> b32_val(#[trigger] text@[8 * g + k]) == vals@[k] as int,
                !ok ==> exists|k: int| 0 <= k < j && b32_val(#[trigger] text@[8 * g + k]) < 0,
            decreases 8 - j,
        {
            match b32_val_of(text[base + j]) {
                Some(v) => {
                    vals[j] = v;
                }
                None => {
                    ok = false;
                }
            }
            j = j + 1;
        }
        if !ok {
            proof {
                assert(rest0.len() == 56 - 8 * g);
                assert(forall|k: int| 0 <= k < 8 ==> rest0[k] == text@[8 * g + k]);
                assert(b32_dec_all(rest0) is None);
            }
            return Err(CoreError::InvalidAddressFormat);
        }
        let ghost pre = data@;
        data.push((vals[0] as u16 * 8 + vals[1] as u16 / 4) as u8);
        data.push(((vals[1] as u16 % 4) * 64 + vals[2] as u16 * 2 + vals[3] as u16 / 16) as u8);
        data.push(((vals[3] as u16 % 16) * 16 + vals[4] as u16 / 2) as u8);
        data.push(((vals[4] as u16 % 2) * 128 + vals[5] as u16 * 4 + vals[6] as u16 / 8) as u8);
        data.push(((vals[6] as u16 % 8) * 32 + vals[7] as u16) as u8);
        proof {
            assert(forall|k: int| 0 <= k < 8 ==> rest0[k] == text@[8 * g + k]);
            let gd = b32_dec_group(
                b32_val(rest0[0]),
                b32_val(rest0[1]),
                b32_val(rest0[2]),
                b32_val(rest0[3]),
                b32_val(rest0[4]),
                b32_val(rest0[5]),
                b32_val(rest0[6]),
                b32_val(rest0[7]),
            );
            assert(data@ =~= pre + gd);
            assert(rest0.skip(8) =~= text@.skip(8 * (g + 1) as int));
            if let Option::Some(rest) = b32_dec_all(text@.skip(8 * (g + 1) as int)) {
                assert(b32_dec_all(rest0) == Some(gd + rest));
                assert(pre + (gd + rest) =~= data@ + rest);
            } else {
                assert(b32_dec_all(rest0) is None);
            }
        }
        g = g + 1;
    }
    proof {
        assert(text@.skip(56) =~= Seq::<u8>::empty());
        assert(b32_dec_all(Seq::<u8>::empty()) == Some(Seq::<u8>::empty()));
        assert(data@ + Seq::<u8>::empty() =~= data@);
        assert(b32_dec_all(text@) == Some::<Seq<u8>>(data@));
    }
    let c = crc16_compute(vstd::slice::slice_subrange(data.as_slice(), 0, 33));
    proof {
        assert(data@.subrange(0, 33) =~= data@.take(33));
    }
    if data[33] != (c % 0x100) as u8 || data[34] != (c / 0x100) as u8 {
        return Err(CoreError::InvalidAddressFormat);
    }
    let ver = data[0];
    if ver == VER_ACCOUNT {
        let raw = vstd::slice::slice_to_vec(vstd::slice::slice_subrange(data.as_slice(), 1, 33));
        let a = Address::Account(raw);
        proof {
            lemma_parse_sound(text@);
        }
        Ok(a)
    } else if ver == VER_CONTRACT {
        let raw = vstd::slice::slice_to_vec(vstd::slice::slice_subrange(data.as_slice(), 1, 33));
        let a = Address::Contract(raw);
        proof {
            lemma_parse_sound(text@);
        }
        Ok(a)
    } else if ver == VER_SEED || ver == VER_PRE_AUTH || ver == VER_HASH_X {
        Err(CoreError::UnsupportedAddressKind)
    } else {
        Err(CoreError::InvalidAddressFormat)
    }
}


/// Copies an address; the copy has the same kind and raw bytes.
pub fn clone_address(a: &Address) -> (r: Address)
    ensures
        r@ == a@,
{
    match a {
        Address::Account(b) => Address::Account(vstd::slice::slice_to_vec(b.as_slice())),
        Address::Contract(b) => Address::Contract(vstd::slice::slice_to_vec(b.as_slice())),
    }
}


/// Base32 text is pure ASCII.
pub proof fn lemma_b32_ascii(s: Seq<u8>)
    ensures
        forall|i: int| 0 <= i < b32_enc(s).len() ==> b32_enc(s)[i] < 128,
    decreases s.len(),
{
    if s.len() >= 5 {
        lemma_b32_ascii(s.skip(5));
        let rest = b32_enc(s.skip(5));
        assert forall|i: int| 0 <= i < b32_enc(s).len() implies b32_enc(s)[i] < 128 by {
            if i >= 8 {
                assert(b32_enc(s)[i] == rest[i - 8]);
            } else {
                assert(b32_enc(s)[i] == b32_enc_group(s[0], s[1], s[2], s[3], s[4])[i]);
            }
        }
    }
}

} // verus!