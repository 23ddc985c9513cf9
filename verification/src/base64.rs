//! Standard base64 with padding: the text form of envelopes and of the
//! simulator's binary fields.
//!
//! Decoding is strict: padding is mandatory, only the last quad may carry
//! it, and unused trailing bits must be zero, so every byte string has
//! exactly one accepted text.
use vstd::prelude::*;

use crate::errors::CoreError;

verus! {

/// The base64 character for a six-bit value.
pub open spec fn b64_char(v: u8) -> u8 {
    if v < 26 {
        (65 + v) as u8
    } else if v < 52 {
        (71 + v) as u8
    } else if v < 62 {
        (v - 4) as u8
    } else if v == 62 {
        43
    } else {
        47
    }
}

/// The six-bit value of a base64 character, or -1 for a foreign character.
pub open spec fn b64_val(c: u8) -> int {
    if 65 <= c <= 90 {
        c - 65
    } else if 97 <= c <= 122 {
        c - 97 + 26
    } else if 48 <= c <= 57 {
        c - 48 + 52
    } else if c == 43 {
        62
    } else if c == 47 {
        63
    } else {
        -1
    }
}

/// The base64 text of a byte string, with padding.
pub open spec fn b64_enc(s: Seq<u8>) -> Seq<u8>
    decreases s.len(),
{
    if s.len() == 0 {
        Seq::empty()
    } else if s.len() == 1 {
        seq![b64_char((s[0] / 4) as u8), b64_char(((s[0] % 4) * 16) as u8), 61, 61]
    } else if s.len() == 2 {
        seq![
            b64_char((s[0] / 4) as u8),
            b64_char(((s[0] % 4) * 16 + s[1] / 16) as u8),
            b64_char(((s[1] % 16) * 4) as u8),
            61,
        ]
    } else {
        seq![
            b64_char((s[0] / 4) as u8),
            b64_char(((s[0] % 4) * 16 + s[1] / 16) as u8),
            b64_char(((s[1] % 16) * 4 + s[2] / 64) as u8),
            b64_char((s[2] % 64) as u8),
        ] + b64_enc(s.skip(3))
    }
}

/// The bytes of a base64 text, or `None` if the text is not the canonical
/// encoding of any byte string.
pub open spec fn b64_dec(t: Seq<u8>) -> Option<Seq<u8>>
    decreases t.len(),
{
    if t.len() == 0 {
        Option::Some(Seq::empty())
    } else if t.len() < 4 {
        Option::None
    } else if t.len() == 4 {
        if b64_val(t[0]) < 0 || b64_val(t[1]) < 0 {
            Option::None
        } else {
            let v0 = b64_val(t[0]);
            let v1 = b64_val(t[1]);
            if t[2] == 61 && t[3] == 61 {
                if v1 % 16 == 0 {
                    Option::Some(seq![(v0 * 4 + v1 / 16) as u8])
                } else {
                    Option::None
                }
            } else if t[3] == 61 {
                if b64_val(t[2]) < 0 {
                    Option::None
                } else {
                    let v2 = b64_val(t[2]);
                    if v2 % 4 == 0 {
                        Option::Some(
                            seq![(v0 * 4 + v1 / 16) as u8, ((v1 % 16) * 16 + v2 / 4) as u8],
                        )
                    } else {
                        Option::None
                    }
                }
            } else {
                if b64_val(t[2]) < 0 || b64_val(t[3]) < 0 {
                    Option::None
                } else {
                    let v2 = b64_val(t[2]);
                    let v3 = b64_val(t[3]);
                    Option::Some(
                        seq![
                            (v0 * 4 + v1 / 16) as u8,
                            ((v1 % 16) * 16 + v2 / 4) as u8,
                            ((v2 % 4) * 64 + v3) as u8,
                        ],
                    )
                }
            }
        }
    } else {
        if b64_val(t[0]) < 0 || b64_val(t[1]) < 0 || b64_val(t[2]) < 0 || b64_val(t[3]) < 0 {
            Option::None
        } else {
            let v0 = b64_val(t[0]);
            let v1 = b64_val(t[1]);
            let v2 = b64_val(t[2]);
            let v3 = b64_val(t[3]);
            match b64_dec(t.skip(4)) {
                Option::Some(rest) => Option::Some(
                    seq![
                        (v0 * 4 + v1 / 16) as u8,
                        ((v1 % 16) * 16 + v2 / 4) as u8,
                        ((v2 % 4) * 64 + v3) as u8,
                    ] + rest,
                ),
                Option::None => Option::None,
            }
        }
    }
}

/// The base64 character of a six-bit value, as executable code.
fn b64_char_of(v: u8) -> (r: u8)
    requires
        v < 64,
    ensures
        r == b64_char(v),
{
    if v < 26 {
        65 + v
    } else if v < 52 {
        71 + v
    } else if v < 62 {
        v - 4
    } else if v == 62 {
        43
    } else {
        47
    }
}

/// The six-bit value of a base64 character, as executable code.
fn b64_val_of(c: u8) -> (r: Option<u8>)
    ensures
        (r matches Some(v) ==> b64_val(c) == v as int),
        (r is None ==> b64_val(c) < 0),
{
    if 65 <= c && c <= 90 {
        Some(c - 65)
    } else if 97 <= c && c <= 122 {
        Some(c - 97 + 26)
    } else if 48 <= c && c <= 57 {
        Some(c - 48 + 52)
    } else if c == 43 {
        Some(62)
    } else if c == 47 {
        Some(63)
    } else {
        None
    }
}

/// Encodes bytes as base64 text with padding.
#[verifier::loop_isolation(false)]
pub fn encode_base64(data: &[u8]) -> (r: Vec<u8>)
    ensures
        r@ == b64_enc(data@),
{
    let n = data.len();
    let mut out: Vec<u8> = Vec::new();
    let mut i: usize = 0;
    proof {
        assert(data@.skip(0) =~= data@);
    }
    while n - i >= 3
        invariant
            i <= n,
            n == data@.len(),
            b64_enc(data@) == out@ + b64_enc(data@.skip(i as int)),
        decreases n - i,
    {
        let b0 = data[i];
        let b1 = data[i + 1];
        let b2 = data[i + 2];
        let ghost pre = out@;
        let ghost rest = data@.skip(i as int);
        out.push(b64_char_of(b0 / 4));
        out.push(b64_char_of((b0 % 4) * 16 + b1 / 16));
        out.push(b64_char_of((b1 % 16) * 4 + b2 / 64));
        out.push(b64_char_of(b2 % 64));
        proof {
            assert(rest[0] == b0 && rest[1] == b1 && rest[2] == b2);
            assert(rest.skip(3) =~= data@.skip(i + 3));
            assert(out@ =~= pre + seq![
                b64_char((b0 / 4) as u8),
                b64_char(((b0 % 4) * 16 + b1 / 16) as u8),
                b64_char(((b1 % 16) * 4 + b2 / 64) as u8),
                b64_char((b2 % 64) as u8),
            ]);
            assert(pre + b64_enc(rest) =~= out@ + b64_enc(data@.skip(i + 3)));
        }
        i = i + 3;
    }
    let ghost tail = data@.skip(i as int);
    if i == n {
        proof {
            assert(tail =~= Seq::<u8>::empty());
            assert(out@ =~= b64_enc(data@));
        }
    } else if n - i == 1 {
        let b0 = data[i];
        let ghost pre = out@;
        out.push(b64_char_of(b0 / 4));
        out.push(b64_char_of((b0 % 4) * 16));
        out.push(61);
        out.push(61);
        proof {
            assert(tail[0] == b0 && tail.len() == 1);
            assert(out@ =~= pre + b64_enc(tail));
            assert(out@ =~= b64_enc(data@));
        }
    } else {
        let b0 = data[i];
        let b1 = data[i + 1];
        let ghost pre = out@;
        out.push(b64_char_of(b0 / 4));
        out.push(b64_char_of((b0 % 4) * 16 + b1 / 16));
        out.push(b64_char_of((b1 % 16) * 4));
        out.push(61);
        proof {
            assert(tail[0] == b0 && tail[1] == b1 && tail.len() == 2);
            assert(out@ =~= pre + b64_enc(tail));
            assert(out@ =~= b64_enc(data@));
        }
    }
    out
}

/// Decodes base64 text, strictly.
///
/// Fails with `MalformedValue` exactly when the text is not the canonical
/// padded encoding of any byte string.
#[verifier::loop_isolation(false)]
pub fn decode_base64(text: &[u8]) -> (r: Result<Vec<u8>, CoreError>)
    ensures
        (r matches Ok(v) ==> b64_dec(text@) == Some(v@)),
        (r matches Err(e) ==> b64_dec(text@) is None && e == CoreError::MalformedValue),
{
    let n = text.len();
    if n == 0 {
        let out: Vec<u8> = Vec::new();
        proof {
            assert(out@ =~= Seq::<u8>::empty());
        }
        return Ok(out);
    }
    if n % 4 != 0 {
        proof {
            lemma_b64_dec_len_multiple(text@);
        }
        return Err(CoreError::MalformedValue);
    }
    let mut out: Vec<u8> = Vec::new();
    let mut i: usize = 0;
    proof {
        assert(text@.skip(0) =~= text@);
        if let Option::Some(rest) = b64_dec(text@) {
            assert(Seq::<u8>::empty() + rest =~= rest);
        }
    }
    while n - i > 4
        invariant
            i < n,
            i % 4 == 0,
            n % 4 == 0,
            n == text@.len(),
            n > 0,
            (match b64_dec(text@.skip(i as int)) {
                Option::Some(rest) => b64_dec(text@) == Some(out@ + rest),
                Option::None => b64_dec(text@) is None,
            }),
        decreases n - i,
    {
        let ghost quad = text@.skip(i as int);
        let r0 = b64_val_of(text[i]);
        let r1 = b64_val_of(text[i + 1]);
        let r2 = b64_val_of(text[i + 2]);
        let r3 = b64_val_of(text[i + 3]);
        proof {
            assert(quad[0] == text@[i as int] && quad[1] == text@[i + 1] && quad[2] == text@[i + 2]
                && quad[3] == text@[i + 3]);
            assert(quad.len() > 4);
        }
        match (r0, r1, r2, r3) {
            (Some(v0), Some(v1), Some(v2), Some(v3)) => {
                let ghost pre = out@;
                out.push(v0 * 4 + v1 / 16);
                out.push((v1 % 16) * 16 + v2 / 4);
                out.push((v2 % 4) * 64 + v3);
                proof {
                    assert(quad.skip(4) =~= text@.skip(i + 4));
                    if let Option::Some(rest) = b64_dec(text@.skip(i + 4)) {
                        assert(out@ =~= pre + seq![
                            (b64_val(quad[0]) * 4 + b64_val(quad[1]) / 16) as u8,
                            ((b64_val(quad[1]) % 16) * 16 + b64_val(quad[2]) / 4) as u8,
                            ((b64_val(quad[2]) % 4) * 64 + b64_val(quad[3])) as u8,
                        ]);
                        assert(pre + (seq![
                            (b64_val(quad[0]) * 4 + b64_val(quad[1]) / 16) as u8,
                            ((b64_val(quad[1]) % 16) * 16 + b64_val(quad[2]) / 4) as u8,
                            ((b64_val(quad[2]) % 4) * 64 + b64_val(quad[3])) as u8,
                        ] + rest) =~= out@ + rest);
                    }
                }
                i = i + 4;
            }
            _ => {
                return Err(CoreError::MalformedValue);
            }
        }
    }
    let ghost quad = text@.skip(i as int);
    proof {
        assert(quad.len() == 4);
        assert(quad[0] == text@[i as int] && quad[1] == text@[i + 1] && quad[2] == text@[i + 2]
            && quad[3] == text@[i + 3]);
    }
    let r0 = b64_val_of(text[i]);
    let r1 = b64_val_of(text[i + 1]);
    match (r0, r1) {
        (Some(v0), Some(v1)) => {
            let c2 = text[i + 2];
            let c3 = text[i + 3];
            if c2 == 61 && c3 == 61 {
                if v1 % 16 == 0 {
                    let ghost pre = out@;
                    out.push(v0 * 4 + v1 / 16);
                    proof {
                        assert(b64_dec(quad) == Some(seq![(b64_val(quad[0]) * 4 + b64_val(quad[1])
                            / 16) as u8]));
                        assert(pre + seq![(b64_val(quad[0]) * 4 + b64_val(quad[1]) / 16) as u8]
                            =~= out@);
                    }
                    Ok(out)
                } else {
                    Err(CoreError::MalformedValue)
                }
            } else if c3 == 61 {
                match b64_val_of(c2) {
                    Some(v2) => {
                        if v2 % 4 == 0 {
                            let ghost pre = out@;
                            out.push(v0 * 4 + v1 / 16);
                            out.push((v1 % 16) * 16 + v2 / 4);
                            proof {
                                assert(quad[2] != 61);
                                assert(b64_dec(quad) == Some(seq![
                                    (b64_val(quad[0]) * 4 + b64_val(quad[1]) / 16) as u8,
                                    ((b64_val(quad[1]) % 16) * 16 + b64_val(quad[2]) / 4) as u8,
                                ]));
                                assert(pre + seq![
                                    (b64_val(quad[0]) * 4 + b64_val(quad[1]) / 16) as u8,
                                    ((b64_val(quad[1]) % 16) * 16 + b64_val(quad[2]) / 4) as u8,
                                ] =~= out@);
                            }
                            Ok(out)
                        } else {
                            Err(CoreError::MalformedValue)
                        }
                    }
                    None => Err(CoreError::MalformedValue),
                }
            } else {
                match (b64_val_of(c2), b64_val_of(c3)) {
                    (Some(v2), Some(v3)) => {
                        let ghost pre = out@;
                        out.push(v0 * 4 + v1 / 16);
                        out.push((v1 % 16) * 16 + v2 / 4);
                        out.push((v2 % 4) * 64 + v3);
                        proof {
                            assert(quad[2] != 61 && quad[3] != 61);
                            assert(b64_dec(quad) == Some(seq![
                                (b64_val(quad[0]) * 4 + b64_val(quad[1]) / 16) as u8,
                                ((b64_val(quad[1]) % 16) * 16 + b64_val(quad[2]) / 4) as u8,
                                ((b64_val(quad[2]) % 4) * 64 + b64_val(quad[3])) as u8,
                            ]));
                            assert(pre + seq![
                                (b64_val(quad[0]) * 4 + b64_val(quad[1]) / 16) as u8,
                                ((b64_val(quad[1]) % 16) * 16 + b64_val(quad[2]) / 4) as u8,
                                ((b64_val(quad[2]) % 4) * 64 + b64_val(quad[3])) as u8,
                            ] =~= out@);
                        }
                        Ok(out)
                    }
                    _ => Err(CoreError::MalformedValue),
                }
            }
        }
        _ => Err(CoreError::MalformedValue),
    }
}

/// A decodable text has a length that is a multiple of four.
proof fn lemma_b64_dec_len_multiple(t: Seq<u8>)
    ensures
        b64_dec(t) is Some ==> t.len() % 4 == 0,
    decreases t.len(),
{
    if t.len() > 4 {
        lemma_b64_dec_len_multiple(t.skip(4));
    }
}


/// Base64 text is pure ASCII.
pub proof fn lemma_b64_ascii(s: Seq<u8>)
    ensures
        forall|i: int| 0 <= i < b64_enc(s).len() ==> b64_enc(s)[i] < 128,
    decreases s.len(),
{
    if s.len() > 2 {
        lemma_b64_ascii(s.skip(3));
        let rest = b64_enc(s.skip(3));
        assert forall|i: int| 0 <= i < b64_enc(s).len() implies b64_enc(s)[i] < 128 by {
            if i >= 4 {
                assert(b64_enc(s)[i] == rest[i - 4]);
            }
        }
    }
}

} // verus!