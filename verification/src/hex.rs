//! Lowercase hex text, used for transaction hashes and entropy display.
use vstd::prelude::*;

verus! {

/// The lowercase hex character of a four-bit value.
pub open spec fn hex_digit(v: u8) -> u8 {
    if v < 10 {
        (48 + v) as u8
    } else {
        (87 + v) as u8
    }
}

/// The lowercase hex text of a byte string, two characters per byte.
pub open spec fn hex_of(s: Seq<u8>) -> Seq<u8>
    decreases s.len(),
{
    if s.len() == 0 {
        Seq::empty()
    } else {
        hex_of(s.drop_last()) + seq![
            hex_digit((s.last() / 16) as u8),
            hex_digit((s.last() % 16) as u8),
        ]
    }
}

/// The lowercase hex digit of a four-bit value, as executable code.
fn hex_digit_of(v: u8) -> (r: u8)
    requires
        v < 16,
    ensures
        r == hex_digit(v),
{
    if v < 10 {
        48 + v
    } else {
        87 + v
    }
}

/// Encodes bytes as lowercase hex text.
#[verifier::loop_isolation(false)]
pub fn encode_hex(data: &[u8]) -> (r: Vec<u8>)
    ensures
        r@ == hex_of(data@),
        r@.len() == 2 * data@.len(),
{
    let n = data.len();
    let mut out: Vec<u8> = Vec::new();
    let mut i: usize = 0;
    proof {
        assert(hex_of(data@.take(0)) =~= Seq::<u8>::empty());
        assert(out@ =~= Seq::<u8>::empty());
    }
    while i < n
        invariant
            i <= n,
            n == data@.len(),
            out@ == hex_of(data@.take(i as int)),
            out@.len() == 2 * i,
        decreases n - i,
    {
        let b = data[i];
        out.push(hex_digit_of(b / 16));
        out.push(hex_digit_of(b % 16));
        proof {
            assert(data@.take(i + 1).drop_last() =~= data@.take(i as int));
            assert(data@.take(i + 1).last() == b);
            assert(out@ =~= hex_of(data@.take(i + 1)));
        }
        i = i + 1;
    }
    proof {
        assert(data@.take(n as int) =~= data@);
    }
    out
}

/// Hex text is pure ASCII.
pub proof fn lemma_hex_ascii(s: Seq<u8>)
    ensures
        forall|i: int| 0 <= i < hex_of(s).len() ==> hex_of(s)[i] < 128,
    decreases s.len(),
{
    if s.len() > 0 {
        lemma_hex_ascii(s.drop_last());
        let front = hex_of(s.drop_last());
        assert forall|i: int| 0 <= i < hex_of(s).len() implies hex_of(s)[i] < 128 by {
            if i < front.len() {
                assert(hex_of(s)[i] == front[i]);
            } else {
                assert(hex_of(s)[i] == seq![
                    hex_digit((s.last() / 16) as u8),
                    hex_digit((s.last() % 16) as u8),
                ][i - front.len()]);
            }
        }
    }
}

} // verus!