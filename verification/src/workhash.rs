//! The externally specified proof-of-work preimage and digest.
//!
//! The remote contract recomputes the same digest and compares, so the
//! preimage layout is bit-exact: block index, nonce, entropy, then the last
//! 32 bytes of the address's own wire encoding.
use vstd::prelude::*;

use crate::address::Address;
use crate::bytesutil::{be32, be64, push_be32, push_be64, push_slice};
use crate::codec::enc_addr;
use crate::errors::CoreError;
use crate::values::AddrModel;

verus! {

/// What Keccak-256 returns for an input; a function of the bytes alone.
pub uninterp spec fn keccak256_of(input: Seq<u8>) -> Seq<u8>;

/// Relies on sha3's Keccak256 through the Digest trait: a deterministic
/// function of the input bytes with a fixed 32-byte output.
#[verifier::external_body]
fn keccak256(input: &[u8]) -> (r: Vec<u8>)
    ensures
        r@ == keccak256_of(input@),
        r@.len() == 32,
{
    let digest = <sha3::Keccak256 as sha3::Digest>::digest(input);
    digest.to_vec()
}

/// The 76-byte preimage the remote contract hashes.
pub open spec fn work_preimage(
    block_index: u32,
    nonce: u64,
    entropy: Seq<u8>,
    addr: AddrModel,
) -> Seq<u8> {
    be32(block_index) + be64(nonce) + entropy + enc_addr(addr).subrange(
        enc_addr(addr).len() - 32,
        enc_addr(addr).len() as int,
    )
}

/// The tail of an address's wire encoding is its raw key, for either kind.
pub proof fn lemma_addr_tail(addr: AddrModel)
    requires
        addr.wf(),
    ensures
        enc_addr(addr).subrange(enc_addr(addr).len() - 32, enc_addr(addr).len() as int)
            == addr.raw(),
{
    match addr {
        AddrModel::Account(b) => {
            assert(enc_addr(addr).subrange(8, 40) =~= b);
        }
        AddrModel::Contract(b) => {
            assert(enc_addr(addr).subrange(4, 36) =~= b);
        }
    }
}

/// The preimage determines every input: two preimages agree only when the
/// block index, nonce, entropy and raw address bytes all agree.
pub proof fn lemma_preimage_distinct(
    b1: u32,
    n1: u64,
    e1: Seq<u8>,
    a1: AddrModel,
    b2: u32,
    n2: u64,
    e2: Seq<u8>,
    a2: AddrModel,
)
    requires
        e1.len() == 32,
        e2.len() == 32,
        a1.wf(),
        a2.wf(),
        work_preimage(b1, n1, e1, a1) == work_preimage(b2, n2, e2, a2),
    ensures
        b1 == b2,
        n1 == n2,
        e1 == e2,
        a1.raw() == a2.raw(),
{
    lemma_addr_tail(a1);
    lemma_addr_tail(a2);
    let p1 = work_preimage(b1, n1, e1, a1);
    let p2 = work_preimage(b2, n2, e2, a2);
    assert(p1.len() == 76 && p2.len() == 76);
    assert(be32(b1) =~= p1.subrange(0, 4));
    assert(be32(b2) =~= p2.subrange(0, 4));
    crate::bytesutil::lemma_be32_val_of_be32(b1);
    crate::bytesutil::lemma_be32_val_of_be32(b2);
    assert(be64(n1) =~= p1.subrange(4, 12));
    assert(be64(n2) =~= p2.subrange(4, 12));
    crate::bytesutil::lemma_be64_val_of_be64(n1);
    crate::bytesutil::lemma_be64_val_of_be64(n2);
    assert(e1 =~= p1.subrange(12, 44));
    assert(e2 =~= p2.subrange(12, 44));
    assert(a1.raw() =~= p1.subrange(44, 76));
    assert(a2.raw() =~= p2.subrange(44, 76));
}

/// Computes the proof digest for a block, or reports that no proof can be
/// computed yet because the block has no entropy.
pub fn calculate_work_hash(
    block_index: u32,
    nonce: u64,
    entropy: &Option<Vec<u8>>,
    addr: &Address,
) -> (r: Result<Vec<u8>, CoreError>)
    requires
        addr.wf(),
        (entropy matches Some(e) ==> e@.len() == 32),
    ensures
        entropy is None ==> r == Err::<Vec<u8>, _>(CoreError::EntropyUnavailable),
        (entropy matches Some(e) ==> r matches Ok(h) && h@ == keccak256_of(
            work_preimage(block_index, nonce, e@, addr@),
        ) && h@.len() == 32),
{
    match entropy {
        None => Err(CoreError::EntropyUnavailable),
        Some(e) => {
            let mut pre: Vec<u8> = Vec::new();
            push_be32(&mut pre, block_index);
            push_be64(&mut pre, nonce);
            push_slice(&mut pre, e.as_slice());
            match addr {
                Address::Account(b) => push_slice(&mut pre, b.as_slice()),
                Address::Contract(b) => push_slice(&mut pre, b.as_slice()),
            }
            proof {
                lemma_addr_tail(addr@);
                assert(pre@ =~= work_preimage(block_index, nonce, e@, addr@));
            }
            let h = keccak256(pre.as_slice());
            Ok(h)
        }
    }
}

} // verus!
