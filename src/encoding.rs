use vstd::prelude::*;

verus! {

/// Minimal big-endian bytes of a natural number; zero has none.
pub open spec fn be_bytes(n: nat) -> Seq<u8>
    decreases n,
{
    if n == 0 {
        Seq::empty()
    } else {
        be_bytes(n / 256).push((n % 256) as u8)
    }
}

/// Recursive-length-prefix encoding of a byte string.
pub open spec fn rlp_string(b: Seq<u8>) -> Seq<u8> {
    if b.len() == 1 && b[0] < 0x80 {
        b
    } else if b.len() <= 55 {
        seq![(0x80 + b.len()) as u8] + b
    } else {
        seq![(0xb7 + be_bytes(b.len()).len()) as u8] + be_bytes(b.len()) + b
    }
}

/// Recursive-length-prefix encoding of a list whose encoded items, joined, are `payload`.
pub open spec fn rlp_list(payload: Seq<u8>) -> Seq<u8> {
    if payload.len() <= 55 {
        seq![(0xc0 + payload.len()) as u8] + payload
    } else {
        seq![(0xf7 + be_bytes(payload.len()).len()) as u8] + be_bytes(payload.len()) + payload
    }
}

/// The Keccak-256 digest of a byte string.
pub uninterp spec fn keccak_of(data: Seq<u8>) -> Seq<u8>;

pub proof fn lemma_be_bytes_len(n: nat, k: nat)
    requires
        n < pow256(k),
    ensures
        be_bytes(n).len() <= k,
    decreases k,
{
    if n > 0 {
        assert(k > 0);
        assert(n / 256 < pow256((k - 1) as nat)) by (nonlinear_arith)
            requires
                n < pow256(k),
                k > 0,
                pow256(k) == 256 * pow256((k - 1) as nat),
        ;
        lemma_be_bytes_len(n / 256, (k - 1) as nat);
    }
}

pub open spec fn pow256(k: nat) -> nat
    decreases k,
{
    if k == 0 {
        1
    } else {
        256 * pow256((k - 1) as nat)
    }
}

/// A length below 2^32 has at most four length bytes.
pub proof fn lemma_be_bytes_len_u32(n: nat)
    requires
        n < 0x1_0000_0000,
    ensures
        be_bytes(n).len() <= 4,
{
    reveal_with_fuel(pow256, 5);
    lemma_be_bytes_len(n, 4);
}

/// Each header adds at most five bytes below 2^32.
pub proof fn lemma_rlp_len(b: Seq<u8>)
    requires
        b.len() < 0x1_0000_0000,
    ensures
        rlp_string(b).len() <= b.len() + 5,
        rlp_list(b).len() <= b.len() + 5,
        b.len() == 32 ==> rlp_string(b).len() == 33,
{
    lemma_be_bytes_len_u32(b.len());
}

/// Relies on rlp::encode of a byte vector: the string encoding, with a
/// length header that the crate writes correctly below 2^32.
#[verifier::external_body]
pub(crate) fn rlp_encode_string(b: &Vec<u8>) -> (r: Vec<u8>)
    requires
        b@.len() < 0x1_0000_0000,
    ensures
        r@ == rlp_string(b@),
{
    rlp::encode(b).to_vec()
}

/// Relies on rlp::RlpStream::append_raw: the raw payload of an open list is
/// copied as is and prefixed by the list header once the list is full.
#[verifier::external_body]
pub(crate) fn rlp_encode_list(payload: &Vec<u8>) -> (r: Vec<u8>)
    requires
        payload@.len() < 0x1_0000_0000,
    ensures
        r@ == rlp_list(payload@),
{
    let mut stream = rlp::RlpStream::new_list(1);
    stream.append_raw(payload, 1);
    stream.out().to_vec()
}

/// Relies on keccak_hash::keccak: the 32-byte Keccak-256 digest of the input.
#[verifier::external_body]
pub(crate) fn keccak256(data: &Vec<u8>) -> (r: Vec<u8>)
    ensures
        r@ == keccak_of(data@),
        r@.len() == 32,
{
    keccak_hash::keccak(data).0.to_vec()
}

} // verus!
