use vstd::prelude::*;

verus! {

/// Length in bytes of every digest in the tree.
pub const HASH_LENGTH: usize = 20;

/// A digest of a key-value pair or of a subtree.
pub type Digest = [u8; 20];

/// What the unkeyed BLAKE2b hash with a 20-byte output gives for `data`.
pub uninterp spec fn blake2b_20_of(data: Seq<u8>) -> Seq<u8>;

/// Relies on `blake2_rfc::blake2b::blake2b` with output length 20 and an empty
/// key: its result's `as_bytes()` is the digest of `data`, 20 bytes long.
#[verifier::external_body]
fn blake2b_20(data: &Vec<u8>) -> (r: Digest)
    ensures
        r@ == blake2b_20_of(data@),
{
    let digest = blake2_rfc::blake2b::blake2b(HASH_LENGTH, &[], data.as_slice());
    let mut out = [0u8; 20];
    out.copy_from_slice(digest.as_bytes());
    out
}

/// The bytes whose digest is a key-value pair's digest: the key's length as
/// one byte, the key, the value's length as two big-endian bytes, the value.
/// Keys are meant to be shorter than 256 bytes and values shorter than 65536;
/// longer lengths are taken modulo those bounds.
pub open spec fn kv_preimage(key: Seq<u8>, value: Seq<u8>) -> Seq<u8> {
    let vlen = value.len() % 65536;
    seq![(key.len() % 256) as u8] + key + seq![(vlen / 256) as u8, (vlen % 256) as u8] + value
}

/// Digest of a key-value pair.
pub open spec fn kv_hash_spec(key: Seq<u8>, value: Seq<u8>) -> Seq<u8> {
    blake2b_20_of(kv_preimage(key, value))
}

/// Digest of a subtree from the digest of its root's pair and the digests of
/// its two children (`null_hash` for an absent one).
pub open spec fn node_hash_spec(kv: Seq<u8>, left: Seq<u8>, right: Seq<u8>) -> Seq<u8> {
    blake2b_20_of(kv + left + right)
}

pub open spec fn null_hash_spec() -> Seq<u8> {
    Seq::new(20, |i: int| 0u8)
}

/// The digest that stands for an absent child: twenty zero bytes.
pub fn null_hash() -> (r: Digest)
    ensures
        r@ == null_hash_spec(),
{
    let r: Digest = [0u8; 20];
    assert(r@ =~= null_hash_spec());
    r
}

pub fn kv_hash(key: &Vec<u8>, value: &Vec<u8>) -> (r: Digest)
    ensures
        r@ == kv_hash_spec(key@, value@),
{
    let vlen = value.len() % 65536;
    let mut buf: Vec<u8> = Vec::new();
    buf.push((key.len() % 256) as u8);
    buf.extend_from_slice(key.as_slice());
    buf.push((vlen / 256) as u8);
    buf.push((vlen % 256) as u8);
    buf.extend_from_slice(value.as_slice());
    assert(buf@ =~= kv_preimage(key@, value@));
    blake2b_20(&buf)
}

pub fn node_hash(kv: &Digest, left: &Digest, right: &Digest) -> (r: Digest)
    ensures
        r@ == node_hash_spec(kv@, left@, right@),
{
    let mut buf: Vec<u8> = Vec::new();
    buf.extend_from_slice(kv.as_slice());
    buf.extend_from_slice(left.as_slice());
    buf.extend_from_slice(right.as_slice());
    assert(buf@ =~= kv@ + left@ + right@);
    blake2b_20(&buf)
}

/// Compares two digests byte by byte.
pub fn hash_eq(a: &Digest, b: &Digest) -> (r: bool)
    ensures
        r == (a@ == b@),
{
    let mut i: usize = 0;
    while i < HASH_LENGTH
        invariant
            i <= HASH_LENGTH,
            a@.len() == HASH_LENGTH,
            b@.len() == HASH_LENGTH,
            forall|j: int| 0 <= j < i ==> a@[j] == b@[j],
        decreases HASH_LENGTH - i,
    {
        if a[i] != b[i] {
            return false;
        }
        i = i + 1;
    }
    assert(a@ =~= b@);
    true
}

} // verus!
