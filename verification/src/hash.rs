use sha2::Digest;
use vstd::prelude::*;

verus! {

/// The SHA-256 digest of a byte string.
pub uninterp spec fn sha256_spec(data: Seq<u8>) -> Seq<u8>;

/// `sha2::Sha256::digest`: the contract claims only that the 32 bytes it
/// returns are the SHA-256 digest of `data`, a value that depends on `data`
/// alone.
#[verifier::external_body]
pub(crate) fn sha256(data: &[u8]) -> (r: [u8; 32])
    ensures
        r@ == sha256_spec(data@),
{
    sha2::Sha256::digest(data).into()
}

/// Appends the bytes of `s` to `v`.
pub fn append_bytes(v: &mut Vec<u8>, s: &[u8])
    ensures
        final(v)@ == old(v)@ + s@,
{
    let mut i: usize = 0;
    while i < s.len()
        invariant
            i <= s.len(),
            v@ == old(v)@ + s@.take(i as int),
        decreases s.len() - i,
    {
        v.push(s[i]);
        assert(s@.take(i + 1) =~= s@.take(i as int).push(s@[i as int]));
        i += 1;
    }
    assert(s@.take(s.len() as int) =~= s@);
}

/// The concatenation of two byte strings.
pub fn concat_bytes(a: &[u8], b: &[u8]) -> (r: Vec<u8>)
    ensures
        r@ == a@ + b@,
{
    let mut v: Vec<u8> = Vec::new();
    append_bytes(&mut v, a);
    assert(Seq::<u8>::empty() + a@ =~= a@);
    append_bytes(&mut v, b);
    v
}

/// SHA-256 of the concatenation of two 32-byte values (an "entire root" or a
/// pair of transaction roots).
pub fn hash_pair(a: &[u8; 32], b: &[u8; 32]) -> (r: [u8; 32])
    ensures
        r@ == sha256_spec(a@ + b@),
{
    let bytes = concat_bytes(a, b);
    sha256(bytes.as_slice())
}

/// The root of the whole state: SHA-256 of the state root followed by the
/// keys root.
pub fn entire_root(state_root: &[u8; 32], keys_root: &[u8; 32]) -> (r: [u8; 32])
    ensures
        r@ == sha256_spec(state_root@ + keys_root@),
{
    hash_pair(state_root, keys_root)
}

} // verus!
