use vstd::prelude::*;

verus! {

/// A nibble: a half byte, a value in `0..16`, one digit of a trie key.
pub type Nibble = u8;

/// The number of distinct nibbles; a branch node has at most this many
/// children.
pub const NIBBLE_COUNT: u8 = 16;

/// The nibbles of a byte string, high nibble of each byte first.
pub open spec fn nibbles_of(bytes: Seq<u8>) -> Seq<u8> {
    Seq::new(
        2 * bytes.len(),
        |i: int|
            if i % 2 == 0 {
                (bytes[i / 2] / 16) as u8
            } else {
                (bytes[i / 2] % 16) as u8
            },
    )
}

/// Splits each byte into its two nibbles, high nibble first.
pub fn nibbles_from_bytes(bytes: &[u8]) -> (r: Vec<Nibble>)
    requires
        2 * bytes@.len() <= usize::MAX,
    ensures
        r@ == nibbles_of(bytes@),
        forall|i: int| 0 <= i < r@.len() ==> r@[i] < 16,
{
    let mut r: Vec<Nibble> = Vec::new();
    let mut i: usize = 0;
    while i < bytes.len()
        invariant
            i <= bytes.len(),
            r@.len() == 2 * i,
            forall|j: int| 0 <= j < 2 * i ==> #[trigger] r@[j] == nibbles_of(bytes@)[j],
        decreases bytes.len() - i,
    {
        let b = bytes[i];
        r.push(b / 16);
        r.push(b % 16);
        proof {
            assert forall|j: int| 0 <= j < 2 * (i + 1) implies #[trigger] r@[j] == nibbles_of(bytes@)[j] by {
                if j >= 2 * i {
                    assert(j / 2 == i);
                }
            }
        }
        i += 1;
    }
    assert(r@ =~= nibbles_of(bytes@));
    r
}

/// Splitting bytes into nibbles loses nothing: there are two nibbles per
/// byte, each below 16, and the high nibble times 16 plus the low nibble
/// gives the byte back.
pub proof fn law_nibbles_rebuild_bytes(bytes: Seq<u8>, i: int)
    requires
        0 <= i < bytes.len(),
    ensures
        nibbles_of(bytes).len() == 2 * bytes.len(),
        nibbles_of(bytes)[2 * i] < 16,
        nibbles_of(bytes)[2 * i + 1] < 16,
        nibbles_of(bytes)[2 * i] * 16 + nibbles_of(bytes)[2 * i + 1] == bytes[i],
{
    assert((2 * i) / 2 == i);
    assert((2 * i + 1) / 2 == i);
    assert((2 * i) % 2 == 0);
    assert((2 * i + 1) % 2 == 1);
    let b = bytes[i];
    assert(b / 16 < 16 && b % 16 < 16 && (b / 16) * 16 + b % 16 == b) by (bit_vector);
}

} // verus!
