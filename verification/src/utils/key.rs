use vstd::prelude::*;

use crate::hash::append_bytes;

verus! {

/// The concatenation of the parts, in order.
pub open spec fn joined(parts: Seq<Seq<u8>>) -> Seq<u8>
    decreases parts.len(),
{
    if parts.len() == 0 {
        Seq::empty()
    } else {
        joined(parts.drop_last()) + parts.last()
    }
}

/// The byte strings of a list of slices.
pub open spec fn parts_view(parts: Seq<&[u8]>) -> Seq<Seq<u8>> {
    parts.map_values(|p: &[u8]| p@)
}

/// Joins the parts of a key into one key: their concatenation, in order.
pub fn join_keys(parts: &[&[u8]]) -> (r: Vec<u8>)
    ensures
        r@ == joined(parts_view(parts@)),
{
    let mut acc: Vec<u8> = Vec::new();
    let mut i: usize = 0;
    while i < parts.len()
        invariant
            i <= parts@.len(),
            acc@ == joined(parts_view(parts@).take(i as int)),
        decreases parts@.len() - i,
    {
        append_bytes(&mut acc, parts[i]);
        assert(parts_view(parts@).take(i + 1).drop_last() =~= parts_view(parts@).take(i as int));
        i += 1;
    }
    assert(parts_view(parts@).take(i as int) =~= parts_view(parts@));
    acc
}

/// Joining keys concatenates them in order: one part gives itself, two
/// parts give the first followed by the second, and adding a part appends
/// it; the length is the sum of the lengths.
pub proof fn law_join_appends(parts: Seq<Seq<u8>>, a: Seq<u8>, b: Seq<u8>)
    ensures
        joined(seq![a]) == a,
        joined(seq![a, b]) == a + b,
        joined(parts.push(a)) == joined(parts) + a,
        joined(parts.push(a)).len() == joined(parts).len() + a.len(),
{
    assert(seq![a].drop_last() =~= Seq::<Seq<u8>>::empty());
    assert(seq![a, b].drop_last() =~= seq![a]);
    assert(seq![a].last() == a);
    assert(seq![a, b].last() == b);
    assert(joined(Seq::<Seq<u8>>::empty()) == Seq::<u8>::empty());
    assert(joined(seq![a]) == joined(Seq::<Seq<u8>>::empty()) + a);
    assert(joined(seq![a]) =~= a);
    assert(joined(seq![a, b]) == joined(seq![a]) + b);
    assert(parts.push(a).drop_last() =~= parts);
    assert(Seq::<u8>::empty() + a =~= a);
}

} // verus!
