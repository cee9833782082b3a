use vstd::prelude::*;

use crate::trie::db::copy_bytes;
use crate::utils::sorted_map::bytes_equal;

verus! {

/// A change to one entry of a secondary index of an indexed map.
#[derive(Debug)]
pub enum IndexUpdate {
    /// Remove the index entry under this indexing key.
    Del(Vec<u8>),
    /// Point this indexing key at the primary key.
    Put(Vec<u8>, Vec<u8>),
}

/// An index update as plain values: whether it sets, the indexing key, and
/// the primary key it points at (empty for a removal).
pub open spec fn update_view(u: IndexUpdate) -> (bool, Seq<u8>, Seq<u8>) {
    match u {
        IndexUpdate::Del(k) => (false, k@, Seq::empty()),
        IndexUpdate::Put(k, p) => (true, k@, p@),
    }
}

/// What one indexer needs when the value at `primary` is set: with no old
/// value, an entry for the new indexing key; with an old value whose
/// indexing key differs from the new one, the old entry removed and the new
/// one set; otherwise nothing.
pub open spec fn indexer_updates(had_old: bool, old_key: Seq<u8>, new_key: Seq<u8>, primary: Seq<u8>) -> Seq<
    (bool, Seq<u8>, Seq<u8>),
> {
    if !had_old {
        seq![(true, new_key, primary)]
    } else if old_key != new_key {
        seq![(false, old_key, Seq::empty()), (true, new_key, primary)]
    } else {
        Seq::empty()
    }
}

/// The updates of the first `n` indexers, in order.
pub open spec fn index_updates_upto(
    had_old: bool,
    old_keys: Seq<Vec<u8>>,
    new_keys: Seq<Vec<u8>>,
    primary: Seq<u8>,
    n: nat,
) -> Seq<(bool, Seq<u8>, Seq<u8>)>
    decreases n,
{
    if n == 0 {
        Seq::empty()
    } else {
        let i = n - 1;
        index_updates_upto(had_old, old_keys, new_keys, primary, (n - 1) as nat) + indexer_updates(
            had_old,
            if had_old { old_keys[i]@ } else { Seq::empty() },
            new_keys[i]@,
            primary,
        )
    }
}

/// The index updates that setting a value at `primary_key` calls for, indexer
/// by indexer: `new_keys` are the indexing keys of the new value, and
/// `old_keys` those of the value it replaces, if there was one.
pub fn index_updates(old_keys: Option<&Vec<Vec<u8>>>, new_keys: &Vec<Vec<u8>>, primary_key: &[u8]) -> (r: Vec<
    IndexUpdate,
>)
    requires
        old_keys matches Some(o) ==> o@.len() == new_keys@.len(),
    ensures
        r@.map_values(|u: IndexUpdate| update_view(u)) == index_updates_upto(
            old_keys is Some,
            match old_keys {
                Some(o) => o@,
                None => Seq::empty(),
            },
            new_keys@,
            primary_key@,
            new_keys@.len(),
        ),
{
    let ghost had_old = old_keys is Some;
    let ghost olds = match old_keys {
        Some(o) => o@,
        None => Seq::<Vec<u8>>::empty(),
    };
    let mut r: Vec<IndexUpdate> = Vec::new();
    let mut i: usize = 0;
    while i < new_keys.len()
        invariant
            i <= new_keys@.len(),
            had_old == old_keys is Some,
            olds == match old_keys {
                Some(o) => o@,
                None => Seq::<Vec<u8>>::empty(),
            },
            old_keys matches Some(o) ==> o@.len() == new_keys@.len(),
            r@.map_values(|u: IndexUpdate| update_view(u)) == index_updates_upto(
                had_old,
                olds,
                new_keys@,
                primary_key@,
                i as nat,
            ),
        decreases new_keys@.len() - i,
    {
        let ghost before = r@;
        let new_key = &new_keys[i];
        match old_keys {
            None => {
                r.push(IndexUpdate::Put(copy_bytes(new_key.as_slice()), copy_bytes(primary_key)));
            },
            Some(o) => {
                let old_key = &o[i];
                if !bytes_equal(old_key.as_slice(), new_key.as_slice()) {
                    r.push(IndexUpdate::Del(copy_bytes(old_key.as_slice())));
                    r.push(IndexUpdate::Put(copy_bytes(new_key.as_slice()), copy_bytes(primary_key)));
                }
            },
        }
        proof {
            let step = indexer_updates(
                had_old,
                if had_old { olds[i as int]@ } else { Seq::empty() },
                new_keys@[i as int]@,
                primary_key@,
            );
            assert(r@.map_values(|u: IndexUpdate| update_view(u)) =~= before.map_values(|u: IndexUpdate| update_view(u))
                + step);
        }
        i += 1;
    }
    r
}

/// Setting a value whose indexing keys are all unchanged touches no index.
pub proof fn law_unchanged_keys_need_no_update(keys: Seq<Vec<u8>>, primary: Seq<u8>, n: nat)
    requires
        n <= keys.len(),
    ensures
        index_updates_upto(true, keys, keys, primary, n) == Seq::<(bool, Seq<u8>, Seq<u8>)>::empty(),
    decreases n,
{
    if n > 0 {
        law_unchanged_keys_need_no_update(keys, primary, (n - 1) as nat);
        assert(index_updates_upto(true, keys, keys, primary, n) =~= Seq::<(bool, Seq<u8>, Seq<u8>)>::empty());
    }
}

/// Setting a value with no old value points every indexing key at the
/// primary key, one entry per indexer, in order, and removes nothing.
pub proof fn law_new_value_indexes_every_key(old: Seq<Vec<u8>>, keys: Seq<Vec<u8>>, primary: Seq<u8>, n: nat)
    requires
        n <= keys.len(),
    ensures
        index_updates_upto(false, old, keys, primary, n).len() == n,
        forall|i: int| 0 <= i < n ==> #[trigger] index_updates_upto(false, old, keys, primary, n)[i] == (true, keys[i]@, primary),
    decreases n,
{
    if n > 0 {
        law_new_value_indexes_every_key(old, keys, primary, (n - 1) as nat);
        let prev = index_updates_upto(false, old, keys, primary, (n - 1) as nat);
        assert(index_updates_upto(false, old, keys, primary, n) == prev + seq![(true, keys[n - 1]@, primary)]);
    }
}

/// Changing one indexer's key removes the old index entry before setting
/// the new one; keeping it touches nothing.
pub proof fn law_changed_key_moves_entry(old_key: Seq<u8>, new_key: Seq<u8>, primary: Seq<u8>)
    ensures
        old_key != new_key ==> indexer_updates(true, old_key, new_key, primary) == seq![
            (false, old_key, Seq::<u8>::empty()),
            (true, new_key, primary),
        ],
        indexer_updates(true, old_key, old_key, primary).len() == 0,
        indexer_updates(false, old_key, new_key, primary) == seq![(true, new_key, primary)],
{
}

} // verus!
