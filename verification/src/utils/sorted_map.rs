use vstd::prelude::*;

verus! {

/// Strict lexicographic order on byte sequences: `a` sorts before `b`
/// (a proper prefix sorts before every extension of it).
pub open spec fn lex_lt(a: Seq<u8>, b: Seq<u8>) -> bool
    decreases a.len(),
{
    if a.len() == 0 {
        b.len() > 0
    } else if b.len() == 0 {
        false
    } else if a[0] != b[0] {
        a[0] < b[0]
    } else {
        lex_lt(a.drop_first(), b.drop_first())
    }
}

/// `p` is a prefix of `k`.
pub open spec fn is_prefix_of(p: Seq<u8>, k: Seq<u8>) -> bool {
    p.len() <= k.len() && k.take(p.len() as int) =~= p
}

/// No sequence sorts before itself.
pub proof fn lemma_lex_irreflexive(a: Seq<u8>)
    ensures
        !lex_lt(a, a),
    decreases a.len(),
{
    if a.len() > 0 {
        lemma_lex_irreflexive(a.drop_first());
    }
}

/// The lexicographic order is transitive.
pub proof fn lemma_lex_transitive(a: Seq<u8>, b: Seq<u8>, c: Seq<u8>)
    requires
        lex_lt(a, b),
        lex_lt(b, c),
    ensures
        lex_lt(a, c),
    decreases a.len(),
{
    if a.len() > 0 && b.len() > 0 && c.len() > 0 {
        if a[0] == b[0] && b[0] == c[0] {
            lemma_lex_transitive(a.drop_first(), b.drop_first(), c.drop_first());
        }
    }
}

/// Two sequences are equal or one sorts before the other.
pub proof fn lemma_lex_total(a: Seq<u8>, b: Seq<u8>)
    ensures
        a == b || lex_lt(a, b) || lex_lt(b, a),
    decreases a.len(),
{
    if a.len() == 0 && b.len() == 0 {
        assert(a =~= b);
    } else if a.len() > 0 && b.len() > 0 && a[0] == b[0] {
        lemma_lex_total(a.drop_first(), b.drop_first());
        if a.drop_first() == b.drop_first() {
            assert(a.len() == a.drop_first().len() + 1);
            assert(b.len() == b.drop_first().len() + 1);
            assert forall|i: int| 0 <= i < a.len() implies a[i] == b[i] by {
                if i > 0 {
                    assert(a[i] == a.drop_first()[i - 1]);
                    assert(b[i] == b.drop_first()[i - 1]);
                }
            }
            assert(a =~= b);
        }
    }
}

/// The order is asymmetric.
pub proof fn lemma_lex_asymmetric(a: Seq<u8>, b: Seq<u8>)
    requires
        lex_lt(a, b),
    ensures
        !lex_lt(b, a),
{
    if lex_lt(b, a) {
        lemma_lex_transitive(a, b, a);
        lemma_lex_irreflexive(a);
    }
}

/// Keys sort byte by byte as unsigned numbers, the way a `BTreeMap` of byte
/// vectors orders them: the empty key sorts before every other key, a
/// smaller first byte sorts first, and a shared first byte leaves the order
/// to the rest. A key with more bytes after the same prefix sorts after it.
pub proof fn law_keys_sort_bytewise(a: Seq<u8>, b: Seq<u8>, c: u8, d: u8)
    ensures
        lex_lt(Seq::<u8>::empty(), a) <==> a.len() > 0,
        !lex_lt(a, Seq::<u8>::empty()),
        c < d ==> lex_lt(seq![c] + a, seq![d] + b),
        lex_lt(seq![c] + a, seq![c] + b) <==> lex_lt(a, b),
        lex_lt(a, a + seq![c]),
    decreases a.len(),
{
    assert((seq![c] + a).drop_first() =~= a);
    assert((seq![c] + b).drop_first() =~= b);
    assert((seq![d] + b)[0] == d);
    assert((seq![c] + a)[0] == c);
    if a.len() > 0 {
        law_keys_sort_bytewise(a.drop_first(), b, c, d);
        assert((a + seq![c]).drop_first() =~= a.drop_first() + seq![c]);
        assert((a + seq![c])[0] == a[0]);
    }
}

/// Compares two byte strings lexicographically: -1 when `a` sorts first,
/// 0 when they are equal, 1 when `b` sorts first.
pub fn lex_compare(a: &[u8], b: &[u8]) -> (r: i8)
    ensures
        -1 <= r <= 1,
        r == -1 <==> lex_lt(a@, b@),
        r == 0 <==> a@ == b@,
        r == 1 <==> lex_lt(b@, a@),
{
    let mut i: usize = 0;
    assert(a@.skip(0) =~= a@);
    assert(b@.skip(0) =~= b@);
    while i < a.len() && i < b.len()
        invariant
            i <= a.len(),
            i <= b.len(),
            a@.take(i as int) == b@.take(i as int),
            lex_lt(a@, b@) == lex_lt(a@.skip(i as int), b@.skip(i as int)),
            lex_lt(b@, a@) == lex_lt(b@.skip(i as int), a@.skip(i as int)),
        decreases a.len() - i,
    {
        let ghost sa = a@.skip(i as int);
        let ghost sb = b@.skip(i as int);
        assert(sa[0] == a@[i as int]);
        assert(sb[0] == b@[i as int]);
        if a[i] < b[i] {
            proof {
                lemma_lex_asymmetric(sa, sb);
                assert(a@[i as int] != b@[i as int]);
            }
            return -1;
        }
        if a[i] > b[i] {
            proof {
                lemma_lex_asymmetric(sb, sa);
                assert(a@[i as int] != b@[i as int]);
            }
            return 1;
        }
        assert(sa.drop_first() =~= a@.skip(i + 1));
        assert(sb.drop_first() =~= b@.skip(i + 1));
        assert(a@.take(i + 1) =~= a@.take(i as int).push(a@[i as int]));
        assert(b@.take(i + 1) =~= b@.take(i as int).push(b@[i as int]));
        i += 1;
    }
    if i == a.len() && i == b.len() {
        assert(a@ =~= a@.take(i as int));
        assert(b@ =~= b@.take(i as int));
        proof {
            lemma_lex_irreflexive(a@);
        }
        0
    } else if i == a.len() {
        assert(a@.skip(i as int).len() == 0);
        proof {
            lemma_lex_asymmetric(a@, b@);
        }
        assert(a@.len() != b@.len());
        -1
    } else {
        assert(b@.skip(i as int).len() == 0);
        proof {
            lemma_lex_asymmetric(b@, a@);
        }
        assert(a@.len() != b@.len());
        1
    }
}

/// Whether two byte strings are equal.
pub fn bytes_equal(a: &[u8], b: &[u8]) -> (r: bool)
    ensures
        r == (a@ == b@),
{
    lex_compare(a, b) == 0
}

/// Whether `p` is a prefix of `k`.
pub fn has_prefix(k: &[u8], p: &[u8]) -> (r: bool)
    ensures
        r == is_prefix_of(p@, k@),
{
    if p.len() > k.len() {
        return false;
    }
    let mut i: usize = 0;
    while i < p.len()
        invariant
            i <= p.len(),
            p.len() <= k.len(),
            forall|j: int| 0 <= j < i ==> k@[j] == p@[j],
        decreases p.len() - i,
    {
        if k[i] != p[i] {
            assert(k@.take(p.len() as int)[i as int] != p@[i as int]);
            return false;
        }
        i += 1;
    }
    assert(k@.take(p.len() as int) =~= p@);
    true
}


/// Some key of `m` starts with `p`.
pub open spec fn has_key_with_prefix<V>(m: Map<Seq<u8>, V>, p: Seq<u8>) -> bool {
    exists|k: Seq<u8>| #[trigger] m.contains_key(k) && is_prefix_of(p, k)
}

/// `k` is the least key of `m` (in lexicographic order) that starts with `p`.
pub open spec fn is_least_key_with_prefix<V>(m: Map<Seq<u8>, V>, p: Seq<u8>, k: Seq<u8>) -> bool {
    &&& m.contains_key(k)
    &&& is_prefix_of(p, k)
    &&& forall|k2: Seq<u8>| #[trigger] m.contains_key(k2) && is_prefix_of(p, k2) ==> k2 == k || lex_lt(k, k2)
}

/// The least key of `m` that starts with `p`.
pub open spec fn least_key_with_prefix<V>(m: Map<Seq<u8>, V>, p: Seq<u8>) -> Seq<u8> {
    choose|k: Seq<u8>| is_least_key_with_prefix(m, p, k)
}

/// The value under the least key of `m` that starts with `p`, if any key
/// does.
pub open spec fn first_value_with_prefix<V>(m: Map<Seq<u8>, V>, p: Seq<u8>) -> Option<V> {
    if has_key_with_prefix(m, p) {
        Some(m[least_key_with_prefix(m, p)])
    } else {
        None
    }
}

/// There is at most one least key with a given prefix.
pub proof fn lemma_least_key_unique<V>(m: Map<Seq<u8>, V>, p: Seq<u8>, k: Seq<u8>)
    requires
        is_least_key_with_prefix(m, p, k),
    ensures
        has_key_with_prefix(m, p),
        least_key_with_prefix(m, p) == k,
{
    let k2 = least_key_with_prefix(m, p);
    assert(is_least_key_with_prefix(m, p, k2));
    if k2 != k {
        assert(lex_lt(k, k2));
        assert(lex_lt(k2, k));
        lemma_lex_asymmetric(k, k2);
    }
}

/// The empty sequence is a prefix of every key.
pub proof fn lemma_empty_prefix(k: Seq<u8>)
    ensures
        is_prefix_of(Seq::<u8>::empty(), k),
{
    assert(k.take(0) =~= Seq::<u8>::empty());
}

/// Maps with the same keys agree on the least key with a prefix.
pub proof fn lemma_least_key_same_keys<V, W>(m1: Map<Seq<u8>, V>, m2: Map<Seq<u8>, W>, p: Seq<u8>)
    requires
        m1.dom() == m2.dom(),
    ensures
        has_key_with_prefix(m1, p) == has_key_with_prefix(m2, p),
        forall|k: Seq<u8>| is_least_key_with_prefix(m1, p, k) ==> least_key_with_prefix(m2, p) == k,
{
    if has_key_with_prefix(m1, p) {
        let k = choose|k: Seq<u8>| #[trigger] m1.contains_key(k) && is_prefix_of(p, k);
        assert(m1.dom().contains(k));
        assert(m2.contains_key(k));
    }
    if has_key_with_prefix(m2, p) {
        let k = choose|k: Seq<u8>| #[trigger] m2.contains_key(k) && is_prefix_of(p, k);
        assert(m2.dom().contains(k));
        assert(m1.contains_key(k));
    }
    assert forall|k: Seq<u8>| is_least_key_with_prefix(m1, p, k) implies least_key_with_prefix(m2, p) == k by {
        assert forall|k2: Seq<u8>| #[trigger] m2.contains_key(k2) && is_prefix_of(p, k2) implies k2 == k || lex_lt(
            k,
            k2,
        ) by {
            assert(m2.dom().contains(k2));
            assert(m1.contains_key(k2));
        }
        assert(m1.dom().contains(k));
        lemma_least_key_unique(m2, p, k);
    }
}

/// An ordered map from byte strings to values, kept as a list of entries in
/// strictly increasing key order (the order of a `BTreeMap<Vec<u8>, V>`).
pub struct SortedMap<V> {
    pub entries: Vec<(Vec<u8>, V)>,
}

impl<V> SortedMap<V> {
    pub open spec fn key_at(self, i: int) -> Seq<u8> {
        self.entries@[i].0@
    }

    pub open spec fn value_at(self, i: int) -> V {
        self.entries@[i].1
    }

    pub open spec fn size(self) -> nat {
        self.entries@.len()
    }

    /// Well-formedness: keys strictly increase.
    pub open spec fn wf(&self) -> bool {
        forall|i: int, j: int|
            0 <= i < j < self.size() ==> lex_lt(#[trigger] self.key_at(i), #[trigger] self.key_at(j))
    }

    pub open spec fn has_key(self, k: Seq<u8>) -> bool {
        exists|i: int| 0 <= i < self.size() && #[trigger] self.key_at(i) == k
    }

    pub open spec fn index_of(self, k: Seq<u8>) -> int {
        choose|i: int| 0 <= i < self.size() && #[trigger] self.key_at(i) == k
    }

    pub open spec fn as_map(self) -> Map<Seq<u8>, V> {
        Map::new(|k: Seq<u8>| self.has_key(k), |k: Seq<u8>| self.value_at(self.index_of(k)))
    }

    /// The entry at position `i` is found at position `i`, so the map sends
    /// its key to its value.
    pub proof fn lemma_index_of(self, i: int)
        requires
            self.wf(),
            0 <= i < self.size(),
        ensures
            self.has_key(self.key_at(i)),
            self.index_of(self.key_at(i)) == i,
            self@.contains_key(self.key_at(i)),
            self@[self.key_at(i)] == self.value_at(i),
    {
        assert(self.has_key(self.key_at(i)));
        let j = self.index_of(self.key_at(i));
        if j < i {
            assert(lex_lt(self.key_at(j), self.key_at(i)));
            lemma_lex_irreflexive(self.key_at(i));
        } else if j > i {
            assert(lex_lt(self.key_at(i), self.key_at(j)));
            lemma_lex_irreflexive(self.key_at(i));
        }
    }

    /// Keys at different positions differ.
    pub proof fn lemma_distinct(self, i: int, j: int)
        requires
            self.wf(),
            0 <= i < self.size(),
            0 <= j < self.size(),
            i != j,
        ensures
            self.key_at(i) != self.key_at(j),
    {
        if i < j {
            assert(lex_lt(self.key_at(i), self.key_at(j)));
        } else {
            assert(lex_lt(self.key_at(j), self.key_at(i)));
        }
        lemma_lex_irreflexive(self.key_at(i));
    }

    /// The first entry holds the least key of the map.
    pub proof fn lemma_first_is_least(self, k: Seq<u8>)
        requires
            self.wf(),
            self@.contains_key(k),
        ensures
            self.size() > 0,
            k == self.key_at(0) || lex_lt(self.key_at(0), k),
    {
        let i = self.index_of(k);
        if i > 0 {
            assert(lex_lt(self.key_at(0), self.key_at(i)));
        }
    }

    pub fn new() -> (r: Self)
        ensures
            r.wf(),
            r.size() == 0,
            r@ == Map::<Seq<u8>, V>::empty(),
    {
        let r = SortedMap { entries: Vec::new() };
        assert(r@ =~= Map::<Seq<u8>, V>::empty());
        r
    }

    pub fn len(&self) -> (r: usize)
        ensures
            r == self.size(),
    {
        self.entries.len()
    }

    pub fn is_empty(&self) -> (r: bool)
        requires
            self.wf(),
        ensures
            r == (self.size() == 0),
            r == (self@.dom() == Set::<Seq<u8>>::empty()),
    {
        if self.entries.len() > 0 {
            proof {
                self.lemma_index_of(0);
            }
            assert(self@.dom().contains(self.key_at(0)));
            false
        } else {
            assert(self@.dom() =~= Set::<Seq<u8>>::empty());
            true
        }
    }

    /// Position of the first entry whose key does not sort before `k`, and
    /// whether that entry's key is `k`.
    pub fn lower_bound(&self, k: &[u8]) -> (r: (usize, bool))
        requires
            self.wf(),
        ensures
            r.0 <= self.size(),
            forall|j: int| 0 <= j < r.0 ==> lex_lt(#[trigger] self.key_at(j), k@),
            r.1 ==> r.0 < self.size() && self.key_at(r.0 as int) == k@,
            !r.1 ==> (r.0 < self.size() ==> lex_lt(k@, self.key_at(r.0 as int))),
            r.1 == self@.contains_key(k@),
    {
        let mut i: usize = 0;
        while i < self.entries.len()
            invariant
                self.wf(),
                i <= self.size(),
                forall|j: int| 0 <= j < i ==> lex_lt(#[trigger] self.key_at(j), k@),
            decreases self.size() - i,
        {
            let c = lex_compare(self.entries[i].0.as_slice(), k);
            if c == 0 {
                proof {
                    self.lemma_index_of(i as int);
                }
                return (i, true);
            }
            if c == 1 {
                proof {
                    if self.has_key(k@) {
                        let j = self.index_of(k@);
                        if j < i {
                            lemma_lex_irreflexive(k@);
                        } else if j > i {
                            assert(lex_lt(self.key_at(i as int), self.key_at(j)));
                            lemma_lex_asymmetric(k@, self.key_at(i as int));
                        } else {
                            lemma_lex_irreflexive(k@);
                        }
                    }
                }
                return (i, false);
            }
            i += 1;
        }
        proof {
            if self.has_key(k@) {
                let j = self.index_of(k@);
                lemma_lex_irreflexive(k@);
            }
        }
        (i, false)
    }

    /// Looks `k` up.
    pub fn get(&self, k: &[u8]) -> (r: Option<&V>)
        requires
            self.wf(),
        ensures
            r matches Some(v) ==> self@.contains_key(k@) && *v == self@[k@],
            r is None ==> !self@.contains_key(k@),
    {
        let (i, found) = self.lower_bound(k);
        if found {
            proof {
                self.lemma_index_of(i as int);
            }
            Some(&self.entries[i].1)
        } else {
            None
        }
    }

    pub fn contains_key(&self, k: &[u8]) -> (r: bool)
        requires
            self.wf(),
        ensures
            r == self@.contains_key(k@),
    {
        let (_i, found) = self.lower_bound(k);
        found
    }

    /// Inserts `v` under `k`, replacing a previous value.
    pub fn insert(&mut self, k: Vec<u8>, v: V)
        requires
            old(self).wf(),
        ensures
            final(self).wf(),
            final(self)@ == old(self)@.insert(k@, v),
    {
        let (i, found) = self.lower_bound(k.as_slice());
        let ghost old_map = *self;
        let ghost kv = k@;
        if found {
            self.entries.set(i, (k, v));
            proof {
                assert forall|a: int, b: int| 0 <= a < b < self.size() implies lex_lt(
                    #[trigger] self.key_at(a),
                    #[trigger] self.key_at(b),
                ) by {
                    assert(old_map.key_at(a) == self.key_at(a));
                    assert(old_map.key_at(b) == self.key_at(b));
                }
                assert forall|q: Seq<u8>| #[trigger] self@.contains_key(q) == old_map@.insert(kv, v).contains_key(q) by {
                    if self.has_key(q) {
                        let j = self.index_of(q);
                        assert(old_map.key_at(j) == self.key_at(j));
                    }
                    if old_map.has_key(q) {
                        let j = old_map.index_of(q);
                        assert(old_map.key_at(j) == self.key_at(j));
                    }
                    if q == kv {
                        self.lemma_index_of(i as int);
                    }
                }
                assert forall|q: Seq<u8>| self@.contains_key(q) implies #[trigger] self@[q] == old_map@.insert(kv, v)[q] by {
                    let j = self.index_of(q);
                    self.lemma_index_of(j);
                    if j != i {
                        assert(old_map.key_at(j) == self.key_at(j));
                        old_map.lemma_index_of(j);
                        self.lemma_distinct(j, i as int);
                    }
                }
                assert(self@ =~= old_map@.insert(kv, v));
            }
        } else {
            self.entries.insert(i, (k, v));
            proof {
                assert forall|j: int| 0 <= j < i implies self.key_at(j) == old_map.key_at(j) by {}
                assert forall|j: int| i < j < self.size() implies self.key_at(j) == old_map.key_at(j - 1) by {}
                assert(self.key_at(i as int) == kv);
                assert forall|a: int, b: int| 0 <= a < b < self.size() implies lex_lt(
                    #[trigger] self.key_at(a),
                    #[trigger] self.key_at(b),
                ) by {
                    if b < i {
                        assert(self.key_at(a) == old_map.key_at(a));
                        assert(self.key_at(b) == old_map.key_at(b));
                        assert(lex_lt(old_map.key_at(a), old_map.key_at(b)));
                    } else if b == i {
                        assert(self.key_at(a) == old_map.key_at(a));
                        assert(lex_lt(old_map.key_at(a), kv));
                    } else if a < i {
                        assert(self.key_at(a) == old_map.key_at(a));
                        assert(self.key_at(b) == old_map.key_at(b - 1));
                        // key(a) < k < old key(i) <= old key(b - 1)
                        assert(lex_lt(old_map.key_at(a), kv));
                        assert(lex_lt(kv, old_map.key_at(i as int)));
                        if b - 1 > i {
                            assert(lex_lt(old_map.key_at(i as int), old_map.key_at(b - 1)));
                            lemma_lex_transitive(kv, old_map.key_at(i as int), old_map.key_at(b - 1));
                        }
                        lemma_lex_transitive(old_map.key_at(a), kv, old_map.key_at(b - 1));
                    } else if a == i {
                        assert(self.key_at(b) == old_map.key_at(b - 1));
                        assert(lex_lt(kv, old_map.key_at(i as int)));
                        if b - 1 > i {
                            assert(lex_lt(old_map.key_at(i as int), old_map.key_at(b - 1)));
                            lemma_lex_transitive(kv, old_map.key_at(i as int), old_map.key_at(b - 1));
                        }
                    } else {
                        assert(self.key_at(a) == old_map.key_at(a - 1));
                        assert(self.key_at(b) == old_map.key_at(b - 1));
                        assert(lex_lt(old_map.key_at(a - 1), old_map.key_at(b - 1)));
                    }
                }
                assert forall|q: Seq<u8>| #[trigger] self@.contains_key(q) == old_map@.insert(kv, v).contains_key(q) by {
                    if self.has_key(q) {
                        let j = self.index_of(q);
                        if j < i {
                            assert(old_map.key_at(j) == q);
                        } else if j > i {
                            assert(old_map.key_at(j - 1) == q);
                        }
                    }
                    if old_map.has_key(q) {
                        let j = old_map.index_of(q);
                        if j < i {
                            assert(self.key_at(j) == q);
                        } else {
                            assert(self.key_at(j + 1) == q);
                        }
                    }
                    if q == kv {
                        assert(self.key_at(i as int) == q);
                    }
                }
                assert forall|q: Seq<u8>| self@.contains_key(q) implies #[trigger] self@[q] == old_map@.insert(kv, v)[q] by {
                    let j = self.index_of(q);
                    self.lemma_index_of(j);
                    if j < i {
                        old_map.lemma_index_of(j);
                        self.lemma_distinct(j, i as int);
                    } else if j > i {
                        old_map.lemma_index_of(j - 1);
                        self.lemma_distinct(j, i as int);
                    }
                }
                assert(self@ =~= old_map@.insert(kv, v));
            }
        }
    }

    /// Removes the entry at position `i`.
    pub fn remove_at(&mut self, i: usize) -> (r: (Vec<u8>, V))
        requires
            old(self).wf(),
            i < old(self).size(),
        ensures
            final(self).wf(),
            r.0@ == old(self).key_at(i as int),
            r.1 == old(self).value_at(i as int),
            final(self).entries@ == old(self).entries@.remove(i as int),
            final(self)@ == old(self)@.remove(r.0@),
    {
        let ghost old_map = *self;
        let r = self.entries.remove(i);
        proof {
            let kv = r.0@;
            assert forall|j: int| 0 <= j < i implies self.key_at(j) == old_map.key_at(j) by {}
            assert forall|j: int| i <= j < self.size() implies self.key_at(j) == old_map.key_at(j + 1) by {}
            assert forall|a: int, b: int| 0 <= a < b < self.size() implies lex_lt(
                #[trigger] self.key_at(a),
                #[trigger] self.key_at(b),
            ) by {
                let oa = if a < i { a } else { a + 1 };
                let ob = if b < i { b } else { b + 1 };
                assert(lex_lt(old_map.key_at(oa), old_map.key_at(ob)));
            }
            assert forall|q: Seq<u8>| #[trigger] self@.contains_key(q) == old_map@.remove(kv).contains_key(q) by {
                if self.has_key(q) {
                    let j = self.index_of(q);
                    let oj = if j < i { j } else { j + 1 };
                    assert(old_map.key_at(oj) == q);
                    old_map.lemma_distinct(oj, i as int);
                }
                if old_map.has_key(q) && q != kv {
                    let j = old_map.index_of(q);
                    if j < i {
                        assert(self.key_at(j) == q);
                    } else if j > i {
                        assert(self.key_at(j - 1) == q);
                    }
                }
            }
            assert forall|q: Seq<u8>| self@.contains_key(q) implies #[trigger] self@[q] == old_map@.remove(kv)[q] by {
                let j = self.index_of(q);
                self.lemma_index_of(j);
                let oj = if j < i { j } else { j + 1 };
                old_map.lemma_index_of(oj);
            }
            assert(self@ =~= old_map@.remove(kv));
        }
        r
    }

    /// Removes `k`, giving back its value.
    pub fn remove(&mut self, k: &[u8]) -> (r: Option<V>)
        requires
            old(self).wf(),
        ensures
            final(self).wf(),
            final(self)@ == old(self)@.remove(k@),
            r matches Some(v) ==> old(self)@.contains_key(k@) && v == old(self)@[k@],
            r is None ==> !old(self)@.contains_key(k@),
    {
        let (i, found) = self.lower_bound(k);
        if found {
            proof {
                self.lemma_index_of(i as int);
            }
            let (_key, v) = self.remove_at(i);
            Some(v)
        } else {
            assert(self@.remove(k@) =~= self@);
            None
        }
    }

    /// Removes and returns the entry with the least key.
    pub fn pop_first(&mut self) -> (r: Option<(Vec<u8>, V)>)
        requires
            old(self).wf(),
        ensures
            final(self).wf(),
            old(self).size() == 0 <==> r is None,
            r is None ==> final(self)@ == old(self)@,
            r matches Some(e) ==> {
                &&& e.0@ == old(self).key_at(0)
                &&& e.1 == old(self).value_at(0)
                &&& old(self)@.contains_key(e.0@)
                &&& old(self)@[e.0@] == e.1
                &&& final(self)@ == old(self)@.remove(e.0@)
                &&& final(self).entries@ == old(self).entries@.drop_first()
            },
    {
        if self.entries.len() == 0 {
            None
        } else {
            proof {
                self.lemma_index_of(0);
            }
            let e = self.remove_at(0);
            assert(self.entries@ =~= old(self).entries@.drop_first());
            Some(e)
        }
    }

    /// Position of the first entry whose key starts with `p`; in key order
    /// that entry holds the least such key.
    pub fn first_with_prefix(&self, p: &[u8]) -> (r: Option<usize>)
        requires
            self.wf(),
        ensures
            r matches Some(i) ==> i < self.size() && is_prefix_of(p@, self.key_at(i as int))
                && forall|j: int| 0 <= j < i ==> !is_prefix_of(p@, #[trigger] self.key_at(j)),
            r is None ==> forall|j: int| 0 <= j < self.size() ==> !is_prefix_of(p@, #[trigger] self.key_at(j)),
    {
        let mut i: usize = 0;
        while i < self.entries.len()
            invariant
                i <= self.size(),
                forall|j: int| 0 <= j < i ==> !is_prefix_of(p@, #[trigger] self.key_at(j)),
            decreases self.size() - i,
        {
            if has_prefix(self.entries[i].0.as_slice(), p) {
                return Some(i);
            }
            i += 1;
        }
        None
    }

    /// Moves every entry of `other` into this map, replacing the values of
    /// keys that both hold.
    pub fn extend_from(&mut self, other: SortedMap<V>)
        requires
            old(self).wf(),
            other.wf(),
        ensures
            final(self).wf(),
            final(self)@ == old(self)@.union_prefer_right(other@),
    {
        let ghost orig = self@;
        let ghost all = other;
        let mut rest = other;
        let mut i: usize = 0;
        proof {
            if all.size() > 0 {
                all.lemma_prefix_map(0);
            } else {
                assert(all.prefix_map(0) =~= Map::<Seq<u8>, V>::empty());
            }
            assert(orig.union_prefer_right(all.prefix_map(0)) =~= orig);
            assert(rest.entries@ =~= all.entries@.skip(0));
        }
        while rest.entries.len() > 0
            invariant
                self.wf(),
                rest.wf(),
                all.wf(),
                i <= all.size(),
                rest.entries@ == all.entries@.skip(i as int),
                self@ == orig.union_prefer_right(all.prefix_map(i as int)),
            decreases rest.entries@.len(),
        {
            let ghost before = self@;
            assert(i < all.size());
            assert(all.entries.len() == all.size());
            let e = rest.pop_first();
            match e {
                Some((k, v)) => {
                    proof {
                        assert(all.entries@.skip(i as int)[0] == all.entries@[i as int]);
                        all.lemma_prefix_map(i as int);
                        assert(rest.entries@ =~= all.entries@.skip(i + 1));
                    }
                    self.insert(k, v);
                    proof {
                        assert(self@ =~= orig.union_prefer_right(all.prefix_map(i + 1)));
                    }
                    i += 1;
                },
                None => {},
            }
        }
        proof {
            assert(all.entries@.skip(i as int).len() == 0);
            if all.size() > 0 {
                all.lemma_prefix_map(0);
            } else {
                assert(all.prefix_map(0) =~= all@);
            }
        }
    }

    /// The map of the first `n` entries.
    pub open spec fn prefix_map(self, n: int) -> Map<Seq<u8>, V> {
        Map::new(
            |k: Seq<u8>| exists|j: int| 0 <= j < n && j < self.size() && #[trigger] self.key_at(j) == k,
            |k: Seq<u8>| self.value_at(self.index_of(k)),
        )
    }

    /// The map of the first `n + 1` entries adds the entry at `n` to the map
    /// of the first `n`; the map of no entries is empty and that of all of
    /// them is the whole map.
    pub proof fn lemma_prefix_map(self, n: int)
        requires
            self.wf(),
            0 <= n < self.size(),
        ensures
            self.prefix_map(n + 1) == self.prefix_map(n).insert(self.key_at(n), self.value_at(n)),
            self.prefix_map(0) == Map::<Seq<u8>, V>::empty(),
            self.prefix_map(self.size() as int) == self@,
    {
        self.lemma_index_of(n);
        assert forall|k: Seq<u8>| #[trigger] self.prefix_map(n + 1).contains_key(k) == self.prefix_map(n).insert(
            self.key_at(n),
            self.value_at(n),
        ).contains_key(k) by {
            if self.prefix_map(n + 1).contains_key(k) {
                let j = choose|j: int| 0 <= j < n + 1 && j < self.size() && #[trigger] self.key_at(j) == k;
                if j < n {
                    assert(self.prefix_map(n).contains_key(k));
                }
            }
            if self.prefix_map(n).contains_key(k) {
                let j = choose|j: int| 0 <= j < n && j < self.size() && #[trigger] self.key_at(j) == k;
                assert(self.prefix_map(n + 1).contains_key(k));
            }
        }
        assert(self.prefix_map(n + 1) =~= self.prefix_map(n).insert(self.key_at(n), self.value_at(n)));
        assert(self.prefix_map(0) =~= Map::<Seq<u8>, V>::empty());
        assert(self.prefix_map(self.size() as int) =~= self@);
    }

    /// The entry that `first_with_prefix` finds holds the least key with
    /// the prefix; when it finds none, no key has the prefix.
    pub proof fn lemma_first_with_prefix(self, p: Seq<u8>, r: Option<usize>)
        requires
            self.wf(),
            r matches Some(i) ==> i < self.size() && is_prefix_of(p, self.key_at(i as int))
                && forall|j: int| 0 <= j < i ==> !is_prefix_of(p, #[trigger] self.key_at(j)),
            r is None ==> forall|j: int| 0 <= j < self.size() ==> !is_prefix_of(p, #[trigger] self.key_at(j)),
        ensures
            r matches Some(i) ==> is_least_key_with_prefix(self@, p, self.key_at(i as int))
                && has_key_with_prefix(self@, p) && least_key_with_prefix(self@, p) == self.key_at(i as int)
                && self@[self.key_at(i as int)] == self.value_at(i as int),
            r is None ==> !has_key_with_prefix(self@, p),
    {
        match r {
            Some(i) => {
                let i = i as int;
                self.lemma_index_of(i);
                assert forall|k2: Seq<u8>| #[trigger] self@.contains_key(k2) && is_prefix_of(p, k2) implies k2
                    == self.key_at(i) || lex_lt(self.key_at(i), k2) by {
                    let j = self.index_of(k2);
                    if j < i {
                        assert(!is_prefix_of(p, self.key_at(j)));
                    } else if j > i {
                        assert(lex_lt(self.key_at(i), self.key_at(j)));
                    }
                }
                lemma_least_key_unique(self@, p, self.key_at(i));
            },
            None => {
                if has_key_with_prefix(self@, p) {
                    let k = choose|k: Seq<u8>| #[trigger] self@.contains_key(k) && is_prefix_of(p, k);
                    let j = self.index_of(k);
                    assert(!is_prefix_of(p, self.key_at(j)));
                }
            },
        }
    }
}


impl<V: Copy> SortedMap<V> {
    /// A copy of this map.
    pub fn copy(&self) -> (r: Self)
        requires
            self.wf(),
        ensures
            r.wf(),
            r@ == self@,
    {
        let mut r: SortedMap<V> = SortedMap::new();
        let mut i: usize = 0;
        proof {
            if self.size() > 0 {
                self.lemma_prefix_map(0);
            } else {
                assert(self.prefix_map(0) =~= Map::<Seq<u8>, V>::empty());
            }
            assert(r@ =~= Map::<Seq<u8>, V>::empty());
        }
        while i < self.entries.len()
            invariant
                self.wf(),
                r.wf(),
                i <= self.size(),
                r@ == self.prefix_map(i as int),
            decreases self.size() - i,
        {
            proof {
                self.lemma_prefix_map(i as int);
            }
            let k = crate::trie::db::copy_bytes(self.entries[i].0.as_slice());
            let v = self.entries[i].1;
            r.insert(k, v);
            i += 1;
        }
        proof {
            if self.size() > 0 {
                self.lemma_prefix_map(0);
            } else {
                assert(self.prefix_map(0) =~= self@);
            }
        }
        r
    }
}

impl<V> View for SortedMap<V> {
    type V = Map<Seq<u8>, V>;

    open spec fn view(&self) -> Map<Seq<u8>, V> {
        self.as_map()
    }
}

} // verus!
