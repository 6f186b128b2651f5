//! Disjoint sets of cells, kept by `ena`'s unification table.
//!
//! The table is seen through one sequence: for each key, the root of the set
//! that holds it. Two keys are in the same set exactly when their roots agree.
use vstd::prelude::*;
use ena::unify::InPlaceUnificationTable;

verus! {

/// The key of one element of a union-find table.
#[derive(Clone, Copy, Debug, PartialEq, Eq)]
pub struct Key(pub u32);

impl ena::unify::UnifyKey for Key {
    type Value = ();

    fn index(&self) -> u32 {
        self.0
    }

    fn from_index(u: u32) -> Self {
        Key(u)
    }

    fn tag() -> &'static str {
        "Key"
    }
}

/// A union-find table over keys `0..n`.
#[verifier::external_body]
pub struct UnionFind {
    table: InPlaceUnificationTable<Key>,
}

/// What a table holds: for each key, the root of its set.
pub uninterp spec fn roots_of(t: UnionFind) -> Seq<int>;

/// Every root is a key and its own root.
pub open spec fn well_rooted(s: Seq<int>) -> bool {
    forall|i: int| 0 <= i < s.len() ==> 0 <= #[trigger] s[i] < s.len() && s[s[i]] == s[i]
}

/// The roots after the sets of `a` and `b` are merged under the root `r`.
pub open spec fn merged(s: Seq<int>, a: int, b: int, r: int) -> Seq<int> {
    Seq::new(s.len(), |i: int| if s[i] == s[a] || s[i] == s[b] { r } else { s[i] })
}

impl UnionFind {
    /// Relies on `ena::unify::UnificationTable::new`: an empty table.
    #[verifier::external_body]
    pub fn new() -> (r: UnionFind)
        ensures
            roots_of(r) == Seq::<int>::empty(),
    {
        UnionFind { table: InPlaceUnificationTable::new() }
    }

    /// Relies on `ena::unify::UnificationTable::new_key`: the next key, alone
    /// in a set of its own.
    #[verifier::external_body]
    pub fn new_key(&mut self) -> (r: Key)
        requires
            roots_of(*old(self)).len() < u32::MAX,
            well_rooted(roots_of(*old(self))),
        ensures
            r.0 == roots_of(*old(self)).len(),
            roots_of(*final(self)) == roots_of(*old(self)).push(r.0 as int),
            well_rooted(roots_of(*final(self))),
    {
        self.table.new_key(())
    }

    /// Relies on `ena::unify::UnificationTable::find`: the root of a key's set;
    /// the sets do not change.
    #[verifier::external_body]
    pub fn find(&mut self, k: Key) -> (r: Key)
        requires
            k.0 < roots_of(*old(self)).len(),
            well_rooted(roots_of(*old(self))),
        ensures
            r.0 == roots_of(*old(self))[k.0 as int],
            roots_of(*final(self)) == roots_of(*old(self)),
    {
        self.table.find(k)
    }

    /// Relies on `ena::unify::UnificationTable::unioned`: whether two keys
    /// share a set; the sets do not change.
    #[verifier::external_body]
    pub fn unioned(&mut self, a: Key, b: Key) -> (r: bool)
        requires
            a.0 < roots_of(*old(self)).len(),
            b.0 < roots_of(*old(self)).len(),
            well_rooted(roots_of(*old(self))),
        ensures
            r == (roots_of(*old(self))[a.0 as int] == roots_of(*old(self))[b.0 as int]),
            roots_of(*final(self)) == roots_of(*old(self)),
    {
        self.table.unioned(a, b)
    }

    /// Relies on `ena::unify::UnificationTable::union`: the sets of the two
    /// keys become one, whose root is the root of one of them.
    #[verifier::external_body]
    pub fn union(&mut self, a: Key, b: Key)
        requires
            a.0 < roots_of(*old(self)).len(),
            b.0 < roots_of(*old(self)).len(),
            well_rooted(roots_of(*old(self))),
        ensures
            well_rooted(roots_of(*final(self))),
            union_step(roots_of(*old(self)), roots_of(*final(self)), a.0 as int, b.0 as int),
    {
        self.table.union(a, b)
    }
}

/// A table over the keys `0..n`, each alone in its own set.
pub fn singletons(n: usize) -> (t: UnionFind)
    requires
        n <= u32::MAX,
    ensures
        roots_of(t) == Seq::new(n as nat, |i: int| i),
        well_rooted(roots_of(t)),
{
    let mut t = UnionFind::new();
    let mut i: usize = 0;
    while i < n
        invariant
            i <= n <= u32::MAX,
            roots_of(t) == Seq::new(i as nat, |k: int| k),
            well_rooted(roots_of(t)),
        decreases n - i,
    {
        t.new_key();
        i = i + 1;
        assert(roots_of(t) =~= Seq::new(i as nat, |k: int| k));
    }
    t
}

/// The sets of keys `0..n` after joining the pairs of `unions` in order: each
/// join merges the whole set of one key with the whole set of the other, so
/// two keys end up together exactly when a chain of joins links them.
pub open spec fn classes(n: nat, unions: Seq<(int, int)>) -> Seq<int>
    decreases unions.len(),
{
    if unions.len() == 0 {
        Seq::new(n, |i: int| i)
    } else {
        let s = classes(n, unions.drop_last());
        let (a, b) = unions.last();
        merged(s, a, b, s[a])
    }
}

/// One union on a table, as `union` states it: the roots `before` become `after`.
pub open spec fn union_step(before: Seq<int>, after: Seq<int>, a: int, b: int) -> bool {
    exists|r: int| (r == before[a] || r == before[b]) && after == #[trigger] merged(before, a, b, r)
}

/// Two root sequences that put the same keys together.
pub open spec fn same_partition(s: Seq<int>, t: Seq<int>) -> bool {
    &&& s.len() == t.len()
    &&& forall|a: int, b: int| 0 <= a < s.len() && 0 <= b < s.len() ==> (s[a] == s[b] <==> t[a] == t[b])
}

proof fn lemma_merge_same_partition(s: Seq<int>, t: Seq<int>, x: int, y: int, r1: int, r2: int)
    requires
        same_partition(s, t),
        0 <= x < s.len(),
        0 <= y < s.len(),
        r1 == s[x] || r1 == s[y],
        r2 == t[x] || r2 == t[y],
    ensures
        same_partition(merged(s, x, y, r1), merged(t, x, y, r2)),
{
    let s2 = merged(s, x, y, r1);
    let t2 = merged(t, x, y, r2);
    assert forall|a: int, b: int| 0 <= a < s.len() && 0 <= b < s.len() implies (s2[a] == s2[b] <==> t2[a] == t2[b]) by {
        assert(s[a] == s[x] <==> t[a] == t[x]);
        assert(s[a] == s[y] <==> t[a] == t[y]);
        assert(s[b] == s[x] <==> t[b] == t[x]);
        assert(s[b] == s[y] <==> t[b] == t[y]);
        assert(s[a] == s[b] <==> t[a] == t[b]);
    }
}

/// After any sequence of unions on `n` fresh keys, two keys have the same root
/// exactly when the unions joined them, directly or through other keys.
pub proof fn lemma_union_find_tracks_unions(n: nat, unions: Seq<(int, int)>, states: Seq<Seq<int>>)
    requires
        states.len() == unions.len() + 1,
        states[0] == Seq::new(n, |i: int| i),
        forall|k: int| 0 <= k < unions.len() ==> {
            &&& 0 <= #[trigger] unions[k].0 < n
            &&& 0 <= unions[k].1 < n
            &&& union_step(states[k], states[k + 1], unions[k].0, unions[k].1)
        },
    ensures
        states.last().len() == n,
        forall|a: int, b: int| 0 <= a < n && 0 <= b < n ==>
            (states.last()[a] == states.last()[b] <==> classes(n, unions)[a] == classes(n, unions)[b]),
    decreases unions.len(),
{
    if unions.len() == 0 {
        assert(states.last() == states[0]);
    } else {
        let k = unions.len() - 1;
        let us = unions.drop_last();
        let ss = states.drop_last();
        assert forall|j: int| 0 <= j < us.len() implies {
            &&& 0 <= #[trigger] us[j].0 < n
            &&& 0 <= us[j].1 < n
            &&& union_step(ss[j], ss[j + 1], us[j].0, us[j].1)
        } by {
            assert(us[j] == unions[j]);
            assert(ss[j] == states[j] && ss[j + 1] == states[j + 1]);
        }
        lemma_union_find_tracks_unions(n, us, ss);
        assert(ss.last() == states[k]);
        let prev = classes(n, us);
        let (x, y) = unions[k];
        assert(unions.last() == unions[k]);
        assert(union_step(states[k], states[k + 1], x, y));
        let r = choose|r: int| (r == states[k][x] || r == states[k][y]) && states[k + 1] == #[trigger] merged(states[k], x, y, r);
        assert(prev.len() == n) by {
            lemma_classes_len(n, us);
        }
        assert(same_partition(states[k], prev));
        lemma_merge_same_partition(states[k], prev, x, y, r, prev[x]);
        assert(states.last() == states[k + 1]);
    }
}

proof fn lemma_classes_len(n: nat, unions: Seq<(int, int)>)
    ensures
        classes(n, unions).len() == n,
    decreases unions.len(),
{
    if unions.len() > 0 {
        lemma_classes_len(n, unions.drop_last());
    }
}

} // verus!
