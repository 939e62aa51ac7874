//! A map from names to values that keeps its entries in ascending name order.
use vstd::prelude::*;
use vstd::string::*;

use crate::text::owned;

verus! {

/// Strict lexicographic order on names, by character.
pub open spec fn name_lt(a: Seq<char>, b: Seq<char>) -> bool
    decreases a.len(),
{
    if a.len() == 0 {
        b.len() > 0
    } else if b.len() == 0 {
        false
    } else if a[0] < b[0] {
        true
    } else if a[0] > b[0] {
        false
    } else {
        name_lt(a.drop_first(), b.drop_first())
    }
}

pub proof fn lemma_name_lt_irreflexive(a: Seq<char>)
    ensures
        !name_lt(a, a),
    decreases a.len(),
{
    if a.len() > 0 {
        lemma_name_lt_irreflexive(a.drop_first());
    }
}

pub proof fn lemma_name_lt_transitive(a: Seq<char>, b: Seq<char>, c: Seq<char>)
    requires
        name_lt(a, b),
        name_lt(b, c),
    ensures
        name_lt(a, c),
    decreases a.len(),
{
    if a.len() > 0 && b.len() > 0 && c.len() > 0 && a[0] == b[0] && b[0] == c[0] {
        lemma_name_lt_transitive(a.drop_first(), b.drop_first(), c.drop_first());
    }
}

pub proof fn lemma_name_lt_total(a: Seq<char>, b: Seq<char>)
    requires
        a != b,
    ensures
        name_lt(a, b) || name_lt(b, a),
    decreases a.len(),
{
    if a.len() > 0 && b.len() > 0 && a[0] == b[0] {
        if a.drop_first() == b.drop_first() {
            assert(a =~= seq![a[0]] + a.drop_first());
            assert(b =~= seq![b[0]] + b.drop_first());
        }
        lemma_name_lt_total(a.drop_first(), b.drop_first());
    } else if a.len() == 0 && b.len() == 0 {
        assert(a =~= b);
    }
}

pub proof fn lemma_name_lt_asymmetric(a: Seq<char>, b: Seq<char>)
    requires
        name_lt(a, b),
    ensures
        !name_lt(b, a),
{
    if name_lt(b, a) {
        lemma_name_lt_transitive(a, b, a);
        lemma_name_lt_irreflexive(a);
    }
}

/// Decides `name_lt`.
pub fn name_less(a: &str, b: &str) -> (less: bool)
    ensures
        less == name_lt(a@, b@),
{
    let la = a.unicode_len();
    let lb = b.unicode_len();
    let mut i: usize = 0;
    assert(a@.skip(0) =~= a@);
    assert(b@.skip(0) =~= b@);
    while i < la && i < lb
        invariant
            la == a@.len(),
            lb == b@.len(),
            i <= la,
            i <= lb,
            name_lt(a@, b@) == name_lt(a@.skip(i as int), b@.skip(i as int)),
        decreases la - i,
    {
        let x = a.get_char(i);
        let y = b.get_char(i);
        assert(a@.skip(i as int)[0] == x);
        assert(b@.skip(i as int)[0] == y);
        if x < y {
            return true;
        }
        if x > y {
            return false;
        }
        assert(a@.skip(i as int).drop_first() =~= a@.skip(i as int + 1));
        assert(b@.skip(i as int).drop_first() =~= b@.skip(i as int + 1));
        i = i + 1;
    }
    i == la && i < lb
}

/// The names of `entries`, in order.
pub open spec fn names_of<V>(entries: Seq<(String, V)>) -> Seq<Seq<char>> {
    Seq::new(entries.len(), |i: int| entries[i].0@)
}

/// `true` when names strictly ascend.
pub open spec fn ascending(names: Seq<Seq<char>>) -> bool {
    forall|i: int, j: int| 0 <= i < j < names.len() ==> name_lt(#[trigger] names[i], #[trigger] names[j])
}

/// The value paired with `name`, when some entry has that name.
pub open spec fn lookup_pairs<V>(pairs: Seq<(Seq<char>, V)>, name: Seq<char>) -> Option<V> {
    if exists|i: int| 0 <= i < pairs.len() && pairs[i].0 == name {
        Some(pairs[choose|i: int| 0 <= i < pairs.len() && pairs[i].0 == name].1)
    } else {
        None
    }
}

/// `true` when no two entries share a name.
pub open spec fn distinct_names<V>(pairs: Seq<(Seq<char>, V)>) -> bool {
    forall|i: int, j: int| 0 <= i < pairs.len() && 0 <= j < pairs.len() && i != j ==> pairs[i].0 != pairs[j].0
}

/// In a map without repeated names, the entry named `pairs[i].0` is entry `i`.
pub proof fn lemma_lookup_at<V>(pairs: Seq<(Seq<char>, V)>, i: int)
    requires
        distinct_names(pairs),
        0 <= i < pairs.len(),
    ensures
        lookup_pairs(pairs, pairs[i].0) == Some(pairs[i].1),
{
    let name = pairs[i].0;
    assert(exists|k: int| 0 <= k < pairs.len() && pairs[k].0 == name);
    let k = choose|k: int| 0 <= k < pairs.len() && pairs[k].0 == name;
    assert(k == i);
}

/// A map from names to values, its entries kept in ascending name order.
#[derive(Debug, PartialEq, Eq)]
pub struct NameMap<V> {
    entries: Vec<(String, V)>,
}

impl<V: Clone> Clone for NameMap<V> {
    /// A copy holding the same names in the same order.
    fn clone(&self) -> (copy: Self)
        ensures
            pair_names(copy.pairs()) == pair_names(self.pairs()),
    {
        proof {
            use_type_invariant(self);
        }
        let mut entries: Vec<(String, V)> = Vec::new();
        let mut i: usize = 0;
        while i < self.entries.len()
            invariant
                i <= self.entries@.len(),
                entries@.len() == i,
                forall|j: int| 0 <= j < i ==> (#[trigger] entries@[j]).0@ == self.entries@[j].0@,
            decreases self.entries@.len() - i,
        {
            let name = self.entries[i].0.clone();
            let value = self.entries[i].1.clone();
            entries.push((name, value));
            i = i + 1;
        }
        proof {
            assert(names_of(entries@) =~= names_of(self.entries@));
        }
        let copy = NameMap { entries };
        proof {
            assert(pair_names(copy.pairs()) =~= pair_names(self.pairs()));
        }
        copy
    }
}

impl<V> NameMap<V> {
    /// The entries, in ascending name order.
    pub closed spec fn pairs(&self) -> Seq<(Seq<char>, V)> {
        Seq::new(self.entries@.len(), |i: int| (self.entries@[i].0@, self.entries@[i].1))
    }

    /// Entries are in strictly ascending name order.
    #[verifier::type_invariant]
    spec fn ordered(&self) -> bool {
        ascending(names_of(self.entries@))
    }

    /// Entries are in strictly ascending name order.
    pub closed spec fn wf(&self) -> bool {
        ascending(names_of(self.entries@))
    }

    /// Every map satisfies [`NameMap::wf`].
    pub fn assert_wf(&self)
        ensures
            self.wf(),
            distinct_names(self.pairs()),
    {
        proof {
            use_type_invariant(self);
            self.lemma_distinct();
        }
    }

    /// The value stored under `name`.
    pub open spec fn lookup(&self, name: Seq<char>) -> Option<V> {
        lookup_pairs(self.pairs(), name)
    }

    /// A well-formed map never repeats a name.
    pub proof fn lemma_distinct(&self)
        requires
            self.wf(),
        ensures
            distinct_names(self.pairs()),
    {
        assert forall|i: int, j: int| 0 <= i < self.pairs().len() && 0 <= j < self.pairs().len() && i != j
            implies self.pairs()[i].0 != self.pairs()[j].0 by {
            let names = names_of(self.entries@);
            if i < j {
                assert(name_lt(names[i], names[j]));
                lemma_name_lt_irreflexive(names[i]);
            } else {
                assert(name_lt(names[j], names[i]));
                lemma_name_lt_irreflexive(names[j]);
            }
        }
    }

    pub fn new() -> (map: Self)
        ensures
            map.pairs() == Seq::<(Seq<char>, V)>::empty(),
            map.wf(),
    {
        let map = NameMap { entries: Vec::new() };
        assert(map.pairs() =~= Seq::<(Seq<char>, V)>::empty());
        map
    }

    /// The values, in ascending name order.
    pub fn into_values(self) -> (values: Vec<V>)
        ensures
            values@ == self.pairs().map_values(|p: (Seq<char>, V)| p.1),
    {
        let ghost all = self.pairs();
        let mut entries = self.entries;
        let mut values: Vec<V> = Vec::new();
        while entries.len() > 0
            invariant
                all.len() == values@.len() + entries@.len(),
                forall|i: int| 0 <= i < values@.len() ==> #[trigger] values@[i] == all[i].1,
                forall|i: int| 0 <= i < entries@.len() ==> #[trigger] entries@[i].1 == all[values@.len() + i].1,
            decreases entries@.len(),
        {
            let ghost before = entries@;
            let (_, value) = entries.remove(0);
            proof {
                assert(value == all[values@.len() as int].1);
                assert forall|i: int| 0 <= i < entries@.len() implies #[trigger] entries@[i].1 == all[values@.len() + 1 + i].1 by {
                    assert(entries@[i] == before[i + 1]);
                }
            }
            values.push(value);
        }
        assert(values@ =~= all.map_values(|p: (Seq<char>, V)| p.1));
        values
    }

    pub fn len(&self) -> (count: usize)
        ensures
            count == self.pairs().len(),
    {
        self.entries.len()
    }

    pub fn name_at(&self, index: usize) -> (name: &str)
        requires
            index < self.pairs().len(),
        ensures
            name@ == self.pairs()[index as int].0,
    {
        self.entries[index].0.as_str()
    }

    pub fn value_at(&self, index: usize) -> (value: &V)
        requires
            index < self.pairs().len(),
        ensures
            *value == self.pairs()[index as int].1,
    {
        &self.entries[index].1
    }

    /// The position of `name`, if present.
    pub fn position(&self, name: &str) -> (index: Option<usize>)
        ensures
            match index {
                Some(i) => i < self.pairs().len() && self.pairs()[i as int].0 == name@,
                None => forall|i: int| 0 <= i < self.pairs().len() ==> self.pairs()[i].0 != name@,
            },
    {
        let mut i: usize = 0;
        while i < self.entries.len()
            invariant
                i <= self.entries@.len(),
                forall|j: int| 0 <= j < i ==> self.entries@[j].0@ != name@,
            decreases self.entries@.len() - i,
        {
            if crate::text::str_eq(self.entries[i].0.as_str(), name) {
                return Some(i);
            }
            i = i + 1;
        }
        None
    }

    /// The value stored under `name`, if any.
    pub fn get(&self, name: &str) -> (value: Option<&V>)
        ensures
            match value {
                Some(v) => self.lookup(name@) == Some(*v),
                None => self.lookup(name@) is None,
            },
    {
        match self.position(name) {
            Some(i) => {
                proof {
                    use_type_invariant(self);
                    self.lemma_distinct();
                    lemma_lookup_at(self.pairs(), i as int);
                }
                Some(&self.entries[i].1)
            },
            None => None,
        }
    }

    /// Stores `value` under `name`, replacing any earlier value.
    pub fn insert(&mut self, name: &str, value: V)
        ensures
            final(self).lookup(name@) == Some(value),
            forall|other: Seq<char>| other != name@ ==> final(self).lookup(other) == old(self).lookup(other),
            exists|i: int|
                0 <= i <= old(self).pairs().len() && {
                    ||| (i < old(self).pairs().len() && old(self).pairs()[i].0 == name@
                        && final(self).pairs() == old(self).pairs().update(i, (name@, value)))
                    ||| ((forall|j: int| 0 <= j < old(self).pairs().len() ==> old(self).pairs()[j].0 != name@)
                        && final(self).pairs() == old(self).pairs().insert(i, (name@, value)))
                },
    {
        proof {
            use_type_invariant(&*self);
        }
        let ghost old_map = *self;
        let ghost before = self.pairs();
        let ghost old_entries = self.entries@;
        let mut entries: Vec<(String, V)> = Vec::new();
        std::mem::swap(&mut entries, &mut self.entries);
        let mut i: usize = 0;
        while i < entries.len() && name_less(entries[i].0.as_str(), name)
            invariant
                i <= entries@.len(),
                entries@ == old_entries,
                forall|j: int| 0 <= j < i ==> name_lt(entries@[j].0@, name@),
            decreases entries@.len() - i,
        {
            i = i + 1;
        }
        proof {
            assert forall|j: int| 0 <= j < i implies entries@[j].0@ != name@ by {
                lemma_name_lt_irreflexive(name@);
            }
        }
        if i < entries.len() && crate::text::str_eq(entries[i].0.as_str(), name) {
            entries.set(i, (owned(name), value));
            proof {
                assert(names_of(entries@) =~= names_of(old_entries));
            }
            self.entries = entries;
            proof {
                assert(self.pairs() =~= before.update(i as int, (name@, value)));
                use_type_invariant(&*self);
                lemma_insert_lookup(old_map, *self, name@, value);
            }
        } else {
            proof {
                if i < old_entries.len() {
                    lemma_name_lt_total(old_entries[i as int].0@, name@);
                }
                assert forall|j: int| 0 <= j < old_entries.len() implies old_entries[j].0@ != name@ by {
                    if j > i {
                        assert(name_lt(names_of(old_entries)[i as int], names_of(old_entries)[j]));
                        lemma_name_lt_transitive(name@, old_entries[i as int].0@, old_entries[j].0@);
                        lemma_name_lt_irreflexive(name@);
                    } else if j == i {
                        lemma_name_lt_irreflexive(name@);
                    }
                }
            }
            entries.insert(i, (owned(name), value));
            proof {
                let names = names_of(entries@);
                let old_names = names_of(old_entries);
                assert forall|a: int, b: int| 0 <= a < b < names.len() implies name_lt(#[trigger] names[a], #[trigger] names[b]) by {
                    if a < i && b < i {
                        assert(names[a] == old_names[a] && names[b] == old_names[b]);
                    } else if a < i && b == i {
                    } else if a < i && b > i {
                        assert(names[a] == old_names[a] && names[b] == old_names[b - 1]);
                        assert(name_lt(old_names[a], old_names[b - 1]));
                    } else if a == i {
                        assert(names[b] == old_names[b - 1]);
                        if b - 1 > i {
                            assert(name_lt(old_names[i as int], old_names[b - 1]));
                            lemma_name_lt_transitive(name@, old_names[i as int], old_names[b - 1]);
                        }
                    } else {
                        assert(names[a] == old_names[a - 1] && names[b] == old_names[b - 1]);
                    }
                }
            }
            self.entries = entries;
            proof {
                assert(self.pairs() =~= before.insert(i as int, (name@, value)));
                use_type_invariant(&*self);
                lemma_insert_lookup(old_map, *self, name@, value);
            }
        }
    }
}

/// What [`NameMap::insert`] does to lookups: the inserted name now maps to
/// the inserted value, and every other name keeps its value.
pub proof fn lemma_insert_lookup<V>(before: NameMap<V>, after: NameMap<V>, name: Seq<char>, value: V)
    requires
        before.wf(),
        after.wf(),
        exists|i: int|
            0 <= i <= before.pairs().len() && {
                ||| (i < before.pairs().len() && before.pairs()[i].0 == name
                    && after.pairs() == before.pairs().update(i, (name, value)))
                ||| ((forall|j: int| 0 <= j < before.pairs().len() ==> before.pairs()[j].0 != name)
                    && after.pairs() == before.pairs().insert(i, (name, value)))
            },
    ensures
        after.lookup(name) == Some(value),
        forall|other: Seq<char>| other != name ==> after.lookup(other) == before.lookup(other),
{
    before.lemma_distinct();
    after.lemma_distinct();
    let i = choose|i: int|
        0 <= i <= before.pairs().len() && {
            ||| (i < before.pairs().len() && before.pairs()[i].0 == name
                && after.pairs() == before.pairs().update(i, (name, value)))
            ||| ((forall|j: int| 0 <= j < before.pairs().len() ==> before.pairs()[j].0 != name)
                && after.pairs() == before.pairs().insert(i, (name, value)))
        };
    let a = after.pairs();
    let b = before.pairs();
    assert(a[i].0 == name && a[i].1 == value);
    lemma_lookup_at(a, i);
    assert forall|other: Seq<char>| other != name implies after.lookup(other) == before.lookup(other) by {
        if exists|k: int| 0 <= k < b.len() && b[k].0 == other {
            let k = choose|k: int| 0 <= k < b.len() && b[k].0 == other;
            lemma_lookup_at(b, k);
            let k2 = if b.len() < a.len() && k >= i { k + 1 } else { k };
            assert(a[k2] == b[k]);
            lemma_lookup_at(a, k2);
        } else {
            assert forall|k: int| 0 <= k < a.len() implies a[k].0 != other by {
                if b.len() < a.len() {
                    if k < i {
                        assert(a[k] == b[k]);
                    } else if k > i {
                        assert(a[k] == b[k - 1]);
                    }
                } else if k != i {
                    assert(a[k] == b[k]);
                }
            }
        }
    }
}

/// The names of `pairs`, in order.
pub open spec fn pair_names<V>(pairs: Seq<(Seq<char>, V)>) -> Seq<Seq<char>> {
    Seq::new(pairs.len(), |i: int| pairs[i].0)
}

impl<V> NameMap<V> {
    /// A map's entries are in strictly ascending name order.
    pub proof fn lemma_ascending(&self)
        requires
            self.wf(),
        ensures
            ascending(pair_names(self.pairs())),
    {
        assert(pair_names(self.pairs()) =~= names_of(self.entries@));
    }
}

proof fn lemma_ascending_distinct<V>(p: Seq<(Seq<char>, V)>)
    requires
        ascending(pair_names(p)),
    ensures
        distinct_names(p),
{
    assert forall|i: int, j: int| 0 <= i < p.len() && 0 <= j < p.len() && i != j implies p[i].0 != p[j].0 by {
        let names = pair_names(p);
        if i < j {
            assert(name_lt(names[i], names[j]));
            lemma_name_lt_irreflexive(names[i]);
        } else {
            assert(name_lt(names[j], names[i]));
            lemma_name_lt_irreflexive(names[j]);
        }
    }
}

proof fn lemma_lookup_absent<V>(p: Seq<(Seq<char>, V)>, name: Seq<char>)
    requires
        forall|i: int| 0 <= i < p.len() ==> p[i].0 != name,
    ensures
        lookup_pairs(p, name) is None,
{
}

/// Pairs in strictly ascending name order that give the same lookups are
/// equal.
pub proof fn lemma_sorted_pairs_unique<V>(p: Seq<(Seq<char>, V)>, q: Seq<(Seq<char>, V)>)
    requires
        ascending(pair_names(p)),
        ascending(pair_names(q)),
        forall|k: Seq<char>| lookup_pairs(p, k) == lookup_pairs(q, k),
    ensures
        p == q,
    decreases p.len() + q.len(),
{
    lemma_ascending_distinct(p);
    lemma_ascending_distinct(q);
    if p.len() == 0 || q.len() == 0 {
        if p.len() > 0 {
            lemma_lookup_at(p, 0);
            assert(lookup_pairs(q, p[0].0) is None);
        }
        if q.len() > 0 {
            lemma_lookup_at(q, 0);
            assert(lookup_pairs(p, q[0].0) is None);
        }
        assert(p =~= q);
    } else {
        let a = p[0].0;
        let b = q[0].0;
        lemma_lookup_at(p, 0);
        lemma_lookup_at(q, 0);
        let j = choose|j: int| 0 <= j < q.len() && q[j].0 == a;
        let i = choose|i: int| 0 <= i < p.len() && p[i].0 == b;
        if a != b {
            if j > 0 {
                assert(name_lt(pair_names(q)[0], pair_names(q)[j]));
            }
            if i > 0 {
                assert(name_lt(pair_names(p)[0], pair_names(p)[i]));
            }
            lemma_name_lt_asymmetric(b, a);
        }
        assert(p[0] == q[0]);
        let p1 = p.drop_first();
        let q1 = q.drop_first();
        assert forall|x: int, y: int| 0 <= x < y < pair_names(p1).len() implies name_lt(
            #[trigger] pair_names(p1)[x],
            #[trigger] pair_names(p1)[y],
        ) by {
            assert(pair_names(p1)[x] == pair_names(p)[x + 1]);
            assert(pair_names(p1)[y] == pair_names(p)[y + 1]);
        }
        assert forall|x: int, y: int| 0 <= x < y < pair_names(q1).len() implies name_lt(
            #[trigger] pair_names(q1)[x],
            #[trigger] pair_names(q1)[y],
        ) by {
            assert(pair_names(q1)[x] == pair_names(q)[x + 1]);
            assert(pair_names(q1)[y] == pair_names(q)[y + 1]);
        }
        lemma_ascending_distinct(p1);
        lemma_ascending_distinct(q1);
        assert forall|k: Seq<char>| lookup_pairs(p1, k) == lookup_pairs(q1, k) by {
            if k == a {
                assert forall|t: int| 0 <= t < p1.len() implies p1[t].0 != k by {
                    assert(p1[t] == p[t + 1]);
                }
                assert forall|t: int| 0 <= t < q1.len() implies q1[t].0 != k by {
                    assert(q1[t] == q[t + 1]);
                }
                lemma_lookup_absent(p1, k);
                lemma_lookup_absent(q1, k);
            } else {
                if exists|t: int| 0 <= t < p1.len() && p1[t].0 == k {
                    let t = choose|t: int| 0 <= t < p1.len() && p1[t].0 == k;
                    lemma_lookup_at(p1, t);
                    assert(p1[t] == p[t + 1]);
                    lemma_lookup_at(p, t + 1);
                } else {
                    lemma_lookup_absent(p1, k);
                    assert forall|t: int| 0 <= t < p.len() implies p[t].0 != k by {
                        if t > 0 {
                            assert(p[t] == p1[t - 1]);
                        }
                    }
                    lemma_lookup_absent(p, k);
                }
                if exists|t: int| 0 <= t < q1.len() && q1[t].0 == k {
                    let t = choose|t: int| 0 <= t < q1.len() && q1[t].0 == k;
                    lemma_lookup_at(q1, t);
                    assert(q1[t] == q[t + 1]);
                    lemma_lookup_at(q, t + 1);
                } else {
                    lemma_lookup_absent(q1, k);
                    assert forall|t: int| 0 <= t < q.len() implies q[t].0 != k by {
                        if t > 0 {
                            assert(q[t] == q1[t - 1]);
                        }
                    }
                    lemma_lookup_absent(q, k);
                }
            }
        }
        lemma_sorted_pairs_unique(p1, q1);
        assert(p =~= seq![p[0]] + p1);
        assert(q =~= seq![q[0]] + q1);
    }
}

} // verus!
