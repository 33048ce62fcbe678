//! Maps and sets keyed by name, kept in the order of their keys.
//!
//! [`NameMap`] is a sorted association list. Its model is a mathematical map from
//! the characters of a key to the value; [`NameMap::names`] and
//! [`NameMap::values`] give the same contents in key order, which is the order
//! every listing of this crate is produced in. [`IdMap`] is the same for numeric
//! object ids.

use crate::text::{comes_before, lemma_lex_asymmetric, lemma_lex_irreflexive, lemma_lex_total, lemma_lex_transitive, lex_lt, same, views};
use vstd::prelude::*;

verus! {

/// Strictly increasing in the order of names, so nothing occurs twice.
pub open spec fn sorted_names(s: Seq<Seq<char>>) -> bool {
    forall|i: int, j: int| 0 <= i < j < s.len() ==> lex_lt(#[trigger] s[i], #[trigger] s[j])
}

/// The map that sends `names[i]` to `values[i]`.
pub open spec fn zip_map<K, V>(names: Seq<K>, values: Seq<V>) -> Map<K, V> {
    Map::new(
        |k: K| names.contains(k),
        |k: K| values[choose|i: int| 0 <= i < names.len() && names[i] == k],
    )
}

/// In a sorted sequence a name has one place.
pub proof fn lemma_sorted_unique(s: Seq<Seq<char>>, i: int, j: int)
    requires
        sorted_names(s),
        0 <= i < s.len(),
        0 <= j < s.len(),
        s[i] == s[j],
    ensures
        i == j,
{
    lemma_lex_irreflexive(s[i]);
    if i < j {
        assert(lex_lt(s[i], s[j]));
    } else if j < i {
        assert(lex_lt(s[j], s[i]));
    }
}

/// A sorted sequence is determined by the set of its names.
pub proof fn lemma_sorted_same(s: Seq<Seq<char>>, t: Seq<Seq<char>>)
    requires
        sorted_names(s),
        sorted_names(t),
        forall|k: Seq<char>| s.contains(k) <==> t.contains(k),
    ensures
        s == t,
    decreases s.len(),
{
    if s.len() == 0 {
        if t.len() > 0 {
            assert(t.contains(t[0]));
        }
        assert(s =~= t);
    } else {
        assert(s.contains(s[0]));
        assert(t.len() > 0);
        assert(t.contains(t[0]));
        let i = choose|i: int| 0 <= i < t.len() && t[i] == s[0];
        let j = choose|j: int| 0 <= j < s.len() && s[j] == t[0];
        if s[0] != t[0] {
            assert(lex_lt(t[0], t[i]));
            assert(lex_lt(s[0], s[j]));
            lemma_lex_asymmetric(s[0], t[0]);
        }
        let s1 = s.drop_first();
        let t1 = t.drop_first();
        assert forall|k: Seq<char>| s1.contains(k) <==> t1.contains(k) by {
            if s1.contains(k) {
                let m = choose|m: int| 0 <= m < s1.len() && s1[m] == k;
                assert(s[m + 1] == k);
                assert(t.contains(k));
                let n = choose|n: int| 0 <= n < t.len() && t[n] == k;
                if n == 0 {
                    lemma_sorted_unique(s, 0, m + 1);
                }
                assert(t1[n - 1] == k);
            }
            if t1.contains(k) {
                let m = choose|m: int| 0 <= m < t1.len() && t1[m] == k;
                assert(t[m + 1] == k);
                assert(s.contains(k));
                let n = choose|n: int| 0 <= n < s.len() && s[n] == k;
                if n == 0 {
                    lemma_sorted_unique(t, 0, m + 1);
                }
                assert(s1[n - 1] == k);
            }
        }
        lemma_sorted_same(s1, t1);
        assert(s =~= seq![s[0]] + s1);
        assert(t =~= seq![t[0]] + t1);
    }
}

/// The members of a set of names in order.
pub open spec fn in_order(names: Set<Seq<char>>) -> Seq<Seq<char>> {
    choose|s: Seq<Seq<char>>| #[trigger] sorted_names(s) && s.to_set() == names
}

/// A sorted sequence is the members of its set in order.
pub proof fn lemma_in_order(s: Seq<Seq<char>>)
    requires
        sorted_names(s),
    ensures
        in_order(s.to_set()) == s,
{
    let t = in_order(s.to_set());
    assert(sorted_names(t) && t.to_set() == s.to_set());
    assert forall|k: Seq<char>| s.contains(k) <==> t.contains(k) by {
        assert(s.to_set().contains(k) <==> t.to_set().contains(k));
    }
    lemma_sorted_same(s, t);
}

/// A sorted sequence with one more name in its place.
pub open spec fn with_name(s: Seq<Seq<char>>, x: Seq<char>) -> Seq<Seq<char>>
    decreases s.len(),
{
    if s.len() == 0 {
        seq![x]
    } else if x == s[0] {
        s
    } else if lex_lt(x, s[0]) {
        seq![x] + s
    } else {
        seq![s[0]] + with_name(s.skip(1), x)
    }
}

/// With one more name in its place a sorted sequence stays sorted.
pub proof fn lemma_with_name(s: Seq<Seq<char>>, x: Seq<char>)
    requires
        sorted_names(s),
    ensures
        sorted_names(with_name(s, x)),
        with_name(s, x).to_set() == s.to_set().insert(x),
    decreases s.len(),
{
    let t = with_name(s, x);
    if s.len() == 0 {
        assert(t[0] == x);
        assert(t.to_set() =~= s.to_set().insert(x));
    } else if x == s[0] {
        assert(s.contains(s[0]));
        assert(t.to_set() =~= s.to_set().insert(x));
    } else if lex_lt(x, s[0]) {
        assert forall|i: int, j: int| 0 <= i < j < t.len() implies lex_lt(
            #[trigger] t[i],
            #[trigger] t[j],
        ) by {
            if i == 0 {
                if j > 1 {
                    assert(t[j] == s[j - 1]);
                    lemma_lex_transitive(x, s[0], s[j - 1]);
                }
            } else {
                assert(t[i] == s[i - 1] && t[j] == s[j - 1]);
            }
        }
        assert forall|k: Seq<char>| t.to_set().contains(k) <==> s.to_set().insert(x).contains(k) by {
            if s.contains(k) {
                let i = choose|i: int| 0 <= i < s.len() && s[i] == k;
                assert(t[i + 1] == k);
            }
            assert(t[0] == x);
            if t.contains(k) {
                let i = choose|i: int| 0 <= i < t.len() && t[i] == k;
                if i > 0 {
                    assert(s[i - 1] == k);
                }
            }
        }
        assert(t.to_set() =~= s.to_set().insert(x));
    } else {
        let rest = s.skip(1);
        let r = with_name(rest, x);
        assert forall|i: int, j: int| 0 <= i < j < rest.len() implies lex_lt(
            #[trigger] rest[i],
            #[trigger] rest[j],
        ) by {
            assert(rest[i] == s[i + 1] && rest[j] == s[j + 1]);
        }
        lemma_with_name(rest, x);
        lemma_lex_total(x, s[0]);
        assert forall|i: int, j: int| 0 <= i < j < t.len() implies lex_lt(
            #[trigger] t[i],
            #[trigger] t[j],
        ) by {
            assert(t[j] == r[j - 1]);
            if i == 0 {
                assert(r.to_set().contains(r[j - 1]));
                if r[j - 1] != x {
                    assert(rest.contains(r[j - 1]));
                    let m = choose|m: int| 0 <= m < rest.len() && rest[m] == r[j - 1];
                    assert(rest[m] == s[m + 1]);
                }
            } else {
                assert(t[i] == r[i - 1]);
            }
        }
        assert forall|k: Seq<char>| t.to_set().contains(k) <==> s.to_set().insert(x).contains(k) by {
            assert(t[0] == s[0]);
            if s.contains(k) && k != s[0] {
                let i = choose|i: int| 0 <= i < s.len() && s[i] == k;
                assert(rest[i - 1] == k);
                assert(rest.to_set().contains(k));
                assert(r.to_set().contains(k));
                let m = choose|m: int| 0 <= m < r.len() && r[m] == k;
                assert(t[m + 1] == k);
            }
            if k == x {
                assert(r.to_set().contains(x));
                let m = choose|m: int| 0 <= m < r.len() && r[m] == x;
                assert(t[m + 1] == x);
            }
            if t.contains(k) {
                let i = choose|i: int| 0 <= i < t.len() && t[i] == k;
                if i == 0 {
                    assert(s.contains(s[0]));
                } else {
                    assert(r[i - 1] == k);
                    assert(r.to_set().contains(k));
                    if k != x {
                        assert(rest.contains(k));
                        let m = choose|m: int| 0 <= m < rest.len() && rest[m] == k;
                        assert(s[m + 1] == k);
                    }
                }
            }
        }
        assert(t.to_set() =~= s.to_set().insert(x));
    }
}

/// Every finite set of names has its members in order.
pub proof fn lemma_set_in_order(names: Set<Seq<char>>)
    requires
        names.finite(),
    ensures
        sorted_names(in_order(names)),
        in_order(names).to_set() == names,
    decreases names.len(),
{
    if names.len() == 0 {
        let none = Seq::<Seq<char>>::empty();
        assert(none.to_set() =~= names);
        lemma_in_order(none);
    } else {
        let x = names.choose();
        let rest = names.remove(x);
        lemma_set_in_order(rest);
        lemma_with_name(in_order(rest), x);
        assert(rest.insert(x) =~= names);
        lemma_in_order(with_name(in_order(rest), x));
    }
}

/// One more of a sequence: what is among the first `i + 1`.
pub proof fn lemma_take_next<A>(s: Seq<A>, i: int)
    requires
        0 <= i < s.len(),
    ensures
        forall|k: A| #[trigger] s.take(i + 1).contains(k) <==> s.take(i).contains(k) || k == s[i],
{
    let done = s.take(i);
    let next = s.take(i + 1);
    assert forall|k: A| #[trigger] next.contains(k) <==> done.contains(k) || k == s[i] by {
        if done.contains(k) {
            let j = choose|j: int| 0 <= j < done.len() && done[j] == k;
            assert(next[j] == k);
        }
        assert(next[i] == s[i]);
        if next.contains(k) {
            let j = choose|j: int| 0 <= j < next.len() && next[j] == k;
            if j < i {
                assert(done[j] == k);
            }
        }
    }
}

/// One more at the end of a sequence: what is in it then.
pub proof fn lemma_push_contains<A>(s: Seq<A>, x: A)
    ensures
        forall|k: A| #[trigger] s.push(x).contains(k) <==> s.contains(k) || k == x,
{
    let t = s.push(x);
    assert forall|k: A| #[trigger] t.contains(k) <==> s.contains(k) || k == x by {
        if s.contains(k) {
            let j = choose|j: int| 0 <= j < s.len() && s[j] == k;
            assert(t[j] == k);
        }
        assert(t[s.len() as int] == x);
        if t.contains(k) {
            let j = choose|j: int| 0 <= j < t.len() && t[j] == k;
            if j < s.len() {
                assert(s[j] == k);
            }
        }
    }
}

proof fn lemma_zip_at<V>(names: Seq<Seq<char>>, values: Seq<V>, i: int)
    requires
        sorted_names(names),
        names.len() == values.len(),
        0 <= i < names.len(),
    ensures
        zip_map(names, values).contains_key(names[i]),
        zip_map(names, values)[names[i]] == values[i],
{
    let j = choose|j: int| 0 <= j < names.len() && names[j] == names[i];
    lemma_sorted_unique(names, i, j);
}

/// A map from names to values, sorted by name.
pub struct NameMap<V> {
    entries: Vec<(String, V)>,
}

spec fn entry_names<V>(e: Seq<(String, V)>) -> Seq<Seq<char>> {
    e.map_values(|p: (String, V)| p.0@)
}

spec fn entry_values<V>(e: Seq<(String, V)>) -> Seq<V> {
    e.map_values(|p: (String, V)| p.1)
}

impl<V> NameMap<V> {
    /// The keys, in order.
    pub closed spec fn names(self) -> Seq<Seq<char>> {
        entry_names(self.entries@)
    }

    /// The values, in the order of their keys.
    pub closed spec fn values(self) -> Seq<V> {
        entry_values(self.entries@)
    }

    /// The map this stands for.
    pub open spec fn view(self) -> Map<Seq<char>, V> {
        zip_map(self.names(), self.values())
    }

    #[verifier::type_invariant]
    spec fn inv(self) -> bool {
        sorted_names(entry_names(self.entries@))
    }

    /// The empty map.
    pub fn new() -> (r: Self)
        ensures
            r.names() == Seq::<Seq<char>>::empty(),
            r.values() == Seq::<V>::empty(),
            r@ == Map::<Seq<char>, V>::empty(),
    {
        let r = NameMap { entries: Vec::new() };
        assert(r.names() =~= Seq::<Seq<char>>::empty());
        assert(r.values() =~= Seq::<V>::empty());
        assert(r@ =~= Map::<Seq<char>, V>::empty());
        r
    }

    /// The number of keys.
    pub fn len(&self) -> (r: usize)
        ensures
            r == self.names().len(),
            r == self.values().len(),
            sorted_names(self.names()),
            forall|i: int|
                0 <= i < r ==> self@.contains_key(#[trigger] self.names()[i])
                    && self@[self.names()[i]] == self.values()[i],
    {
        proof {
            use_type_invariant(self);
            assert forall|i: int| 0 <= i < self.entries@.len() implies self@.contains_key(
                #[trigger] self.names()[i],
            ) && self@[self.names()[i]] == self.values()[i] by {
                lemma_zip_at(self.names(), self.values(), i);
            }
        }
        self.entries.len()
    }

    pub fn is_empty(&self) -> (r: bool)
        ensures
            r == (self.names().len() == 0),
            r == (self@.dom() =~= Set::<Seq<char>>::empty()),
    {
        proof {
            if self.entries@.len() > 0 {
                assert(self.names().contains(self.names()[0]));
                assert(self@.dom().contains(self.names()[0]));
            }
        }
        self.entries.len() == 0
    }

    /// The key in place `i`.
    pub fn key_at(&self, i: usize) -> (r: &String)
        requires
            i < self.names().len(),
        ensures
            r@ == self.names()[i as int],
            self@.contains_key(r@),
            i < self.values().len(),
            self@[r@] == self.values()[i as int],
    {
        proof {
            use_type_invariant(self);
            lemma_zip_at(self.names(), self.values(), i as int);
        }
        &self.entries[i].0
    }

    /// The value in place `i`.
    pub fn value_at(&self, i: usize) -> (r: &V)
        requires
            i < self.names().len(),
        ensures
            *r == self.values()[i as int],
            self@.contains_key(self.names()[i as int]),
            self@[self.names()[i as int]] == *r,
    {
        proof {
            use_type_invariant(self);
            lemma_zip_at(self.names(), self.values(), i as int);
        }
        &self.entries[i].1
    }

    /// The place of `key`, where the map has it.
    pub fn find(&self, key: &str) -> (r: Option<usize>)
        ensures
            match r {
                Some(i) => i < self.names().len() && self.names()[i as int] == key@
                    && self@.contains_key(key@) && self@[key@] == self.values()[i as int],
                None => !self@.contains_key(key@) && !self.names().contains(key@),
            },
    {
        proof {
            use_type_invariant(self);
        }
        let mut i: usize = 0;
        while i < self.entries.len()
            invariant
                i <= self.entries@.len(),
                sorted_names(self.names()),
                forall|j: int| 0 <= j < i ==> #[trigger] self.names()[j] != key@,
            decreases self.entries.len() - i,
        {
            if same(&self.entries[i].0, key) {
                proof {
                    assert(self.names()[i as int] == key@);
                    lemma_zip_at(self.names(), self.values(), i as int);
                }
                return Some(i);
            }
            assert(self.names()[i as int] != key@);
            i += 1;
        }
        assert(!self.names().contains(key@));
        None
    }

    pub fn contains_key(&self, key: &str) -> (r: bool)
        ensures
            r == self@.contains_key(key@),
            r == self.names().contains(key@),
    {
        match self.find(key) {
            Some(i) => {
                assert(self.names()[i as int] == key@);
                true
            },
            None => false,
        }
    }

    /// The value under `key`.
    pub fn get(&self, key: &str) -> (r: Option<&V>)
        ensures
            match r {
                Some(v) => self@.contains_key(key@) && *v == self@[key@],
                None => !self@.contains_key(key@),
            },
    {
        match self.find(key) {
            Some(i) => Some(self.value_at(i)),
            None => None,
        }
    }

    /// Puts `value` under `key`, and gives back what stood there.
    pub fn insert(&mut self, key: String, value: V) -> (r: Option<V>)
        ensures
            final(self)@ == old(self)@.insert(key@, value),
            match r {
                Some(v) => old(self)@.contains_key(key@) && v == old(self)@[key@],
                None => !old(self)@.contains_key(key@),
            },
    {
        proof {
            use_type_invariant(&*self);
        }
        let ghost before = *self;
        let mut e: Vec<(String, V)> = Vec::new();
        std::mem::swap(&mut e, &mut self.entries);
        let mut i: usize = 0;
        while i < e.len() && comes_before(&e[i].0, &key)
            invariant
                i <= e@.len(),
                e@ == before.entries@,
                forall|j: int|
                    0 <= j < i ==> lex_lt(#[trigger] entry_names(e@)[j], key@),
            decreases e.len() - i,
        {
            assert(entry_names(e@)[i as int] == e@[i as int].0@);
            i += 1;
        }
        let ghost names = entry_names(e@);
        let ghost vals = entry_values(e@);
        if i < e.len() && same(&e[i].0, &key) {
            let ghost old_value = e@[i as int].1;
            proof {
                assert(names[i as int] == key@);
                lemma_zip_at(names, vals, i as int);
            }
            e.push((key, value));
            let r = e.swap_remove(i);
            proof {
                assert(entry_names(e@) =~= names);
                assert(entry_values(e@) =~= vals.update(i as int, value));
                assert forall|k: Seq<char>| #[trigger] names.contains(k) implies zip_map(
                    names,
                    vals.update(i as int, value),
                )[k] == zip_map(names, vals).insert(key@, value)[k] by {
                    let j = choose|j: int| 0 <= j < names.len() && names[j] == k;
                    lemma_zip_at(names, vals, j);
                    lemma_zip_at(names, vals.update(i as int, value), j);
                    if k == key@ {
                        lemma_sorted_unique(names, i as int, j);
                    }
                }
                assert(zip_map(names, vals.update(i as int, value)) =~= zip_map(
                    names,
                    vals,
                ).insert(key@, value));
            }
            self.entries = e;
            return Some(r.1);
        }
        proof {
            if i < names.len() {
                assert(names[i as int] == e@[i as int].0@);
                lemma_lex_total(names[i as int], key@);
            }
            assert forall|j: int| i <= j < names.len() implies lex_lt(key@, #[trigger] names[j]) by {
                if j > i {
                    assert(lex_lt(names[i as int], names[j]));
                    lemma_lex_transitive(key@, names[i as int], names[j]);
                }
            }
            lemma_lex_irreflexive(key@);
            assert(!names.contains(key@));
        }
        e.insert(i, (key, value));
        proof {
            let names2 = names.insert(i as int, key@);
            let vals2 = vals.insert(i as int, value);
            assert(entry_names(e@) =~= names2);
            assert(entry_values(e@) =~= vals2);
            assert forall|a: int, b: int| 0 <= a < b < names2.len() implies lex_lt(
                #[trigger] names2[a],
                #[trigger] names2[b],
            ) by {
                let a0 = if a < i { a } else { a - 1 };
                let b0 = if b < i { b } else { b - 1 };
                if a != i && b != i {
                    assert(lex_lt(names[a0], names[b0]));
                } else if a == i {
                    assert(lex_lt(key@, names[b0]));
                } else {
                    assert(lex_lt(names[a0], key@));
                }
            }
            assert forall|k: Seq<char>| names2.contains(k) <==> names.contains(k) || k == key@ by {
                if names.contains(k) {
                    let j = choose|j: int| 0 <= j < names.len() && names[j] == k;
                    assert(names2[if j < i { j } else { j + 1 }] == k);
                }
                assert(names2[i as int] == key@);
                if names2.contains(k) {
                    let j = choose|j: int| 0 <= j < names2.len() && names2[j] == k;
                    if j != i {
                        assert(names[if j < i { j } else { j - 1 }] == k);
                    }
                }
            }
            assert forall|k: Seq<char>| #[trigger] names2.contains(k) implies zip_map(
                names2,
                vals2,
            )[k] == zip_map(names, vals).insert(key@, value)[k] by {
                let j = choose|j: int| 0 <= j < names2.len() && names2[j] == k;
                lemma_zip_at(names2, vals2, j);
                if j == i {
                } else {
                    let j0 = if j < i { j } else { j - 1 };
                    lemma_zip_at(names, vals, j0);
                    assert(names[j0] == k);
                    assert(k != key@);
                }
            }
            assert(zip_map(names2, vals2) =~= zip_map(names, vals).insert(key@, value));
        }
        self.entries = e;
        None
    }

    /// Takes `key` out, and gives back what stood under it.
    pub fn remove(&mut self, key: &str) -> (r: Option<V>)
        ensures
            final(self)@ == old(self)@.remove(key@),
            match r {
                Some(v) => old(self)@.contains_key(key@) && v == old(self)@[key@],
                None => !old(self)@.contains_key(key@),
            },
    {
        proof {
            use_type_invariant(&*self);
        }
        let ghost before = *self;
        match self.find(key) {
            None => {
                assert(self@ =~= before@.remove(key@));
                None
            },
            Some(i) => {
                let mut e: Vec<(String, V)> = Vec::new();
                std::mem::swap(&mut e, &mut self.entries);
                let ghost names = entry_names(e@);
                let ghost vals = entry_values(e@);
                let r = e.remove(i);
                proof {
                    let names2 = names.remove(i as int);
                    let vals2 = vals.remove(i as int);
                    assert(entry_names(e@) =~= names2);
                    assert(entry_values(e@) =~= vals2);
                    assert forall|a: int, b: int| 0 <= a < b < names2.len() implies lex_lt(
                        #[trigger] names2[a],
                        #[trigger] names2[b],
                    ) by {
                        let a0 = if a < i { a } else { a + 1 };
                        let b0 = if b < i { b } else { b + 1 };
                        assert(lex_lt(names[a0], names[b0]));
                    }
                    assert forall|k: Seq<char>|
                        names2.contains(k) <==> names.contains(k) && k != key@ by {
                        if names2.contains(k) {
                            let j = choose|j: int| 0 <= j < names2.len() && names2[j] == k;
                            let j0 = if j < i { j } else { j + 1 };
                            assert(names[j0] == k);
                            if k == key@ {
                                lemma_sorted_unique(names, i as int, j0);
                            }
                        }
                        if names.contains(k) && k != key@ {
                            let j = choose|j: int| 0 <= j < names.len() && names[j] == k;
                            assert(names2[if j < i { j } else { j - 1 }] == k);
                        }
                    }
                    assert forall|k: Seq<char>| #[trigger] names2.contains(k) implies zip_map(
                        names2,
                        vals2,
                    )[k] == zip_map(names, vals)[k] by {
                        let j = choose|j: int| 0 <= j < names2.len() && names2[j] == k;
                        lemma_zip_at(names2, vals2, j);
                        let j0 = if j < i { j } else { j + 1 };
                        lemma_zip_at(names, vals, j0);
                        assert(names[j0] == k);
                    }
                    assert(zip_map(names2, vals2) =~= zip_map(names, vals).remove(key@));
                }
                self.entries = e;
                Some(r.1)
            },
        }
    }

    /// The keys, in order.
    pub fn keys(&self) -> (r: Vec<String>)
        ensures
            views(r@) == self.names(),
            sorted_names(views(r@)),
    {
        let n: usize = self.len();
        let mut out: Vec<String> = Vec::new();
        let mut i: usize = 0;
        while i < n
            invariant
                n == self.names().len(),
                i <= n,
                views(out@) == self.names().take(i as int),
            decreases n - i,
        {
            let key: String = self.key_at(i).clone();
            let ghost before = views(out@);
            out.push(key);
            assert(views(out@) =~= before.push(key@));
            assert(views(out@) =~= self.names().take(i + 1));
            i += 1;
        }
        assert(views(out@) =~= self.names());
        out
    }
}

impl<V> NameMap<V> {
    /// Takes out every key that is not in `keep`.
    pub fn retain(&mut self, keep: &NameSet)
        ensures
            final(self)@ == old(self)@.restrict(keep@),
    {
        let ghost before = self@;
        let keys = self.keys();
        let mut i: usize = 0;
        while i < keys.len()
            invariant
                i <= keys@.len(),
                forall|k: Seq<char>| before.contains_key(k) ==> views(keys@).contains(k),
                self@ =~= Map::new(
                    |k: Seq<char>| before.contains_key(k) && (keep@.contains(k) || !views(
                        keys@,
                    ).take(i as int).contains(k)),
                    |k: Seq<char>| before[k],
                ),
            decreases keys.len() - i,
        {
            let ghost done = views(keys@).take(i as int);
            let ghost next = views(keys@).take(i + 1);
            let ghost mid = self@;
            proof {
                assert(next =~= done.push(keys@[i as int]@));
                assert forall|k: Seq<char>| next.contains(k) <==> done.contains(k) || k
                    == keys@[i as int]@ by {
                    if done.contains(k) {
                        let j = choose|j: int| 0 <= j < done.len() && done[j] == k;
                        assert(next[j] == k);
                    }
                    assert(next[i as int] == keys@[i as int]@);
                }
            }
            if !keep.contains(&keys[i]) {
                self.remove(&keys[i]);
            }
            i += 1;
        }
        proof {
            assert(views(keys@).take(i as int) =~= views(keys@));
            assert(self@ =~= before.restrict(keep@));
        }
    }

}

/// A set of names, in order.
pub struct NameSet {
    map: NameMap<()>,
}

impl NameSet {
    /// The members, in order.
    pub closed spec fn names(self) -> Seq<Seq<char>> {
        self.map.names()
    }

    /// The set this stands for.
    pub open spec fn view(self) -> Set<Seq<char>> {
        self.names().to_set()
    }

    /// The empty set.
    pub fn new() -> (r: Self)
        ensures
            r.names() == Seq::<Seq<char>>::empty(),
            r@ == Set::<Seq<char>>::empty(),
    {
        let r = NameSet { map: NameMap::new() };
        assert(r@ =~= Set::<Seq<char>>::empty());
        r
    }

    pub fn len(&self) -> (r: usize)
        ensures
            r == self.names().len(),
            sorted_names(self.names()),
    {
        self.map.len()
    }

    pub fn is_empty(&self) -> (r: bool)
        ensures
            r == (self.names().len() == 0),
            r == (self@ =~= Set::<Seq<char>>::empty()),
    {
        proof {
            if self.names().len() > 0 {
                assert(self@.contains(self.names()[0]));
            }
        }
        self.map.is_empty()
    }

    pub fn contains(&self, name: &str) -> (r: bool)
        ensures
            r == self@.contains(name@),
            r == self.names().contains(name@),
    {
        self.map.contains_key(name)
    }

    /// Puts `name` in. Says whether it is new.
    pub fn insert(&mut self, name: String) -> (r: bool)
        ensures
            final(self)@ == old(self)@.insert(name@),
            r == !old(self)@.contains(name@),
    {
        let ghost before = self.map@;
        let ghost key = name@;
        let r = self.map.insert(name, ());
        proof {
            assert forall|k: Seq<char>| self.names().contains(k) <==> before.contains_key(k) || k
                == key by {
                assert(self.map@.contains_key(k) <==> before.insert(key, ()).contains_key(k));
            }
            assert(self@ =~= old(self)@.insert(key));
        }
        r.is_none()
    }

    /// Takes `name` out. Says whether it was in.
    pub fn remove(&mut self, name: &str) -> (r: bool)
        ensures
            final(self)@ == old(self)@.remove(name@),
            r == old(self)@.contains(name@),
    {
        let ghost before = self.map@;
        let r = self.map.remove(name);
        proof {
            assert forall|k: Seq<char>| self.names().contains(k) <==> before.contains_key(k) && k
                != name@ by {
                assert(self.map@.contains_key(k) <==> before.remove(name@).contains_key(k));
            }
            assert(self@ =~= old(self)@.remove(name@));
        }
        r.is_some()
    }

    /// The name in place `i`.
    pub fn at(&self, i: usize) -> (r: &String)
        requires
            i < self.names().len(),
        ensures
            r@ == self.names()[i as int],
            self@.contains(r@),
    {
        self.map.key_at(i)
    }

    /// The members, in order.
    pub fn to_vec(&self) -> (r: Vec<String>)
        ensures
            views(r@) == self.names(),
            sorted_names(views(r@)),
            forall|k: Seq<char>| #[trigger] views(r@).contains(k) <==> self@.contains(k),
    {
        self.map.keys()
    }

    /// The set of the given names.
    pub fn of(names: &Vec<String>) -> (r: Self)
        ensures
            r@ == views(names@).to_set(),
    {
        let mut out = NameSet::new();
        let mut i: usize = 0;
        assert(views(names@).take(0).to_set() =~= Set::<Seq<char>>::empty());
        while i < names.len()
            invariant
                i <= names@.len(),
                out@ == views(names@).take(i as int).to_set(),
            decreases names.len() - i,
        {
            out.insert(names[i].clone());
            proof {
                let s = views(names@);
                assert(s.take(i + 1) =~= s.take(i as int).push(s[i as int]));
                assert forall|k: Seq<char>| s.take(i + 1).contains(k) <==> s.take(i as int).contains(
                    k,
                ) || k == s[i as int] by {
                    if s.take(i as int).contains(k) {
                        let j = choose|j: int| 0 <= j < i && s.take(i as int)[j] == k;
                        assert(s.take(i + 1)[j] == k);
                    }
                    assert(s.take(i + 1)[i as int] == s[i as int]);
                }
                assert(s.take(i + 1).to_set() =~= s.take(i as int).to_set().insert(s[i as int]));
            }
            i += 1;
        }
        assert(views(names@).take(i as int) =~= views(names@));
        out
    }

    /// Another set with the same members.
    pub fn copy(&self) -> (r: Self)
        ensures
            r@ == self@,
            r.names() == self.names(),
    {
        let v = self.to_vec();
        let r = NameSet::of(&v);
        proof {
            assert(r@ =~= self@);
        }
        let n: usize = r.len();
        let m: usize = self.len();
        proof {
            assert forall|k: Seq<char>| r.names().contains(k) <==> self.names().contains(k) by {
                assert(r@.contains(k) <==> self@.contains(k));
            }
            lemma_sorted_same(r.names(), self.names());
        }
        r
    }
}

/// A map from object ids to values, sorted by id.
pub struct IdMap<V> {
    entries: Vec<(u32, V)>,
}

/// Strictly increasing.
pub open spec fn sorted_ids(s: Seq<u32>) -> bool {
    forall|i: int, j: int| 0 <= i < j < s.len() ==> #[trigger] s[i] < #[trigger] s[j]
}

spec fn entry_ids<V>(e: Seq<(u32, V)>) -> Seq<u32> {
    e.map_values(|p: (u32, V)| p.0)
}

spec fn id_values<V>(e: Seq<(u32, V)>) -> Seq<V> {
    e.map_values(|p: (u32, V)| p.1)
}

proof fn lemma_zip_id<V>(ids: Seq<u32>, values: Seq<V>, i: int)
    requires
        sorted_ids(ids),
        ids.len() == values.len(),
        0 <= i < ids.len(),
    ensures
        zip_map(ids, values).contains_key(ids[i]),
        zip_map(ids, values)[ids[i]] == values[i],
{
    let j = choose|j: int| 0 <= j < ids.len() && ids[j] == ids[i];
    if i < j {
        assert(ids[i] < ids[j]);
    } else if j < i {
        assert(ids[j] < ids[i]);
    }
}

impl<V> IdMap<V> {
    /// The ids, in order.
    pub closed spec fn ids(self) -> Seq<u32> {
        entry_ids(self.entries@)
    }

    /// The values, in the order of their ids.
    pub closed spec fn values(self) -> Seq<V> {
        id_values(self.entries@)
    }

    /// The map this stands for.
    pub open spec fn view(self) -> Map<u32, V> {
        zip_map(self.ids(), self.values())
    }

    #[verifier::type_invariant]
    spec fn inv(self) -> bool {
        sorted_ids(entry_ids(self.entries@))
    }

    /// The empty map.
    pub fn new() -> (r: Self)
        ensures
            r.ids() == Seq::<u32>::empty(),
            r.values() == Seq::<V>::empty(),
            r@ == Map::<u32, V>::empty(),
    {
        let r = IdMap { entries: Vec::new() };
        assert(r.ids() =~= Seq::<u32>::empty());
        assert(r.values() =~= Seq::<V>::empty());
        assert(r@ =~= Map::<u32, V>::empty());
        r
    }

    pub fn len(&self) -> (r: usize)
        ensures
            r == self.ids().len(),
            r == self.values().len(),
            sorted_ids(self.ids()),
            forall|i: int|
                0 <= i < r ==> self@.contains_key(#[trigger] self.ids()[i]) && self@[self.ids()[i]]
                    == self.values()[i],
    {
        proof {
            use_type_invariant(self);
            assert forall|i: int| 0 <= i < self.entries@.len() implies self@.contains_key(
                #[trigger] self.ids()[i],
            ) && self@[self.ids()[i]] == self.values()[i] by {
                lemma_zip_id(self.ids(), self.values(), i);
            }
        }
        self.entries.len()
    }

    /// The value in place `i`.
    pub fn value_at(&self, i: usize) -> (r: &V)
        requires
            i < self.values().len(),
        ensures
            *r == self.values()[i as int],
    {
        &self.entries[i].1
    }

    /// The place of `id`, where the map has it.
    pub fn find(&self, id: u32) -> (r: Option<usize>)
        ensures
            match r {
                Some(i) => i < self.ids().len() && self.ids()[i as int] == id && self@.contains_key(
                    id,
                ) && self@[id] == self.values()[i as int],
                None => !self@.contains_key(id) && !self.ids().contains(id),
            },
    {
        proof {
            use_type_invariant(self);
        }
        let mut i: usize = 0;
        while i < self.entries.len()
            invariant
                i <= self.entries@.len(),
                sorted_ids(self.ids()),
                forall|j: int| 0 <= j < i ==> #[trigger] self.ids()[j] != id,
            decreases self.entries.len() - i,
        {
            if self.entries[i].0 == id {
                proof {
                    assert(self.ids()[i as int] == id);
                    lemma_zip_id(self.ids(), self.values(), i as int);
                }
                return Some(i);
            }
            assert(self.ids()[i as int] != id);
            i += 1;
        }
        assert(!self.ids().contains(id));
        None
    }

    pub fn contains_key(&self, id: u32) -> (r: bool)
        ensures
            r == self@.contains_key(id),
    {
        self.find(id).is_some()
    }

    /// The value under `id`.
    pub fn get(&self, id: u32) -> (r: Option<&V>)
        ensures
            match r {
                Some(v) => self@.contains_key(id) && *v == self@[id],
                None => !self@.contains_key(id),
            },
    {
        match self.find(id) {
            Some(i) => Some(self.value_at(i)),
            None => None,
        }
    }

    /// Puts `value` under `id`.
    pub fn insert(&mut self, id: u32, value: V)
        ensures
            final(self)@ == old(self)@.insert(id, value),
    {
        proof {
            use_type_invariant(&*self);
        }
        let ghost before = *self;
        let mut e: Vec<(u32, V)> = Vec::new();
        std::mem::swap(&mut e, &mut self.entries);
        let mut i: usize = 0;
        while i < e.len() && e[i].0 < id
            invariant
                i <= e@.len(),
                e@ == before.entries@,
                forall|j: int| 0 <= j < i ==> (#[trigger] entry_ids(e@)[j]) < id,
            decreases e.len() - i,
        {
            assert(entry_ids(e@)[i as int] == e@[i as int].0);
            i += 1;
        }
        let ghost ids = entry_ids(e@);
        let ghost vals = id_values(e@);
        if i < e.len() && e[i].0 == id {
            assert(ids[i as int] == id);
            e.push((id, value));
            let _old = e.swap_remove(i);
            proof {
                assert(entry_ids(e@) =~= ids);
                let vals2 = vals.update(i as int, value);
                assert(id_values(e@) =~= vals2);
                assert forall|k: u32| #[trigger] ids.contains(k) implies zip_map(ids, vals2)[k]
                    == zip_map(ids, vals).insert(id, value)[k] by {
                    let j = choose|j: int| 0 <= j < ids.len() && ids[j] == k;
                    lemma_zip_id(ids, vals, j);
                    lemma_zip_id(ids, vals2, j);
                    if k == id {
                        lemma_zip_id(ids, vals2, i as int);
                    }
                }
                assert(zip_map(ids, vals2) =~= zip_map(ids, vals).insert(id, value));
            }
            self.entries = e;
            return;
        }
        proof {
            assert forall|j: int| i <= j < ids.len() implies id < #[trigger] ids[j] by {
                assert(ids[i as int] == e@[i as int].0);
                if j > i {
                    assert(ids[i as int] < ids[j]);
                }
            }
            assert(!ids.contains(id));
        }
        e.insert(i, (id, value));
        proof {
            let ids2 = ids.insert(i as int, id);
            let vals2 = vals.insert(i as int, value);
            assert(entry_ids(e@) =~= ids2);
            assert(id_values(e@) =~= vals2);
            assert forall|a: int, b: int| 0 <= a < b < ids2.len() implies #[trigger] ids2[a]
                < #[trigger] ids2[b] by {
                let a0 = if a < i { a } else { a - 1 };
                let b0 = if b < i { b } else { b - 1 };
                if a != i && b != i {
                    assert(ids[a0] < ids[b0]);
                } else if a == i {
                    assert(id < ids[b0]);
                } else {
                    assert(ids[a0] < id);
                }
            }
            assert forall|k: u32| ids2.contains(k) <==> ids.contains(k) || k == id by {
                if ids.contains(k) {
                    let j = choose|j: int| 0 <= j < ids.len() && ids[j] == k;
                    assert(ids2[if j < i { j } else { j + 1 }] == k);
                }
                assert(ids2[i as int] == id);
                if ids2.contains(k) {
                    let j = choose|j: int| 0 <= j < ids2.len() && ids2[j] == k;
                    if j != i {
                        assert(ids[if j < i { j } else { j - 1 }] == k);
                    }
                }
            }
            assert forall|k: u32| #[trigger] ids2.contains(k) implies zip_map(ids2, vals2)[k]
                == zip_map(ids, vals).insert(id, value)[k] by {
                let j = choose|j: int| 0 <= j < ids2.len() && ids2[j] == k;
                lemma_zip_id(ids2, vals2, j);
                if j != i {
                    let j0 = if j < i { j } else { j - 1 };
                    lemma_zip_id(ids, vals, j0);
                    assert(ids[j0] == k);
                }
            }
            assert(zip_map(ids2, vals2) =~= zip_map(ids, vals).insert(id, value));
        }
        self.entries = e;
    }

    /// Takes `id` out, and gives back what stood under it.
    pub fn remove(&mut self, id: u32) -> (r: Option<V>)
        ensures
            final(self)@ == old(self)@.remove(id),
            match r {
                Some(v) => old(self)@.contains_key(id) && v == old(self)@[id],
                None => !old(self)@.contains_key(id),
            },
    {
        proof {
            use_type_invariant(&*self);
        }
        let ghost before = *self;
        match self.find(id) {
            None => {
                assert(self@ =~= before@.remove(id));
                None
            },
            Some(i) => {
                let mut e: Vec<(u32, V)> = Vec::new();
                std::mem::swap(&mut e, &mut self.entries);
                let ghost ids = entry_ids(e@);
                let ghost vals = id_values(e@);
                let r = e.remove(i);
                proof {
                    let ids2 = ids.remove(i as int);
                    let vals2 = vals.remove(i as int);
                    assert(entry_ids(e@) =~= ids2);
                    assert(id_values(e@) =~= vals2);
                    assert forall|a: int, b: int| 0 <= a < b < ids2.len() implies #[trigger] ids2[a]
                        < #[trigger] ids2[b] by {
                        let a0 = if a < i { a } else { a + 1 };
                        let b0 = if b < i { b } else { b + 1 };
                        assert(ids[a0] < ids[b0]);
                    }
                    assert forall|k: u32| ids2.contains(k) <==> ids.contains(k) && k != id by {
                        if ids2.contains(k) {
                            let j = choose|j: int| 0 <= j < ids2.len() && ids2[j] == k;
                            let j0 = if j < i { j } else { j + 1 };
                            assert(ids[j0] == k);
                            if j0 < i {
                                assert(ids[j0] < ids[i as int]);
                            } else {
                                assert(ids[i as int] < ids[j0]);
                            }
                        }
                        if ids.contains(k) && k != id {
                            let j = choose|j: int| 0 <= j < ids.len() && ids[j] == k;
                            assert(ids2[if j < i { j } else { j - 1 }] == k);
                        }
                    }
                    assert forall|k: u32| #[trigger] ids2.contains(k) implies zip_map(ids2, vals2)[k]
                        == zip_map(ids, vals)[k] by {
                        let j = choose|j: int| 0 <= j < ids2.len() && ids2[j] == k;
                        lemma_zip_id(ids2, vals2, j);
                        let j0 = if j < i { j } else { j + 1 };
                        lemma_zip_id(ids, vals, j0);
                        assert(ids[j0] == k);
                    }
                    assert(zip_map(ids2, vals2) =~= zip_map(ids, vals).remove(id));
                }
                self.entries = e;
                Some(r.1)
            },
        }
    }
}

} // verus!
