//! Ordered string collections: a map and a set kept sorted by `String`'s order, so that
//! walking them gives the same order a `BTreeMap` / `BTreeSet` would, and two equal contents
//! have equal representations.
use vstd::prelude::*;
use vstd::string::*;

use crate::text::{
    lemma_seq_lt_asymmetric, lemma_seq_lt_irreflexive, lemma_seq_lt_total,
    lemma_seq_lt_transitive, seq_lt, str_eq, str_less,
};

verus! {

// ----- sortedness -----------------------------------------------------------------------------

pub open spec fn keys_sorted(ks: Seq<Seq<char>>) -> bool {
    forall|i: int, j: int| 0 <= i < j < ks.len() ==> seq_lt(#[trigger] ks[i], #[trigger] ks[j])
}

pub open spec fn pair_keys(ps: Seq<(String, String)>) -> Seq<Seq<char>> {
    ps.map_values(|p: (String, String)| p.0@)
}

pub open spec fn string_views(ps: Seq<String>) -> Seq<Seq<char>> {
    ps.map_values(|s: String| s@)
}

/// The map a sequence of pairs denotes, a later pair overriding an earlier one.
pub open spec fn pairs_map(ps: Seq<(String, String)>) -> Map<Seq<char>, Seq<char>>
    decreases ps.len(),
{
    if ps.len() == 0 {
        Map::empty()
    } else {
        pairs_map(ps.drop_last()).insert(ps.last().0@, ps.last().1@)
    }
}

/// With distinct keys, `pairs_map` holds exactly the pairs.
pub proof fn lemma_pairs_map(ps: Seq<(String, String)>)
    requires
        keys_sorted(pair_keys(ps)),
    ensures
        forall|k: Seq<char>| #[trigger] pairs_map(ps).contains_key(k) <==> exists|i: int| 0 <= i < ps.len() && ps[i].0@ == k,
        forall|i: int| 0 <= i < ps.len() ==> #[trigger] pairs_map(ps)[ps[i].0@] == ps[i].1@,
    decreases ps.len(),
{
    if ps.len() > 0 {
        let q = ps.drop_last();
        assert forall|a: int, b: int| 0 <= a < b < pair_keys(q).len() implies seq_lt(#[trigger] pair_keys(q)[a], #[trigger] pair_keys(q)[b]) by {
            assert(pair_keys(q)[a] == pair_keys(ps)[a]);
            assert(pair_keys(q)[b] == pair_keys(ps)[b]);
        }
        lemma_pairs_map(q);
        assert forall|k: Seq<char>| #[trigger] pairs_map(ps).contains_key(k) <==> exists|i: int| 0 <= i < ps.len() && ps[i].0@ == k by {
            if pairs_map(ps).contains_key(k) && k != ps.last().0@ {
                assert(pairs_map(q).contains_key(k));
                let i = choose|i: int| 0 <= i < q.len() && q[i].0@ == k;
                assert(ps[i] == q[i]);
            }
            if exists|i: int| 0 <= i < ps.len() && ps[i].0@ == k {
                let i = choose|i: int| 0 <= i < ps.len() && ps[i].0@ == k;
                if i < ps.len() - 1 {
                    assert(q[i] == ps[i]);
                    assert(pairs_map(q).contains_key(k));
                }
            }
        }
        assert forall|i: int| 0 <= i < ps.len() implies #[trigger] pairs_map(ps)[ps[i].0@] == ps[i].1@ by {
            if i < ps.len() - 1 {
                assert(q[i] == ps[i]);
                assert(pair_keys(ps)[i] == ps[i].0@);
                assert(pair_keys(ps)[ps.len() - 1] == ps.last().0@);
                lemma_seq_lt_irreflexive(ps[i].0@);
                assert(pairs_map(q)[q[i].0@] == q[i].1@);
            }
        }
    }
}

/// Two pair sequences with distinct keys denote the same map when they hold the same pairs.
proof fn lemma_pairs_map_ext(ps: Seq<(String, String)>, m: Map<Seq<char>, Seq<char>>)
    requires
        keys_sorted(pair_keys(ps)),
        forall|k: Seq<char>| #[trigger] m.contains_key(k) <==> exists|i: int| 0 <= i < ps.len() && ps[i].0@ == k,
        forall|i: int| 0 <= i < ps.len() ==> #[trigger] m[ps[i].0@] == ps[i].1@,
    ensures
        pairs_map(ps) == m,
{
    lemma_pairs_map(ps);
    assert forall|k: Seq<char>| #[trigger] pairs_map(ps).contains_key(k) implies pairs_map(ps)[k] == m[k] by {
        let i = choose|i: int| 0 <= i < ps.len() && ps[i].0@ == k;
        assert(pairs_map(ps)[ps[i].0@] == ps[i].1@);
    }
    assert(pairs_map(ps) =~= m);
}

// ----- the map --------------------------------------------------------------------------------

/// A string-to-string map kept sorted by key.
#[derive(Debug, Clone, PartialEq, Eq)]
pub struct StrMap {
    entries: Vec<(String, String)>,
}

impl View for StrMap {
    type V = Map<Seq<char>, Seq<char>>;

    open spec fn view(&self) -> Map<Seq<char>, Seq<char>> {
        pairs_map(self.pairs())
    }
}

impl StrMap {
    /// The entries, in ascending key order.
    pub closed spec fn pairs(&self) -> Seq<(String, String)> {
        self.entries@
    }

    pub closed spec fn wf(&self) -> bool {
        keys_sorted(pair_keys(self.entries@))
    }

    pub proof fn lemma_view(&self)
        requires
            self.wf(),
        ensures
            keys_sorted(pair_keys(self.pairs())),
            forall|k: Seq<char>| #[trigger] self@.contains_key(k) <==> exists|i: int| 0 <= i < self.pairs().len() && self.pairs()[i].0@ == k,
            forall|i: int| 0 <= i < self.pairs().len() ==> #[trigger] self@[self.pairs()[i].0@] == self.pairs()[i].1@,
    {
        lemma_pairs_map(self.entries@);
    }

    pub fn new() -> (r: Self)
        ensures
            r.wf(),
            r@ == Map::<Seq<char>, Seq<char>>::empty(),
            r.pairs().len() == 0,
    {
        StrMap { entries: Vec::new() }
    }

    /// The entries in ascending key order.
    pub fn entries(&self) -> (r: &[(String, String)])
        ensures
            r@ == self.pairs(),
    {
        self.entries.as_slice()
    }

    /// The number of entries.
    pub fn len(&self) -> (r: usize)
        ensures
            r == self.pairs().len(),
    {
        self.entries.len()
    }

    pub fn is_empty(&self) -> (r: bool)
        requires
            self.wf(),
        ensures
            r <==> self@ == Map::<Seq<char>, Seq<char>>::empty(),
            r <==> self.pairs().len() == 0,
    {
        proof {
            self.lemma_view();
            if self.entries@.len() > 0 {
                assert(self@.contains_key(self.entries@[0].0@));
            } else {
                assert(self@ =~= Map::<Seq<char>, Seq<char>>::empty());
            }
        }
        self.entries.len() == 0
    }

    /// The position of `k`'s entry, or where it would go.
    fn search(&self, k: &str) -> (r: (usize, bool))
        requires
            self.wf(),
        ensures
            r.0 <= self.entries@.len(),
            forall|i: int| 0 <= i < r.0 ==> seq_lt(#[trigger] self.entries@[i].0@, k@),
            r.1 ==> r.0 < self.entries@.len() && self.entries@[r.0 as int].0@ == k@,
            !r.1 ==> forall|i: int| r.0 <= i < self.entries@.len() ==> seq_lt(k@, #[trigger] self.entries@[i].0@),
    {
        let mut i: usize = 0;
        while i < self.entries.len()
            invariant
                self.wf(),
                i <= self.entries@.len(),
                forall|j: int| 0 <= j < i ==> seq_lt(#[trigger] self.entries@[j].0@, k@),
            decreases self.entries.len() - i,
        {
            let key = self.entries[i].0.as_str();
            if !str_less(key, k) {
                proof {
                    lemma_seq_lt_total(key@, k@);
                    if key@ != k@ {
                        assert forall|j: int| i <= j < self.entries@.len() implies seq_lt(k@, #[trigger] self.entries@[j].0@) by {
                            if j > i {
                                assert(pair_keys(self.entries@)[i as int] == self.entries@[i as int].0@);
                                assert(pair_keys(self.entries@)[j] == self.entries@[j].0@);
                                lemma_seq_lt_transitive(k@, key@, self.entries@[j].0@);
                            }
                        }
                    }
                }
                return (i, str_eq(key, k));
            }
            i = i + 1;
        }
        (i, false)
    }

    /// The value of `k`, if present.
    pub fn get(&self, k: &str) -> (r: Option<&String>)
        requires
            self.wf(),
        ensures
            match r {
                Some(v) => self@.contains_key(k@) && self@[k@] == v@,
                None => !self@.contains_key(k@),
            },
    {
        proof { self.lemma_view(); }
        let (i, found) = self.search(k);
        if found {
            Some(&self.entries[i].1)
        } else {
            proof {
                if self@.contains_key(k@) {
                    let j = choose|j: int| 0 <= j < self.entries@.len() && self.entries@[j].0@ == k@;
                    if j < i {
                        lemma_seq_lt_irreflexive(k@);
                    } else {
                        lemma_seq_lt_irreflexive(k@);
                    }
                }
            }
            None
        }
    }

    pub fn contains_key(&self, k: &str) -> (r: bool)
        requires
            self.wf(),
        ensures
            r == self@.contains_key(k@),
    {
        match self.get(k) {
            Some(_) => true,
            None => false,
        }
    }

    /// Sets `k` to `v`, replacing any earlier value.
    pub fn insert(&mut self, k: String, v: String)
        requires
            old(self).wf(),
        ensures
            final(self).wf(),
            final(self)@ == old(self)@.insert(k@, v@),
    {
        proof { self.lemma_view(); }
        let ghost old_ps = self.entries@;
        let ghost old_map = self@;
        let (i, found) = self.search(k.as_str());
        let ghost kv = k@;
        let ghost vv = v@;
        if found {
            self.entries.set(i, (k, v));
            proof {
                let ps = self.entries@;
                assert(pair_keys(ps) =~= pair_keys(old_ps));
                lemma_pairs_map(old_ps);
                assert forall|key: Seq<char>| #[trigger] old_map.insert(kv, vv).contains_key(key) <==> exists|j: int| 0 <= j < ps.len() && ps[j].0@ == key by {
                    if old_map.insert(kv, vv).contains_key(key) {
                        if key == kv {
                            assert(ps[i as int].0@ == kv);
                        } else {
                            assert(pairs_map(old_ps).contains_key(key));
                            let j = choose|j: int| 0 <= j < old_ps.len() && old_ps[j].0@ == key;
                            assert(ps[j] == old_ps[j]);
                        }
                    }
                    if exists|j: int| 0 <= j < ps.len() && ps[j].0@ == key {
                        let j = choose|j: int| 0 <= j < ps.len() && ps[j].0@ == key;
                        if j != i {
                            assert(ps[j] == old_ps[j]);
                            assert(pairs_map(old_ps).contains_key(key));
                        }
                    }
                }
                assert forall|j: int| 0 <= j < ps.len() implies #[trigger] old_map.insert(kv, vv)[ps[j].0@] == ps[j].1@ by {
                    if j != i {
                        assert(ps[j] == old_ps[j]);
                        assert(pair_keys(old_ps)[j] == old_ps[j].0@);
                        assert(pair_keys(old_ps)[i as int] == old_ps[i as int].0@);
                        lemma_seq_lt_irreflexive(kv);
                        assert(pairs_map(old_ps)[old_ps[j].0@] == old_ps[j].1@);
                    }
                }
                lemma_pairs_map_ext(ps, old_map.insert(kv, vv));
            }
        } else {
            self.entries.insert(i, (k, v));
            proof {
                let ps = self.entries@;
                assert(ps.len() == old_ps.len() + 1);
                assert forall|a: int, b: int| 0 <= a < b < ps.len() implies seq_lt(#[trigger] pair_keys(ps)[a], #[trigger] pair_keys(ps)[b]) by {
                    assert(pair_keys(ps)[a] == ps[a].0@);
                    assert(pair_keys(ps)[b] == ps[b].0@);
                    if b < i {
                        assert(ps[a] == old_ps[a] && ps[b] == old_ps[b]);
                        assert(pair_keys(old_ps)[a] == old_ps[a].0@);
                        assert(pair_keys(old_ps)[b] == old_ps[b].0@);
                    } else if b == i {
                        assert(ps[a] == old_ps[a]);
                    } else if a < i {
                        assert(ps[a] == old_ps[a] && ps[b] == old_ps[b - 1]);
                        lemma_seq_lt_transitive(ps[a].0@, kv, ps[b].0@);
                    } else if a == i {
                        assert(ps[b] == old_ps[b - 1]);
                    } else {
                        assert(ps[a] == old_ps[a - 1] && ps[b] == old_ps[b - 1]);
                        assert(pair_keys(old_ps)[a - 1] == old_ps[a - 1].0@);
                        assert(pair_keys(old_ps)[b - 1] == old_ps[b - 1].0@);
                    }
                }
                lemma_pairs_map(old_ps);
                assert forall|key: Seq<char>| #[trigger] old_map.insert(kv, vv).contains_key(key) <==> exists|j: int| 0 <= j < ps.len() && ps[j].0@ == key by {
                    if old_map.insert(kv, vv).contains_key(key) {
                        if key == kv {
                            assert(ps[i as int].0@ == kv);
                        } else {
                            assert(pairs_map(old_ps).contains_key(key));
                            let j = choose|j: int| 0 <= j < old_ps.len() && old_ps[j].0@ == key;
                            if j < i { assert(ps[j] == old_ps[j]); } else { assert(ps[j + 1] == old_ps[j]); }
                        }
                    }
                    if exists|j: int| 0 <= j < ps.len() && ps[j].0@ == key {
                        let j = choose|j: int| 0 <= j < ps.len() && ps[j].0@ == key;
                        if j < i {
                            assert(ps[j] == old_ps[j]);
                            assert(pairs_map(old_ps).contains_key(key));
                        } else if j > i {
                            assert(ps[j] == old_ps[j - 1]);
                            assert(pairs_map(old_ps).contains_key(key));
                        }
                    }
                }
                assert forall|j: int| 0 <= j < ps.len() implies #[trigger] old_map.insert(kv, vv)[ps[j].0@] == ps[j].1@ by {
                    if j < i {
                        assert(ps[j] == old_ps[j]);
                        assert(pairs_map(old_ps)[old_ps[j].0@] == old_ps[j].1@);
                        lemma_seq_lt_irreflexive(kv);
                    } else if j > i {
                        assert(ps[j] == old_ps[j - 1]);
                        assert(pairs_map(old_ps)[old_ps[j - 1].0@] == old_ps[j - 1].1@);
                        lemma_seq_lt_irreflexive(kv);
                    }
                }
                lemma_pairs_map_ext(ps, old_map.insert(kv, vv));
            }
        }
    }

    /// Sets `k` to `v` only when `k` is absent (an earlier value wins).
    pub fn insert_if_absent(&mut self, k: &str, v: &str)
        requires
            old(self).wf(),
        ensures
            final(self).wf(),
            final(self)@ == (if old(self)@.contains_key(k@) { old(self)@ } else { old(self)@.insert(k@, v@) }),
    {
        if !self.contains_key(k) {
            self.insert(String::from_str(k), String::from_str(v));
        }
    }
}

// ----- the set --------------------------------------------------------------------------------

/// A set of strings kept in ascending order.
#[derive(Debug, Clone, PartialEq, Eq)]
pub struct StrSet {
    items: Vec<String>,
}

impl View for StrSet {
    type V = Set<Seq<char>>;

    open spec fn view(&self) -> Set<Seq<char>> {
        string_views(self.elems()).to_set()
    }
}

impl StrSet {
    /// The members, in ascending order.
    pub closed spec fn elems(&self) -> Seq<String> {
        self.items@
    }

    pub closed spec fn wf(&self) -> bool {
        keys_sorted(string_views(self.items@))
    }

    pub proof fn lemma_view(&self)
        requires
            self.wf(),
        ensures
            keys_sorted(string_views(self.elems())),
            forall|k: Seq<char>| #[trigger] self@.contains(k) <==> exists|i: int| 0 <= i < self.elems().len() && self.elems()[i]@ == k,
    {
        assert forall|k: Seq<char>| #[trigger] self@.contains(k) <==> exists|i: int| 0 <= i < self.elems().len() && self.elems()[i]@ == k by {
            if self@.contains(k) {
                let i = choose|i: int| 0 <= i < string_views(self.items@).len() && string_views(self.items@)[i] == k;
                assert(self.items@[i]@ == k);
            }
            if exists|i: int| 0 <= i < self.elems().len() && self.elems()[i]@ == k {
                let i = choose|i: int| 0 <= i < self.elems().len() && self.elems()[i]@ == k;
                assert(string_views(self.items@)[i] == k);
            }
        }
    }

    pub fn new() -> (r: Self)
        ensures
            r.wf(),
            r@ == Set::<Seq<char>>::empty(),
            r.elems().len() == 0,
    {
        let r = StrSet { items: Vec::new() };
        assert(string_views(r.items@).to_set() =~= Set::<Seq<char>>::empty());
        r
    }

    /// The members in ascending order.
    pub fn items(&self) -> (r: &[String])
        ensures
            r@ == self.elems(),
    {
        self.items.as_slice()
    }

    pub fn len(&self) -> (r: usize)
        ensures
            r == self.elems().len(),
    {
        self.items.len()
    }

    pub fn is_empty(&self) -> (r: bool)
        requires
            self.wf(),
        ensures
            r <==> self@ == Set::<Seq<char>>::empty(),
            r <==> self.elems().len() == 0,
    {
        proof {
            self.lemma_view();
            if self.items@.len() > 0 {
                assert(self@.contains(self.items@[0]@));
            } else {
                assert(self@ =~= Set::<Seq<char>>::empty());
            }
        }
        self.items.len() == 0
    }

    fn search(&self, k: &str) -> (r: (usize, bool))
        requires
            self.wf(),
        ensures
            r.0 <= self.items@.len(),
            forall|i: int| 0 <= i < r.0 ==> seq_lt(#[trigger] self.items@[i]@, k@),
            r.1 ==> r.0 < self.items@.len() && self.items@[r.0 as int]@ == k@,
            !r.1 ==> forall|i: int| r.0 <= i < self.items@.len() ==> seq_lt(k@, #[trigger] self.items@[i]@),
    {
        let mut i: usize = 0;
        while i < self.items.len()
            invariant
                self.wf(),
                i <= self.items@.len(),
                forall|j: int| 0 <= j < i ==> seq_lt(#[trigger] self.items@[j]@, k@),
            decreases self.items.len() - i,
        {
            let key = self.items[i].as_str();
            if !str_less(key, k) {
                proof {
                    lemma_seq_lt_total(key@, k@);
                    if key@ != k@ {
                        assert forall|j: int| i <= j < self.items@.len() implies seq_lt(k@, #[trigger] self.items@[j]@) by {
                            if j > i {
                                assert(string_views(self.items@)[i as int] == self.items@[i as int]@);
                                assert(string_views(self.items@)[j] == self.items@[j]@);
                                lemma_seq_lt_transitive(k@, key@, self.items@[j]@);
                            }
                        }
                    }
                }
                return (i, str_eq(key, k));
            }
            i = i + 1;
        }
        (i, false)
    }

    pub fn contains(&self, k: &str) -> (r: bool)
        requires
            self.wf(),
        ensures
            r == self@.contains(k@),
    {
        proof { self.lemma_view(); }
        let (i, found) = self.search(k);
        proof {
            if !found && self@.contains(k@) {
                let j = choose|j: int| 0 <= j < self.items@.len() && self.items@[j]@ == k@;
                lemma_seq_lt_irreflexive(k@);
            }
        }
        found
    }

    /// Adds `k` (no change when it is already a member).
    pub fn insert(&mut self, k: &str)
        requires
            old(self).wf(),
        ensures
            final(self).wf(),
            final(self)@ == old(self)@.insert(k@),
    {
        proof { self.lemma_view(); }
        let ghost old_items = self.items@;
        let ghost old_set = self@;
        let (i, found) = self.search(k);
        if found {
            assert(old_set.insert(k@) =~= old_set);
            return;
        }
        self.items.insert(i, String::from_str(k));
        proof {
            let it = self.items@;
            let kv = k@;
            assert forall|a: int, b: int| 0 <= a < b < it.len() implies seq_lt(#[trigger] string_views(it)[a], #[trigger] string_views(it)[b]) by {
                assert(string_views(it)[a] == it[a]@);
                assert(string_views(it)[b] == it[b]@);
                if b < i {
                    assert(it[a] == old_items[a] && it[b] == old_items[b]);
                    assert(string_views(old_items)[a] == old_items[a]@);
                    assert(string_views(old_items)[b] == old_items[b]@);
                } else if b == i {
                    assert(it[a] == old_items[a]);
                } else if a < i {
                    assert(it[a] == old_items[a] && it[b] == old_items[b - 1]);
                    lemma_seq_lt_transitive(it[a]@, kv, it[b]@);
                } else if a == i {
                    assert(it[b] == old_items[b - 1]);
                } else {
                    assert(it[a] == old_items[a - 1] && it[b] == old_items[b - 1]);
                    assert(string_views(old_items)[a - 1] == old_items[a - 1]@);
                    assert(string_views(old_items)[b - 1] == old_items[b - 1]@);
                }
            }
            self.lemma_view();
            assert forall|key: Seq<char>| self@.contains(key) <==> old_set.insert(kv).contains(key) by {
                if old_set.contains(key) {
                    let j = choose|j: int| 0 <= j < old_items.len() && old_items[j]@ == key;
                    if j < i { assert(it[j] == old_items[j]); } else { assert(it[j + 1] == old_items[j]); }
                }
                if key == kv {
                    assert(it[i as int]@ == kv);
                }
                if self@.contains(key) {
                    let j = choose|j: int| 0 <= j < it.len() && it[j]@ == key;
                    if j < i { assert(it[j] == old_items[j]); } else if j > i { assert(it[j] == old_items[j - 1]); }
                }
            }
            assert(self@ =~= old_set.insert(kv));
        }
    }
}

// ----- the pair set ---------------------------------------------------------------------------

/// The order of `(String, String)` tuples: by the first component, then by the second.
pub open spec fn pair_lt(a: (Seq<char>, Seq<char>), b: (Seq<char>, Seq<char>)) -> bool {
    seq_lt(a.0, b.0) || (a.0 == b.0 && seq_lt(a.1, b.1))
}

pub proof fn lemma_pair_lt_irreflexive(a: (Seq<char>, Seq<char>))
    ensures
        !pair_lt(a, a),
{
    lemma_seq_lt_irreflexive(a.0);
    lemma_seq_lt_irreflexive(a.1);
}

pub proof fn lemma_pair_lt_transitive(a: (Seq<char>, Seq<char>), b: (Seq<char>, Seq<char>), c: (Seq<char>, Seq<char>))
    requires
        pair_lt(a, b),
        pair_lt(b, c),
    ensures
        pair_lt(a, c),
{
    if seq_lt(a.0, b.0) && seq_lt(b.0, c.0) {
        lemma_seq_lt_transitive(a.0, b.0, c.0);
    } else if a.0 == b.0 && b.0 == c.0 {
        lemma_seq_lt_transitive(a.1, b.1, c.1);
    }
}

pub proof fn lemma_pair_lt_total(a: (Seq<char>, Seq<char>), b: (Seq<char>, Seq<char>))
    ensures
        a == b || pair_lt(a, b) || pair_lt(b, a),
{
    lemma_seq_lt_total(a.0, b.0);
    lemma_seq_lt_total(a.1, b.1);
}

pub open spec fn pair_views(ps: Seq<(String, String)>) -> Seq<(Seq<char>, Seq<char>)> {
    ps.map_values(|p: (String, String)| (p.0@, p.1@))
}

pub open spec fn pairs_sorted(ps: Seq<(Seq<char>, Seq<char>)>) -> bool {
    forall|i: int, j: int| 0 <= i < j < ps.len() ==> pair_lt(#[trigger] ps[i], #[trigger] ps[j])
}

/// `(a, b) < (x, y)` in tuple order.
pub fn pair_less(a: &str, b: &str, x: &str, y: &str) -> (r: bool)
    ensures
        r == pair_lt((a@, b@), (x@, y@)),
{
    if str_less(a, x) {
        true
    } else if str_eq(a, x) {
        str_less(b, y)
    } else {
        false
    }
}

/// A set of string pairs kept in tuple order (a `BTreeSet<(String, String)>`).
#[derive(Debug, Clone, PartialEq, Eq)]
pub struct PairSet {
    items: Vec<(String, String)>,
}

impl View for PairSet {
    type V = Set<(Seq<char>, Seq<char>)>;

    open spec fn view(&self) -> Set<(Seq<char>, Seq<char>)> {
        pair_views(self.elems()).to_set()
    }
}

impl PairSet {
    /// The members, in ascending order.
    pub closed spec fn elems(&self) -> Seq<(String, String)> {
        self.items@
    }

    pub closed spec fn wf(&self) -> bool {
        pairs_sorted(pair_views(self.items@))
    }

    pub proof fn lemma_view(&self)
        requires
            self.wf(),
        ensures
            pairs_sorted(pair_views(self.elems())),
            forall|k: (Seq<char>, Seq<char>)| #[trigger] self@.contains(k) <==> exists|i: int| 0 <= i < self.elems().len() && pair_views(self.elems())[i] == k,
    {
    }

    pub fn new() -> (r: Self)
        ensures
            r.wf(),
            r@ == Set::<(Seq<char>, Seq<char>)>::empty(),
            r.elems().len() == 0,
    {
        let r = PairSet { items: Vec::new() };
        assert(pair_views(r.items@).to_set() =~= Set::<(Seq<char>, Seq<char>)>::empty());
        r
    }

    /// The members in ascending order.
    pub fn items(&self) -> (r: &[(String, String)])
        ensures
            r@ == self.elems(),
    {
        self.items.as_slice()
    }

    pub fn len(&self) -> (r: usize)
        ensures
            r == self.elems().len(),
    {
        self.items.len()
    }

    fn search(&self, a: &str, b: &str) -> (r: (usize, bool))
        requires
            self.wf(),
        ensures
            r.0 <= self.items@.len(),
            forall|i: int| 0 <= i < r.0 ==> pair_lt(#[trigger] pair_views(self.items@)[i], (a@, b@)),
            r.1 ==> r.0 < self.items@.len() && pair_views(self.items@)[r.0 as int] == (a@, b@),
            !r.1 ==> forall|i: int| r.0 <= i < self.items@.len() ==> pair_lt((a@, b@), #[trigger] pair_views(self.items@)[i]),
    {
        let ghost pv = pair_views(self.items@);
        let mut i: usize = 0;
        while i < self.items.len()
            invariant
                self.wf(),
                pv == pair_views(self.items@),
                i <= self.items@.len(),
                forall|j: int| 0 <= j < i ==> pair_lt(#[trigger] pv[j], (a@, b@)),
            decreases self.items.len() - i,
        {
            let x = self.items[i].0.as_str();
            let y = self.items[i].1.as_str();
            assert(pv[i as int] == (x@, y@));
            if !pair_less(x, y, a, b) {
                proof {
                    lemma_pair_lt_total((x@, y@), (a@, b@));
                    if (x@, y@) != (a@, b@) {
                        assert forall|j: int| i <= j < self.items@.len() implies pair_lt((a@, b@), #[trigger] pv[j]) by {
                            if j > i {
                                lemma_pair_lt_transitive((a@, b@), (x@, y@), pv[j]);
                            }
                        }
                    }
                }
                let same = str_eq(x, a) && str_eq(y, b);
                return (i, same);
            }
            i = i + 1;
        }
        (i, false)
    }

    pub fn contains(&self, a: &str, b: &str) -> (r: bool)
        requires
            self.wf(),
        ensures
            r == self@.contains((a@, b@)),
    {
        let (i, found) = self.search(a, b);
        proof {
            if !found && self@.contains((a@, b@)) {
                let j = choose|j: int| 0 <= j < pair_views(self.items@).len() && pair_views(self.items@)[j] == (a@, b@);
                lemma_pair_lt_irreflexive((a@, b@));
            }
            if found {
                assert(pair_views(self.items@).contains((a@, b@)));
            }
        }
        found
    }

    /// Adds `(a, b)` (no change when it is already a member).
    pub fn insert(&mut self, a: &str, b: &str)
        requires
            old(self).wf(),
        ensures
            final(self).wf(),
            final(self)@ == old(self)@.insert((a@, b@)),
    {
        let ghost old_items = self.items@;
        let ghost old_set = self@;
        let ghost ov = pair_views(old_items);
        let ghost kv = (a@, b@);
        let (i, found) = self.search(a, b);
        if found {
            assert(ov.contains(kv));
            assert(old_set.insert(kv) =~= old_set);
            return;
        }
        self.items.insert(i, (String::from_str(a), String::from_str(b)));
        proof {
            let nv = pair_views(self.items@);
            assert(nv =~= ov.insert(i as int, kv));
            assert forall|x: int, y: int| 0 <= x < y < nv.len() implies pair_lt(#[trigger] nv[x], #[trigger] nv[y]) by {
                if y < i {
                } else if y == i {
                } else if x < i {
                    lemma_pair_lt_transitive(ov[x], kv, ov[y - 1]);
                } else if x == i {
                } else {
                }
            }
            assert forall|key: (Seq<char>, Seq<char>)| nv.contains(key) <==> old_set.insert(kv).contains(key) by {
                if ov.contains(key) {
                    let j = choose|j: int| 0 <= j < ov.len() && ov[j] == key;
                    if j < i { assert(nv[j] == key); } else { assert(nv[j + 1] == key); }
                }
                if key == kv {
                    assert(nv[i as int] == kv);
                }
                if nv.contains(key) {
                    let j = choose|j: int| 0 <= j < nv.len() && nv[j] == key;
                    if j < i { assert(ov[j] == key); } else if j > i { assert(ov[j - 1] == key); }
                }
            }
            assert(self@ =~= old_set.insert(kv));
        }
    }
}

} // verus!
