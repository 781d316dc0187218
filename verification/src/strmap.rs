//! An ordered map keyed by strings, kept as a vector sorted by key, so that
//! walking its keys visits them in ascending lexicographic order.
use crate::text::{lemma_lt_asymmetric, lemma_lt_irreflexive, lemma_lt_total, lemma_lt_transitive, seq_lt, str_lt};
use vstd::prelude::*;

verus! {

/// A map from names to values whose keys are kept in ascending order.
pub struct StrMap<T> {
    entries: Vec<(String, T)>,
}

/// `l` lists the elements of `s` in strictly ascending order.
pub open spec fn is_sorted_listing(l: Seq<Seq<char>>, s: Set<Seq<char>>) -> bool {
    &&& l.to_set() == s
    &&& forall|i: int, j: int| 0 <= i < j < l.len() ==> seq_lt(#[trigger] l[i], #[trigger] l[j])
}

/// The elements of a finite set of names in ascending order.
pub open spec fn sorted_listing(s: Set<Seq<char>>) -> Seq<Seq<char>> {
    choose|l: Seq<Seq<char>>| is_sorted_listing(l, s)
}

/// A set has at most one ascending listing.
pub proof fn lemma_sorted_listing_unique(a: Seq<Seq<char>>, b: Seq<Seq<char>>, s: Set<Seq<char>>)
    requires
        is_sorted_listing(a, s),
        is_sorted_listing(b, s),
    ensures
        a == b,
    decreases a.len(),
{
    if a.len() == 0 {
        assert(s =~= Set::<Seq<char>>::empty()) by {
            assert forall|x: Seq<char>| !s.contains(x) by {
                if s.contains(x) {
                    assert(a.to_set().contains(x));
                }
            }
        }
        if b.len() > 0 {
            assert(b.to_set().contains(b[0]));
        }
        assert(a =~= b);
    } else {
        assert(a.to_set().contains(a[0]));
        assert(b.len() > 0) by {
            if b.len() == 0 {
                assert(!b.to_set().contains(a[0]));
            }
        }
        assert(b.to_set().contains(b[0]));
        // each head is the least element of `s`
        let ia = choose|i: int| 0 <= i < a.len() && a[i] == b[0];
        let ib = choose|i: int| 0 <= i < b.len() && b[i] == a[0];
        if a[0] != b[0] {
            assert(ia > 0);
            assert(ib > 0);
            assert(seq_lt(a[0], a[ia]));
            assert(seq_lt(b[0], b[ib]));
            lemma_lt_asymmetric(a[0], b[0]);
        }
        let s2 = s.remove(a[0]);
        let a2 = a.drop_first();
        let b2 = b.drop_first();
        assert forall|i: int, j: int| 0 <= i < j < a2.len() implies seq_lt(#[trigger] a2[i], #[trigger] a2[j]) by {
            assert(seq_lt(a[i + 1], a[j + 1]));
        }
        assert forall|i: int, j: int| 0 <= i < j < b2.len() implies seq_lt(#[trigger] b2[i], #[trigger] b2[j]) by {
            assert(seq_lt(b[i + 1], b[j + 1]));
        }
        assert(a2.to_set() =~= s2) by {
            assert forall|x: Seq<char>| a2.to_set().contains(x) <==> s2.contains(x) by {
                if a2.to_set().contains(x) {
                    let i = choose|i: int| 0 <= i < a2.len() && a2[i] == x;
                    assert(a.to_set().contains(a[i + 1]));
                    assert(seq_lt(a[0], a[i + 1]));
                    lemma_lt_irreflexive(a[0]);
                }
                if s2.contains(x) {
                    assert(a.to_set().contains(x));
                    let i = choose|i: int| 0 <= i < a.len() && a[i] == x;
                    assert(i != 0);
                    assert(a2[i - 1] == x);
                }
            }
        }
        assert(b2.to_set() =~= s2) by {
            assert forall|x: Seq<char>| b2.to_set().contains(x) <==> s2.contains(x) by {
                if b2.to_set().contains(x) {
                    let i = choose|i: int| 0 <= i < b2.len() && b2[i] == x;
                    assert(b.to_set().contains(b[i + 1]));
                    assert(seq_lt(b[0], b[i + 1]));
                    lemma_lt_irreflexive(b[0]);
                }
                if s2.contains(x) {
                    assert(b.to_set().contains(x));
                    let i = choose|i: int| 0 <= i < b.len() && b[i] == x;
                    assert(i != 0);
                    assert(b2[i - 1] == x);
                }
            }
        }
        lemma_sorted_listing_unique(a2, b2, s2);
        assert(a =~= b) by {
            assert forall|i: int| 0 <= i < a.len() implies a[i] == b[i] by {
                if i > 0 {
                    assert(a[i] == a2[i - 1]);
                }
            }
        }
    }
}

/// Keys of an entry sequence are in strictly ascending order.
pub open spec fn entries_sorted<T>(s: Seq<(String, T)>) -> bool {
    forall|i: int, j: int| 0 <= i < j < s.len() ==> seq_lt(#[trigger] s[i].0@, #[trigger] s[j].0@)
}

impl<T> View for StrMap<T> {
    type V = Map<Seq<char>, T>;

    closed spec fn view(&self) -> Map<Seq<char>, T> {
        Map::new(
            |k: Seq<char>| exists|i: int| 0 <= i < self.entries@.len() && #[trigger] self.key(i) == k,
            |k: Seq<char>| self.entries@[self.index_of(k)].1,
        )
    }
}

impl<T> StrMap<T> {
    /// The `i`-th key in ascending order.
    pub closed spec fn key(&self, i: int) -> Seq<char> {
        self.entries@[i].0@
    }

    /// All keys, in ascending order.
    pub closed spec fn key_seq(&self) -> Seq<Seq<char>> {
        Seq::new(self.entries@.len(), |i: int| self.key(i))
    }

    closed spec fn index_of(&self, k: Seq<char>) -> int {
        choose|i: int| 0 <= i < self.entries@.len() && #[trigger] self.key(i) == k
    }

    closed spec fn sorted(&self) -> bool {
        entries_sorted(self.entries@)
    }

    #[verifier::type_invariant]
    closed spec fn inv(&self) -> bool {
        self.sorted()
    }

    proof fn lemma_view_at(&self, i: int)
        requires
            self.sorted(),
            0 <= i < self.entries@.len(),
        ensures
            self@.contains_key(self.key(i)),
            self@[self.key(i)] == self.entries@[i].1,
    {
        let k = self.key(i);
        assert(self@.contains_key(k));
        let j = self.index_of(k);
        assert(0 <= j < self.entries@.len() && self.key(j) == k);
        if j != i {
            lemma_lt_irreflexive(k);
            if i < j {
                assert(seq_lt(self.key(i), self.key(j)));
            } else {
                assert(seq_lt(self.key(j), self.key(i)));
            }
        }
    }

    /// The keys, in order, are exactly the map's domain, ascending and
    /// without repetition.
    proof fn lemma_key_seq(&self)
        requires
            self.sorted(),
        ensures
            self.key_seq().len() == self@.dom().len(),
            self.key_seq().to_set() == self@.dom(),
            self.key_seq().no_duplicates(),
            forall|i: int, j: int|
                0 <= i < j < self.key_seq().len() ==> seq_lt(
                    #[trigger] self.key_seq()[i],
                    #[trigger] self.key_seq()[j],
                ),
    {
        let ks = self.key_seq();
        assert forall|i: int, j: int| 0 <= i < ks.len() && 0 <= j < ks.len() && i != j implies ks[i]
            != ks[j] by {
            lemma_lt_irreflexive(ks[i]);
            if i < j {
                assert(seq_lt(self.key(i), self.key(j)));
            } else {
                assert(seq_lt(self.key(j), self.key(i)));
            }
        }
        assert forall|k: Seq<char>| ks.to_set().contains(k) <==> self@.dom().contains(k) by {
            if self@.dom().contains(k) {
                let i = choose|i: int| 0 <= i < self.entries@.len() && #[trigger] self.key(i) == k;
                assert(ks[i] == k);
            }
            if ks.to_set().contains(k) {
                let i = choose|i: int| 0 <= i < ks.len() && ks[i] == k;
                assert(self.key(i) == k);
            }
        }
        assert(ks.to_set() =~= self@.dom());
        ks.unique_seq_to_set();
    }

    /// The map has finitely many keys.
    pub proof fn lemma_dom_finite(&self)
        ensures
            self@.dom().finite(),
    {
        let ks = self.key_seq();
        assert forall|k: Seq<char>| ks.to_set().contains(k) <==> self@.dom().contains(k) by {
            if self@.dom().contains(k) {
                let i = choose|i: int| 0 <= i < self.entries@.len() && #[trigger] self.key(i) == k;
                assert(ks[i] == k);
            }
            if ks.to_set().contains(k) {
                let i = choose|i: int| 0 <= i < ks.len() && ks[i] == k;
                assert(self.key(i) == k);
            }
        }
        assert(ks.to_set() =~= self@.dom());
    }

    /// An empty map.
    pub fn new() -> (m: Self)
        ensures
            m@ == Map::<Seq<char>, T>::empty(),
    {
        let m = StrMap { entries: Vec::new() };
        assert(m@ =~= Map::<Seq<char>, T>::empty());
        m
    }

    /// The number of entries.
    pub fn len(&self) -> (n: usize)
        ensures
            n == self@.dom().len(),
    {
        proof {
            use_type_invariant(self);
            self.lemma_key_seq();
        }
        self.entries.len()
    }

    fn find(&self, k: &String) -> (r: Option<usize>)
        requires
            self.sorted(),
        ensures
            match r {
                Some(i) => i < self.entries@.len() && self.key(i as int) == k@,
                None => !self@.contains_key(k@),
            },
    {
        let mut i: usize = 0;
        while i < self.entries.len()
            invariant
                i <= self.entries@.len(),
                forall|j: int| 0 <= j < i ==> #[trigger] self.key(j) != k@,
            decreases self.entries@.len() - i,
        {
            if self.entries[i].0 == *k {
                return Some(i);
            }
            i = i + 1;
        }
        None
    }

    /// The value stored under `k`, if any.
    pub fn get(&self, k: &String) -> (r: Option<&T>)
        ensures
            match r {
                Some(v) => self@.contains_key(k@) && *v == self@[k@],
                None => !self@.contains_key(k@),
            },
    {
        proof {
            use_type_invariant(self);
        }
        match self.find(k) {
            Some(i) => {
                proof {
                    self.lemma_view_at(i as int);
                }
                Some(&self.entries[i].1)
            },
            None => None,
        }
    }

    /// Whether `k` has an entry.
    pub fn contains_key(&self, k: &String) -> (r: bool)
        ensures
            r == self@.contains_key(k@),
    {
        proof {
            use_type_invariant(self);
        }
        match self.find(k) {
            Some(i) => {
                proof {
                    self.lemma_view_at(i as int);
                }
                true
            },
            None => false,
        }
    }

    /// Stores `v` under `k`, replacing any earlier value.
    pub fn insert(&mut self, k: String, v: T)
        ensures
            final(self)@ == old(self)@.insert(k@, v),
    {
        proof {
            use_type_invariant(&*self);
        }
        let ghost old_self = *self;
        let ghost old_map = self@;
        let ghost oi = self.entries@;
        let ghost kv = k@;
        let mut p: usize = 0;
        while p < self.entries.len()
            invariant
                self.entries@ == oi,
                kv == k@,
                entries_sorted(oi),
                p <= oi.len(),
                forall|j: int| 0 <= j < p ==> seq_lt(#[trigger] oi[j].0@, kv),
            ensures
                p <= oi.len(),
                forall|j: int| 0 <= j < p ==> seq_lt(#[trigger] oi[j].0@, kv),
                p < oi.len() ==> !seq_lt(oi[p as int].0@, kv),
            decreases oi.len() - p,
        {
            if !str_lt(&self.entries[p].0, &k) {
                break;
            }
            p = p + 1;
        }
        let replace = p < self.entries.len() && self.entries[p].0 == k;
        let mut entries = Vec::new();
        std::mem::swap(&mut entries, &mut self.entries);
        if replace {
            entries.set(p, (k, v));
        } else {
            entries.insert(p, (k, v));
        }
        let ghost ni = entries@;
        proof {
            if replace {
                assert(forall|j: int| 0 <= j < ni.len() && j != p ==> ni[j] == oi[j]);
            } else {
                assert(forall|j: int| 0 <= j < p ==> ni[j] == oi[j]);
                assert(forall|j: int| p < j < ni.len() ==> ni[j] == oi[j - 1]);
                if p < oi.len() {
                    lemma_lt_total(oi[p as int].0@, kv);
                }
            }
            assert forall|i: int, j: int| 0 <= i < j < ni.len() implies seq_lt(
                #[trigger] ni[i].0@,
                #[trigger] ni[j].0@,
            ) by {
                if replace {
                    assert(seq_lt(oi[i].0@, oi[j].0@));
                } else {
                    if j < p {
                        assert(seq_lt(oi[i].0@, oi[j].0@));
                    } else if j == p {
                        assert(seq_lt(oi[i].0@, kv));
                    } else if i == p {
                        assert(seq_lt(kv, oi[p as int].0@));
                        if j - 1 > p {
                            assert(seq_lt(oi[p as int].0@, oi[j - 1].0@));
                            lemma_lt_transitive(kv, oi[p as int].0@, oi[j - 1].0@);
                        }
                    } else if i < p {
                        if i < j - 1 {
                            assert(seq_lt(oi[i].0@, oi[j - 1].0@));
                        }
                    } else {
                        assert(seq_lt(oi[i - 1].0@, oi[j - 1].0@));
                    }
                }
            }
        }
        self.entries = entries;
        proof {
            assert forall|x: Seq<char>| #[trigger] self@.contains_key(x) == old_map.insert(
                kv,
                v,
            ).contains_key(x) by {
                if self@.contains_key(x) {
                    let i = choose|i: int| 0 <= i < self.entries@.len() && #[trigger] self.key(i) == x;
                    if x != kv {
                        if replace {
                            assert(old_self.key(i) == x);
                        } else if i < p {
                            assert(old_self.key(i) == x);
                        } else {
                            assert(old_self.key(i - 1) == x);
                        }
                    }
                }
                if old_map.contains_key(x) && x != kv {
                    let i = choose|i: int| 0 <= i < oi.len() && #[trigger] old_self.key(i) == x;
                    if replace {
                        assert(self.key(i) == x);
                    } else if i < p {
                        assert(self.key(i) == x);
                    } else {
                        assert(self.key(i + 1) == x);
                    }
                }
                if x == kv {
                    assert(self.key(p as int) == x);
                }
            }
            assert forall|x: Seq<char>| #[trigger] self@.contains_key(x) implies self@[x]
                == old_map.insert(kv, v)[x] by {
                if x == kv {
                    self.lemma_view_at(p as int);
                } else {
                    let i = choose|i: int| 0 <= i < oi.len() && #[trigger] old_self.key(i) == x;
                    old_self.lemma_view_at(i);
                    if replace || i < p {
                        self.lemma_view_at(i);
                    } else {
                        self.lemma_view_at(i + 1);
                    }
                }
            }
            assert(self@ =~= old_map.insert(kv, v));
        }
    }

    /// Removes the entry of `k`, if any.
    pub fn remove(&mut self, k: &String)
        ensures
            final(self)@ == old(self)@.remove(k@),
    {
        proof {
            use_type_invariant(&*self);
        }
        let ghost old_self = *self;
        let ghost old_map = self@;
        let ghost oi = self.entries@;
        match self.find(k) {
            None => {
                assert(self@ =~= old_map.remove(k@));
            },
            Some(p) => {
                let mut entries = Vec::new();
                std::mem::swap(&mut entries, &mut self.entries);
                let _ = entries.remove(p);
                let ghost ni = entries@;
                proof {
                    assert(forall|j: int| 0 <= j < p ==> ni[j] == oi[j]);
                    assert(forall|j: int| p <= j < ni.len() ==> ni[j] == oi[j + 1]);
                    assert forall|i: int, j: int| 0 <= i < j < ni.len() implies seq_lt(
                        #[trigger] ni[i].0@,
                        #[trigger] ni[j].0@,
                    ) by {
                        if j < p {
                            assert(seq_lt(oi[i].0@, oi[j].0@));
                        } else if i < p {
                            assert(seq_lt(oi[i].0@, oi[j + 1].0@));
                        } else {
                            assert(seq_lt(oi[i + 1].0@, oi[j + 1].0@));
                        }
                    }
                }
                self.entries = entries;
                proof {
                    assert forall|x: Seq<char>| #[trigger] self@.contains_key(x) == old_map.remove(
                        k@,
                    ).contains_key(x) by {
                        if self@.contains_key(x) {
                            let i = choose|i: int|
                                0 <= i < self.entries@.len() && #[trigger] self.key(i) == x;
                            lemma_lt_irreflexive(x);
                            if i < p {
                                assert(old_self.key(i) == x);
                                assert(seq_lt(oi[i].0@, oi[p as int].0@));
                            } else {
                                assert(old_self.key(i + 1) == x);
                                assert(seq_lt(oi[p as int].0@, oi[i + 1].0@));
                            }
                            old_self.lemma_view_at(i);
                        }
                        if old_map.contains_key(x) && x != k@ {
                            let i = choose|i: int| 0 <= i < oi.len() && #[trigger] old_self.key(i) == x;
                            if i < p {
                                assert(self.key(i) == x);
                            } else {
                                assert(i != p);
                                assert(self.key(i - 1) == x);
                            }
                        }
                    }
                    assert forall|x: Seq<char>| #[trigger] self@.contains_key(x) implies self@[x]
                        == old_map.remove(k@)[x] by {
                        let i = choose|i: int| 0 <= i < oi.len() && #[trigger] old_self.key(i) == x;
                        old_self.lemma_view_at(i);
                        if i < p {
                            self.lemma_view_at(i);
                        } else {
                            assert(i != p);
                            self.lemma_view_at(i - 1);
                        }
                    }
                    assert(self@ =~= old_map.remove(k@));
                }
            },
        }
    }

    /// The keys, in ascending order.
    pub fn keys(&self) -> (r: Vec<String>)
        ensures
            r@.len() == self.key_seq().len(),
            forall|i: int| 0 <= i < r@.len() ==> #[trigger] r@[i]@ == self.key_seq()[i],
            self.key_seq().to_set() == self@.dom(),
            self.key_seq().no_duplicates(),
            self.key_seq().len() == self@.dom().len(),
            is_sorted_listing(self.key_seq(), self@.dom()),
    {
        proof {
            use_type_invariant(self);
            self.lemma_key_seq();
        }
        let mut r: Vec<String> = Vec::new();
        let mut i: usize = 0;
        while i < self.entries.len()
            invariant
                i <= self.entries@.len(),
                r@.len() == i,
                forall|j: int| 0 <= j < i ==> #[trigger] r@[j]@ == self.key(j),
            decreases self.entries@.len() - i,
        {
            r.push(self.entries[i].0.clone());
            i = i + 1;
        }
        r
    }
}

/// Types whose values can be copied exactly.
pub trait Duplicate: Sized {
    fn duplicate(&self) -> (r: Self)
        ensures
            r == *self,
    ;
}

impl Duplicate for () {
    fn duplicate(&self) -> (r: Self) {
        ()
    }
}

impl Duplicate for i64 {
    fn duplicate(&self) -> (r: Self) {
        *self
    }
}

impl<T: Duplicate> StrMap<T> {
    /// An exact copy of the map.
    pub fn duplicate(&self) -> (r: Self)
        ensures
            r@ == self@,
    {
        proof {
            use_type_invariant(self);
        }
        let mut entries: Vec<(String, T)> = Vec::new();
        let mut i: usize = 0;
        while i < self.entries.len()
            invariant
                i <= self.entries@.len(),
                entries@ == self.entries@.take(i as int),
            decreases self.entries@.len() - i,
        {
            let e = &self.entries[i];
            entries.push((e.0.clone(), e.1.duplicate()));
            assert(entries@ =~= self.entries@.take(i + 1));
            i = i + 1;
        }
        assert(entries@ =~= self.entries@);
        let r = StrMap { entries };
        assert forall|i: int| 0 <= i < r.entries@.len() implies #[trigger] r.key(i) == self.key(i) by {}
        assert forall|k: Seq<char>| #[trigger] r@.contains_key(k) == self@.contains_key(k) by {
            if r@.contains_key(k) {
                let i = choose|i: int| 0 <= i < r.entries@.len() && #[trigger] r.key(i) == k;
                assert(self.key(i) == k);
            }
            if self@.contains_key(k) {
                let i = choose|i: int| 0 <= i < self.entries@.len() && #[trigger] self.key(i) == k;
                assert(r.key(i) == k);
            }
        }
        assert forall|k: Seq<char>| #[trigger] r@.contains_key(k) implies r@[k] == self@[k] by {
            let i = choose|i: int| 0 <= i < r.entries@.len() && #[trigger] r.key(i) == k;
            assert(self.key(i) == k);
            r.lemma_view_at(i);
            self.lemma_view_at(i);
        }
        assert(r@ =~= self@);
        r
    }
}

impl<T> StrMap<T> {
    /// The `i`-th entry in ascending key order.
    pub fn entry_at(&self, i: usize) -> (r: (&String, &T))
        requires
            i < self.key_seq().len(),
        ensures
            r.0@ == self.key_seq()[i as int],
            self@.contains_key(r.0@),
            *r.1 == self@[r.0@],
    {
        proof {
            use_type_invariant(self);
            self.lemma_view_at(i as int);
        }
        let e = &self.entries[i];
        (&e.0, &e.1)
    }

    /// Inserts `v` under `k` unless `k` already has an entry.
    pub fn insert_if_absent(&mut self, k: String, v: T)
        ensures
            final(self)@ == (if old(self)@.contains_key(k@) {
                old(self)@
            } else {
                old(self)@.insert(k@, v)
            }),
    {
        if !self.contains_key(&k) {
            self.insert(k, v);
        }
    }
}

} // verus!
