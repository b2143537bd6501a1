//! An ordered map over a vector: entries stand in strictly ascending key order,
//! so lookups are binary searches and walks come out sorted.

use vstd::prelude::*;

use crate::text::{chars, texts};

verus! {

/// The outcome of comparing two keys.
pub enum Order {
    Less,
    Equal,
    Greater,
}

impl Order {
    /// Whether the first key comes before the second.
    pub fn is_less(&self) -> (r: bool)
        ensures
            r == (self is Less),
    {
        match self {
            Order::Less => true,
            _ => false,
        }
    }
}

/// Lexicographic order on sequences of integers.
pub open spec fn lex_lt(a: Seq<int>, b: Seq<int>) -> bool
    decreases a.len(),
{
    if b.len() == 0 {
        false
    } else if a.len() == 0 {
        true
    } else if a[0] != b[0] {
        a[0] < b[0]
    } else {
        lex_lt(a.drop_first(), b.drop_first())
    }
}

/// The lexicographic order is irreflexive.
pub proof fn lemma_lex_irreflexive(a: Seq<int>)
    ensures
        !lex_lt(a, a),
    decreases a.len(),
{
    if a.len() > 0 {
        lemma_lex_irreflexive(a.drop_first());
    }
}

/// The lexicographic order is transitive.
pub proof fn lemma_lex_transitive(a: Seq<int>, b: Seq<int>, c: Seq<int>)
    requires
        lex_lt(a, b),
        lex_lt(b, c),
    ensures
        lex_lt(a, c),
    decreases a.len(),
{
    if a.len() > 0 && a[0] == b[0] && b[0] == c[0] {
        lemma_lex_transitive(a.drop_first(), b.drop_first(), c.drop_first());
    }
}

/// Of two different sequences one comes before the other.
pub proof fn lemma_lex_total(a: Seq<int>, b: Seq<int>)
    ensures
        lex_lt(a, b) || a == b || lex_lt(b, a),
    decreases a.len(),
{
    if a.len() > 0 && b.len() > 0 && a[0] == b[0] {
        lemma_lex_total(a.drop_first(), b.drop_first());
        if a.drop_first() == b.drop_first() {
            assert(a =~= seq![a[0]] + a.drop_first());
            assert(b =~= seq![b[0]] + b.drop_first());
        }
    } else if a.len() == 0 && b.len() == 0 {
        assert(a =~= b);
    }
}

/// What a comparison of two ranks comes to.
pub open spec fn order_of(a: Seq<int>, b: Seq<int>) -> Order {
    if lex_lt(a, b) {
        Order::Less
    } else if a == b {
        Order::Equal
    } else {
        Order::Greater
    }
}

/// A key type: what identifies a key, and the rank that identity sorts by.
pub trait Key: Sized {
    type Id;

    spec fn id(self) -> Self::Id;

    spec fn rank(id: Self::Id) -> Seq<int>;

    /// Different identities have different ranks.
    proof fn lemma_rank_injective(a: Self::Id, b: Self::Id)
        requires
            Self::rank(a) == Self::rank(b),
        ensures
            a == b,
    ;

    fn order(&self, other: &Self) -> (r: Order)
        ensures
            r == order_of(Self::rank(self.id()), Self::rank(other.id())),
    ;
}

/// A map from the identities of `K` to `V`.
pub struct SortedMap<K: Key, V> {
    entries: Vec<(K, V)>,
}

/// Whether `a` sorts before `b`.
pub open spec fn key_lt<K: Key>(a: K::Id, b: K::Id) -> bool {
    lex_lt(K::rank(a), K::rank(b))
}

/// Whether the identities stand in strictly ascending order.
pub open spec fn ascending<K: Key>(ids: Seq<K::Id>) -> bool {
    forall|i: int, j: int| 0 <= i < j < ids.len() ==> key_lt::<K>(#[trigger] ids[i], #[trigger] ids[j])
}

/// The part of a map whose entries meet `p`.
pub open spec fn kept<I, V>(m: Map<I, V>, p: spec_fn(I, V) -> bool) -> Map<I, V> {
    Map::new(|k: I| m.contains_key(k) && p(k, m[k]), |k: I| m[k])
}

/// A strictly ascending sequence has no element twice.
pub proof fn lemma_ascending_unique<K: Key>(ids: Seq<K::Id>)
    requires
        ascending::<K>(ids),
    ensures
        ids.no_duplicates(),
{
    assert forall|i: int, j: int| 0 <= i < ids.len() && 0 <= j < ids.len() && i != j implies ids[i]
        != ids[j] by {
        lemma_lex_irreflexive(K::rank(ids[i]));
        if i < j {
            assert(key_lt::<K>(ids[i], ids[j]));
        } else {
            assert(key_lt::<K>(ids[j], ids[i]));
        }
    }
}

/// Two strictly ascending sequences of the same identities are equal.
pub proof fn lemma_ascending_same<K: Key>(a: Seq<K::Id>, b: Seq<K::Id>)
    requires
        ascending::<K>(a),
        ascending::<K>(b),
        a.to_set() == b.to_set(),
    ensures
        a == b,
    decreases a.len(),
{
    if a.len() == 0 {
        if b.len() > 0 {
            assert(b.to_set().contains(b[0]));
            assert(a.to_set().contains(b[0]));
        }
        assert(a =~= b);
    } else {
        assert(a.to_set().contains(a.last()));
        assert(b.to_set().contains(a.last()));
        let i = choose|i: int| 0 <= i < b.len() && b[i] == a.last();
        assert(b.to_set().contains(b.last()));
        assert(a.to_set().contains(b.last()));
        let j = choose|j: int| 0 <= j < a.len() && a[j] == b.last();
        if i < b.len() - 1 && j < a.len() - 1 {
            assert(key_lt::<K>(b[i], b[b.len() - 1]));
            assert(key_lt::<K>(a[j], a[a.len() - 1]));
            lemma_lex_transitive(K::rank(a.last()), K::rank(b.last()), K::rank(a.last()));
            lemma_lex_irreflexive(K::rank(a.last()));
        }
        assert(a.last() == b.last());
        lemma_ascending_unique::<K>(a);
        lemma_ascending_unique::<K>(b);
        let a1 = a.drop_last();
        let b1 = b.drop_last();
        assert forall|x: K::Id| a1.to_set().contains(x) <==> b1.to_set().contains(x) by {
            if a1.contains(x) {
                let p = choose|p: int| 0 <= p < a1.len() && a1[p] == x;
                assert(a[p] == x);
                assert(a.to_set().contains(x));
                assert(b.contains(x));
                let q = choose|q: int| 0 <= q < b.len() && b[q] == x;
                assert(q != b.len() - 1);
                assert(b1[q] == x);
            }
            if b1.contains(x) {
                let p = choose|p: int| 0 <= p < b1.len() && b1[p] == x;
                assert(b[p] == x);
                assert(b.to_set().contains(x));
                assert(a.contains(x));
                let q = choose|q: int| 0 <= q < a.len() && a[q] == x;
                assert(q != a.len() - 1);
                assert(a1[q] == x);
            }
        }
        assert(a1.to_set() =~= b1.to_set());
        lemma_ascending_same::<K>(a1, b1);
        assert(a =~= a1.push(a.last()));
        assert(b =~= b1.push(b.last()));
    }
}

impl<K: Key, V> View for SortedMap<K, V> {
    type V = Map<K::Id, V>;

    closed spec fn view(&self) -> Map<K::Id, V> {
        Map::new(
            |k: K::Id| self.keys().contains(k),
            |k: K::Id| self.entries@[self.keys().index_of(k)].1,
        )
    }
}

impl<K: Key, V> SortedMap<K, V> {
    /// The identities in the map, in the order a walk meets them.
    pub closed spec fn keys(&self) -> Seq<K::Id> {
        self.entries@.map_values(|e: (K, V)| e.0.id())
    }

    /// Keys stand in strictly ascending order.
    pub open spec fn wf(&self) -> bool {
        ascending::<K>(self.keys())
    }

    /// What the order of the entries says about the map they make up.
    pub proof fn lemma_view(&self)
        requires
            self.wf(),
        ensures
            self.keys().no_duplicates(),
            self@.dom() == self.keys().to_set(),
            self@.dom().finite(),
            self@.dom().len() == self.keys().len(),
            forall|k: K::Id| #[trigger] self@.contains_key(k) <==> self.keys().contains(k),
            forall|i: int|
                0 <= i < self.keys().len() ==> self@.contains_key(#[trigger] self.keys()[i]),
    {
        lemma_ascending_unique::<K>(self.keys());
        self.keys().unique_seq_to_set();
        assert(self@.dom() =~= self.keys().to_set());
        vstd::seq_lib::seq_to_set_is_finite(self.keys());
        assert forall|i: int| 0 <= i < self.keys().len() implies self@.contains_key(
            #[trigger] self.keys()[i],
        ) by {
            assert(self.keys().contains(self.keys()[i]));
        }
    }

    proof fn lemma_value(&self, i: int)
        requires
            self.wf(),
            0 <= i < self.entries@.len(),
        ensures
            self.keys()[i] == self.entries@[i].0.id(),
            self@.contains_key(self.keys()[i]),
            self@[self.keys()[i]] == self.entries@[i].1,
    {
        self.lemma_view();
        assert(self.keys().contains(self.keys()[i]));
        let j = self.keys().index_of(self.keys()[i]);
        assert(self.keys()[j] == self.keys()[i]);
        assert(i == j);
    }

    /// The empty map.
    pub fn new() -> (r: Self)
        ensures
            r.wf(),
            r@ == Map::<K::Id, V>::empty(),
            r.keys() == Seq::<K::Id>::empty(),
    {
        let r = SortedMap { entries: Vec::new() };
        assert(r.keys() =~= Seq::<K::Id>::empty());
        assert(r@ =~= Map::<K::Id, V>::empty());
        r
    }

    /// How many entries the map has.
    pub fn len(&self) -> (r: usize)
        requires
            self.wf(),
        ensures
            r == self@.dom().len(),
            r == self.keys().len(),
            self@.dom().finite(),
    {
        proof {
            self.lemma_view();
        }
        self.entries.len()
    }

    /// Where `k` is, or where it would have to go.
    fn find(&self, k: &K) -> (r: Result<usize, usize>)
        requires
            self.wf(),
        ensures
            match r {
                Ok(i) => i < self.entries@.len() && self.keys()[i as int] == k.id(),
                Err(i) => {
                    &&& i <= self.entries@.len()
                    &&& forall|j: int|
                        0 <= j < i ==> key_lt::<K>(#[trigger] self.keys()[j], k.id())
                    &&& forall|j: int|
                        i <= j < self.keys().len() ==> key_lt::<K>(k.id(), #[trigger] self.keys()[j])
                },
            },
    {
        let mut lo: usize = 0;
        let mut hi: usize = self.entries.len();
        while lo < hi
            invariant
                self.wf(),
                lo <= hi <= self.entries@.len(),
                self.keys().len() == self.entries@.len(),
                forall|j: int| 0 <= j < lo ==> key_lt::<K>(#[trigger] self.keys()[j], k.id()),
                forall|j: int|
                    hi <= j < self.keys().len() ==> key_lt::<K>(k.id(), #[trigger] self.keys()[j]),
            decreases hi - lo,
        {
            let mid: usize = lo + (hi - lo) / 2;
            assert(self.keys()[mid as int] == self.entries@[mid as int].0.id());
            match self.entries[mid].0.order(k) {
                Order::Less => {
                    assert forall|j: int| 0 <= j < mid + 1 implies key_lt::<K>(
                        #[trigger] self.keys()[j],
                        k.id(),
                    ) by {
                        if j < mid {
                            assert(key_lt::<K>(self.keys()[j], self.keys()[mid as int]));
                            lemma_lex_transitive(
                                K::rank(self.keys()[j]),
                                K::rank(self.keys()[mid as int]),
                                K::rank(k.id()),
                            );
                        }
                    }
                    lo = mid + 1;
                },
                Order::Equal => {
                    proof {
                        K::lemma_rank_injective(self.keys()[mid as int], k.id());
                    }
                    return Ok(mid);
                },
                Order::Greater => {
                    proof {
                        lemma_lex_total(K::rank(self.keys()[mid as int]), K::rank(k.id()));
                    }
                    assert forall|j: int| mid <= j < self.keys().len() implies key_lt::<K>(
                        k.id(),
                        #[trigger] self.keys()[j],
                    ) by {
                        if mid < j {
                            assert(key_lt::<K>(self.keys()[mid as int], self.keys()[j]));
                            lemma_lex_transitive(
                                K::rank(k.id()),
                                K::rank(self.keys()[mid as int]),
                                K::rank(self.keys()[j]),
                            );
                        }
                    }
                    hi = mid;
                },
            }
        }
        Err(lo)
    }

    proof fn lemma_absent(&self, k: K::Id, i: int)
        requires
            self.wf(),
            0 <= i <= self.keys().len(),
            forall|j: int| 0 <= j < i ==> key_lt::<K>(#[trigger] self.keys()[j], k),
            forall|j: int| i <= j < self.keys().len() ==> key_lt::<K>(k, #[trigger] self.keys()[j]),
        ensures
            !self@.contains_key(k),
    {
        lemma_lex_irreflexive(K::rank(k));
        if self.keys().contains(k) {
            let j = choose|j: int| 0 <= j < self.keys().len() && self.keys()[j] == k;
            assert(j < i || i <= j);
        }
    }

    /// The value stored under `k`.
    pub fn get(&self, k: &K) -> (r: Option<&V>)
        requires
            self.wf(),
        ensures
            r == (if self@.contains_key(k.id()) {
                Some(&self@[k.id()])
            } else {
                None
            }),
    {
        match self.find(k) {
            Ok(i) => {
                proof {
                    self.lemma_value(i as int);
                }
                Some(&self.entries[i].1)
            },
            Err(i) => {
                proof {
                    self.lemma_absent(k.id(), i as int);
                }
                None
            },
        }
    }

    /// Whether the map has an entry for `k`.
    pub fn contains(&self, k: &K) -> (r: bool)
        requires
            self.wf(),
        ensures
            r == self@.contains_key(k.id()),
    {
        self.get(k).is_some()
    }

    /// Store `v` under `k`, in place of what was there.
    pub fn insert(&mut self, k: K, v: V)
        requires
            old(self).wf(),
        ensures
            final(self).wf(),
            final(self)@ == old(self)@.insert(k.id(), v),
    {
        let ghost before = *self;
        let ghost id = k.id();
        match self.find(&k) {
            Ok(i) => {
                self.entries.set(i, (k, v));
                proof {
                    assert(self.keys() =~= before.keys());
                    self.lemma_view();
                    before.lemma_view();
                    assert forall|x: K::Id| #[trigger] self@.contains_key(x) implies self@[x]
                        == before@.insert(id, v)[x] by {
                        let j = choose|j: int| 0 <= j < self.keys().len() && self.keys()[j] == x;
                        self.lemma_value(j);
                        before.lemma_value(j);
                    }
                    assert(self@ =~= before@.insert(id, v));
                }
            },
            Err(i) => {
                self.entries.insert(i, (k, v));
                proof {
                    assert(self.keys() =~= before.keys().insert(i as int, id));
                    assert forall|p: int, q: int| 0 <= p < q < self.keys().len() implies key_lt::<K>(
                        #[trigger] self.keys()[p],
                        #[trigger] self.keys()[q],
                    ) by {
                        let bp = if p < i { p } else { p - 1 };
                        let bq = if q < i { q } else { q - 1 };
                        if p != i && q != i {
                            assert(key_lt::<K>(before.keys()[bp], before.keys()[bq]));
                        } else if p == i {
                            assert(key_lt::<K>(id, before.keys()[bq]));
                        } else {
                            assert(key_lt::<K>(before.keys()[bp], id));
                        }
                    }
                    self.lemma_view();
                    before.lemma_view();
                    assert forall|x: K::Id| #[trigger] self@.contains_key(x) <==> before@.insert(
                        id,
                        v,
                    ).contains_key(x) by {
                        if self.keys().contains(x) {
                            let j = choose|j: int| 0 <= j < self.keys().len() && self.keys()[j] == x;
                            if j < i {
                                assert(before.keys()[j] == x);
                            } else if j > i {
                                assert(before.keys()[j - 1] == x);
                            }
                        }
                        if before.keys().contains(x) {
                            let j = choose|j: int|
                                0 <= j < before.keys().len() && before.keys()[j] == x;
                            if j < i {
                                assert(self.keys()[j] == x);
                            } else {
                                assert(self.keys()[j + 1] == x);
                            }
                        }
                        assert(self.keys()[i as int] == id);
                    }
                    assert forall|x: K::Id| #[trigger] self@.contains_key(x) implies self@[x]
                        == before@.insert(id, v)[x] by {
                        let j = choose|j: int| 0 <= j < self.keys().len() && self.keys()[j] == x;
                        self.lemma_value(j);
                        if j < i {
                            before.lemma_value(j);
                        } else if j > i {
                            before.lemma_value(j - 1);
                            assert(self.keys()[i as int] != x);
                        }
                        if j != i {
                            assert(self.keys()[i as int] == id);
                        }
                    }
                    assert(self@ =~= before@.insert(id, v));
                }
            },
        }
    }

    /// Take the entry of `k` out, if there is one.
    pub fn remove(&mut self, k: &K)
        requires
            old(self).wf(),
        ensures
            final(self).wf(),
            final(self)@ == old(self)@.remove(k.id()),
    {
        let ghost before = *self;
        let ghost id = k.id();
        match self.find(k) {
            Ok(i) => {
                self.entries.remove(i);
                proof {
                    assert(self.keys() =~= before.keys().remove(i as int));
                    assert forall|p: int, q: int| 0 <= p < q < self.keys().len() implies key_lt::<K>(
                        #[trigger] self.keys()[p],
                        #[trigger] self.keys()[q],
                    ) by {
                        let bp = if p < i { p } else { p + 1 };
                        let bq = if q < i { q } else { q + 1 };
                        assert(key_lt::<K>(before.keys()[bp], before.keys()[bq]));
                    }
                    self.lemma_view();
                    before.lemma_view();
                    assert forall|x: K::Id| #[trigger] self@.contains_key(x) <==> before@.remove(
                        id,
                    ).contains_key(x) by {
                        if self.keys().contains(x) {
                            let j = choose|j: int| 0 <= j < self.keys().len() && self.keys()[j] == x;
                            let b = if j < i { j } else { j + 1 };
                            assert(before.keys()[b] == x);
                            assert(b != i);
                        }
                        if before.keys().contains(x) && x != id {
                            let j = choose|j: int|
                                0 <= j < before.keys().len() && before.keys()[j] == x;
                            if j < i {
                                assert(self.keys()[j] == x);
                            } else {
                                assert(self.keys()[j - 1] == x);
                            }
                        }
                    }
                    assert forall|x: K::Id| #[trigger] self@.contains_key(x) implies self@[x]
                        == before@.remove(id)[x] by {
                        let j = choose|j: int| 0 <= j < self.keys().len() && self.keys()[j] == x;
                        self.lemma_value(j);
                        before.lemma_value(if j < i { j } else { j + 1 });
                    }
                    assert(self@ =~= before@.remove(id));
                }
            },
            Err(i) => {
                proof {
                    before.lemma_absent(id, i as int);
                    assert(self@ =~= before@.remove(id));
                }
            },
        }
    }

    /// The key at position `i` of a walk.
    pub fn key_at(&self, i: usize) -> (r: &K)
        requires
            self.wf(),
            i < self.keys().len(),
        ensures
            r.id() == self.keys()[i as int],
            self@.contains_key(r.id()),
    {
        proof {
            self.lemma_value(i as int);
        }
        &self.entries[i].0
    }

    /// The value at position `i` of a walk.
    pub fn value_at(&self, i: usize) -> (r: &V)
        requires
            self.wf(),
            i < self.keys().len(),
        ensures
            *r == self@[self.keys()[i as int]],
            self@.contains_key(self.keys()[i as int]),
    {
        proof {
            self.lemma_value(i as int);
        }
        &self.entries[i].1
    }

    /// Keep the entries that `f` holds of, and drop the others.
    pub fn retain<F: Fn(&K, &V) -> bool>(
        &mut self,
        f: F,
        Ghost(p): Ghost<spec_fn(K::Id, V) -> bool>,
    )
        requires
            old(self).wf(),
            forall|k: &K, v: &V| #[trigger] call_requires(f, (k, v)),
            forall|k: &K, v: &V, b: bool|
                #[trigger] call_ensures(f, (k, v), b) ==> b == p(k.id(), *v),
        ensures
            final(self).wf(),
            final(self)@ == kept(old(self)@, p),
    {
        let ghost before = *self;
        let mut rest: Vec<(K, V)> = Vec::new();
        std::mem::swap(&mut rest, &mut self.entries);
        let mut out: Vec<(K, V)> = Vec::new();
        let ghost all = rest@;
        // Entries come off the back, so the kept ones are collected in reverse.
        let mut back: Vec<(K, V)> = Vec::new();
        let ghost mut from: Seq<int> = Seq::empty();
        while rest.len() > 0
            invariant
                before.wf(),
                before.entries@ == all,
                rest@ == all.take(rest@.len() as int),
                rest@.len() <= all.len(),
                forall|k: &K, v: &V| #[trigger] call_requires(f, (k, v)),
                forall|k: &K, v: &V, b: bool|
                    #[trigger] call_ensures(f, (k, v), b) ==> b == p(k.id(), *v),
                back@.len() == from.len(),
                forall|i: int|
                    0 <= i < from.len() ==> rest@.len() <= (#[trigger] from[i]) < all.len()
                        && back@[i] == all[from[i]] && p(all[from[i]].0.id(), all[from[i]].1),
                forall|i: int, j: int|
                    0 <= i < j < from.len() ==> (#[trigger] from[j]) < (#[trigger] from[i]),
                forall|q: int|
                    rest@.len() <= q < all.len() && p(all[q].0.id(), (#[trigger] all[q]).1)
                        ==> from.contains(q),
            decreases rest@.len(),
        {
            let ghost n = rest@.len();
            let e = rest.pop();
            if let Some(e) = e {
                assert(e == all[n - 1]);
                let keep = f(&e.0, &e.1);
                let ghost prev = from;
                if keep {
                    back.push(e);
                    proof {
                        from = from.push(n - 1);
                        assert forall|q: int|
                            n - 1 <= q < all.len() && p(all[q].0.id(), (#[trigger] all[q]).1) implies from.contains(q) by {
                            if q == n - 1 {
                                assert(from[from.len() - 1] == q);
                            } else {
                                assert(prev.contains(q));
                                let w = choose|w: int| 0 <= w < prev.len() && prev[w] == q;
                                assert(from[w] == q);
                            }
                        }
                    }
                }
                assert(rest@ =~= all.take(rest@.len() as int));
            }
        }
        let ghost m = back@.len();
        let ghost whole = back@;
        while back.len() > 0
            invariant
                back@ == whole.take(back@.len() as int),
                back@.len() <= whole.len(),
                m == whole.len(),
                out@ == whole.skip(back@.len() as int).reverse(),
            decreases back@.len(),
        {
            let ghost n = back@.len();
            let e = back.pop();
            if let Some(e) = e {
                out.push(e);
                proof {
                    assert(whole.skip(n - 1).reverse() =~= whole.skip(n as int).reverse().push(whole[n - 1]));
                    assert(back@ =~= whole.take(n - 1));
                }
            }
        }
        self.entries = out;
        proof {
            assert(whole.skip(0) =~= whole);
            assert forall|i: int| 0 <= i < m implies #[trigger] self.entries@[i] == all[from[m - 1 - i]] by {}
            assert(before.keys().len() == all.len());
            assert forall|i: int, j: int| 0 <= i < j < self.keys().len() implies key_lt::<K>(
                #[trigger] self.keys()[i],
                #[trigger] self.keys()[j],
            ) by {
                assert(from[m - 1 - i] < from[m - 1 - j]);
                assert(key_lt::<K>(before.keys()[from[m - 1 - i]], before.keys()[from[m - 1 - j]]));
            }
            self.lemma_view();
            before.lemma_view();
            let goal = kept(before@, p);
            assert forall|x: K::Id| #[trigger] self@.contains_key(x) <==> goal.contains_key(x) by {
                if self.keys().contains(x) {
                    let i = choose|i: int| 0 <= i < self.keys().len() && self.keys()[i] == x;
                    before.lemma_value(from[m - 1 - i]);
                }
                if goal.contains_key(x) {
                    let q = choose|q: int| 0 <= q < before.keys().len() && before.keys()[q] == x;
                    before.lemma_value(q);
                    assert(p(all[q].0.id(), all[q].1));
                    let w = choose|w: int| 0 <= w < from.len() && from[w] == q;
                    assert(self.entries@[m - 1 - w] == all[q]);
                    assert(self.keys()[m - 1 - w] == x);
                }
            }
            assert forall|x: K::Id| #[trigger] self@.contains_key(x) implies self@[x] == goal[x] by {
                let i = choose|i: int| 0 <= i < self.keys().len() && self.keys()[i] == x;
                self.lemma_value(i);
                before.lemma_value(from[m - 1 - i]);
            }
            assert(self@ =~= goal);
        }
    }
}

/// Texts are ordered by their characters' code points.
pub open spec fn text_rank(s: Seq<char>) -> Seq<int> {
    s.map_values(|c: char| c as int)
}

impl Key for String {
    type Id = Seq<char>;

    open spec fn id(self) -> Seq<char> {
        self@
    }

    open spec fn rank(id: Seq<char>) -> Seq<int> {
        text_rank(id)
    }

    proof fn lemma_rank_injective(a: Seq<char>, b: Seq<char>) {
        assert(text_rank(a).len() == text_rank(b).len());
        assert forall|i: int| 0 <= i < a.len() implies a[i] == b[i] by {
            assert(text_rank(a)[i] == a[i] as int);
            assert(text_rank(b)[i] == b[i] as int);
        }
        assert(a =~= b);
    }

    fn order(&self, other: &String) -> (r: Order) {
        let a = chars(self.as_str());
        let b = chars(other.as_str());
        let ghost ra = text_rank(a@);
        let ghost rb = text_rank(b@);
        let mut i: usize = 0;
        assert(ra.skip(0) =~= ra);
        assert(rb.skip(0) =~= rb);
        while i < a.len() && i < b.len()
            invariant
                i <= a@.len(),
                i <= b@.len(),
                a@ == self@,
                b@ == other@,
                ra == text_rank(a@),
                rb == text_rank(b@),
                ra.take(i as int) == rb.take(i as int),
                lex_lt(ra, rb) == lex_lt(ra.skip(i as int), rb.skip(i as int)),
            decreases a@.len() - i,
        {
            let ghost xa = ra.skip(i as int);
            let ghost xb = rb.skip(i as int);
            assert(xa[0] == a@[i as int] as int);
            assert(xb[0] == b@[i as int] as int);
            if a[i] < b[i] {
                return Order::Less;
            }
            if a[i] > b[i] {
                assert(ra[i as int] != rb[i as int]);
                return Order::Greater;
            }
            assert(xa.drop_first() =~= ra.skip(i + 1));
            assert(xb.drop_first() =~= rb.skip(i + 1));
            assert(ra.take(i + 1) =~= ra.take(i as int).push(ra[i as int]));
            assert(rb.take(i + 1) =~= rb.take(i as int).push(rb[i as int]));
            i += 1;
        }
        if i < b.len() {
            assert(ra.skip(i as int).len() == 0);
            Order::Less
        } else if i < a.len() {
            assert(rb.skip(i as int).len() == 0);
            assert(ra.len() != rb.len());
            Order::Greater
        } else {
            assert(ra =~= ra.take(i as int));
            assert(rb =~= rb.take(i as int));
            proof {
                lemma_lex_irreflexive(ra);
            }
            Order::Equal
        }
    }
}

/// The keys of a map, in order.
pub fn key_texts<V>(m: &SortedMap<String, V>) -> (r: Vec<String>)
    requires
        m.wf(),
    ensures
        texts(r@) == m.keys(),
{
    let mut out: Vec<String> = Vec::new();
    let ghost keys = m.keys();
    let n: usize = m.len();
    let mut i: usize = 0;
    assert(texts(out@) =~= keys.take(0));
    while i < n
        invariant
            i <= n,
            n == keys.len(),
            m.wf(),
            keys == m.keys(),
            texts(out@) == keys.take(i as int),
        decreases n - i,
    {
        let ghost before = out@;
        out.push(m.key_at(i).clone());
        assert(texts(out@) =~= texts(before).push(keys[i as int]));
        assert(keys.take(i + 1) =~= keys.take(i as int).push(keys[i as int]));
        i += 1;
    }
    assert(keys.take(i as int) =~= keys);
    out
}

/// Keeping keeps exactly the entries that meet the condition, with their values.
pub proof fn law_kept_exactly<I, V>(m: Map<I, V>, p: spec_fn(I, V) -> bool, k: I)
    ensures
        kept(m, p).contains_key(k) == (m.contains_key(k) && p(k, m[k])),
        kept(m, p).contains_key(k) ==> kept(m, p)[k] == m[k],
{
}

/// Texts come in dictionary order: at the first place where two differ, the smaller code
/// point comes first, and a text comes before what it is the beginning of.
pub proof fn law_text_order(a: Seq<char>, b: Seq<char>)
    ensures
        key_lt::<String>(a, b) == exists|i: int|
            0 <= i <= a.len() && i < b.len() && #[trigger] a.take(i) == b.take(i) && (i == a.len()
                || (a[i] as int) < (b[i] as int)),
    decreases a.len(),
{
    let ra = text_rank(a);
    let rb = text_rank(b);
    if a.len() > 0 && b.len() > 0 {
        assert(ra[0] == a[0] as int);
        assert(rb[0] == b[0] as int);
    }
    if b.len() == 0 {
    } else if a.len() == 0 {
        assert(a.take(0) =~= b.take(0));
    } else if a[0] != b[0] {
        assert(a.take(0) =~= b.take(0));
        if exists|i: int|
            0 <= i <= a.len() && i < b.len() && #[trigger] a.take(i) == b.take(i) && (i == a.len()
                || (a[i] as int) < (b[i] as int)) {
            let i = choose|i: int|
                0 <= i <= a.len() && i < b.len() && #[trigger] a.take(i) == b.take(i) && (i
                    == a.len() || (a[i] as int) < (b[i] as int));
            if i > 0 {
                assert(a.take(i)[0] == b.take(i)[0]);
            }
        }
    } else {
        let c = a.drop_first();
        let d = b.drop_first();
        law_text_order(c, d);
        assert(ra.drop_first() =~= text_rank(c));
        assert(rb.drop_first() =~= text_rank(d));
        if key_lt::<String>(c, d) {
            let i = choose|i: int|
                0 <= i <= c.len() && i < d.len() && #[trigger] c.take(i) == d.take(i) && (i
                    == c.len() || (c[i] as int) < (d[i] as int));
            assert(a.take(i + 1) =~= seq![a[0]] + c.take(i));
            assert(b.take(i + 1) =~= seq![b[0]] + d.take(i));
            assert(a.take(i + 1) == b.take(i + 1));
        }
        if exists|i: int|
            0 <= i <= a.len() && i < b.len() && #[trigger] a.take(i) == b.take(i) && (i == a.len()
                || (a[i] as int) < (b[i] as int)) {
            let i = choose|i: int|
                0 <= i <= a.len() && i < b.len() && #[trigger] a.take(i) == b.take(i) && (i
                    == a.len() || (a[i] as int) < (b[i] as int));
            assert(i > 0);
            assert(c.take(i - 1) =~= a.take(i).drop_first());
            assert(d.take(i - 1) =~= b.take(i).drop_first());
            assert(c.take(i - 1) == d.take(i - 1));
        }
    }
}

/// Ascending means that of any two the earlier one comes first.
pub proof fn law_ascending<K: Key>(ids: Seq<K::Id>, i: int, j: int)
    requires
        ascending::<K>(ids),
        0 <= i < j < ids.len(),
    ensures
        key_lt::<K>(ids[i], ids[j]),
        !key_lt::<K>(ids[j], ids[i]),
        ids[i] != ids[j],
{
    lemma_lex_irreflexive(K::rank(ids[i]));
    if key_lt::<K>(ids[j], ids[i]) {
        lemma_lex_transitive(K::rank(ids[i]), K::rank(ids[j]), K::rank(ids[i]));
    }
}

} // verus!
