//! Stable sorting by a rank.

use vstd::prelude::*;

verus! {

/// Values with a strict weak order: ties are allowed.
pub trait Ranked: Sized {
    /// `a` has to stand before `b`.
    spec fn precedes(a: Self, b: Self) -> bool;

    /// No two values precede each other.
    proof fn asymmetric(a: Self, b: Self)
        ensures
            !(Self::precedes(a, b) && Self::precedes(b, a)),
    ;

    /// What lies between two ordered values is ordered against one of them.
    proof fn between(a: Self, b: Self, c: Self)
        requires
            Self::precedes(a, c),
        ensures
            Self::precedes(a, b) || Self::precedes(b, c),
    ;

    /// Whether `self` has to stand before `other`.
    fn ranks_before(&self, other: &Self) -> (r: bool)
        ensures
            r == Self::precedes(*self, *other),
    ;
}

/// No value stands after one that it precedes.
pub open spec fn sorted<T: Ranked>(s: Seq<T>) -> bool {
    forall|i: int, j: int| 0 <= i < j < s.len() ==> !T::precedes(#[trigger] s[j], #[trigger] s[i])
}

/// Where `x` goes in `s`: behind everything that it does not precede.
pub open spec fn place<T: Ranked>(s: Seq<T>, x: T) -> int
    decreases s.len(),
{
    if s.len() > 0 && T::precedes(x, s.last()) {
        place(s.drop_last(), x)
    } else {
        s.len() as int
    }
}

/// `s` in order, ties in the order in which they came.
pub open spec fn stable_sorted<T: Ranked>(s: Seq<T>) -> Seq<T>
    decreases s.len(),
{
    if s.len() == 0 {
        s
    } else {
        let t = stable_sorted(s.drop_last());
        t.insert(place(t, s.last()), s.last())
    }
}

pub proof fn lemma_place<T: Ranked>(s: Seq<T>, x: T)
    ensures
        0 <= place(s, x) <= s.len(),
        forall|i: int| place(s, x) <= i < s.len() ==> T::precedes(x, #[trigger] s[i]),
        place(s, x) > 0 ==> !T::precedes(x, s[place(s, x) - 1]),
    decreases s.len(),
{
    if s.len() > 0 && T::precedes(x, s.last()) {
        let d = s.drop_last();
        lemma_place(d, x);
        assert forall|i: int| place(s, x) <= i < s.len() implies T::precedes(x, #[trigger] s[i]) by {
            if i < d.len() {
                assert(d[i] == s[i]);
            }
        }
    }
}

/// Sorting puts the values in order and keeps each as often as it was there.
pub proof fn lemma_stable_sorted<T: Ranked>(s: Seq<T>)
    ensures
        sorted(stable_sorted(s)),
        stable_sorted(s).len() == s.len(),
        stable_sorted(s).to_multiset() == s.to_multiset(),
    decreases s.len(),
{
    if s.len() > 0 {
        let t = stable_sorted(s.drop_last());
        let x = s.last();
        let p = place(t, x);
        lemma_stable_sorted(s.drop_last());
        lemma_place(t, x);
        let r = t.insert(p, x);
        assert forall|i: int, j: int| 0 <= i < j < r.len() implies !T::precedes(
            #[trigger] r[j],
            #[trigger] r[i],
        ) by {
            if j == p {
                assert(r[i] == t[i]);
                if T::precedes(x, t[i]) {
                    T::between(x, t[p - 1], t[i]);
                    if i != p - 1 {
                        assert(!T::precedes(t[p - 1], t[i]));
                    }
                }
            } else if i == p {
                assert(r[j] == t[j - 1]);
                T::asymmetric(x, t[j - 1]);
            } else {
                let a = if i < p {
                    i
                } else {
                    i - 1
                };
                let b = if j < p {
                    j
                } else {
                    j - 1
                };
                assert(r[i] == t[a] && r[j] == t[b]);
            }
        }
        assert(s =~= s.drop_last().push(x));
        vstd::seq_lib::to_multiset_insert(t, p, x);
        vstd::seq_lib::to_multiset_build(s.drop_last(), x);
    }
}

/// A sorted value comes from the input, and every input value is kept.
pub proof fn lemma_stable_sorted_contains<T: Ranked>(s: Seq<T>, x: T)
    ensures
        stable_sorted(s).contains(x) == s.contains(x),
{
    lemma_stable_sorted(s);
    vstd::seq_lib::to_multiset_contains(s, x);
    vstd::seq_lib::to_multiset_contains(stable_sorted(s), x);
}

/// Sorting leaves ties as they came: where a number rises along the values, it
/// still rises along any of them that are tied.
pub proof fn law_ties_stay_as_they_came<T: Ranked>(s: Seq<T>, number: spec_fn(T) -> int, i: int, j: int)
    requires
        forall|a: int, b: int|
            0 <= a < b < s.len() ==> number(#[trigger] s[a]) < number(#[trigger] s[b]),
        0 <= i < j < s.len(),
        !T::precedes(stable_sorted(s)[i], stable_sorted(s)[j]),
    ensures
        number(stable_sorted(s)[i]) < number(stable_sorted(s)[j]),
    decreases s.len(),
{
    let d = s.drop_last();
    let t = stable_sorted(d);
    let x = s.last();
    let p = place(t, x);
    lemma_place(t, x);
    lemma_stable_sorted(d);
    let r = t.insert(p, x);
    if i == p {
        assert(r[j] == t[j - 1]);
    } else if j == p {
        assert(r[i] == t[i]);
        assert(t.contains(t[i]));
        lemma_stable_sorted_contains(d, t[i]);
        let k = choose|k: int| 0 <= k < d.len() && d[k] == t[i];
        assert(s[k] == d[k]);
        assert(number(s[k]) < number(s[s.len() - 1]));
    } else {
        let a = if i < p {
            i
        } else {
            i - 1
        };
        let b = if j < p {
            j
        } else {
            j - 1
        };
        assert(r[i] == t[a] && r[j] == t[b]);
        assert forall|u: int, v: int| 0 <= u < v < d.len() implies number(#[trigger] d[u]) < number(
            #[trigger] d[v],
        ) by {
            assert(number(s[u]) < number(s[v]));
        }
        law_ties_stay_as_they_came(d, number, a, b);
    }
}

/// The values of `v` in order, ties in the order in which they came.
pub fn stable_sort<T: Ranked>(v: Vec<T>) -> (out: Vec<T>)
    ensures
        out@ == stable_sorted(v@),
{
    let mut out: Vec<T> = Vec::new();
    for x in it: v
        invariant
            it.seq() == v@,
            out@ == stable_sorted(it.seq().take(it.index() as int)),
    {
        let ghost t = out@;
        let mut p: usize = out.len();
        proof {
            assert(t.take(t.len() as int) =~= t);
        }
        while p > 0 && x.ranks_before(&out[p - 1])
            invariant
                p <= out@.len(),
                out@ == t,
                place(t, x) == place(t.take(p as int), x),
            decreases p,
        {
            proof {
                assert(t.take(p as int).drop_last() =~= t.take(p as int - 1));
                assert(t.take(p as int).last() == t[p as int - 1]);
            }
            p = p - 1;
        }
        proof {
            let done = it.seq().take(it.index() as int);
            let next = it.seq().take(it.index() as int + 1);
            assert(next.drop_last() =~= done);
            assert(next.last() == x);
            assert(place(t, x) == p);
        }
        out.insert(p, x);
    }
    proof {
        assert(v@.take(v@.len() as int) =~= v@);
    }
    out
}

/// Where `x` goes in `s` under a given order.
pub open spec fn place_by<V>(s: Seq<V>, x: V, before: spec_fn(V, V) -> bool) -> int
    decreases s.len(),
{
    if s.len() > 0 && before(x, s.last()) {
        place_by(s.drop_last(), x, before)
    } else {
        s.len() as int
    }
}

/// `s` in a given order, ties in the order in which they came.
pub open spec fn sorted_by<V>(s: Seq<V>, before: spec_fn(V, V) -> bool) -> Seq<V>
    decreases s.len(),
{
    if s.len() == 0 {
        s
    } else {
        let t = sorted_by(s.drop_last(), before);
        t.insert(place_by(t, s.last(), before), s.last())
    }
}

proof fn lemma_place_by<T: Ranked, V>(
    s: Seq<T>,
    x: T,
    f: spec_fn(T) -> V,
    before: spec_fn(V, V) -> bool,
)
    requires
        forall|a: T, b: T| #[trigger] T::precedes(a, b) == before(f(a), f(b)),
    ensures
        place(s, x) == place_by(s.map_values(f), f(x), before),
    decreases s.len(),
{
    if s.len() > 0 {
        assert(s.map_values(f).drop_last() =~= s.drop_last().map_values(f));
        assert(s.map_values(f).last() == f(s.last()));
        lemma_place_by(s.drop_last(), x, f, before);
    }
}

/// Sorting values sorts what they stand for.
pub proof fn lemma_sorted_by<T: Ranked, V>(
    s: Seq<T>,
    f: spec_fn(T) -> V,
    before: spec_fn(V, V) -> bool,
)
    requires
        forall|a: T, b: T| #[trigger] T::precedes(a, b) == before(f(a), f(b)),
    ensures
        stable_sorted(s).map_values(f) == sorted_by(s.map_values(f), before),
    decreases s.len(),
{
    if s.len() > 0 {
        let t = stable_sorted(s.drop_last());
        lemma_sorted_by(s.drop_last(), f, before);
        assert(s.map_values(f).drop_last() =~= s.drop_last().map_values(f));
        assert(s.map_values(f).last() == f(s.last()));
        lemma_place_by(t, s.last(), f, before);
        lemma_place(t, s.last());
        assert(t.insert(place(t, s.last()), s.last()).map_values(f) =~= t.map_values(f).insert(
            place(t, s.last()),
            f(s.last()),
        ));
    } else {
        assert(stable_sorted(s).map_values(f) =~= sorted_by(s.map_values(f), before));
    }
}

/// No two values stand before each other, and what lies between two ordered
/// values is ordered against one of them.
pub open spec fn weak_order<V>(before: spec_fn(V, V) -> bool) -> bool {
    &&& forall|a: V, b: V| #[trigger] before(a, b) ==> !before(b, a)
    &&& forall|a: V, b: V, c: V|
        #![trigger before(a, b), before(b, c)]
        before(a, c) ==> before(a, b) || before(b, c)
}

proof fn lemma_place_by_bounds<V>(s: Seq<V>, x: V, before: spec_fn(V, V) -> bool)
    ensures
        0 <= place_by(s, x, before) <= s.len(),
        forall|i: int| place_by(s, x, before) <= i < s.len() ==> before(x, #[trigger] s[i]),
        place_by(s, x, before) > 0 ==> !before(x, s[place_by(s, x, before) - 1]),
    decreases s.len(),
{
    if s.len() > 0 && before(x, s.last()) {
        let d = s.drop_last();
        lemma_place_by_bounds(d, x, before);
        assert forall|i: int| place_by(s, x, before) <= i < s.len() implies before(
            x,
            #[trigger] s[i],
        ) by {
            if i < d.len() {
                assert(d[i] == s[i]);
            }
        }
    }
}

/// Sorting by an order leaves no value behind one that it stands before, and
/// keeps each value as often as it was there.
pub proof fn lemma_sorted_by_order<V>(s: Seq<V>, before: spec_fn(V, V) -> bool)
    requires
        weak_order(before),
    ensures
        sorted_by(s, before).len() == s.len(),
        sorted_by(s, before).to_multiset() == s.to_multiset(),
        forall|i: int, j: int|
            0 <= i < j < s.len() ==> !before(
                #[trigger] sorted_by(s, before)[j],
                #[trigger] sorted_by(s, before)[i],
            ),
    decreases s.len(),
{
    if s.len() > 0 {
        let t = sorted_by(s.drop_last(), before);
        let x = s.last();
        let p = place_by(t, x, before);
        lemma_sorted_by_order(s.drop_last(), before);
        lemma_place_by_bounds(t, x, before);
        let r = t.insert(p, x);
        assert forall|i: int, j: int| 0 <= i < j < s.len() implies !before(
            #[trigger] r[j],
            #[trigger] r[i],
        ) by {
            if j == p {
                assert(r[i] == t[i]);
                if before(x, t[i]) && i != p - 1 {
                    assert(before(x, t[p - 1]) || before(t[p - 1], t[i]));
                }
            } else if i == p {
                assert(r[j] == t[j - 1]);
                assert(before(x, t[j - 1]));
            } else {
                let a = if i < p {
                    i
                } else {
                    i - 1
                };
                let b = if j < p {
                    j
                } else {
                    j - 1
                };
                assert(r[i] == t[a] && r[j] == t[b]);
            }
        }
        assert(s =~= s.drop_last().push(x));
        vstd::seq_lib::to_multiset_insert(t, p, x);
        vstd::seq_lib::to_multiset_build(s.drop_last(), x);
    }
}

impl Ranked for u32 {
    open spec fn precedes(a: Self, b: Self) -> bool {
        a < b
    }

    proof fn asymmetric(a: Self, b: Self) {
    }

    proof fn between(a: Self, b: Self, c: Self) {
    }

    fn ranks_before(&self, other: &Self) -> (r: bool) {
        *self < *other
    }
}

impl Ranked for i32 {
    open spec fn precedes(a: Self, b: Self) -> bool {
        a < b
    }

    proof fn asymmetric(a: Self, b: Self) {
    }

    proof fn between(a: Self, b: Self, c: Self) {
    }

    fn ranks_before(&self, other: &Self) -> (r: bool) {
        *self < *other
    }
}

/// Pages with their texts, by page.
impl Ranked for (u32, String) {
    open spec fn precedes(a: Self, b: Self) -> bool {
        a.0 < b.0
    }

    proof fn asymmetric(a: Self, b: Self) {
    }

    proof fn between(a: Self, b: Self, c: Self) {
    }

    fn ranks_before(&self, other: &Self) -> (r: bool) {
        self.0 < other.0
    }
}

/// Every value precedes all that follow it.
pub open spec fn ascending<T: Ranked>(s: Seq<T>) -> bool {
    forall|i: int, j: int| 0 <= i < j < s.len() ==> T::precedes(#[trigger] s[i], #[trigger] s[j])
}

/// `out` lists the values of `s`, each once, in order.
pub open spec fn is_sorted_set<T: Ranked>(s: Seq<T>, out: Seq<T>) -> bool {
    ascending(out) && forall|x: T| #[trigger] out.contains(x) <==> s.contains(x)
}

/// The values of `v`, each once, in order.
pub fn sorted_distinct<T: Ranked + Copy>(v: Vec<T>) -> (out: Vec<T>)
    requires
        forall|a: T, b: T|
            #![trigger T::precedes(a, b)]
            T::precedes(a, b) || T::precedes(b, a) || a == b,
    ensures
        is_sorted_set(v@, out@),
{
    let ghost all = v@;
    let sorted_all = stable_sort(v);
    proof {
        lemma_stable_sorted(all);
    }
    let mut out: Vec<T> = Vec::new();
    let mut i: usize = 0;
    while i < sorted_all.len()
        invariant
            i <= sorted_all@.len(),
            sorted(sorted_all@),
            forall|a: T, b: T|
                #![trigger T::precedes(a, b)]
                T::precedes(a, b) || T::precedes(b, a) || a == b,
            ascending(out@),
            forall|k: int| 0 <= k < out@.len() ==> sorted_all@.take(i as int).contains(#[trigger] out@[k]),
            forall|k: int| 0 <= k < i ==> out@.contains(#[trigger] sorted_all@[k]),
            i > 0 ==> out@.len() > 0 && out@.last() == sorted_all@[i - 1],
        decreases sorted_all@.len() - i,
    {
        let x = sorted_all[i];
        let ghost before = out@;
        let fresh = if out.len() == 0 {
            true
        } else {
            out[out.len() - 1].ranks_before(&x)
        };
        if fresh {
            out.push(x);
            proof {
                assert(out@.last() == x);
                assert forall|a: int, b: int| 0 <= a < b < out@.len() implies T::precedes(
                    #[trigger] out@[a],
                    #[trigger] out@[b],
                ) by {
                    if b == before.len() {
                        if a + 1 < before.len() {
                            let l = before.last();
                            assert(T::precedes(before[a], l));
                            T::between(before[a], x, l);
                            T::asymmetric(x, l);
                        }
                    }
                }
                assert forall|k: int| 0 <= k < i implies out@.contains(
                    #[trigger] sorted_all@[k],
                ) by {
                    let j = choose|j: int| 0 <= j < before.len() && before[j] == sorted_all@[k];
                    assert(out@[j] == sorted_all@[k]);
                }
                assert(out@.contains(x));
            }
        } else {
            proof {
                assert(!T::precedes(x, sorted_all@[i - 1]));
                assert(!T::precedes(before.last(), x));
                assert(T::precedes(x, before.last()) || x == before.last());
                assert(out@.last() == x);
                assert(out@.contains(x));
            }
        }
        proof {
            let now = sorted_all@.take(i as int + 1);
            assert forall|k: int| 0 <= k < out@.len() implies now.contains(
                #[trigger] out@[k],
            ) by {
                if k < before.len() {
                    let j = choose|j: int|
                        0 <= j < i && sorted_all@.take(i as int)[j] == before[k];
                    assert(now[j] == before[k]);
                } else {
                    assert(now[i as int] == x);
                }
            }
        }
        i = i + 1;
    }
    proof {
        assert(sorted_all@.take(i as int) =~= sorted_all@);
        assert forall|x: T| #[trigger] out@.contains(x) <==> all.contains(x) by {
            lemma_stable_sorted_contains(all, x);
            if out@.contains(x) {
                let k = choose|k: int| 0 <= k < out@.len() && out@[k] == x;
                assert(sorted_all@.contains(out@[k]));
            }
            if sorted_all@.contains(x) {
                let k = choose|k: int| 0 <= k < sorted_all@.len() && sorted_all@[k] == x;
                assert(out@.contains(sorted_all@[k]));
            }
        }
    }
    out
}

/// Two values are ordered, or they stand for the same.
pub open spec fn total<T: Ranked + View>() -> bool {
    forall|a: T, b: T|
        #![trigger T::precedes(a, b)]
        T::precedes(a, b) || T::precedes(b, a) || a@ == b@
}

/// Values that stand for the same are not ordered.
pub open spec fn by_view<T: Ranked + View>() -> bool {
    forall|a: T, b: T| #![trigger T::precedes(a, b)] a@ == b@ ==> !T::precedes(a, b)
}

/// What the values of a list stand for.
pub open spec fn stands_for<T: View>(s: Seq<T>) -> Seq<T::V> {
    s.map_values(|x: T| x@)
}

/// Puts `x` at its place in an ordered list, unless the list holds a value that
/// stands for the same.
pub fn insert_distinct<T: Ranked + View>(v: &mut Vec<T>, x: T)
    requires
        ascending(old(v)@),
        total::<T>(),
        by_view::<T>(),
    ensures
        ascending(final(v)@),
        forall|y: T::V| #[trigger]
            stands_for(final(v)@).contains(y) <==> stands_for(old(v)@).contains(y) || y == x@,
{
    let ghost before = v@;
    let mut p: usize = 0;
    while p < v.len() && v[p].ranks_before(&x)
        invariant
            p <= v@.len(),
            v@ == before,
            forall|k: int| 0 <= k < p ==> T::precedes(#[trigger] before[k], x),
        decreases v@.len() - p,
    {
        p = p + 1;
    }
    let ghost sb = stands_for(before);
    if p == v.len() || x.ranks_before(&v[p]) {
        let ghost y0 = x@;
        let ghost x0 = x;
        v.insert(p, x);
        proof {
            let w = v@;
            assert forall|a: int, b: int| 0 <= a < b < w.len() implies T::precedes(
                #[trigger] w[a],
                #[trigger] w[b],
            ) by {
                if b == p {
                    assert(w[a] == before[a]);
                } else if a == p {
                    assert(w[b] == before[b - 1]);
                    if b - 1 > p {
                        assert(T::precedes(before[p as int], before[b - 1]));
                        T::between(x0, before[b - 1], before[p as int]);
                        T::asymmetric(before[p as int], before[b - 1]);
                    }
                } else {
                    let c = if a < p {
                        a
                    } else {
                        a - 1
                    };
                    let d = if b < p {
                        b
                    } else {
                        b - 1
                    };
                    assert(w[a] == before[c] && w[b] == before[d]);
                }
            }
            let sw = stands_for(w);
            assert forall|y: T::V| #[trigger] sw.contains(y) <==> sb.contains(y) || y == y0 by {
                if sw.contains(y) {
                    let k = choose|k: int| 0 <= k < sw.len() && sw[k] == y;
                    if k < p {
                        assert(sb[k] == y);
                    } else if k > p {
                        assert(sb[k - 1] == y);
                    }
                }
                if sb.contains(y) {
                    let k = choose|k: int| 0 <= k < sb.len() && sb[k] == y;
                    if k < p {
                        assert(sw[k] == y);
                    } else {
                        assert(sw[k + 1] == y);
                    }
                }
                assert(sw[p as int] == y0);
            }
        }
    } else {
        proof {
            assert(!T::precedes(before[p as int], x) && !T::precedes(x, before[p as int]));
            assert(sb[p as int] == x@);
            assert(sb.contains(x@));
        }
    }
}

/// Two ordered lists that stand for the same values are the same.
pub proof fn lemma_ascending_unique<T: Ranked + View>(a: Seq<T>, b: Seq<T>)
    requires
        ascending(a),
        ascending(b),
        total::<T>(),
        by_view::<T>(),
        forall|x: T, y: T, z: T|
            #![trigger T::precedes(x, z), y@]
            T::precedes(x, z) && x@ == y@ ==> T::precedes(y, z),
        forall|y: T::V| #[trigger] stands_for(a).contains(y) <==> stands_for(b).contains(y),
    ensures
        stands_for(a) == stands_for(b),
    decreases a.len(),
{
    let sa = stands_for(a);
    let sb = stands_for(b);
    if a.len() == 0 {
        if b.len() > 0 {
            assert(sb.contains(sb[0]));
            assert(sa.contains(sb[0]));
        }
        assert(sa =~= sb);
    } else {
        assert(sa.contains(sa[0]));
        let j = choose|j: int| 0 <= j < sb.len() && sb[j] == sa[0];
        assert(sb.contains(sb[0]));
        assert(sa.contains(sb[0]));
        let i = choose|i: int| 0 <= i < sa.len() && sa[i] == sb[0];
        if i > 0 && j > 0 {
            assert(T::precedes(a[0], a[i]));
            assert(T::precedes(b[0], b[j]));
            assert(a[i]@ == b[0]@ && b[j]@ == a[0]@);
            assert(T::precedes(a[i], b[j]));
            T::between(a[0], b[j], a[i]);
            T::asymmetric(a[i], b[j]);
            assert(T::precedes(a[0], b[j]));
        }
        assert(sa[0] == sb[0]);
        let ta = a.drop_first();
        let tb = b.drop_first();
        assert forall|x: int, y: int| 0 <= x < y < ta.len() implies T::precedes(
            #[trigger] ta[x],
            #[trigger] ta[y],
        ) by {
            assert(T::precedes(a[x + 1], a[y + 1]));
        }
        assert forall|x: int, y: int| 0 <= x < y < tb.len() implies T::precedes(
            #[trigger] tb[x],
            #[trigger] tb[y],
        ) by {
            assert(T::precedes(b[x + 1], b[y + 1]));
        }
        assert forall|y: T::V| #[trigger] stands_for(ta).contains(y) <==> stands_for(
            tb,
        ).contains(y) by {
            if stands_for(ta).contains(y) {
                let k = choose|k: int| 0 <= k < ta.len() && stands_for(ta)[k] == y;
                assert(sa[k + 1] == y);
                assert(sa.contains(y));
                let m = choose|m: int| 0 <= m < sb.len() && sb[m] == y;
                if m == 0 {
                    assert(T::precedes(a[0], a[k + 1]));
                    assert(a[0]@ == a[k + 1]@);
                } else {
                    assert(stands_for(tb)[m - 1] == y);
                }
            }
            if stands_for(tb).contains(y) {
                let k = choose|k: int| 0 <= k < tb.len() && stands_for(tb)[k] == y;
                assert(sb[k + 1] == y);
                assert(sb.contains(y));
                assert(sa.contains(y));
                let m = choose|m: int| 0 <= m < sa.len() && sa[m] == y;
                if m == 0 {
                    assert(T::precedes(b[0], b[k + 1]));
                    assert(b[0]@ == b[k + 1]@);
                } else {
                    assert(stands_for(ta)[m - 1] == y);
                }
            }
        }
        lemma_ascending_unique(ta, tb);
        assert(sa =~= seq![sa[0]] + stands_for(ta));
        assert(sb =~= seq![sb[0]] + stands_for(tb));
    }
}

} // verus!
