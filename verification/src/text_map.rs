//! A map from texts to values, and a set of texts.

use vstd::prelude::*;
use vstd::string::*;

use crate::text::{
    lemma_text_less_asymmetric, lemma_text_less_total, lemma_text_less_transitive, less, same,
    text_less, views,
};

verus! {

/// A map from texts: entries with distinct keys, in the order in which the
/// keys first came in.
#[derive(Debug)]
pub struct TextMap<V> {
    entries: Vec<(String, V)>,
}

/// The map that entries stand for; a later one replaces an earlier one.
pub open spec fn map_of<V>(entries: Seq<(String, V)>) -> Map<Seq<char>, V>
    decreases entries.len(),
{
    if entries.len() == 0 {
        Map::empty()
    } else {
        map_of(entries.drop_last()).insert(entries.last().0@, entries.last().1)
    }
}

/// No key occurs twice.
pub open spec fn distinct_keys<V>(entries: Seq<(String, V)>) -> bool {
    forall|i: int, j: int|
        0 <= i < j < entries.len() ==> (#[trigger] entries[i]).0@ != (#[trigger] entries[j]).0@
}

/// With distinct keys the map holds exactly the entries.
proof fn lemma_map_of<V>(entries: Seq<(String, V)>)
    requires
        distinct_keys(entries),
    ensures
        forall|i: int|
            0 <= i < entries.len() ==> map_of(entries).contains_key((#[trigger] entries[i]).0@)
                && map_of(entries)[entries[i].0@] == entries[i].1,
        forall|k: Seq<char>| #[trigger]
            map_of(entries).contains_key(k) ==> exists|i: int|
                0 <= i < entries.len() && (#[trigger] entries[i]).0@ == k,
        map_of(entries).dom().finite(),
        map_of(entries).dom().len() == entries.len(),
    decreases entries.len(),
{
    if entries.len() > 0 {
        let init = entries.drop_last();
        let last = entries.last();
        assert forall|i: int, j: int| 0 <= i < j < init.len() implies (#[trigger] init[i]).0@ != (
        #[trigger] init[j]).0@ by {
            assert(entries[i].0@ != entries[j].0@);
        }
        lemma_map_of(init);
        assert forall|i: int| 0 <= i < entries.len() implies map_of(entries).contains_key(
            (#[trigger] entries[i]).0@,
        ) && map_of(entries)[entries[i].0@] == entries[i].1 by {
            if i < init.len() {
                assert(init[i] == entries[i]);
                assert(entries[i].0@ != entries[entries.len() - 1].0@);
            }
        }
        assert forall|k: Seq<char>| #[trigger] map_of(entries).contains_key(k) implies exists|i: int|
            0 <= i < entries.len() && (#[trigger] entries[i]).0@ == k by {
            if k == last.0@ {
                assert(entries[entries.len() - 1].0@ == k);
            } else {
                assert(map_of(init).contains_key(k));
                let i = choose|i: int| 0 <= i < init.len() && (#[trigger] init[i]).0@ == k;
                assert(entries[i].0@ == k);
            }
        }
        assert(!map_of(init).contains_key(last.0@)) by {
            if map_of(init).contains_key(last.0@) {
                let i = choose|i: int| 0 <= i < init.len() && (#[trigger] init[i]).0@ == last.0@;
                assert(entries[i].0@ != entries[entries.len() - 1].0@);
            }
        }
        assert(map_of(entries).dom() =~= map_of(init).dom().insert(last.0@));
    } else {
        assert(map_of(entries).dom() =~= Set::empty());
    }
}

impl<V> View for TextMap<V> {
    type V = Map<Seq<char>, V>;

    closed spec fn view(&self) -> Map<Seq<char>, V> {
        map_of(self.entries@)
    }
}

impl<V> TextMap<V> {
    /// No key occurs twice.
    pub closed spec fn wf(self) -> bool {
        distinct_keys(self.entries@)
    }

    /// The empty map.
    pub fn new() -> (m: TextMap<V>)
        ensures
            m.wf(),
            m@ == Map::<Seq<char>, V>::empty(),
    {
        TextMap { entries: Vec::new() }
    }

    /// Where a key stands.
    fn position(&self, key: &str) -> (r: Option<usize>)
        requires
            self.wf(),
        ensures
            match r {
                Some(i) => i < self.entries@.len() && self.entries@[i as int].0@ == key@
                    && self@.contains_key(key@) && self@[key@] == self.entries@[i as int].1,
                None => !self@.contains_key(key@) && forall|i: int|
                    0 <= i < self.entries@.len() ==> (#[trigger] self.entries@[i]).0@ != key@,
            },
    {
        let mut i: usize = 0;
        while i < self.entries.len()
            invariant
                i <= self.entries@.len(),
                self.wf(),
                forall|k: int| 0 <= k < i ==> (#[trigger] self.entries@[k]).0@ != key@,
            decreases self.entries@.len() - i,
        {
            if same(self.entries[i].0.as_str(), key) {
                proof {
                    lemma_map_of(self.entries@);
                }
                return Some(i);
            }
            i = i + 1;
        }
        proof {
            lemma_map_of(self.entries@);
        }
        None
    }

    /// The value of a key.
    pub fn get(&self, key: &str) -> (r: Option<&V>)
        requires
            self.wf(),
        ensures
            match r {
                Some(v) => self@.contains_key(key@) && *v == self@[key@],
                None => !self@.contains_key(key@),
            },
    {
        match self.position(key) {
            Some(i) => Some(&self.entries[i].1),
            None => None,
        }
    }

    /// Whether a key is there.
    pub fn contains_key(&self, key: &str) -> (r: bool)
        requires
            self.wf(),
        ensures
            r == self@.contains_key(key@),
    {
        match self.position(key) {
            Some(_) => true,
            None => false,
        }
    }

    /// How many keys there are.
    pub fn len(&self) -> (n: usize)
        requires
            self.wf(),
        ensures
            n == self@.dom().len(),
            self@.dom().finite(),
    {
        proof {
            lemma_map_of(self.entries@);
        }
        self.entries.len()
    }

    /// Gives a key a value, in place of any that it had.
    pub fn insert(&mut self, key: String, value: V)
        requires
            old(self).wf(),
        ensures
            final(self).wf(),
            final(self)@ == old(self)@.insert(key@, value),
    {
        match self.position(key.as_str()) {
            Some(i) => {
                let ghost before = self.entries@;
                let ghost k = key@;
                self.entries.set(i, (key, value));
                proof {
                    let now = self.entries@;
                    assert forall|a: int, b: int| 0 <= a < b < now.len() implies (
                    #[trigger] now[a]).0@ != (#[trigger] now[b]).0@ by {
                        assert(before[a].0@ != before[b].0@);
                    }
                    lemma_map_of(before);
                    lemma_map_of(now);
                    let m = map_of(before).insert(k, value);
                    assert(map_of(now) =~= m) by {
                        assert forall|x: Seq<char>| #[trigger] map_of(now).contains_key(x)
                            <==> m.contains_key(x) by {
                            if map_of(now).contains_key(x) {
                                let a = choose|a: int|
                                    0 <= a < now.len() && (#[trigger] now[a]).0@ == x;
                                assert(before[a].0@ == x);
                            }
                            if map_of(before).contains_key(x) {
                                let a = choose|a: int|
                                    0 <= a < before.len() && (#[trigger] before[a]).0@ == x;
                                assert(now[a].0@ == x);
                            }
                            assert(now[i as int].0@ == k);
                        }
                        assert forall|x: Seq<char>| #[trigger] map_of(now).contains_key(
                            x,
                        ) implies map_of(now)[x] == m[x] by {
                            let a = choose|a: int|
                                0 <= a < now.len() && (#[trigger] now[a]).0@ == x;
                            if a != i {
                                assert(before[a] == now[a]);
                                if x == k {
                                    assert(now[i as int].0@ == k);
                                    if a < i {
                                        assert(now[a].0@ != now[i as int].0@);
                                    } else {
                                        assert(now[i as int].0@ != now[a].0@);
                                    }
                                }
                            }
                        }
                    }
                }
            },
            None => {
                let ghost before = self.entries@;
                self.entries.push((key, value));
                proof {
                    let now = self.entries@;
                    assert(now.drop_last() =~= before);
                    assert forall|a: int, b: int| 0 <= a < b < now.len() implies (
                    #[trigger] now[a]).0@ != (#[trigger] now[b]).0@ by {
                        assert(before[a].0@ == now[a].0@);
                        if b < before.len() {
                            assert(before[a].0@ != before[b].0@);
                        }
                    }
                }
            },
        }
    }
}

/// The texts that a map gives.
pub open spec fn text_values(m: Map<Seq<char>, String>) -> Map<Seq<char>, Seq<char>> {
    m.map_values(|s: String| s@)
}

/// A map without the keys whose text is empty.
pub open spec fn without_empty(m: Map<Seq<char>, Seq<char>>) -> Map<Seq<char>, Seq<char>> {
    m.restrict(Set::new(|k: Seq<char>| m.contains_key(k) && m[k].len() > 0))
}

/// Of the keys of a map those stay whose text is not empty, with their texts.
pub proof fn law_only_keys_without_a_text_go(m: Map<Seq<char>, Seq<char>>, k: Seq<char>)
    ensures
        without_empty(m).contains_key(k) <==> m.contains_key(k) && m[k] != Seq::<char>::empty(),
        without_empty(m).contains_key(k) ==> without_empty(m)[k] == m[k],
{
    assert(m[k].len() == 0 <==> m[k] =~= Seq::empty());
}

impl TextMap<String> {
    /// A copy without the keys whose text is empty.
    pub fn non_empty(&self) -> (out: TextMap<String>)
        requires
            self.wf(),
        ensures
            out.wf(),
            text_values(out@) == without_empty(text_values(self@)),
    {
        let ghost all = self.entries@;
        let mut out: TextMap<String> = TextMap::new();
        let mut i: usize = 0;
        proof {
            lemma_map_of(all);
        }
        while i < self.entries.len()
            invariant
                all == self.entries@,
                distinct_keys(all),
                i <= all.len(),
                out.wf(),
                forall|k: int|
                    0 <= k < i && (#[trigger] all[k]).1@.len() > 0 ==> out@.contains_key(all[k].0@)
                        && out@[all[k].0@]@ == all[k].1@,
                forall|x: Seq<char>| #[trigger]
                    out@.contains_key(x) ==> exists|k: int|
                        0 <= k < i && (#[trigger] all[k]).0@ == x && all[k].1@.len() > 0,
            decreases all.len() - i,
        {
            let ghost before = out@;
            if !self.entries[i].1.as_str().is_empty() {
                out.insert(self.entries[i].0.clone(), self.entries[i].1.clone());
                proof {
                    assert forall|k: int|
                        0 <= k < i + 1 && (#[trigger] all[k]).1@.len() > 0 implies out@.contains_key(
                        all[k].0@,
                    ) && out@[all[k].0@]@ == all[k].1@ by {
                        if k < i {
                            assert(all[k].0@ != all[i as int].0@);
                        }
                    }
                }
            }
            proof {
                assert forall|x: Seq<char>| #[trigger] out@.contains_key(x) implies exists|k: int|
                    0 <= k < i + 1 && (#[trigger] all[k]).0@ == x && all[k].1@.len() > 0 by {
                    if before.contains_key(x) {
                        let k = choose|k: int|
                            0 <= k < i && (#[trigger] all[k]).0@ == x && all[k].1@.len() > 0;
                        assert(all[k].0@ == x);
                    } else {
                        assert(all[i as int].0@ == x);
                    }
                }
            }
            i = i + 1;
        }
        proof {
            let m = text_values(self@);
            let w = without_empty(m);
            assert forall|x: Seq<char>| #[trigger] text_values(out@).contains_key(
                x,
            ) <==> w.contains_key(x) by {
                if out@.contains_key(x) {
                    let k = choose|k: int|
                        0 <= k < all.len() && (#[trigger] all[k]).0@ == x && all[k].1@.len() > 0;
                    assert(self@.contains_key(all[k].0@));
                }
                if w.contains_key(x) {
                    let k = choose|k: int| 0 <= k < all.len() && (#[trigger] all[k]).0@ == x;
                    assert(self@[all[k].0@] == all[k].1);
                }
            }
            assert forall|x: Seq<char>| #[trigger] text_values(out@).contains_key(
                x,
            ) implies text_values(out@)[x] == w[x] by {
                let k = choose|k: int|
                    0 <= k < all.len() && (#[trigger] all[k]).0@ == x && all[k].1@.len() > 0;
                assert(self@[all[k].0@] == all[k].1);
            }
            assert(text_values(out@) =~= w);
        }
        out
    }
}

/// Each text comes before all that follow.
pub open spec fn ascending_texts(s: Seq<Seq<char>>) -> bool {
    forall|i: int, j: int|
        0 <= i < j < s.len() ==> text_less(#[trigger] s[i], #[trigger] s[j])
}

/// A set of texts, kept in order.
#[derive(Debug)]
pub struct TextSet {
    items: Vec<String>,
}

impl View for TextSet {
    type V = Set<Seq<char>>;

    closed spec fn view(&self) -> Set<Seq<char>> {
        views(self.items@).to_set()
    }
}

impl TextSet {
    /// The texts are in order, so none occurs twice.
    pub closed spec fn wf(self) -> bool {
        ascending_texts(views(self.items@))
    }

    /// The empty set.
    pub fn new() -> (s: TextSet)
        ensures
            s.wf(),
            s@ == Set::<Seq<char>>::empty(),
    {
        let s = TextSet { items: Vec::new() };
        proof {
            assert(s@ =~= Set::<Seq<char>>::empty());
        }
        s
    }

    /// Where a text stands or would have to stand.
    fn place_of(&self, item: &str) -> (i: usize)
        requires
            self.wf(),
        ensures
            i <= self.items@.len(),
            forall|k: int| 0 <= k < i ==> text_less(#[trigger] views(self.items@)[k], item@),
            i < self.items@.len() ==> !text_less(views(self.items@)[i as int], item@),
    {
        let mut i: usize = 0;
        while i < self.items.len() && less(self.items[i].as_str(), item)
            invariant
                i <= self.items@.len(),
                forall|k: int| 0 <= k < i ==> text_less(#[trigger] views(self.items@)[k], item@),
            decreases self.items@.len() - i,
        {
            i = i + 1;
        }
        i
    }

    /// Whether a text is in the set.
    pub fn contains(&self, item: &str) -> (r: bool)
        requires
            self.wf(),
        ensures
            r == self@.contains(item@),
    {
        let i: usize = self.place_of(item);
        let ghost v = views(self.items@);
        proof {
            assert forall|k: int| 0 <= k < i implies v[k] != item@ by {
                lemma_text_less_asymmetric(v[k], item@);
            }
        }
        if i < self.items.len() && same(self.items[i].as_str(), item) {
            proof {
                assert(v[i as int] == item@);
                assert(v.contains(item@));
            }
            true
        } else {
            proof {
                if v.contains(item@) {
                    let k = choose|k: int| 0 <= k < v.len() && v[k] == item@;
                    assert(k > i);
                    assert(text_less(v[i as int], v[k]));
                }
            }
            false
        }
    }

    /// Adds a text.
    pub fn insert(&mut self, item: String)
        requires
            old(self).wf(),
        ensures
            final(self).wf(),
            final(self)@ == old(self)@.insert(item@),
    {
        let i: usize = self.place_of(item.as_str());
        let ghost v = views(self.items@);
        let ghost x = item@;
        if i < self.items.len() && same(self.items[i].as_str(), item.as_str()) {
            proof {
                assert(v[i as int] == x);
                assert(v.contains(x));
                assert(self@.insert(x) =~= self@);
            }
            return;
        }
        self.items.insert(i, item);
        proof {
            let w = views(self.items@);
            assert(w =~= v.insert(i as int, x));
            assert forall|a: int, b: int| 0 <= a < b < w.len() implies text_less(
                #[trigger] w[a],
                #[trigger] w[b],
            ) by {
                if b == i {
                    assert(w[a] == v[a]);
                } else if a == i {
                    assert(w[b] == v[b - 1]);
                    lemma_text_less_total(v[i as int], x);
                    if b - 1 != i {
                        assert(text_less(v[i as int], v[b - 1]));
                        lemma_text_less_transitive(x, v[i as int], v[b - 1]);
                    }
                } else {
                    let c = if a < i {
                        a
                    } else {
                        a - 1
                    };
                    let d = if b < i {
                        b
                    } else {
                        b - 1
                    };
                    assert(w[a] == v[c] && w[b] == v[d]);
                }
            }
            assert(w.to_set() =~= v.to_set().insert(x)) by {
                assert forall|y: Seq<char>| #[trigger] w.to_set().contains(y)
                    <==> v.to_set().insert(x).contains(y) by {
                    if w.contains(y) {
                        let k = choose|k: int| 0 <= k < w.len() && w[k] == y;
                        if k < i {
                            assert(v[k] == y);
                        } else if k > i {
                            assert(v[k - 1] == y);
                        }
                    }
                    if v.contains(y) {
                        let k = choose|k: int| 0 <= k < v.len() && v[k] == y;
                        if k < i {
                            assert(w[k] == y);
                        } else {
                            assert(w[k + 1] == y);
                        }
                    }
                    assert(w[i as int] == x);
                }
            }
        }
    }

    /// The texts in order; the set is empty afterwards.
    pub fn drain(&mut self) -> (out: Vec<String>)
        requires
            old(self).wf(),
        ensures
            final(self).wf(),
            final(self)@ == Set::<Seq<char>>::empty(),
            ascending_texts(views(out@)),
            views(out@).to_set() == old(self)@,
    {
        let mut taken: Vec<String> = Vec::new();
        std::mem::swap(&mut taken, &mut self.items);
        proof {
            assert(self@ =~= Set::<Seq<char>>::empty());
        }
        taken
    }
}

} // verus!
