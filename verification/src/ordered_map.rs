//! A map from strings to values that keeps its entries in ascending key order,
//! so that two maps with the same contents hold the same entries in the same
//! order.

use vstd::prelude::*;
use crate::text::{key_less, str_less, lemma_key_less_transitive, lemma_key_less_total};

verus! {

/// The map that a list of entries denotes when a later entry replaces an
/// earlier one with the same key.
pub open spec fn last_wins<V>(entries: Seq<(Seq<char>, V)>) -> Map<Seq<char>, V>
    decreases entries.len(),
{
    if entries.len() == 0 {
        Map::empty()
    } else {
        last_wins(entries.drop_last()).insert(entries.last().0, entries.last().1)
    }
}

/// The keys of `entries` are strictly ascending in the order of `str`.
pub open spec fn ascending<V>(entries: Seq<(Seq<char>, V)>) -> bool {
    forall|i: int, j: int|
        #![trigger entries[i], entries[j]]
        0 <= i < j < entries.len() ==> key_less(entries[i].0, entries[j].0)
}

/// A key is in `last_wins(entries)` exactly when some entry has it.
pub proof fn lemma_last_wins_contains<V>(entries: Seq<(Seq<char>, V)>, key: Seq<char>)
    ensures
        last_wins(entries).contains_key(key) <==> exists|i: int|
            0 <= i < entries.len() && (#[trigger] entries[i]).0 == key,
    decreases entries.len(),
{
    if entries.len() > 0 {
        let front = entries.drop_last();
        lemma_last_wins_contains(front, key);
        if last_wins(entries).contains_key(key) {
            if entries.last().0 != key {
                let i = choose|i: int| 0 <= i < front.len() && (#[trigger] front[i]).0 == key;
                assert(entries[i].0 == key);
            }
        }
        if exists|i: int| 0 <= i < entries.len() && (#[trigger] entries[i]).0 == key {
            let i = choose|i: int| 0 <= i < entries.len() && (#[trigger] entries[i]).0 == key;
            if i < entries.len() - 1 {
                assert(front[i].0 == key);
            }
        }
    }
}

/// The value of a key in `last_wins(entries)` is that of the last entry
/// with this key.
pub proof fn lemma_last_wins_value<V>(entries: Seq<(Seq<char>, V)>, i: int)
    requires
        0 <= i < entries.len(),
        forall|j: int| i < j < entries.len() ==> (#[trigger] entries[j]).0 != entries[i].0,
    ensures
        last_wins(entries).contains_key(entries[i].0),
        last_wins(entries)[entries[i].0] == entries[i].1,
    decreases entries.len(),
{
    if i < entries.len() - 1 {
        let front = entries.drop_last();
        lemma_last_wins_value(front, i);
    }
}

/// In an ascending list every entry is the one that counts for its key.
pub proof fn lemma_ascending_lookup<V>(entries: Seq<(Seq<char>, V)>, i: int)
    requires
        ascending(entries),
        0 <= i < entries.len(),
    ensures
        last_wins(entries).contains_key(entries[i].0),
        last_wins(entries)[entries[i].0] == entries[i].1,
{
    lemma_last_wins_value(entries, i);
}

/// In an ascending list a key is found at one place at most.
pub proof fn lemma_ascending_unique<V>(entries: Seq<(Seq<char>, V)>, i: int, j: int)
    requires
        ascending(entries),
        0 <= i < entries.len(),
        0 <= j < entries.len(),
        entries[i].0 == entries[j].0,
    ensures
        i == j,
{
}

proof fn lemma_replace_entry<V>(s: Seq<(Seq<char>, V)>, idx: int, key: Seq<char>, value: V)
    requires
        ascending(s),
        0 <= idx < s.len(),
        s[idx].0 == key,
    ensures
        ascending(s.update(idx, (key, value))),
        last_wins(s.update(idx, (key, value))) == last_wins(s).insert(key, value),
{
    let t = s.update(idx, (key, value));
    let m = last_wins(s).insert(key, value);
    assert forall|q: Seq<char>| last_wins(t).contains_key(q) <==> m.contains_key(q) by {
        lemma_last_wins_contains(t, q);
        lemma_last_wins_contains(s, q);
        if last_wins(t).contains_key(q) {
            let i = choose|i: int| 0 <= i < t.len() && (#[trigger] t[i]).0 == q;
        }
        if m.contains_key(q) {
            if q == key {
                assert(t[idx].0 == q);
            } else {
                let i = choose|i: int| 0 <= i < s.len() && (#[trigger] s[i]).0 == q;
                assert(t[i].0 == q);
            }
        }
    }
    assert forall|q: Seq<char>| last_wins(t).contains_key(q) implies last_wins(t)[q] == m[q] by {
        lemma_last_wins_contains(t, q);
        let i = choose|i: int| 0 <= i < t.len() && (#[trigger] t[i]).0 == q;
        lemma_ascending_lookup(t, i);
        if q == key {
            lemma_ascending_unique(t, i, idx);
        } else {
            lemma_ascending_lookup(s, i);
        }
    }
}

proof fn lemma_insert_entry<V>(s: Seq<(Seq<char>, V)>, idx: int, key: Seq<char>, value: V)
    requires
        ascending(s),
        0 <= idx <= s.len(),
        forall|i: int| 0 <= i < idx ==> key_less((#[trigger] s[i]).0, key),
        forall|i: int| idx <= i < s.len() ==> key_less(key, (#[trigger] s[i]).0),
    ensures
        ascending(s.insert(idx, (key, value))),
        last_wins(s.insert(idx, (key, value))) == last_wins(s).insert(key, value),
{
    let t = s.insert(idx, (key, value));
    let m = last_wins(s).insert(key, value);
    assert forall|q: Seq<char>| last_wins(t).contains_key(q) <==> m.contains_key(q) by {
        lemma_last_wins_contains(t, q);
        lemma_last_wins_contains(s, q);
        if last_wins(t).contains_key(q) && q != key {
            let i = choose|i: int| 0 <= i < t.len() && (#[trigger] t[i]).0 == q;
        }
        if m.contains_key(q) {
            if q == key {
                assert(t[idx].0 == q);
            } else {
                let i = choose|i: int| 0 <= i < s.len() && (#[trigger] s[i]).0 == q;
                if i < idx {
                    assert(t[i].0 == q);
                } else {
                    assert(t[i + 1].0 == q);
                }
            }
        }
    }
    assert forall|q: Seq<char>| last_wins(t).contains_key(q) implies last_wins(t)[q] == m[q] by {
        lemma_last_wins_contains(t, q);
        let i = choose|i: int| 0 <= i < t.len() && (#[trigger] t[i]).0 == q;
        lemma_ascending_lookup(t, i);
        if q == key {
            lemma_ascending_unique(t, i, idx);
        } else if i < idx {
            lemma_ascending_lookup(s, i);
        } else {
            lemma_ascending_lookup(s, i - 1);
        }
    }
}

/// Two ascending lists that denote the same map are the same list.
pub proof fn lemma_ascending_canonical<V>(a: Seq<(Seq<char>, V)>, b: Seq<(Seq<char>, V)>)
    requires
        ascending(a),
        ascending(b),
        last_wins(a) == last_wins(b),
    ensures
        a == b,
    decreases a.len(),
{
    if a.len() == 0 {
        if b.len() > 0 {
            lemma_ascending_lookup(b, 0);
        }
    } else if b.len() == 0 {
        lemma_ascending_lookup(a, 0);
    } else {
        // The last entries hold the greatest key of each list, so they agree.
        let x = a.last();
        let y = b.last();
        lemma_ascending_lookup(a, a.len() - 1);
        lemma_last_wins_contains(b, x.0);
        lemma_last_wins_contains(a, y.0);
        let i = choose|i: int| 0 <= i < b.len() && (#[trigger] b[i]).0 == x.0;
        let j = choose|j: int| 0 <= j < a.len() && (#[trigger] a[j]).0 == y.0;
        if x.0 != y.0 {
            lemma_key_less_transitive(x.0, y.0, x.0);
        }
        let fa = a.drop_last();
        let fb = b.drop_last();
        assert(last_wins(fa) =~= last_wins(a).remove(x.0)) by {
            lemma_front_removes_last(a);
        }
        assert(last_wins(fb) =~= last_wins(b).remove(y.0)) by {
            lemma_front_removes_last(b);
        }
        lemma_ascending_canonical(fa, fb);
        assert(a =~= fa.push(x));
    }
}

proof fn lemma_front_removes_last<V>(a: Seq<(Seq<char>, V)>)
    requires
        ascending(a),
        a.len() > 0,
    ensures
        last_wins(a.drop_last()) == last_wins(a).remove(a.last().0),
{
    let fa = a.drop_last();
    lemma_last_wins_contains(fa, a.last().0);
    if last_wins(fa).contains_key(a.last().0) {
        let i = choose|i: int| 0 <= i < fa.len() && (#[trigger] fa[i]).0 == a.last().0;
    }
}

/// The entries of a list, each key and value by its view.
pub open spec fn entry_views<V: View>(list: Seq<(String, V)>) -> Seq<(Seq<char>, V::V)> {
    Seq::new(list.len(), |i: int| (list[i].0@, list[i].1@))
}

/// A map from strings to values, held as a list of entries in ascending key
/// order.
#[derive(Debug, PartialEq, Eq)]
pub struct OrderedMap<V: View> {
    entries: Vec<(String, V)>,
}

impl<V: View> View for OrderedMap<V> {
    type V = Map<Seq<char>, V::V>;

    open spec fn view(&self) -> Map<Seq<char>, V::V> {
        last_wins(self.entries())
    }
}

impl<V: View> OrderedMap<V> {
    /// The entries in the order in which they are held, each key and value by
    /// its view.
    pub closed spec fn entries(&self) -> Seq<(Seq<char>, V::V)> {
        entry_views(self.entries@)
    }

    #[verifier::type_invariant]
    spec fn sorted(&self) -> bool {
        ascending(self.entries())
    }

    /// The entries are in strictly ascending key order. Holds of every map
    /// that this module hands out.
    pub open spec fn wf(&self) -> bool {
        ascending(self.entries())
    }

    /// The empty map.
    pub fn new() -> (m: Self)
        ensures
            m.wf(),
            m.entries() == Seq::<(Seq<char>, V::V)>::empty(),
            m@ == Map::<Seq<char>, V::V>::empty(),
    {
        let m = OrderedMap { entries: Vec::new() };
        m
    }

    /// The number of entries.
    pub fn len(&self) -> (n: usize)
        ensures
            self.wf(),
            n == self.entries().len(),
    {
        proof {
            use_type_invariant(self);
        }
        self.entries.len()
    }

    /// The `i`-th entry in ascending order of the keys, if the map has that
    /// many.
    pub fn entry(&self, i: usize) -> (r: Option<(&String, &V)>)
        ensures
            r is Some == (i < self.entries().len()),
            r matches Some(e) ==> e.0@ == self.entries()[i as int].0 && e.1@
                == self.entries()[i as int].1,
    {
        if i < self.entries.len() {
            Some((&self.entries[i].0, &self.entries[i].1))
        } else {
            None
        }
    }

    /// The key of the `i`-th entry in ascending order.
    pub(crate) fn key_at(&self, i: usize) -> (k: &String)
        requires
            i < self.entries().len(),
        ensures
            k@ == self.entries()[i as int].0,
    {
        &self.entries[i].0
    }

    /// The value of the `i`-th entry in ascending key order.
    pub(crate) fn value_at(&self, i: usize) -> (v: &V)
        requires
            i < self.entries().len(),
        ensures
            v@ == self.entries()[i as int].1,
    {
        &self.entries[i].1
    }

    /// Where `key` is, or where it would have to be put.
    fn search(&self, key: &str) -> (r: (usize, bool))
        ensures
            r.0 <= self.entries().len(),
            forall|i: int| 0 <= i < r.0 ==> key_less((#[trigger] self.entries()[i]).0, key@),
            r.1 ==> r.0 < self.entries().len() && self.entries()[r.0 as int].0 == key@,
            !r.1 ==> forall|i: int|
                r.0 <= i < self.entries().len() ==> key_less(key@, (#[trigger] self.entries()[i]).0),
    {
        proof {
            use_type_invariant(self);
        }
        let mut lo: usize = 0;
        let mut hi: usize = self.entries.len();
        while lo < hi
            invariant
                lo <= hi <= self.entries().len(),
                self.entries().len() == self.entries@.len(),
                ascending(self.entries()),
                forall|i: int| 0 <= i < lo ==> key_less((#[trigger] self.entries()[i]).0, key@),
                forall|i: int|
                    hi <= i < self.entries().len() ==> key_less(key@, (#[trigger] self.entries()[i]).0),
            decreases hi - lo,
        {
            let mid = lo + (hi - lo) / 2;
            let probe = self.entries[mid].0.as_str();
            assert(probe@ == self.entries()[mid as int].0);
            if str_less(probe, key) {
                assert forall|i: int| 0 <= i < mid + 1 implies key_less(
                    (#[trigger] self.entries()[i]).0,
                    key@,
                ) by {
                    if i < mid {
                        lemma_key_less_transitive(self.entries()[i].0, probe@, key@);
                    }
                }
                lo = mid + 1;
            } else if str_less(key, probe) {
                assert forall|i: int| mid <= i < self.entries().len() implies key_less(
                    key@,
                    (#[trigger] self.entries()[i]).0,
                ) by {
                    if mid < i {
                        lemma_key_less_transitive(key@, probe@, self.entries()[i].0);
                    }
                }
                hi = mid;
            } else {
                proof {
                    lemma_key_less_total(probe@, key@);
                }
                return (mid, true);
            }
        }
        (lo, false)
    }

    /// The value held for `key`, if there is one.
    pub fn get(&self, key: &str) -> (r: Option<&V>)
        ensures
            r matches Some(v) ==> self@.contains_key(key@) && self@[key@] == v@,
            r is None ==> !self@.contains_key(key@),
    {
        proof {
            use_type_invariant(self);
        }
        let (idx, found) = self.search(key);
        if found {
            proof {
                lemma_ascending_lookup(self.entries(), idx as int);
            }
            Some(&self.entries[idx].1)
        } else {
            proof {
                lemma_last_wins_contains(self.entries(), key@);
                if self@.contains_key(key@) {
                    let i = choose|i: int|
                        0 <= i < self.entries().len() && (#[trigger] self.entries()[i]).0 == key@;
                }
            }
            None
        }
    }

    /// Whether a value is held for `key`.
    pub fn contains_key(&self, key: &str) -> (r: bool)
        ensures
            r == self@.contains_key(key@),
    {
        self.get(key).is_some()
    }

    /// Puts `value` under `key`, in place of what was held for it.
    pub fn insert(&mut self, key: String, value: V)
        ensures
            final(self).wf(),
            final(self)@ == old(self)@.insert(key@, value@),
    {
        proof {
            use_type_invariant(&*self);
        }
        let (idx, found) = self.search(key.as_str());
        let ghost before = self.entries();
        let ghost entry = (key@, value@);
        let mut taken = OrderedMap { entries: Vec::new() };
        std::mem::swap(self, &mut taken);
        let mut entries = taken.entries;
        if found {
            entries.set(idx, (key, value));
        } else {
            entries.insert(idx, (key, value));
        }
        proof {
            if found {
                assert(entry_views(entries@) =~= before.update(idx as int, entry));
                lemma_replace_entry(before, idx as int, entry.0, entry.1);
            } else {
                assert(entry_views(entries@) =~= before.insert(idx as int, entry));
                lemma_insert_entry(before, idx as int, entry.0, entry.1);
            }
        }
        *self = OrderedMap { entries };
    }
}

/// A key above all keys of an ascending list is none of them.
proof fn lemma_pushed_is_new<V>(entries: Seq<(Seq<char>, V)>, key: Seq<char>)
    requires
        forall|t: int| 0 <= t < entries.len() ==> key_less((#[trigger] entries[t]).0, key),
    ensures
        !last_wins(entries).contains_key(key),
{
    lemma_last_wins_contains(entries, key);
    if last_wins(entries).contains_key(key) {
        let t = choose|t: int| 0 <= t < entries.len() && (#[trigger] entries[t]).0 == key;
    }
}

/// Whether `merged` is what the first `i` entries of `left` and the first
/// `j` of `right` give together, the right ones overriding the left ones,
/// with every key below those that are still to come.
spec fn merges<V>(
    merged: Seq<(Seq<char>, V)>,
    left: Seq<(Seq<char>, V)>,
    i: int,
    right: Seq<(Seq<char>, V)>,
    j: int,
) -> bool {
    &&& 0 <= i <= left.len()
    &&& 0 <= j <= right.len()
    &&& ascending(merged)
    &&& forall|t: int|
        0 <= t < merged.len() && i < left.len() ==> key_less((#[trigger] merged[t]).0, left[i].0)
    &&& forall|t: int|
        0 <= t < merged.len() && j < right.len() ==> key_less((#[trigger] merged[t]).0, right[j].0)
    &&& last_wins(merged) == last_wins(left.take(i)).union_prefer_right(last_wins(right.take(j)))
}

/// Taking the next entry of the right list, where its key is below the next
/// key of the left list.
proof fn lemma_merge_right<V>(
    merged: Seq<(Seq<char>, V)>,
    left: Seq<(Seq<char>, V)>,
    i: int,
    right: Seq<(Seq<char>, V)>,
    j: int,
)
    requires
        ascending(left),
        ascending(right),
        merges(merged, left, i, right, j),
        j < right.len(),
        i < left.len() ==> key_less(right[j].0, left[i].0),
    ensures
        merges(merged.push(right[j]), left, i, right, j + 1),
{
    let entry = right[j];
    let next = merged.push(entry);
    assert(next.drop_last() =~= merged);
    assert(right.take(j + 1).drop_last() =~= right.take(j));
    assert(last_wins(next) =~= last_wins(left.take(i)).union_prefer_right(
        last_wins(right.take(j + 1)),
    ));
    assert forall|t: int| 0 <= t < next.len() && j + 1 < right.len() implies key_less(
        (#[trigger] next[t]).0,
        right[j + 1].0,
    ) by {
        if t < merged.len() {
            lemma_key_less_transitive(merged[t].0, entry.0, right[j + 1].0);
        }
    }
}

/// Taking the next entry of the left list, where its key is below the next
/// key of the right list.
proof fn lemma_merge_left<V>(
    merged: Seq<(Seq<char>, V)>,
    left: Seq<(Seq<char>, V)>,
    i: int,
    right: Seq<(Seq<char>, V)>,
    j: int,
)
    requires
        ascending(left),
        ascending(right),
        merges(merged, left, i, right, j),
        i < left.len(),
        j < right.len() ==> key_less(left[i].0, right[j].0),
    ensures
        merges(merged.push(left[i]), left, i + 1, right, j),
{
    let entry = left[i];
    let next = merged.push(entry);
    assert(next.drop_last() =~= merged);
    assert(left.take(i + 1).drop_last() =~= left.take(i));
    lemma_pushed_is_new(merged, entry.0);
    assert(last_wins(next) =~= last_wins(left.take(i + 1)).union_prefer_right(
        last_wins(right.take(j)),
    ));
    assert forall|t: int| 0 <= t < next.len() && i + 1 < left.len() implies key_less(
        (#[trigger] next[t]).0,
        left[i + 1].0,
    ) by {
        if t < merged.len() {
            lemma_key_less_transitive(merged[t].0, entry.0, left[i + 1].0);
        }
    }
}

/// Taking the next entry of the right list in place of the next one of the
/// left list, where the two have the same key.
proof fn lemma_merge_both<V>(
    merged: Seq<(Seq<char>, V)>,
    left: Seq<(Seq<char>, V)>,
    i: int,
    right: Seq<(Seq<char>, V)>,
    j: int,
)
    requires
        ascending(left),
        ascending(right),
        merges(merged, left, i, right, j),
        i < left.len(),
        j < right.len(),
        left[i].0 == right[j].0,
    ensures
        merges(merged.push(right[j]), left, i + 1, right, j + 1),
{
    let entry = right[j];
    let next = merged.push(entry);
    assert(next.drop_last() =~= merged);
    assert(left.take(i + 1).drop_last() =~= left.take(i));
    assert(right.take(j + 1).drop_last() =~= right.take(j));
    assert(last_wins(next) =~= last_wins(left.take(i + 1)).union_prefer_right(
        last_wins(right.take(j + 1)),
    ));
    assert forall|t: int| 0 <= t < next.len() && i + 1 < left.len() implies key_less(
        (#[trigger] next[t]).0,
        left[i + 1].0,
    ) by {
        if t < merged.len() {
            lemma_key_less_transitive(merged[t].0, entry.0, left[i + 1].0);
        }
    }
    assert forall|t: int| 0 <= t < next.len() && j + 1 < right.len() implies key_less(
        (#[trigger] next[t]).0,
        right[j + 1].0,
    ) by {
        if t < merged.len() {
            lemma_key_less_transitive(merged[t].0, entry.0, right[j + 1].0);
        }
    }
}

/// The characters of each key and value of `list`.
pub open spec fn pairs(list: Seq<(String, String)>) -> Seq<(Seq<char>, Seq<char>)> {
    entry_views(list)
}

impl OrderedMap<String> {
    /// Puts every entry of `other` into this map, in place of what was held
    /// for its key.
    pub fn extend_from(&mut self, other: &OrderedMap<String>)
        ensures
            final(self).wf(),
            final(self)@ == old(self)@.union_prefer_right(other@),
    {
        proof {
            use_type_invariant(&*self);
            use_type_invariant(other);
        }
        let ghost left = self.entries();
        let ghost right = other.entries();
        let mut taken: OrderedMap<String> = OrderedMap::new();
        std::mem::swap(self, &mut taken);
        let own = taken.entries;
        let ghost whole = own@;
        let mut merged: Vec<(String, String)> = Vec::new();
        let mut j: usize = 0;
        proof {
            assert(last_wins(entry_views(merged@)) =~= last_wins(left.take(0)).union_prefer_right(
                last_wins(right.take(0)),
            ));
        }
        for entry in it: own.into_iter()
            invariant
                it.seq() == whole,
                left == entry_views(whole),
                right == other.entries(),
                right.len() == other.entries@.len(),
                j <= right.len(),
                ascending(left),
                ascending(right),
                merges(entry_views(merged@), left, it.index(), right, j as int),
        {
            let ghost i = it.index();
            while j < other.entries.len() && str_less(
                other.entries[j].0.as_str(),
                entry.0.as_str(),
            )
                invariant
                    0 <= i < left.len(),
                    left[i] == (entry.0@, entry.1@),
                    right == other.entries(),
                    right.len() == other.entries@.len(),
                    j <= right.len(),
                    ascending(left),
                    ascending(right),
                    merges(entry_views(merged@), left, i, right, j as int),
                decreases right.len() - j,
            {
                let ghost so_far = entry_views(merged@);
                merged.push((other.entries[j].0.clone(), other.entries[j].1.clone()));
                proof {
                    assert(entry_views(merged@) =~= so_far.push(right[j as int]));
                    lemma_merge_right(so_far, left, i, right, j as int);
                }
                j += 1;
            }
            let ghost so_far = entry_views(merged@);
            if j < other.entries.len() && !str_less(entry.0.as_str(), other.entries[j].0.as_str()) {
                merged.push((other.entries[j].0.clone(), other.entries[j].1.clone()));
                proof {
                    lemma_key_less_total(left[i].0, right[j as int].0);
                    assert(entry_views(merged@) =~= so_far.push(right[j as int]));
                    lemma_merge_both(so_far, left, i, right, j as int);
                }
                j += 1;
            } else {
                merged.push(entry);
                proof {
                    assert(entry_views(merged@) =~= so_far.push(left[i]));
                    lemma_merge_left(so_far, left, i, right, j as int);
                }
            }
        }
        while j < other.entries.len()
            invariant
                right == other.entries(),
                right.len() == other.entries@.len(),
                j <= right.len(),
                ascending(left),
                ascending(right),
                merges(entry_views(merged@), left, left.len() as int, right, j as int),
            decreases right.len() - j,
        {
            let ghost so_far = entry_views(merged@);
            merged.push((other.entries[j].0.clone(), other.entries[j].1.clone()));
            proof {
                assert(entry_views(merged@) =~= so_far.push(right[j as int]));
                lemma_merge_right(so_far, left, left.len() as int, right, j as int);
            }
            j += 1;
        }
        proof {
            assert(left.take(left.len() as int) =~= left);
            assert(right.take(right.len() as int) =~= right);
        }
        *self = OrderedMap { entries: merged };
    }

    /// The map that the entries of `list` denote in their order: where a key
    /// stands more than once, its last value counts.
    pub fn from_entries(list: Vec<(String, String)>) -> (r: OrderedMap<String>)
        ensures
            r.wf(),
            r@ == last_wins(pairs(list@)),
    {
        let mut r: OrderedMap<String> = OrderedMap::new();
        let ghost all = pairs(list@);
        let ghost whole = list@;
        for entry in it: list.into_iter()
            invariant
                it.seq() == whole,
                all == pairs(whole),
                r.wf(),
                r@ == last_wins(all.take(it.index())),
        {
            assert(all.take(it.index() + 1).drop_last() =~= all.take(it.index()));
            r.insert(entry.0, entry.1);
        }
        assert(all.take(all.len() as int) =~= all);
        r
    }

    /// A map with the same entries.
    pub fn duplicate(&self) -> (r: OrderedMap<String>)
        ensures
            r.wf(),
            r@ == self@,
    {
        let mut r: OrderedMap<String> = OrderedMap::new();
        r.extend_from(self);
        r
    }
}

/// The entries of `map` in ascending order of their keys, where `map` has
/// finitely many.
pub open spec fn in_order<V>(map: Map<Seq<char>, V>) -> Seq<(Seq<char>, V)> {
    choose|entries: Seq<(Seq<char>, V)>| ascending(entries) && last_wins(entries) == map
}

/// The entries that a map holds are its contents in ascending order of the
/// keys.
pub proof fn lemma_entries_in_order<V: View>(map: OrderedMap<V>)
    requires
        map.wf(),
    ensures
        map.entries() == in_order(map@),
{
    let entries = map.entries();
    lemma_ascending_canonical(entries, in_order(map@));
}

/// Two maps with the same contents hold the same entries in the same order.
pub proof fn lemma_same_contents_same_entries<V: View>(a: OrderedMap<V>, b: OrderedMap<V>)
    requires
        a.wf(),
        b.wf(),
        a@ == b@,
    ensures
        a.entries() == b.entries(),
{
    lemma_ascending_canonical(a.entries(), b.entries());
}

} // verus!
