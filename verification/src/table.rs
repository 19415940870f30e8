//! Small tables keyed by number, by name or by id: entries in the order of their first
//! insertion, each key once.
use vstd::prelude::*;

use crate::octets::bytes_eq;
use crate::text::text_eq;

verus! {

/// Some entry has the key.
pub open spec fn has_key<K, T>(s: Seq<(K, T)>, k: K) -> bool {
    exists|i: int| 0 <= i < s.len() && (#[trigger] s[i]).0 == k
}

/// Where the key is.
pub open spec fn key_index<K, T>(s: Seq<(K, T)>, k: K) -> int {
    choose|i: int| 0 <= i < s.len() && (#[trigger] s[i]).0 == k
}

/// The value of a key that is there.
pub open spec fn value_of<K, T>(s: Seq<(K, T)>, k: K) -> T {
    s[key_index(s, k)].1
}

/// The value of a key, if it is there.
pub open spec fn lookup<K, T>(s: Seq<(K, T)>, k: K) -> Option<T> {
    if has_key(s, k) {
        Some(value_of(s, k))
    } else {
        None
    }
}

/// The table with a value for the key: in the place of the old value, or at the end.
pub open spec fn with_value<K, T>(s: Seq<(K, T)>, k: K, v: T) -> Seq<(K, T)> {
    if has_key(s, k) {
        s.update(key_index(s, k), (k, v))
    } else {
        s.push((k, v))
    }
}

/// The table without the key.
pub open spec fn without_key<K, T>(s: Seq<(K, T)>, k: K) -> Seq<(K, T)> {
    if has_key(s, k) {
        s.remove(key_index(s, k))
    } else {
        s
    }
}

/// No key occurs twice.
pub open spec fn distinct_keys<K, T>(s: Seq<(K, T)>) -> bool {
    forall|i: int, j: int|
        0 <= i < s.len() && 0 <= j < s.len() && i != j ==> (#[trigger] s[i]).0 != (#[trigger] s[j]).0
}

/// A key that is found at `i` is nowhere else.
pub proof fn lemma_key_index<K, T>(s: Seq<(K, T)>, i: int)
    requires
        distinct_keys(s),
        0 <= i < s.len(),
    ensures
        has_key(s, s[i].0),
        key_index(s, s[i].0) == i,
        lookup(s, s[i].0) == Some(s[i].1),
{
    let j = key_index(s, s[i].0);
    assert(s[i].0 == s[i].0);
    assert(0 <= j < s.len() && s[j].0 == s[i].0);
}

/// What a lookup finds after a value was stored.
pub proof fn lemma_with_value<K, T>(s: Seq<(K, T)>, k: K, v: T)
    requires
        distinct_keys(s),
    ensures
        distinct_keys(with_value(s, k, v)),
        lookup(with_value(s, k, v), k) == Some(v),
        forall|x: K| x != k ==> #[trigger] lookup(with_value(s, k, v), x) == lookup(s, x),
        forall|x: K| #[trigger] has_key(with_value(s, k, v), x) == (x == k || has_key(s, x)),
{
    let t = with_value(s, k, v);
    let at = if has_key(s, k) {
        key_index(s, k)
    } else {
        s.len() as int
    };
    assert(t[at] == (k, v));
    assert(distinct_keys(t)) by {
        assert forall|i: int, j: int|
            0 <= i < t.len() && 0 <= j < t.len() && i != j implies (#[trigger] t[i]).0 != (
        #[trigger] t[j]).0 by {
            if i != at && j != at {
                assert(t[i] == s[i] && t[j] == s[j]);
            } else if i == at {
                assert(t[j] == s[j]);
                if has_key(s, k) {
                    assert(s[at].0 != s[j].0);
                }
            } else {
                assert(t[i] == s[i]);
                if has_key(s, k) {
                    assert(s[at].0 != s[i].0);
                }
            }
        }
    }
    lemma_key_index(t, at);
    assert forall|x: K| x != k implies #[trigger] lookup(t, x) == lookup(s, x) by {
        if has_key(s, x) {
            let i = key_index(s, x);
            assert(s[i].0 == x);
            assert(t[i] == s[i]);
            lemma_key_index(t, i);
        } else if has_key(t, x) {
            let i = key_index(t, x);
            assert(t[i].0 == x);
            assert(t[i] == s[i]);
        }
    }
    assert forall|x: K| #[trigger] has_key(t, x) == (x == k || has_key(s, x)) by {
        if x != k {
            assert(lookup(t, x) == lookup(s, x));
        }
    }
}

/// What a lookup finds after a key was removed.
pub proof fn lemma_without_key<K, T>(s: Seq<(K, T)>, k: K)
    requires
        distinct_keys(s),
    ensures
        distinct_keys(without_key(s, k)),
        !has_key(without_key(s, k), k),
        forall|x: K| x != k ==> #[trigger] lookup(without_key(s, k), x) == lookup(s, x),
        forall|x: K| #[trigger] has_key(without_key(s, k), x) == (x != k && has_key(s, x)),
{
    let t = without_key(s, k);
    if has_key(s, k) {
        let at = key_index(s, k);
        assert(s[at].0 == k);
        assert forall|i: int| 0 <= i < t.len() implies #[trigger] t[i] == s[if i < at {
            i
        } else {
            i + 1
        }] by {}
        assert(distinct_keys(t)) by {
            assert forall|i: int, j: int|
                0 <= i < t.len() && 0 <= j < t.len() && i != j implies (#[trigger] t[i]).0 != (
            #[trigger] t[j]).0 by {
                let a = if i < at {
                    i
                } else {
                    i + 1
                };
                let b = if j < at {
                    j
                } else {
                    j + 1
                };
                assert(s[a].0 != s[b].0);
            }
        }
        if has_key(t, k) {
            let i = key_index(t, k);
            let a = if i < at {
                i
            } else {
                i + 1
            };
            assert(t[i].0 == k);
            assert(s[a].0 != s[at].0);
        }
        assert forall|x: K| x != k implies #[trigger] lookup(t, x) == lookup(s, x) by {
            if has_key(s, x) {
                let i = key_index(s, x);
                assert(s[i].0 == x);
                let a = if i < at {
                    i
                } else {
                    i - 1
                };
                assert(t[a] == s[i]);
                lemma_key_index(t, a);
            } else if has_key(t, x) {
                let i = key_index(t, x);
                assert(t[i].0 == x);
                let a = if i < at {
                    i
                } else {
                    i + 1
                };
                assert(s[a].0 == x);
            }
        }
    }
    assert forall|x: K| #[trigger] has_key(t, x) == (x != k && has_key(s, x)) by {
        if x != k {
            assert(lookup(t, x) == lookup(s, x));
        }
    }
}

/// The later of two values stored for a key stays.
pub proof fn lemma_put_twice<K, T>(s: Seq<(K, T)>, k: K, v: T, w: T)
    requires
        distinct_keys(s),
    ensures
        with_value(with_value(s, k, v), k, w) == with_value(s, k, w),
{
    let t = with_value(s, k, v);
    lemma_with_value(s, k, v);
    let i = if has_key(s, k) {
        key_index(s, k)
    } else {
        s.len() as int
    };
    if has_key(s, k) {
        assert(0 <= i < s.len() && s[i].0 == k);
    }
    assert(t[i] == (k, v));
    lemma_key_index(t, i);
    assert(with_value(t, k, w) =~= with_value(s, k, w));
}

/// Storing a value for a key and removing the key is removing the key.
pub proof fn lemma_put_then_remove<K, T>(s: Seq<(K, T)>, k: K, v: T)
    requires
        distinct_keys(s),
    ensures
        without_key(with_value(s, k, v), k) == without_key(s, k),
{
    let t = with_value(s, k, v);
    lemma_with_value(s, k, v);
    if has_key(s, k) {
        let i = key_index(s, k);
        assert(0 <= i < s.len() && s[i].0 == k);
        assert(t[i] == (k, v));
        lemma_key_index(t, i);
        assert(t.remove(i) =~= s.remove(i));
    } else {
        let n = s.len() as int;
        assert(t[n] == (k, v));
        lemma_key_index(t, n);
        assert(t.remove(n) =~= s);
    }
}

/// The sum of a measure over all values.
pub open spec fn sum_over<K, T>(s: Seq<(K, T)>, f: spec_fn(T) -> nat) -> nat
    decreases s.len(),
{
    if s.len() == 0 {
        0
    } else {
        sum_over(s.drop_last(), f) + f(s.last().1)
    }
}

pub proof fn lemma_sum_push<K, T>(s: Seq<(K, T)>, x: (K, T), f: spec_fn(T) -> nat)
    ensures
        sum_over(s.push(x), f) == sum_over(s, f) + f(x.1),
{
    assert(s.push(x).drop_last() =~= s);
}

/// Changing one value changes the sum by the difference; no value exceeds the sum.
pub proof fn lemma_sum_update<K, T>(s: Seq<(K, T)>, i: int, x: (K, T), f: spec_fn(T) -> nat)
    requires
        0 <= i < s.len(),
    ensures
        sum_over(s.update(i, x), f) + f(s[i].1) == sum_over(s, f) + f(x.1),
        f(s[i].1) <= sum_over(s, f),
    decreases s.len(),
{
    let t = s.update(i, x);
    if i == s.len() - 1 {
        assert(t.drop_last() =~= s.drop_last());
    } else {
        lemma_sum_update(s.drop_last(), i, x, f);
        assert(t.drop_last() =~= s.drop_last().update(i, x));
        assert(t.last() == s.last());
    }
}

/// A longer front has a larger sum.
pub proof fn lemma_sum_prefix<K, T>(s: Seq<(K, T)>, i: int, f: spec_fn(T) -> nat)
    requires
        0 <= i <= s.len(),
    ensures
        sum_over(s.subrange(0, i), f) <= sum_over(s, f),
        i < s.len() ==> sum_over(s.subrange(0, i + 1), f) == sum_over(s.subrange(0, i), f) + f(
            s[i].1,
        ),
        i == s.len() ==> s.subrange(0, i) == s,
    decreases s.len(),
{
    if i < s.len() {
        lemma_sum_prefix(s.drop_last(), i, f);
        assert(s.drop_last().subrange(0, i) =~= s.subrange(0, i));
        assert(s.subrange(0, i + 1).drop_last() =~= s.subrange(0, i));
    } else {
        assert(s.subrange(0, i) =~= s);
    }
}

/// A table keyed by number.
#[derive(Debug)]
pub struct Table<V> {
    entries: Vec<(u64, V)>,
}

impl<V: View> Table<V> {
    /// The entries in order, values by their views.
    pub closed spec fn view(&self) -> Seq<(u64, V::V)> {
        Seq::new(self.entries@.len(), |i: int| (self.entries@[i].0, self.entries@[i].1@))
    }

    pub open spec fn wf(&self) -> bool {
        distinct_keys(self.view())
    }

    pub fn new() -> (r: Self)
        ensures
            r.wf(),
            r.view() == Seq::<(u64, V::V)>::empty(),
    {
        let r = Table { entries: Vec::new() };
        assert(r.view() =~= Seq::<(u64, V::V)>::empty());
        r
    }

    pub fn len(&self) -> (r: usize)
        ensures
            r == self.view().len(),
    {
        self.entries.len()
    }

    /// Where the key is.
    pub fn find(&self, key: u64) -> (r: Option<usize>)
        requires
            self.wf(),
        ensures
            match r {
                Some(i) => i < self.view().len() && self.view()[i as int].0 == key && has_key(
                    self.view(),
                    key,
                ) && key_index(self.view(), key) == i,
                None => !has_key(self.view(), key),
            },
    {
        let n: usize = self.entries.len();
        let mut i: usize = 0;
        while i < n
            invariant
                i <= n,
                n == self.entries@.len(),
                self.wf(),
                forall|j: int| 0 <= j < i ==> (#[trigger] self.view()[j]).0 != key,
            decreases n - i,
        {
            if self.entries[i].0 == key {
                proof {
                    assert(self.view()[i as int].0 == key);
                    lemma_key_index(self.view(), i as int);
                }
                return Some(i);
            }
            i = i + 1;
        }
        None
    }

    pub fn contains(&self, key: u64) -> (r: bool)
        requires
            self.wf(),
        ensures
            r == has_key(self.view(), key),
    {
        self.find(key).is_some()
    }

    pub fn key_at(&self, i: usize) -> (r: u64)
        requires
            i < self.view().len(),
        ensures
            r == self.view()[i as int].0,
    {
        self.entries[i].0
    }

    pub fn at(&self, i: usize) -> (r: &V)
        requires
            i < self.view().len(),
        ensures
            r@ == self.view()[i as int].1,
    {
        &self.entries[i].1
    }

    /// The value at a place, to be changed there.
    pub fn at_mut(&mut self, i: usize) -> (r: &mut V)
        requires
            i < old(self).view().len(),
        ensures
            (*r)@ == old(self).view()[i as int].1,
            final(self).view() == old(self).view().update(
                i as int,
                (old(self).view()[i as int].0, (*final(r))@),
            ),
    {
        let ghost before = self.view();
        let r = &mut self.entries[i].1;
        proof {
            assert(after_borrow(self).view() =~= before.update(
                i as int,
                (before[i as int].0, (*final(r))@),
            ));
        }
        r
    }

    /// Stores a value for the key.
    pub fn put(&mut self, key: u64, value: V)
        requires
            old(self).wf(),
        ensures
            final(self).wf(),
            final(self).view() == with_value(old(self).view(), key, value@),
    {
        let ghost before = self.view();
        proof {
            lemma_with_value(before, key, value@);
        }
        match self.find(key) {
            Some(i) => {
                self.entries[i] = (key, value);
            },
            None => {
                self.entries.push((key, value));
            },
        }
        assert(self.view() =~= with_value(before, key, value@));
    }

    /// Removes the key.
    pub fn remove(&mut self, key: u64) -> (r: Option<V>)
        requires
            old(self).wf(),
        ensures
            final(self).wf(),
            final(self).view() == without_key(old(self).view(), key),
            match r {
                Some(v) => lookup(old(self).view(), key) == Some(v@),
                None => lookup(old(self).view(), key) is None,
            },
    {
        let ghost before = self.view();
        proof {
            lemma_without_key(before, key);
        }
        match self.find(key) {
            Some(i) => {
                let (_, v) = self.entries.remove(i);
                assert(self.view() =~= without_key(before, key));
                Some(v)
            },
            None => None,
        }
    }
}

/// A table keyed by name.
#[derive(Debug)]
pub struct NameTable<V> {
    entries: Vec<(String, V)>,
}

impl<V: View> NameTable<V> {
    /// The entries in order, names and values by their views.
    pub closed spec fn view(&self) -> Seq<(Seq<char>, V::V)> {
        Seq::new(self.entries@.len(), |i: int| (self.entries@[i].0@, self.entries@[i].1@))
    }

    pub open spec fn wf(&self) -> bool {
        distinct_keys(self.view())
    }

    pub fn new() -> (r: Self)
        ensures
            r.wf(),
            r.view() == Seq::<(Seq<char>, V::V)>::empty(),
    {
        let r = NameTable { entries: Vec::new() };
        assert(r.view() =~= Seq::<(Seq<char>, V::V)>::empty());
        r
    }

    pub fn len(&self) -> (r: usize)
        ensures
            r == self.view().len(),
    {
        self.entries.len()
    }

    /// Where the key is.
    pub fn find(&self, key: &str) -> (r: Option<usize>)
        requires
            self.wf(),
        ensures
            match r {
                Some(i) => i < self.view().len() && self.view()[i as int].0 == key@ && has_key(
                    self.view(),
                    key@,
                ) && key_index(self.view(), key@) == i,
                None => !has_key(self.view(), key@),
            },
    {
        let n: usize = self.entries.len();
        let mut i: usize = 0;
        while i < n
            invariant
                i <= n,
                n == self.entries@.len(),
                self.wf(),
                forall|j: int| 0 <= j < i ==> (#[trigger] self.view()[j]).0 != key@,
            decreases n - i,
        {
            if text_eq(self.entries[i].0.as_str(), key) {
                proof {
                    assert(self.view()[i as int].0 == key@);
                    lemma_key_index(self.view(), i as int);
                }
                return Some(i);
            }
            i = i + 1;
        }
        None
    }

    pub fn contains(&self, key: &str) -> (r: bool)
        requires
            self.wf(),
        ensures
            r == has_key(self.view(), key@),
    {
        self.find(key).is_some()
    }

    pub fn at(&self, i: usize) -> (r: &V)
        requires
            i < self.view().len(),
        ensures
            r@ == self.view()[i as int].1,
    {
        &self.entries[i].1
    }

    /// The value at a place, to be changed there.
    pub fn at_mut(&mut self, i: usize) -> (r: &mut V)
        requires
            i < old(self).view().len(),
        ensures
            (*r)@ == old(self).view()[i as int].1,
            final(self).view() == old(self).view().update(
                i as int,
                (old(self).view()[i as int].0, (*final(r))@),
            ),
    {
        let ghost before = self.view();
        let r = &mut self.entries[i].1;
        proof {
            assert(after_borrow(self).view() =~= before.update(
                i as int,
                (before[i as int].0, (*final(r))@),
            ));
        }
        r
    }

    /// Stores a value for the key.
    pub fn put(&mut self, key: String, value: V)
        requires
            old(self).wf(),
        ensures
            final(self).wf(),
            final(self).view() == with_value(old(self).view(), key@, value@),
    {
        let ghost before = self.view();
        let ghost name = key@;
        let ghost given = value@;
        proof {
            lemma_with_value(before, name, given);
        }
        match self.find(key.as_str()) {
            Some(i) => {
                self.entries[i] = (key, value);
            },
            None => {
                self.entries.push((key, value));
            },
        }
        assert(self.view() =~= with_value(before, name, given));
    }

    /// Removes the key.
    pub fn remove(&mut self, key: &str) -> (r: Option<V>)
        requires
            old(self).wf(),
        ensures
            final(self).wf(),
            final(self).view() == without_key(old(self).view(), key@),
            match r {
                Some(v) => lookup(old(self).view(), key@) == Some(v@),
                None => lookup(old(self).view(), key@) is None,
            },
    {
        let ghost before = self.view();
        proof {
            lemma_without_key(before, key@);
        }
        match self.find(key) {
            Some(i) => {
                let (_, v) = self.entries.remove(i);
                assert(self.view() =~= without_key(before, key@));
                Some(v)
            },
            None => None,
        }
    }
}

/// A table keyed by ids of `N` bytes.
#[derive(Debug)]
pub struct IdTable<const N: usize, V> {
    entries: Vec<([u8; N], V)>,
}

impl<const N: usize, V: View> IdTable<N, V> {
    /// The entries in order, ids and values by their views.
    pub closed spec fn view(&self) -> Seq<(Seq<u8>, V::V)> {
        Seq::new(self.entries@.len(), |i: int| (self.entries@[i].0@, self.entries@[i].1@))
    }

    pub open spec fn wf(&self) -> bool {
        distinct_keys(self.view())
    }

    pub fn new() -> (r: Self)
        ensures
            r.wf(),
            r.view() == Seq::<(Seq<u8>, V::V)>::empty(),
    {
        let r = IdTable { entries: Vec::new() };
        assert(r.view() =~= Seq::<(Seq<u8>, V::V)>::empty());
        r
    }

    pub fn len(&self) -> (r: usize)
        ensures
            r == self.view().len(),
    {
        self.entries.len()
    }

    /// Where the key is.
    pub fn find(&self, key: &[u8; N]) -> (r: Option<usize>)
        requires
            self.wf(),
        ensures
            match r {
                Some(i) => i < self.view().len() && self.view()[i as int].0 == key@ && has_key(
                    self.view(),
                    key@,
                ) && key_index(self.view(), key@) == i,
                None => !has_key(self.view(), key@),
            },
    {
        let n: usize = self.entries.len();
        let mut i: usize = 0;
        while i < n
            invariant
                i <= n,
                n == self.entries@.len(),
                self.wf(),
                forall|j: int| 0 <= j < i ==> (#[trigger] self.view()[j]).0 != key@,
            decreases n - i,
        {
            if bytes_eq(&self.entries[i].0, key) {
                proof {
                    assert(self.view()[i as int].0 == key@);
                    lemma_key_index(self.view(), i as int);
                }
                return Some(i);
            }
            i = i + 1;
        }
        None
    }

    pub fn contains(&self, key: &[u8; N]) -> (r: bool)
        requires
            self.wf(),
        ensures
            r == has_key(self.view(), key@),
    {
        self.find(key).is_some()
    }

    pub fn key_at(&self, i: usize) -> (r: [u8; N])
        requires
            i < self.view().len(),
        ensures
            r@ == self.view()[i as int].0,
    {
        self.entries[i].0
    }

    pub fn at(&self, i: usize) -> (r: &V)
        requires
            i < self.view().len(),
        ensures
            r@ == self.view()[i as int].1,
    {
        &self.entries[i].1
    }

    /// The value at a place, to be changed there.
    pub fn at_mut(&mut self, i: usize) -> (r: &mut V)
        requires
            i < old(self).view().len(),
        ensures
            (*r)@ == old(self).view()[i as int].1,
            final(self).view() == old(self).view().update(
                i as int,
                (old(self).view()[i as int].0, (*final(r))@),
            ),
    {
        let ghost before = self.view();
        let r = &mut self.entries[i].1;
        proof {
            assert(after_borrow(self).view() =~= before.update(
                i as int,
                (before[i as int].0, (*final(r))@),
            ));
        }
        r
    }

    /// Stores a value for the key.
    pub fn put(&mut self, key: [u8; N], value: V)
        requires
            old(self).wf(),
        ensures
            final(self).wf(),
            final(self).view() == with_value(old(self).view(), key@, value@),
    {
        let ghost before = self.view();
        let ghost name = key@;
        let ghost given = value@;
        proof {
            lemma_with_value(before, name, given);
        }
        match self.find(&key) {
            Some(i) => {
                self.entries[i] = (key, value);
            },
            None => {
                self.entries.push((key, value));
            },
        }
        assert(self.view() =~= with_value(before, name, given));
    }

    /// Removes the key.
    pub fn remove(&mut self, key: &[u8; N]) -> (r: Option<V>)
        requires
            old(self).wf(),
        ensures
            final(self).wf(),
            final(self).view() == without_key(old(self).view(), key@),
            match r {
                Some(v) => lookup(old(self).view(), key@) == Some(v@),
                None => lookup(old(self).view(), key@) is None,
            },
    {
        let ghost before = self.view();
        proof {
            lemma_without_key(before, key@);
        }
        match self.find(key) {
            Some(i) => {
                let (_, v) = self.entries.remove(i);
                assert(self.view() =~= without_key(before, key@));
                Some(v)
            },
            None => None,
        }
    }
}

} // verus!
