//! Tables: values by key, in the order the keys were first set.
//!
//! A table has a definite order, so that everything that walks one is
//! reproducible: two runs that set the same keys in the same order walk them in
//! the same order.

use vstd::prelude::*;

verus! {

/// Something that keys a table.
pub trait Ident: Sized + Copy {
    /// True when the two are the same.
    fn same(&self, other: &Self) -> (yes: bool)
        ensures
            yes == (*self == *other),
    ;
}

/// The place of a key; the length where the key is not set.
pub open spec fn place_of<K, V>(s: Seq<(K, V)>, key: K) -> int
    decreases s.len(),
{
    if s.len() == 0 || s[0].0 == key {
        0
    } else {
        1 + place_of(s.drop_first(), key)
    }
}

/// The key is set.
pub open spec fn holds<K, V>(s: Seq<(K, V)>, key: K) -> bool {
    place_of(s, key) < s.len()
}

/// The value of a key that is set.
pub open spec fn value_of<K, V>(s: Seq<(K, V)>, key: K) -> V {
    s[place_of(s, key)].1
}

/// The table with a key set.
pub open spec fn setting<K, V>(s: Seq<(K, V)>, key: K, value: V) -> Seq<(K, V)> {
    if holds(s, key) {
        s.update(place_of(s, key), (key, value))
    } else {
        s.push((key, value))
    }
}

/// The table without a key.
pub open spec fn dropping<K, V>(s: Seq<(K, V)>, key: K) -> Seq<(K, V)> {
    if holds(s, key) {
        s.remove(place_of(s, key))
    } else {
        s
    }
}

/// No key is set twice.
pub open spec fn unique<K, V>(s: Seq<(K, V)>) -> bool {
    forall|i: int, j: int| 0 <= i < j < s.len() ==> (#[trigger] s[i]).0 != (#[trigger] s[j]).0
}

/// The place of a key is the first that holds it.
pub proof fn lemma_place<K, V>(s: Seq<(K, V)>, key: K)
    ensures
        0 <= place_of(s, key) <= s.len(),
        holds(s, key) ==> s[place_of(s, key)].0 == key,
        forall|i: int| 0 <= i < place_of(s, key) ==> (#[trigger] s[i]).0 != key,
    decreases s.len(),
{
    if s.len() > 0 && s[0].0 != key {
        lemma_place(s.drop_first(), key);
        assert forall|i: int| 0 <= i < place_of(s, key) implies (#[trigger] s[i]).0 != key by {
            if i > 0 {
                assert(s.drop_first()[i - 1] == s[i]);
            }
        }
    }
}

/// In a table without doubles, the place that holds a key is its place.
pub proof fn lemma_place_is<K, V>(s: Seq<(K, V)>, i: int)
    requires
        unique(s),
        0 <= i < s.len(),
    ensures
        place_of(s, s[i].0) == i,
        holds(s, s[i].0),
        value_of(s, s[i].0) == s[i].1,
{
    lemma_place(s, s[i].0);
    let p = place_of(s, s[i].0);
    if p < i {
        assert(s[p].0 != s[i].0);
    }
}

/// Setting and taking out keys makes no doubles.
pub proof fn lemma_stays_unique<K, V>(s: Seq<(K, V)>, key: K, value: V)
    requires
        unique(s),
    ensures
        unique(setting(s, key, value)),
        unique(dropping(s, key)),
{
    lemma_place(s, key);
    let t = setting(s, key, value);
    assert forall|i: int, j: int| 0 <= i < j < t.len() implies (#[trigger] t[i]).0 != (#[trigger] t[j]).0 by {
        if j < s.len() {
            assert(s[i].0 != s[j].0);
        }
    }
    let u = dropping(s, key);
    assert forall|i: int, j: int| 0 <= i < j < u.len() implies (#[trigger] u[i]).0 != (#[trigger] u[j]).0 by {
        if holds(s, key) {
            let p = place_of(s, key);
            let x = if i < p { i } else { i + 1 };
            let y = if j < p { j } else { j + 1 };
            assert(s[x].0 != s[y].0);
        } else {
            assert(s[i].0 != s[j].0);
        }
    }
}

/// A key that was set reads as what it was set to, and every other key reads as
/// before.
pub proof fn lemma_setting<K, V>(s: Seq<(K, V)>, key: K, value: V, other: K)
    ensures
        holds(setting(s, key, value), key),
        value_of(setting(s, key, value), key) == value,
        other != key ==> holds(setting(s, key, value), other) == holds(s, other),
        other != key && holds(s, other) ==> value_of(setting(s, key, value), other) == value_of(s, other),
{
    let t = setting(s, key, value);
    lemma_place(s, key);
    lemma_place(s, other);
    lemma_place(t, key);
    lemma_place(t, other);
    let p = place_of(s, key);
    let q = place_of(t, key);
    assert(t[p] == (key, value));
    if q < p {
        assert(t[q].0 == s[q].0);
    }
    if other != key {
        let a = place_of(s, other);
        let c = place_of(t, other);
        if a < s.len() {
            assert(t[a].0 == other);
        }
        if c < t.len() {
            assert(t[c].0 == other && c != p);
            assert(s[c] == t[c]);
        }
        if a < s.len() && c < t.len() {
            if a < c {
                assert(t[a].0 != other);
            }
            if c < a {
                assert(s[c].0 != other);
            }
        }
    }
}

/// A key that was taken out is not set any more, and every other key reads as
/// before.
pub proof fn lemma_dropping<K, V>(s: Seq<(K, V)>, key: K, other: K)
    requires
        unique(s),
    ensures
        !holds(dropping(s, key), key),
        other != key ==> holds(dropping(s, key), other) == holds(s, other),
        other != key && holds(s, other) ==> value_of(dropping(s, key), other) == value_of(s, other),
{
    let t = dropping(s, key);
    lemma_place(s, key);
    lemma_place(s, other);
    lemma_place(t, key);
    lemma_place(t, other);
    if holds(s, key) {
        let p = place_of(s, key);
        if holds(t, key) {
            let q = place_of(t, key);
            let x = if q < p { q } else { q + 1 };
            assert(t[q] == s[x]);
            lemma_place_is(s, x);
        }
        if other != key {
            lemma_stays_unique(s, key, s[p].1);
            if holds(s, other) {
                let a = place_of(s, other);
                let i = if a < p { a } else { a - 1 };
                assert(t[i] == s[a]);
                lemma_place_is(t, i);
            }
            if holds(t, other) {
                let q = place_of(t, other);
                let x = if q < p { q } else { q + 1 };
                assert(t[q] == s[x]);
                lemma_place_is(s, x);
            }
        }
    }
}

/// A table holds a key exactly when some entry of it has that key, and reads as
/// that entry.
pub proof fn law_a_table_reads_its_entries<K, V>(s: Seq<(K, V)>, key: K)
    requires
        unique(s),
    ensures
        holds(s, key) <==> exists|i: int| 0 <= i < s.len() && (#[trigger] s[i]).0 == key,
        forall|i: int| 0 <= i < s.len() && (#[trigger] s[i]).0 == key ==> value_of(s, key) == s[i].1,
{
    lemma_place(s, key);
    if holds(s, key) {
        assert(s[place_of(s, key)].0 == key);
    }
    assert forall|i: int| 0 <= i < s.len() && (#[trigger] s[i]).0 == key implies holds(s, key) && value_of(s, key) == s[i].1 by {
        lemma_place_is(s, i);
    }
}

/// What is set is read back, what is taken out is gone, and no other key notices
/// either.
pub proof fn law_a_table_keeps_what_it_is_given<K, V>(s: Seq<(K, V)>, key: K, value: V, other: K)
    requires
        unique(s),
    ensures
        ({
            let t = setting(s, key, value);
            let u = dropping(s, key);
            &&& t.contains((key, value))
            &&& unique(t)
            &&& unique(u)
            &&& forall|i: int| 0 <= i < u.len() ==> (#[trigger] u[i]).0 != key
            &&& other != key ==> {
                &&& forall|x: V| t.contains((other, x)) == #[trigger] s.contains((other, x))
                &&& forall|x: V| u.contains((other, x)) == #[trigger] s.contains((other, x))
            }
        }),
{
    let t = setting(s, key, value);
    let u = dropping(s, key);
    lemma_stays_unique(s, key, value);
    lemma_place(s, key);
    let p = place_of(s, key);
    assert(t[p] == (key, value));
    lemma_dropping(s, key, other);
    lemma_place(u, key);
    assert forall|i: int| 0 <= i < u.len() implies (#[trigger] u[i]).0 != key by {}
    if other != key {
        assert forall|x: V| t.contains((other, x)) == #[trigger] s.contains((other, x)) by {
            if s.contains((other, x)) {
                let i = choose|i: int| 0 <= i < s.len() && s[i] == (other, x);
                assert(t[i] == (other, x));
            }
            if t.contains((other, x)) {
                let i = choose|i: int| 0 <= i < t.len() && t[i] == (other, x);
                assert(s[i] == (other, x));
            }
        }
        assert forall|x: V| u.contains((other, x)) == #[trigger] s.contains((other, x)) by {
            if s.contains((other, x)) {
                let i = choose|i: int| 0 <= i < s.len() && s[i] == (other, x);
                let j = if i < p { i } else { i - 1 };
                if holds(s, key) {
                    assert(u[j] == (other, x));
                }
            }
            if u.contains((other, x)) {
                let j = choose|j: int| 0 <= j < u.len() && u[j] == (other, x);
                let i = if holds(s, key) && j >= p { j + 1 } else { j };
                assert(s[i] == (other, x));
            }
        }
    }
}

/// Setting a new key and taking it out again leaves the table as it was.
pub proof fn lemma_set_then_drop<K, V>(s: Seq<(K, V)>, key: K, value: V)
    requires
        !holds(s, key),
    ensures
        dropping(setting(s, key, value), key) == s,
{
    let t = setting(s, key, value);
    lemma_setting(s, key, value, key);
    lemma_place(s, key);
    lemma_place(t, key);
    let p = place_of(t, key);
    if p < s.len() {
        assert(s[p] == t[p]);
    }
    assert(t.remove(p) =~= s);
}

/// Values by key.
#[derive(Clone, Debug)]
pub struct Table<K, V> {
    entries: Vec<(K, V)>,
}

impl<K, V> View for Table<K, V> {
    type V = Seq<(K, V)>;

    closed spec fn view(&self) -> Seq<(K, V)> {
        self.entries@
    }
}

impl<K: Ident, V: Copy> Table<K, V> {
    /// A table with no key set.
    pub fn new() -> (t: Table<K, V>)
        ensures
            t@ == Seq::<(K, V)>::empty(),
            unique(t@),
    {
        Table { entries: Vec::new() }
    }

    fn find(&self, key: &K) -> (i: usize)
        ensures
            i == place_of(self@, *key),
            i <= self@.len(),
    {
        let n: usize = self.entries.len();
        let mut i: usize = 0;
        assert(self@.subrange(0, n as int) =~= self@);
        while i < n && !self.entries[i].0.same(key)
            invariant
                i <= n == self.entries@.len(),
                self@ == self.entries@,
                place_of(self@, *key) == i + place_of(self@.subrange(i as int, n as int), *key),
            decreases n - i,
        {
            proof {
                let rest = self@.subrange(i as int, n as int);
                assert(rest.drop_first() =~= self@.subrange(i + 1, n as int));
            }
            i = i + 1;
        }
        i
    }

    /// How many keys are set.
    pub fn len(&self) -> (n: usize)
        ensures
            n == self@.len(),
    {
        self.entries.len()
    }

    /// True when no key is set.
    pub fn is_empty(&self) -> (yes: bool)
        ensures
            yes == (self@.len() == 0),
    {
        self.entries.len() == 0
    }

    /// True when the key is set.
    pub fn contains_key(&self, key: &K) -> (yes: bool)
        ensures
            yes == holds(self@, *key),
    {
        self.find(key) < self.entries.len()
    }

    /// The value of a key.
    pub fn get(&self, key: &K) -> (r: Option<V>)
        ensures
            r == (if holds(self@, *key) {
                Some(value_of(self@, *key))
            } else {
                None
            }),
    {
        let i: usize = self.find(key);
        if i < self.entries.len() {
            Some(self.entries[i].1)
        } else {
            None
        }
    }

    /// Sets a key.
    pub fn insert(&mut self, key: K, value: V)
        ensures
            final(self)@ == setting(old(self)@, key, value),
            unique(old(self)@) ==> unique(final(self)@),
    {
        proof {
            if unique(self@) {
                lemma_stays_unique(self@, key, value);
            }
        }
        let i: usize = self.find(&key);
        if i < self.entries.len() {
            self.entries.set(i, (key, value));
        } else {
            self.entries.push((key, value));
        }
    }

    /// Takes a key out.
    pub fn remove(&mut self, key: &K)
        ensures
            final(self)@ == dropping(old(self)@, *key),
            unique(old(self)@) ==> unique(final(self)@),
    {
        let i: usize = self.find(key);
        proof {
            if unique(self@) && i < self@.len() {
                lemma_stays_unique(self@, *key, self@[i as int].1);
            }
        }
        if i < self.entries.len() {
            self.entries.remove(i);
        }
    }

    /// The key and the value at a place.
    pub fn entry(&self, i: usize) -> (r: (K, V))
        requires
            i < self@.len(),
        ensures
            r == self@[i as int],
    {
        (self.entries[i].0, self.entries[i].1)
    }

    /// Replaces the value at a place.
    pub fn set_at(&mut self, i: usize, value: V)
        requires
            i < old(self)@.len(),
        ensures
            final(self)@ == old(self)@.update(i as int, (old(self)@[i as int].0, value)),
            unique(old(self)@) ==> unique(final(self)@),
    {
        let key = self.entries[i].0;
        let ghost before = self@;
        self.entries.set(i, (key, value));
        proof {
            if unique(before) {
                assert forall|a: int, b: int| 0 <= a < b < self@.len() implies (#[trigger] self@[a]).0 != (
                #[trigger] self@[b]).0 by {
                    assert(before[a].0 != before[b].0);
                }
            }
        }
    }

    /// Sets a key that comes after all others.
    pub fn push(&mut self, key: K, value: V)
        requires
            !holds(old(self)@, key),
        ensures
            final(self)@ == old(self)@.push((key, value)),
            unique(old(self)@) ==> unique(final(self)@),
    {
        proof {
            if unique(self@) {
                lemma_stays_unique(self@, key, value);
            }
        }
        self.entries.push((key, value));
    }

    /// Takes every key out.
    pub fn clear(&mut self)
        ensures
            final(self)@ == Seq::<(K, V)>::empty(),
            unique(final(self)@),
    {
        self.entries = Vec::new();
    }
}

} // verus!
