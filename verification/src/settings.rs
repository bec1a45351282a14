//! A layer of overrides: settings by key, as the user wrote them.

use crate::sorting::{codes, precedes, text_before};
use crate::text::{lemma_position, lemma_position_is, position, same_text};
use vstd::prelude::*;

verus! {

/// Settings by key.
#[derive(Clone, Debug)]
pub struct Settings {
    entries: Vec<(String, String)>,
}

impl Settings {
    spec fn keys(self) -> Seq<Seq<char>> {
        self.entries@.map_values(|e: (String, String)| e.0@)
    }

    /// No key is set twice.
    pub closed spec fn wf(self) -> bool {
        forall|i: int, j: int| 0 <= i < j < self.keys().len() ==> self.keys()[i] != self.keys()[j]
    }
}

impl View for Settings {
    type V = Map<Seq<char>, Seq<char>>;

    closed spec fn view(&self) -> Map<Seq<char>, Seq<char>> {
        Map::new(
            |key: Seq<char>| position(self.keys(), key) is Some,
            |key: Seq<char>| self.entries@[position(self.keys(), key)->0].1@,
        )
    }
}

/// The key comes before every other key of the settings.
pub open spec fn first_of(settings: Map<Seq<char>, Seq<char>>, key: Seq<char>) -> bool {
    &&& settings.contains_key(key)
    &&& forall|other: Seq<char>|
        settings.contains_key(other) && other != key ==> precedes(codes(key), #[trigger] codes(other))
}

impl Settings {
    /// No settings.
    pub fn new() -> (s: Settings)
        ensures
            s.wf(),
            s@ == Map::<Seq<char>, Seq<char>>::empty(),
    {
        let s = Settings { entries: Vec::new() };
        proof {
            assert forall|key: Seq<char>| !s@.contains_key(key) by {
                lemma_position(s.keys(), key);
            }
            assert(s@ =~= Map::<Seq<char>, Seq<char>>::empty());
        }
        s
    }

    fn find(&self, key: &str) -> (r: Option<usize>)
        ensures
            match r {
                Some(i) => i < self.entries@.len() && position(self.keys(), key@) == Some(i as int),
                None => position(self.keys(), key@) is None,
            },
    {
        let mut i: usize = 0;
        while i < self.entries.len()
            invariant
                i <= self.entries@.len(),
                forall|j: int| 0 <= j < i ==> self.keys()[j] != key@,
            decreases self.entries@.len() - i,
        {
            assert(self.keys()[i as int] == self.entries@[i as int].0@);
            if same_text(self.entries[i].0.as_str(), key) {
                proof {
                    lemma_position_is(self.keys(), key@, i as int);
                }
                return Some(i);
            }
            i = i + 1;
        }
        proof {
            lemma_position(self.keys(), key@);
        }
        None
    }

    /// The value of a key.
    pub fn get(&self, key: &str) -> (r: Option<&String>)
        ensures
            match r {
                Some(value) => self@.contains_key(key@) && self@[key@] == value@,
                None => !self@.contains_key(key@),
            },
    {
        match self.find(key) {
            Some(i) => Some(&self.entries[i].1),
            None => None,
        }
    }

    /// Sets a key, over what it was.
    pub fn insert(&mut self, key: String, value: String)
        requires
            old(self).wf(),
        ensures
            final(self).wf(),
            final(self)@ == old(self)@.insert(key@, value@),
    {
        let ghost before = *self;
        let ghost name = key@;
        match self.find(key.as_str()) {
            Some(i) => {
                self.entries.set(i, (key, value));
                proof {
                    assert(self.keys() =~= before.keys()) by {
                        lemma_position(before.keys(), name);
                    }
                    assert(self@ =~= before@.insert(name, value@)) by {
                        assert forall|k: Seq<char>| #[trigger] self@.contains_key(k) implies self@[k]
                            == before@.insert(name, value@)[k] by {
                            lemma_position(before.keys(), k);
                            lemma_position(before.keys(), name);
                        }
                    }
                }
            },
            None => {
                self.entries.push((key, value));
                proof {
                    lemma_position(before.keys(), name);
                    assert(self.keys() =~= before.keys().push(name));
                    let n = before.keys().len() as int;
                    assert(self@ =~= before@.insert(name, value@)) by {
                        assert forall|k: Seq<char>|
                            #![trigger self@.contains_key(k)]
                            self@.contains_key(k) == before@.insert(name, value@).contains_key(k) && (self@.contains_key(k)
                                ==> self@[k] == before@.insert(name, value@)[k]) by {
                            lemma_position(before.keys(), k);
                            lemma_position(self.keys(), k);
                            if k == name {
                                lemma_position_is(self.keys(), k, n);
                            } else if position(before.keys(), k) is Some {
                                lemma_position_is(self.keys(), k, position(before.keys(), k)->0);
                            } else if position(self.keys(), k) is Some {
                                assert(before.keys()[position(self.keys(), k)->0] == k);
                            }
                        }
                    }
                }
            },
        }
    }

    /// Sets a key that is not set.
    pub fn insert_new(&mut self, key: String, value: String)
        requires
            old(self).wf(),
        ensures
            final(self).wf(),
            final(self)@ == (if old(self)@.contains_key(key@) {
                old(self)@
            } else {
                old(self)@.insert(key@, value@)
            }),
    {
        if self.get(key.as_str()).is_none() {
            self.insert(key, value);
        }
    }

    /// Takes a key out.
    pub fn remove(&mut self, key: &str) -> (r: Option<String>)
        requires
            old(self).wf(),
        ensures
            final(self).wf(),
            final(self)@ == old(self)@.remove(key@),
            match r {
                Some(value) => old(self)@.contains_key(key@) && old(self)@[key@] == value@,
                None => !old(self)@.contains_key(key@),
            },
    {
        let ghost before = *self;
        match self.find(key) {
            Some(i) => {
                let taken = self.entries.remove(i);
                proof {
                    lemma_position(before.keys(), key@);
                    assert(self.keys() =~= before.keys().remove(i as int));
                    assert forall|a: int, b: int| 0 <= a < b < self.keys().len() implies self.keys()[a]
                        != self.keys()[b] by {
                        let x = if a < i { a } else { a + 1 };
                        let y = if b < i { b } else { b + 1 };
                        assert(self.keys()[a] == before.keys()[x]);
                        assert(self.keys()[b] == before.keys()[y]);
                    }
                    assert(self@ =~= before@.remove(key@)) by {
                        assert forall|k: Seq<char>|
                            #![trigger self@.contains_key(k)]
                            self@.contains_key(k) == before@.remove(key@).contains_key(k) && (self@.contains_key(k)
                                ==> self@[k] == before@[k]) by {
                            lemma_position(before.keys(), k);
                            lemma_position(self.keys(), k);
                            if k == key@ {
                                if position(self.keys(), k) is Some {
                                    let p = position(self.keys(), k)->0;
                                    let x = if p < i { p } else { p + 1 };
                                    assert(before.keys()[x] == k);
                                    assert(before.keys()[i as int] == k);
                                }
                            } else if position(before.keys(), k) is Some {
                                let p = position(before.keys(), k)->0;
                                let x = if p < i { p } else { p - 1 };
                                assert(self.keys()[x] == k);
                                assert forall|j: int| 0 <= j < x implies self.keys()[j] != k by {
                                    let y = if j < i { j } else { j + 1 };
                                    assert(self.keys()[j] == before.keys()[y]);
                                }
                                lemma_position_is(self.keys(), k, x);
                            } else if position(self.keys(), k) is Some {
                                let p = position(self.keys(), k)->0;
                                let x = if p < i { p } else { p + 1 };
                                assert(before.keys()[x] == k);
                            }
                        }
                    }
                }
                Some(taken.1)
            },
            None => {
                assert(self@ =~= before@.remove(key@));
                None
            },
        }
    }

    proof fn lemma_keys(&self)
        requires
            self.wf(),
        ensures
            self@.dom().len() == self.entries@.len(),
            self@.dom().finite(),
            self.entries@.len() == 0 <==> self@ == Map::<Seq<char>, Seq<char>>::empty(),
    {
        let keys = self.keys();
        assert(self@.dom() =~= keys.to_set()) by {
            assert forall|key: Seq<char>| self@.dom().contains(key) <==> keys.to_set().contains(key) by {
                lemma_position(keys, key);
                if keys.to_set().contains(key) {
                    assert(keys.contains(key));
                }
            }
        }
        keys.unique_seq_to_set();
        if self.entries@.len() == 0 {
            assert(self@ =~= Map::<Seq<char>, Seq<char>>::empty());
        } else {
            assert(keys.to_set().contains(keys[0]));
        }
    }

    /// How many keys are set.
    pub fn len(&self) -> (n: usize)
        requires
            self.wf(),
        ensures
            n == self@.dom().len(),
            self@.dom().finite(),
    {
        proof {
            self.lemma_keys();
        }
        self.entries.len()
    }

    /// True when no key is set.
    pub fn is_empty(&self) -> (yes: bool)
        requires
            self.wf(),
        ensures
            yes == (self@ == Map::<Seq<char>, Seq<char>>::empty()),
    {
        proof {
            self.lemma_keys();
        }
        self.entries.len() == 0
    }

    /// The first key, in the order of code points.
    pub fn first_key(&self) -> (r: Option<String>)
        requires
            self.wf(),
        ensures
            match r {
                Some(key) => first_of(self@, key@),
                None => self@ == Map::<Seq<char>, Seq<char>>::empty(),
            },
    {
        proof {
            self.lemma_keys();
        }
        if self.entries.len() == 0 {
            return None;
        }
        let mut best: usize = 0;
        let mut i: usize = 1;
        while i < self.entries.len()
            invariant
                self.wf(),
                best < i <= self.entries@.len(),
                forall|j: int|
                    0 <= j < i && j != best ==> precedes(codes(self.keys()[best as int]), codes(#[trigger] self.keys()[j])),
            decreases self.entries@.len() - i,
        {
            assert(self.keys()[i as int] == self.entries@[i as int].0@);
            assert(self.keys()[best as int] == self.entries@[best as int].0@);
            let earlier = text_before(self.entries[i].0.as_str(), self.entries[best].0.as_str());
            proof {
                let a = self.keys()[i as int];
                let b = self.keys()[best as int];
                assert(a != b);
                if earlier {
                    assert forall|j: int| 0 <= j < i + 1 && j != i implies precedes(
                        codes(a),
                        codes(#[trigger] self.keys()[j]),
                    ) by {
                        if j != best {
                            crate::sorting::lemma_precedes_chains(codes(a), codes(b), codes(self.keys()[j]));
                        }
                    }
                } else {
                    crate::sorting::lemma_texts_compare(b, a);
                }
            }
            if earlier {
                best = i;
            }
            i = i + 1;
        }
        proof {
            let key = self.keys()[best as int];
            lemma_position(self.keys(), key);
            assert(self@.contains_key(key));
            assert forall|other: Seq<char>| self@.contains_key(other) && other != key implies precedes(
                codes(key),
                #[trigger] codes(other),
            ) by {
                lemma_position(self.keys(), other);
                assert(self.keys()[position(self.keys(), other)->0] == other);
            }
        }
        Some(self.entries[best].0.clone())
    }

    /// The settings of this layer, and what `below` adds to them.
    pub fn over(self, below: &Settings) -> (r: Settings)
        requires
            self.wf(),
            below.wf(),
        ensures
            r.wf(),
            r@ == below@.union_prefer_right(self@),
    {
        let mut r = self;
        let mut i: usize = 0;
        assert forall|k: Seq<char>| below@.contains_key(k) implies position(below.keys(), k)->0 >= 0 by {
            lemma_position(below.keys(), k);
        }
        while i < below.entries.len()
            invariant
                r.wf(),
                below.wf(),
                i <= below.entries@.len(),
                forall|k: Seq<char>| #[trigger]
                    r@.contains_key(k) <==> self@.contains_key(k) || (below@.contains_key(k) && position(
                        below.keys(),
                        k,
                    )->0 < i),
                forall|k: Seq<char>| #[trigger]
                    r@.contains_key(k) ==> r@[k] == (if self@.contains_key(k) {
                        self@[k]
                    } else {
                        below@[k]
                    }),
            decreases below.entries@.len() - i,
        {
            let ghost before = r@;
            let ghost key = below.entries@[i as int].0@;
            r.insert_new(below.entries[i].0.clone(), below.entries[i].1.clone());
            proof {
                assert(below.keys()[i as int] == key);
                lemma_position_is(below.keys(), key, i as int);
                assert forall|k: Seq<char>| #[trigger] r@.contains_key(k) implies r@[k] == (if self@.contains_key(k) {
                    self@[k]
                } else {
                    below@[k]
                }) by {
                    assert(before.contains_key(k) || k == key);
                }
                assert forall|k: Seq<char>| #[trigger] r@.contains_key(k) <==> self@.contains_key(k) || (
                below@.contains_key(k) && position(below.keys(), k)->0 < i + 1) by {
                    lemma_position(below.keys(), k);
                    assert(before.contains_key(k) ==> r@.contains_key(k));
                    assert(r@.contains_key(k) ==> before.contains_key(k) || k == key);
                    if below@.contains_key(k) && position(below.keys(), k)->0 == i {
                        assert(k == key);
                    }
                }
            }
            i = i + 1;
        }
        proof {
            assert forall|k: Seq<char>| below@.contains_key(k) implies position(below.keys(), k)->0
                < below.entries@.len() by {
                lemma_position(below.keys(), k);
            }
            assert(r@ =~= below@.union_prefer_right(self@));
        }
        r
    }
}

} // verus!
