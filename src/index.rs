//! The in-memory index: from each key to the byte offset in the log of the
//! record that last set it.

use vstd::prelude::*;

verus! {

/// Pairs of key and offset, each key at most once.
pub struct Index {
    entries: Vec<(String, u64)>,
}

impl View for Index {
    type V = Map<Seq<char>, u64>;

    closed spec fn view(&self) -> Map<Seq<char>, u64> {
        Map::new(
            |k: Seq<char>| exists|i: int| 0 <= i < self.entries@.len() && self.entries@[i].0@ == k,
            |k: Seq<char>|
                self.entries@[choose|i: int| 0 <= i < self.entries@.len() && self.entries@[i].0@ == k].1,
        )
    }
}

impl Index {
    /// No key stands twice.
    pub closed spec fn wf(&self) -> bool {
        forall|i: int, j: int|
            0 <= i < self.entries@.len() && 0 <= j < self.entries@.len() && i != j
                ==> self.entries@[i].0@ != self.entries@[j].0@
    }

    proof fn lemma_at(&self, i: int)
        requires
            self.wf(),
            0 <= i < self.entries@.len(),
        ensures
            self@.contains_key(self.entries@[i].0@),
            self@[self.entries@[i].0@] == self.entries@[i].1,
    {
        let k = self.entries@[i].0@;
        assert(self@.dom().contains(k));
        let j = choose|j: int| 0 <= j < self.entries@.len() && self.entries@[j].0@ == k;
        assert(i == j);
    }

    /// An index that holds no key.
    pub fn new() -> (r: Index)
        ensures
            r.wf(),
            r@ == Map::<Seq<char>, u64>::empty(),
    {
        let r = Index { entries: Vec::new() };
        assert(r@ =~= Map::<Seq<char>, u64>::empty());
        r
    }

    /// Where `key` stands among the entries.
    fn position(&self, key: &String) -> (r: Option<usize>)
        requires
            self.wf(),
        ensures
            r matches Some(i) ==> i < self.entries@.len() && self.entries@[i as int].0@ == key@,
            r is None ==> !self@.contains_key(key@),
    {
        let mut i: usize = 0;
        while i < self.entries.len()
            invariant
                i <= self.entries@.len(),
                forall|j: int| 0 <= j < i ==> self.entries@[j].0@ != key@,
            decreases self.entries@.len() - i,
        {
            if self.entries[i].0 == *key {
                return Some(i);
            }
            i = i + 1;
        }
        None
    }

    /// The offset of `key`, if the index holds it.
    pub fn lookup(&self, key: &String) -> (r: Option<u64>)
        requires
            self.wf(),
        ensures
            r == (if self@.contains_key(key@) {
                Some(self@[key@])
            } else {
                None
            }),
    {
        match self.position(key) {
            Some(i) => {
                proof {
                    self.lemma_at(i as int);
                }
                Some(self.entries[i].1)
            },
            None => None,
        }
    }

    /// Points `key` at `offset`.
    pub fn put(&mut self, key: String, offset: u64)
        requires
            old(self).wf(),
        ensures
            final(self).wf(),
            final(self)@ == old(self)@.insert(key@, offset),
    {
        match self.position(&key) {
            Some(i) => {
                let ghost k = key@;
                self.entries.set(i, (key, offset));
                proof {
                    assert forall|x: Seq<char>| #[trigger] self@.contains_key(x) == old(self)@.insert(k, offset).contains_key(x) by {
                        if old(self)@.contains_key(x) {
                            let j = choose|j: int| 0 <= j < old(self).entries@.len() && old(self).entries@[j].0@ == x;
                            assert(self.entries@[j].0@ == x);
                        }
                        if self@.contains_key(x) {
                            let j = choose|j: int| 0 <= j < self.entries@.len() && self.entries@[j].0@ == x;
                            if j != i {
                                assert(old(self).entries@[j].0@ == x);
                            }
                        }
                    }
                    assert forall|x: Seq<char>| #[trigger] self@.contains_key(x) implies self@[x] == old(self)@.insert(k, offset)[x] by {
                        let j = choose|j: int| 0 <= j < self.entries@.len() && self.entries@[j].0@ == x;
                        self.lemma_at(j);
                        if j != i {
                            old(self).lemma_at(j);
                        }
                    }
                    assert(self@ =~= old(self)@.insert(k, offset));
                }
            },
            None => {
                let ghost k = key@;
                self.entries.push((key, offset));
                proof {
                    let n = old(self).entries@.len();
                    assert forall|x: Seq<char>| #[trigger] self@.contains_key(x) == old(self)@.insert(k, offset).contains_key(x) by {
                        if old(self)@.contains_key(x) {
                            let j = choose|j: int| 0 <= j < n && old(self).entries@[j].0@ == x;
                            assert(self.entries@[j].0@ == x);
                        }
                        if x == k {
                            assert(self.entries@[n as int].0@ == x);
                        }
                        if self@.contains_key(x) {
                            let j = choose|j: int| 0 <= j < self.entries@.len() && self.entries@[j].0@ == x;
                            if j != n {
                                assert(old(self).entries@[j].0@ == x);
                            }
                        }
                    }
                    assert forall|x: Seq<char>| #[trigger] self@.contains_key(x) implies self@[x] == old(self)@.insert(k, offset)[x] by {
                        let j = choose|j: int| 0 <= j < self.entries@.len() && self.entries@[j].0@ == x;
                        self.lemma_at(j);
                        if j != n {
                            old(self).lemma_at(j);
                        }
                    }
                    assert(self@ =~= old(self)@.insert(k, offset));
                }
            },
        }
    }

    /// Takes `key` out; true if it was there.
    pub fn delete(&mut self, key: &String) -> (r: bool)
        requires
            old(self).wf(),
        ensures
            final(self).wf(),
            r == old(self)@.contains_key(key@),
            final(self)@ == old(self)@.remove(key@),
    {
        match self.position(key) {
            Some(i) => {
                proof {
                    old(self).lemma_at(i as int);
                }
                let ghost k = key@;
                let ghost n = old(self).entries@.len();
                let last = self.entries.len() - 1;
                let _ = self.entries.swap_remove(i);
                proof {
                    assert forall|x: Seq<char>| #[trigger] self@.contains_key(x) == old(self)@.remove(k).contains_key(x) by {
                        if old(self)@.contains_key(x) && x != k {
                            let j = choose|j: int| 0 <= j < n && old(self).entries@[j].0@ == x;
                            if j == last {
                                assert(self.entries@[i as int].0@ == x);
                            } else {
                                assert(self.entries@[j].0@ == x);
                            }
                        }
                        if self@.contains_key(x) {
                            let j = choose|j: int| 0 <= j < self.entries@.len() && self.entries@[j].0@ == x;
                            if j == i {
                                assert(old(self).entries@[last as int].0@ == x);
                            } else {
                                assert(old(self).entries@[j].0@ == x);
                            }
                        }
                    }
                    assert forall|x: Seq<char>| #[trigger] self@.contains_key(x) implies self@[x] == old(self)@.remove(k)[x] by {
                        let j = choose|j: int| 0 <= j < self.entries@.len() && self.entries@[j].0@ == x;
                        self.lemma_at(j);
                        if j == i {
                            old(self).lemma_at(last as int);
                        } else {
                            old(self).lemma_at(j);
                        }
                    }
                    assert(self@ =~= old(self)@.remove(k));
                }
                true
            },
            None => {
                proof {
                    assert(self@ =~= old(self)@.remove(key@));
                }
                false
            },
        }
    }
}

} // verus!
