//! Maps from texts.

use vstd::prelude::*;
use vstd::string::*;

use crate::text::same_text;

verus! {

/// A map from texts, as a list of entries with different keys.
#[derive(Debug)]
pub struct TextMap<V> {
    pub entries: Vec<(String, V)>,
}

impl<V: DeepView> View for TextMap<V> {
    type V = Map<Seq<char>, V::V>;

    open spec fn view(&self) -> Map<Seq<char>, V::V> {
        Map::new(
            |k: Seq<char>| self.has(k),
            |k: Seq<char>| self.entries@[self.place(k)].1.deep_view(),
        )
    }
}

impl<V: DeepView> TextMap<V> {
    pub open spec fn wf(&self) -> bool {
        forall|i: int, j: int|
            0 <= i < j < self.entries@.len() ==> (#[trigger] self.entries@[i]).0@ != (
            #[trigger] self.entries@[j]).0@
    }

    pub open spec fn is_at(&self, k: Seq<char>, i: int) -> bool {
        0 <= i < self.entries@.len() && self.entries@[i].0@ == k
    }

    pub open spec fn has(&self, k: Seq<char>) -> bool {
        exists|i: int| self.is_at(k, i)
    }

    pub open spec fn place(&self, k: Seq<char>) -> int {
        choose|i: int| self.is_at(k, i)
    }

    pub proof fn lemma_at(&self, k: Seq<char>, i: int)
        requires
            self.wf(),
            self.is_at(k, i),
        ensures
            self.has(k),
            self.place(k) == i,
            self@.dom().contains(k),
            self@[k] == self.entries@[i].1.deep_view(),
    {
        let p = self.place(k);
        assert(self.is_at(k, p));
        if p < i {
            assert(self.entries@[p].0@ != self.entries@[i].0@);
        } else if i < p {
            assert(self.entries@[i].0@ != self.entries@[p].0@);
        }
    }

    pub fn new() -> (r: Self)
        ensures
            r.wf(),
            r@ == Map::<Seq<char>, V::V>::empty(),
    {
        let r = TextMap { entries: Vec::new() };
        proof {
            assert forall|k: Seq<char>| !r.has(k) by {
                if r.has(k) {
                    let i = r.place(k);
                    assert(r.is_at(k, i));
                }
            }
            assert(r@ =~= Map::<Seq<char>, V::V>::empty());
        }
        r
    }

    fn find(&self, k: &str) -> (r: Option<usize>)
        requires
            self.wf(),
        ensures
            match r {
                Some(i) => self.is_at(k@, i as int) && self@.dom().contains(k@) && self@[k@]
                    == self.entries@[i as int].1.deep_view(),
                None => !self.has(k@) && !self@.dom().contains(k@),
            },
    {
        let mut i: usize = 0;
        while i < self.entries.len()
            invariant
                self.wf(),
                i <= self.entries@.len(),
                forall|j: int| 0 <= j < i ==> (#[trigger] self.entries@[j]).0@ != k@,
            decreases self.entries@.len() - i,
        {
            if same_text(self.entries[i].0.as_str(), k) {
                proof {
                    self.lemma_at(k@, i as int);
                }
                return Some(i);
            }
            i = i + 1;
        }
        None
    }

    pub fn get(&self, k: &str) -> (r: Option<&V>)
        requires
            self.wf(),
        ensures
            match r {
                Some(v) => self@.dom().contains(k@) && self@[k@] == v.deep_view(),
                None => !self@.dom().contains(k@),
            },
    {
        match self.find(k) {
            Some(i) => Some(&self.entries[i].1),
            None => None,
        }
    }

    pub fn contains(&self, k: &str) -> (r: bool)
        requires
            self.wf(),
        ensures
            r == self@.dom().contains(k@),
    {
        match self.find(k) {
            Some(_) => true,
            None => false,
        }
    }

    /// Takes an entry out; its value comes back.
    pub fn remove(&mut self, k: &str) -> (r: Option<V>)
        requires
            old(self).wf(),
        ensures
            final(self).wf(),
            final(self)@ == old(self)@.remove(k@),
            match r {
                Some(v) => old(self)@.dom().contains(k@) && old(self)@[k@] == v.deep_view(),
                None => !old(self)@.dom().contains(k@),
            },
    {
        let ghost before = *self;
        match self.find(k) {
            Some(i) => {
                let e = self.entries.remove(i);
                proof {
                    assert(self.entries@ =~= before.entries@.remove(i as int));
                    assert forall|a: int, b: int| 0 <= a < b < self.entries@.len() implies (
                    #[trigger] self.entries@[a]).0@ != (#[trigger] self.entries@[b]).0@ by {
                        let x = if a < i {
                            a
                        } else {
                            a + 1
                        };
                        let y = if b < i {
                            b
                        } else {
                            b + 1
                        };
                        assert(before.entries@[x].0@ != before.entries@[y].0@);
                    }
                    assert forall|q: Seq<char>|
                        #![trigger self@.dom().contains(q)]
                        #![trigger self@[q]]
                        self@.dom().contains(q) == before@.remove(
                        k@,
                    ).dom().contains(q) && (self@.dom().contains(q) ==> self@[q] == before@[q]) by {
                        if self.has(q) {
                            let p = self.place(q);
                            assert(self.is_at(q, p));
                            let o = if p < i {
                                p
                            } else {
                                p + 1
                            };
                            assert(before.is_at(q, o));
                            before.lemma_at(q, o);
                            self.lemma_at(q, p);
                            if q == k@ {
                                before.lemma_at(q, i as int);
                            }
                        }
                        if before.has(q) && q != k@ {
                            let p = before.place(q);
                            assert(before.is_at(q, p));
                            let o = if p < i {
                                p
                            } else {
                                p - 1
                            };
                            assert(self.is_at(q, o));
                        }
                    }
                    assert(self@ =~= before@.remove(k@));
                }
                Some(e.1)
            },
            None => {
                assert(self@ =~= before@.remove(k@));
                None
            },
        }
    }

    pub fn insert(&mut self, k: &str, v: V)
        requires
            old(self).wf(),
        ensures
            final(self).wf(),
            final(self)@ == old(self)@.insert(k@, v.deep_view()),
    {
        let ghost start = self@;
        let _ = self.remove(k);
        let ghost before = *self;
        self.entries.push((k.to_owned(), v));
        proof {
            let n = before.entries@.len() as int;
            assert(forall|a: int| 0 <= a < n ==> #[trigger] self.entries@[a] == before.entries@[a]);
            assert forall|a: int, b: int| 0 <= a < b < self.entries@.len() implies (
            #[trigger] self.entries@[a]).0@ != (#[trigger] self.entries@[b]).0@ by {
                if b == n {
                    if self.entries@[a].0@ == k@ {
                        assert(before.is_at(k@, a));
                        assert(before@.dom().contains(k@));
                    }
                } else {
                    assert(before.entries@[a].0@ != before.entries@[b].0@);
                }
            }
            assert forall|q: Seq<char>|
                #![trigger self@.dom().contains(q)]
                #![trigger self@[q]]
                self@.dom().contains(q) == start.insert(
                k@,
                v.deep_view(),
            ).dom().contains(q) && (self@.dom().contains(q) ==> self@[q] == start.insert(
                k@,
                v.deep_view(),
            )[q]) by {
                if self.has(q) {
                    let p = self.place(q);
                    assert(self.is_at(q, p));
                    self.lemma_at(q, p);
                    if p < n {
                        assert(before.is_at(q, p));
                        before.lemma_at(q, p);
                        assert(before@.dom().contains(q));
                        assert(q != k@);
                    }
                }
                if q == k@ {
                    assert(self.is_at(q, n));
                    self.lemma_at(q, n);
                } else if start.dom().contains(q) {
                    assert(before@.dom().contains(q));
                    let p = before.place(q);
                    assert(before.is_at(q, p));
                    assert(self.is_at(q, p));
                    self.lemma_at(q, p);
                    before.lemma_at(q, p);
                }
            }
            assert(self@ =~= start.insert(k@, v.deep_view()));
        }
    }
}

} // verus!
