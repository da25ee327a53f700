use vstd::prelude::*;

verus! {

broadcast use vstd::seq_lib::group_seq_properties;

/// Some entry of `es` has name `n`.
pub open spec fn names_player(es: Seq<(usize, String)>, n: Seq<char>) -> bool {
    exists|i: int| #![trigger es[i]] 0 <= i < es.len() && es[i].1@ == n
}

/// The display names known to a scraping session and the ids given to them.
pub struct PlayerRegistry {
    entries: Vec<(usize, String)>,
    next_id: usize,
}

impl View for PlayerRegistry {
    type V = Map<Seq<char>, usize>;

    closed spec fn view(&self) -> Map<Seq<char>, usize> {
        Map::new(
            |n: Seq<char>| names_player(self.entries@, n),
            |n: Seq<char>| self.entries@[choose|i: int| 0 <= i < self.entries.len() && self.entries@[i].1@ == n].0,
        )
    }
}

impl PlayerRegistry {
    /// Names are distinct, entries are in order of id, and no id exceeds the next one to give.
    pub closed spec fn wf(&self) -> bool {
        &&& forall|i: int, j: int| #![trigger self.entries@[i], self.entries@[j]] 0 <= i < j < self.entries.len()
            ==> self.entries@[i].1@ != self.entries@[j].1@ && self.entries@[i].0 <= self.entries@[j].0
        &&& forall|i: int| #![trigger self.entries@[i]] 0 <= i < self.entries.len() ==> self.entries@[i].0 <= self.next_id
    }

    /// The id the next new name will get.
    pub closed spec fn next(&self) -> usize {
        self.next_id
    }

    proof fn lemma_view_at(&self, i: int)
        requires
            self.wf(),
            0 <= i < self.entries.len(),
        ensures
            self@.contains_key(self.entries@[i].1@),
            self@[self.entries@[i].1@] == self.entries@[i].0,
    {
        let n = self.entries@[i].1@;
        let j = choose|j: int| 0 <= j < self.entries.len() && self.entries@[j].1@ == n;
        if j != i {
            if j < i {
                assert(self.entries@[j].1@ != self.entries@[i].1@);
            } else {
                assert(self.entries@[i].1@ != self.entries@[j].1@);
            }
        }
    }

    /// An empty registry whose first new name gets `next_id`.
    pub fn new(next_id: usize) -> (r: PlayerRegistry)
        ensures
            r.wf(),
            r@ == Map::<Seq<char>, usize>::empty(),
            r.next() == next_id,
    {
        let r = PlayerRegistry { entries: Vec::new(), next_id };
        proof {
            assert(r@ =~= Map::<Seq<char>, usize>::empty());
        }
        r
    }

    /// The id the next new name will get.
    pub fn next_id(&self) -> (n: usize)
        ensures
            n == self.next(),
    {
        self.next_id
    }

    fn find(&self, name: &String) -> (r: Option<usize>)
        requires
            self.wf(),
        ensures
            match r {
                Some(i) => i < self.entries.len() && self.entries@[i as int].1@ == name@,
                None => !self@.contains_key(name@),
            },
    {
        let mut i: usize = 0;
        while i < self.entries.len()
            invariant
                i <= self.entries.len(),
                forall|k: int| #![trigger self.entries@[k]] 0 <= k < i ==> self.entries@[k].1@ != name@,
            decreases self.entries.len() - i,
        {
            if self.entries[i].1 == *name {
                return Some(i);
            }
            i += 1;
        }
        None
    }

    /// The id of `name`, if it has one.
    pub fn lookup(&self, name: &String) -> (r: Option<usize>)
        requires
            self.wf(),
        ensures
            match r {
                Some(id) => self@.contains_key(name@) && self@[name@] == id,
                None => !self@.contains_key(name@),
            },
    {
        match self.find(name) {
            Some(i) => {
                proof {
                    self.lemma_view_at(i as int);
                }
                Some(self.entries[i].0)
            },
            None => None,
        }
    }

    /// The id of `name`: the one it has, or else the next id, which it then keeps.
    pub fn intern(&mut self, name: &String) -> (id: usize)
        requires
            old(self).wf(),
            old(self).next() < usize::MAX,
        ensures
            final(self).wf(),
            old(self)@.contains_key(name@) ==> id == old(self)@[name@] && final(self)@ == old(self)@
                && final(self).next() == old(self).next(),
            !old(self)@.contains_key(name@) ==> id == old(self).next() && final(self)@ == old(self)@.insert(name@, id)
                && final(self).next() == old(self).next() + 1,
    {
        match self.find(name) {
            Some(i) => {
                proof {
                    self.lemma_view_at(i as int);
                }
                self.entries[i].0
            },
            None => {
                let id = self.next_id;
                let ghost before = *self;
                self.entries.push((id, name.clone()));
                self.next_id = id + 1;
                proof {
                    let n = self.entries.len() - 1;
                    assert forall|i: int, j: int| #![trigger self.entries@[i], self.entries@[j]] 0 <= i < j < self.entries.len()
                        implies self.entries@[i].1@ != self.entries@[j].1@ && self.entries@[i].0 <= self.entries@[j].0 by {
                        if j == n {
                            assert(self.entries@[i] == before.entries@[i]);
                            before.lemma_view_at(i);
                        }
                    }
                    assert forall|m: Seq<char>| self@.contains_key(m) <==> before@.insert(name@, id).contains_key(m) by {
                        if names_player(before.entries@, m) {
                            let i = choose|i: int| #![trigger before.entries@[i]] 0 <= i < before.entries.len() && before.entries@[i].1@ == m;
                            assert(self.entries@[i] == before.entries@[i]);
                        }
                        if names_player(self.entries@, m) {
                            let i = choose|i: int| #![trigger self.entries@[i]] 0 <= i < self.entries.len() && self.entries@[i].1@ == m;
                            if i < n {
                                assert(self.entries@[i] == before.entries@[i]);
                            }
                        }
                        assert(self.entries@[n].1@ == name@);
                    }
                    assert forall|m: Seq<char>| #[trigger] self@.contains_key(m) implies self@[m] == before@.insert(name@, id)[m] by {
                        let i = choose|i: int| #![trigger self.entries@[i]] 0 <= i < self.entries.len() && self.entries@[i].1@ == m;
                        self.lemma_view_at(i);
                        if i < n {
                            assert(self.entries@[i] == before.entries@[i]);
                            before.lemma_view_at(i);
                        }
                    }
                    assert(self@ =~= before@.insert(name@, id));
                }
                id
            },
        }
    }

    /// Gives `name` the id `id`, replacing any id it had.
    pub fn assign(&mut self, name: String, id: usize)
        requires
            old(self).wf(),
            id <= old(self).next(),
        ensures
            final(self).wf(),
            final(self)@ == old(self)@.insert(name@, id),
            final(self).next() == old(self).next(),
    {
        let ghost before = *self;
        match self.find(&name) {
            Some(i) => {
                self.entries.remove(i);
                proof {
                    assert forall|m: Seq<char>| m != name@ implies (names_player(self.entries@, m) <==> names_player(before.entries@, m)) by {
                        if names_player(before.entries@, m) {
                            let k = choose|k: int| #![trigger before.entries@[k]] 0 <= k < before.entries.len() && before.entries@[k].1@ == m;
                            if k < i {
                                assert(self.entries@[k] == before.entries@[k]);
                            } else {
                                assert(self.entries@[k - 1] == before.entries@[k]);
                            }
                        }
                        if names_player(self.entries@, m) {
                            let k = choose|k: int| #![trigger self.entries@[k]] 0 <= k < self.entries.len() && self.entries@[k].1@ == m;
                            if k < i {
                                assert(self.entries@[k] == before.entries@[k]);
                            } else {
                                assert(self.entries@[k] == before.entries@[k + 1]);
                            }
                        }
                    }
                    assert forall|m: Seq<char>| #[trigger] self@.contains_key(m) implies m != name@ && self@[m] == before@[m] by {
                        let k = choose|k: int| #![trigger self.entries@[k]] 0 <= k < self.entries.len() && self.entries@[k].1@ == m;
                        self.lemma_view_at(k);
                        if k < i {
                            assert(self.entries@[k] == before.entries@[k]);
                            before.lemma_view_at(k);
                            assert(before.entries@[k].1@ != before.entries@[i as int].1@);
                        } else {
                            assert(self.entries@[k] == before.entries@[k + 1]);
                            before.lemma_view_at(k + 1);
                            assert(before.entries@[i as int].1@ != before.entries@[k + 1].1@);
                        }
                    }
                    assert(self.wf()) by {
                        assert forall|a: int, b: int| #![trigger self.entries@[a], self.entries@[b]] 0 <= a < b < self.entries.len()
                            implies self.entries@[a].1@ != self.entries@[b].1@ && self.entries@[a].0 <= self.entries@[b].0 by {
                            let a0 = if a < i { a } else { a + 1 };
                            let b0 = if b < i { b } else { b + 1 };
                            assert(self.entries@[a] == before.entries@[a0]);
                            assert(self.entries@[b] == before.entries@[b0]);
                        }
                        assert forall|a: int| #![trigger self.entries@[a]] 0 <= a < self.entries.len() implies self.entries@[a].0 <= self.next_id by {
                            let a0 = if a < i { a } else { a + 1 };
                            assert(self.entries@[a] == before.entries@[a0]);
                        }
                    }
                }
            },
            None => {},
        }
        let ghost mid = *self;
        proof {
            assert(!mid@.contains_key(name@));
            assert(mid@ == before@.remove(name@)) by {
                assert(mid@ =~= before@.remove(name@));
            }
        }
        let mut p: usize = 0;
        while p < self.entries.len() && self.entries[p].0 <= id
            invariant
                p <= self.entries.len(),
                *self == mid,
                forall|k: int| #![trigger self.entries@[k]] 0 <= k < p ==> self.entries@[k].0 <= id,
            decreases self.entries.len() - p,
        {
            p += 1;
        }
        self.entries.insert(p, (id, name));
        proof {
            let n = p as int;
            assert(self.entries@[n].1@ == name@);
            assert forall|a: int| #![trigger self.entries@[a]] 0 <= a < self.entries.len() && a != n implies self.entries@[a]
                == mid.entries@[if a < n { a } else { a - 1 }] by {}
            assert forall|a: int, b: int| #![trigger self.entries@[a], self.entries@[b]] 0 <= a < b < self.entries.len()
                implies self.entries@[a].1@ != self.entries@[b].1@ && self.entries@[a].0 <= self.entries@[b].0 by {
                if a == n {
                    assert(self.entries@[b] == mid.entries@[b - 1]);
                    mid.lemma_view_at(b - 1);
                    if p < mid.entries.len() {
                        assert(mid.entries@[n].0 > id);
                        if b - 1 > n {
                            assert(mid.entries@[n].0 <= mid.entries@[b - 1].0);
                        }
                    }
                } else if b == n {
                    assert(self.entries@[a] == mid.entries@[a]);
                    mid.lemma_view_at(a);
                }
            }
            assert forall|m: Seq<char>| self@.contains_key(m) <==> before@.insert(name@, id).contains_key(m) by {
                if names_player(mid.entries@, m) {
                    let k = choose|k: int| #![trigger mid.entries@[k]] 0 <= k < mid.entries.len() && mid.entries@[k].1@ == m;
                    if k < n {
                        assert(self.entries@[k] == mid.entries@[k]);
                    } else {
                        assert(self.entries@[k + 1] == mid.entries@[k]);
                    }
                }
                if names_player(self.entries@, m) && m != name@ {
                    let k = choose|k: int| #![trigger self.entries@[k]] 0 <= k < self.entries.len() && self.entries@[k].1@ == m;
                    assert(k != n);
                    let k0 = if k < n { k } else { k - 1 };
                    assert(mid.entries@[k0].1@ == m);
                }
            }
            assert forall|m: Seq<char>| #[trigger] self@.contains_key(m) implies self@[m] == before@.insert(name@, id)[m] by {
                let k = choose|k: int| #![trigger self.entries@[k]] 0 <= k < self.entries.len() && self.entries@[k].1@ == m;
                self.lemma_view_at(k);
                if k != n {
                    let k0 = if k < n { k } else { k - 1 };
                    mid.lemma_view_at(k0);
                }
            }
            assert(self@ =~= before@.insert(name@, id));
        }
    }

    /// Every name with its id, in order of id.
    pub fn rows_by_id(&self) -> (rows: Vec<(usize, String)>)
        requires
            self.wf(),
        ensures
            forall|i: int, j: int| #![trigger rows@[i], rows@[j]] 0 <= i < j < rows.len() ==> rows@[i].0 <= rows@[j].0
                && rows@[i].1@ != rows@[j].1@,
            forall|i: int| #![trigger rows@[i]] 0 <= i < rows.len() ==> self@.contains_key(rows@[i].1@) && self@[rows@[i].1@]
                == rows@[i].0,
            forall|n: Seq<char>| self@.contains_key(n) ==> names_player(rows@, n),
    {
        let mut rows: Vec<(usize, String)> = Vec::new();
        let mut i: usize = 0;
        while i < self.entries.len()
            invariant
                self.wf(),
                i <= self.entries.len(),
                rows.len() == i,
                forall|k: int| #![trigger rows@[k]] 0 <= k < i ==> rows@[k].0 == self.entries@[k].0 && rows@[k].1@ == self.entries@[k].1@,
            decreases self.entries.len() - i,
        {
            let name = self.entries[i].1.clone();
            rows.push((self.entries[i].0, name));
            i += 1;
        }
        proof {
            assert forall|a: int| #![trigger rows@[a]] 0 <= a < rows.len() implies self@.contains_key(rows@[a].1@) && self@[rows@[a].1@]
                == rows@[a].0 by {
                self.lemma_view_at(a);
            }
            assert forall|n: Seq<char>| self@.contains_key(n) implies names_player(rows@, n) by {
                let k = choose|k: int| #![trigger self.entries@[k]] 0 <= k < self.entries.len() && self.entries@[k].1@ == n;
                assert(rows@[k].1@ == n);
            }
            assert forall|a: int, b: int| #![trigger rows@[a], rows@[b]] 0 <= a < b < rows.len() implies rows@[a].0 <= rows@[b].0
                && rows@[a].1@ != rows@[b].1@ by {
                assert(self.entries@[a].0 <= self.entries@[b].0);
                assert(self.entries@[a].1@ != self.entries@[b].1@);
            }
        }
        rows
    }
}

} // verus!
