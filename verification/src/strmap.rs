//! A map from strings to strings, kept as a list of distinct keys in
//! insertion order. It holds request headers, the interpreters of CGI
//! extensions and a route's redirections: looking a key up, inserting and
//! overwriting behave as on any map, and walking the entries yields each
//! key once, in the order keys were first inserted.
use vstd::prelude::*;

verus! {

pub struct StrMap {
    entries: Vec<(String, String)>,
}

pub open spec fn pair_view(e: (String, String)) -> (Seq<char>, Seq<char>) {
    (e.0@, e.1@)
}

impl StrMap {
    /// The entries, in insertion order, as pairs of character sequences.
    pub closed spec fn pairs(self) -> Seq<(Seq<char>, Seq<char>)> {
        self.entries@.map_values(|e: (String, String)| pair_view(e))
    }

    /// The keys in insertion order.
    pub open spec fn key_seq(self) -> Seq<Seq<char>> {
        self.pairs().map_values(|p: (Seq<char>, Seq<char>)| p.0)
    }

    #[verifier::type_invariant]
    closed spec fn wf(self) -> bool {
        self.key_seq().no_duplicates()
    }

    pub closed spec fn spec_view(self) -> Map<Seq<char>, Seq<char>> {
        Map::new(
            |k: Seq<char>| self.key_seq().contains(k),
            |k: Seq<char>| self.pairs()[self.key_seq().index_of(k)].1,
        )
    }

    /// With distinct keys, the map holds exactly the pairs of `pairs()`.
    proof fn lemma_pairs_view(&self)
        requires
            self.key_seq().no_duplicates(),
        ensures
            forall|i: int|
                0 <= i < self.pairs().len() ==> #[trigger] self@.contains_key(self.pairs()[i].0)
                    && self@[self.pairs()[i].0] == self.pairs()[i].1,
            forall|k: Seq<char>|
                #[trigger] self@.contains_key(k) ==> exists|i: int|
                    0 <= i < self.pairs().len() && self.pairs()[i].0 == k,
            self@.dom().finite(),
            self@.len() == self.pairs().len(),
    {
        let ks = self.key_seq();
        assert forall|i: int| 0 <= i < self.pairs().len() implies #[trigger] self@.contains_key(
            self.pairs()[i].0,
        ) && self@[self.pairs()[i].0] == self.pairs()[i].1 by {
            assert(ks[i] == self.pairs()[i].0);
            assert(ks.contains(ks[i]));
        }
        assert forall|k: Seq<char>| #[trigger] self@.contains_key(k) implies exists|i: int|
            0 <= i < self.pairs().len() && self.pairs()[i].0 == k by {
            let i = ks.index_of(k);
            assert(ks[i] == k);
        }
        assert(self@.dom() =~= ks.to_set());
        ks.unique_seq_to_set();
    }

    pub fn new() -> (r: Self)
        ensures
            r@ == Map::<Seq<char>, Seq<char>>::empty(),
            r.pairs().len() == 0,
    {
        let r = StrMap { entries: Vec::new() };
        assert(r.key_seq() =~= Seq::<Seq<char>>::empty());
        assert(r@ =~= Map::<Seq<char>, Seq<char>>::empty());
        r
    }

    /// The position of `k` among the entries.
    fn position(&self, k: &String) -> (r: Option<usize>)
        ensures
            r matches Some(i) ==> i < self.pairs().len() && self.key_seq()[i as int] == k@,
            r is None ==> !self.key_seq().contains(k@),
    {
        let mut i: usize = 0;
        while i < self.entries.len()
            invariant
                i <= self.entries@.len(),
                forall|j: int| 0 <= j < i ==> self.key_seq()[j] != k@,
            decreases self.entries@.len() - i,
        {
            if self.entries[i].0 == *k {
                return Some(i);
            }
            i = i + 1;
        }
        None
    }

    pub fn contains_key(&self, k: &String) -> (r: bool)
        ensures
            r == self@.contains_key(k@),
    {
        self.position(k).is_some()
    }

    pub fn get(&self, k: &String) -> (r: Option<&String>)
        ensures
            match r {
                Some(v) => self@.contains_key(k@) && self@[k@] == v@,
                None => !self@.contains_key(k@),
            },
    {
        proof {
            use_type_invariant(self);
        }
        match self.position(k) {
            Some(i) => {
                proof {
                    let ks = self.key_seq();
                    assert(ks.contains(k@));
                    assert(ks[ks.index_of(k@)] == k@);
                    assert(ks.index_of(k@) == i);
                }
                Some(&self.entries[i].1)
            },
            None => None,
        }
    }

    pub fn len(&self) -> (r: usize)
        ensures
            r == self@.len(),
            r == self.pairs().len(),
    {
        proof {
            use_type_invariant(self);
            self.lemma_pairs_view();
        }
        self.entries.len()
    }

    /// Sets the value of `k`; an entry that held `k` keeps its place, a new
    /// key comes last.
    pub fn insert(&mut self, k: String, v: String)
        ensures
            final(self)@ == old(self)@.insert(k@, v@),
            old(self).key_seq().contains(k@) ==> final(self).pairs() == old(self).pairs().update(
                old(self).key_seq().index_of(k@),
                (k@, v@),
            ),
            !old(self).key_seq().contains(k@) ==> final(self).pairs() == old(self).pairs().push((k@, v@)),
    {
        proof {
            use_type_invariant(&*self);
        }
        let pos = self.position(&k);
        let ghost old_pairs = self.pairs();
        let ghost ks = self.key_seq();
        let mut out: Vec<(String, String)> = Vec::new();
        let mut i: usize = 0;
        while i < self.entries.len()
            invariant
                i <= self.entries@.len(),
                old_pairs == self.pairs(),
                out@.len() == i,
                forall|j: int|
                    0 <= j < i ==> #[trigger] pair_view(out@[j]) == (if pos == Some(j as usize) {
                        (k@, v@)
                    } else {
                        old_pairs[j]
                    }),
            decreases self.entries@.len() - i,
        {
            if pos == Some(i) {
                out.push((k.clone(), v.clone()));
            } else {
                let a = self.entries[i].0.clone();
                let b = self.entries[i].1.clone();
                out.push((a, b));
            }
            i = i + 1;
        }
        let ghost new_pairs = out@.map_values(|e: (String, String)| pair_view(e));
        match pos {
            Some(j) => {
                proof {
                    assert(new_pairs =~= old_pairs.update(j as int, (k@, v@)));
                    let nks = new_pairs.map_values(|p: (Seq<char>, Seq<char>)| p.0);
                    assert(nks =~= ks);
                }
                self.entries = out;
                proof {
                    let ks2 = self.key_seq();
                    assert(ks2 =~= ks);
                    assert forall|kk: Seq<char>| ks.contains(kk) && kk != k@ implies ks.index_of(kk)
                        != j by {
                        assert(ks[ks.index_of(kk)] == kk);
                    }
                    assert(ks[ks.index_of(k@)] == k@);
                    assert(ks.index_of(k@) == j);
                    assert(self.pairs() =~= old_pairs.update(j as int, (k@, v@)));
                    assert(self@ =~= old(self)@.insert(k@, v@));
                }
            },
            None => {
                out.push((k, v));
                proof {
                    let np = out@.map_values(|e: (String, String)| pair_view(e));
                    assert(np =~= old_pairs.push((k@, v@)));
                    let nks = np.map_values(|p: (Seq<char>, Seq<char>)| p.0);
                    assert(nks =~= ks.push(k@));
                }
                self.entries = out;
                proof {
                    let ks2 = self.key_seq();
                    assert(ks2 =~= ks.push(k@));
                    assert forall|kk: Seq<char>| ks.contains(kk) implies ks2.index_of(kk)
                        == ks.index_of(kk) by {
                        let a = ks.index_of(kk);
                        assert(ks[a] == kk);
                        assert(ks2[a] == kk);
                        let b = ks2.index_of(kk);
                        assert(ks2[b] == kk);
                    }
                    assert(ks2[ks.len() as int] == k@);
                    assert(ks2.index_of(k@) == ks.len());
                    let p2 = self.pairs();
                    assert(p2 =~= old_pairs.push((k@, v@)));
                    assert forall|kk: Seq<char>| ks2.contains(kk) <==> (ks.contains(kk) || kk
                        == k@) by {
                        if ks2.contains(kk) {
                            let a = ks2.index_of(kk);
                            assert(ks2[a] == kk);
                            if a < ks.len() {
                                assert(ks[a] == kk);
                            }
                        }
                        if ks.contains(kk) {
                            let a = ks.index_of(kk);
                            assert(ks2[a] == kk);
                        }
                    }
                    assert forall|kk: Seq<char>| #[trigger] ks.contains(kk) implies p2[ks2.index_of(
                        kk,
                    )].1 == old_pairs[ks.index_of(kk)].1 by {
                        let a = ks.index_of(kk);
                        assert(ks[a] == kk);
                    }
                    assert(self@.dom() =~= old(self)@.dom().insert(k@));
                    assert(self@ =~= old(self)@.insert(k@, v@));
                }
            },
        }
    }

    /// The entries, for walking the map: each key once, with its value.
    pub fn entries(&self) -> (r: &Vec<(String, String)>)
        ensures
            r@.map_values(|e: (String, String)| pair_view(e)) == self.pairs(),
            self.key_seq().no_duplicates(),
            forall|i: int|
                0 <= i < self.pairs().len() ==> #[trigger] self@.contains_key(self.pairs()[i].0)
                    && self@[self.pairs()[i].0] == self.pairs()[i].1,
            forall|k: Seq<char>|
                #[trigger] self@.contains_key(k) ==> exists|i: int|
                    0 <= i < self.pairs().len() && self.pairs()[i].0 == k,
            self@.len() == self.pairs().len(),
    {
        proof {
            use_type_invariant(self);
            self.lemma_pairs_view();
        }
        &self.entries
    }
}

impl View for StrMap {
    type V = Map<Seq<char>, Seq<char>>;

    open spec fn view(&self) -> Map<Seq<char>, Seq<char>> {
        self.spec_view()
    }
}

impl Clone for StrMap {
    fn clone(&self) -> (r: Self)
        ensures
            r@ == self@,
            r.pairs() == self.pairs(),
    {
        proof {
            use_type_invariant(self);
        }
        let mut out: Vec<(String, String)> = Vec::new();
        let mut i: usize = 0;
        while i < self.entries.len()
            invariant
                i <= self.entries@.len(),
                out@.len() == i,
                forall|j: int| 0 <= j < i ==> #[trigger] pair_view(out@[j]) == self.pairs()[j],
            decreases self.entries@.len() - i,
        {
            let a = self.entries[i].0.clone();
            let b = self.entries[i].1.clone();
            out.push((a, b));
            i = i + 1;
        }
        proof {
            let np = out@.map_values(|e: (String, String)| pair_view(e));
            assert(np =~= self.pairs());
            let nks = np.map_values(|p: (Seq<char>, Seq<char>)| p.0);
            assert(nks =~= self.key_seq());
        }
        let r = StrMap { entries: out };
        proof {
            assert(r.pairs() =~= self.pairs());
            assert(r@ =~= self@);
        }
        r
    }
}

} // verus!
