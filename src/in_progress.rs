use vstd::prelude::*;

use crate::term::{Term, TermView};

verus! {

pub open spec fn pair_views(s: Seq<(Term, Term)>) -> Seq<(TermView, TermView)> {
    Seq::new(s.len(), |i: int| (s[i].0@, s[i].1@))
}

/// The ordered pairs of terms whose equality a search is proving right now.
pub struct InProgress {
    pairs: Vec<(Term, Term)>,
}

impl InProgress {
    pub closed spec fn view(&self) -> Set<(TermView, TermView)> {
        pair_views(self.pairs@).to_set()
    }

    /// No pair is held twice.
    pub closed spec fn wf(&self) -> bool {
        pair_views(self.pairs@).no_duplicates()
    }

    pub fn new() -> (r: InProgress)
        ensures
            r.wf(),
            r@ == Set::<(TermView, TermView)>::empty(),
    {
        let r = InProgress { pairs: Vec::new() };
        assert(r@ =~= Set::<(TermView, TermView)>::empty());
        r
    }

    fn position(&self, a: &Term, b: &Term) -> (r: Option<usize>)
        ensures
            match r {
                Some(i) => i < self.pairs.len() && pair_views(self.pairs@)[i as int] == (a@, b@),
                None => !self@.contains((a@, b@)),
            },
    {
        let ghost s = pair_views(self.pairs@);
        let mut i: usize = 0;
        while i < self.pairs.len()
            invariant
                i <= self.pairs.len(),
                s == pair_views(self.pairs@),
                forall|j: int| 0 <= j < i ==> #[trigger] s[j] != (a@, b@),
            decreases self.pairs.len() - i,
        {
            if self.pairs[i].0.same(a) && self.pairs[i].1.same(b) {
                return Some(i);
            }
            i += 1;
        }
        None
    }

    /// Adds the pair; returns whether it was not held yet.
    pub fn insert(&mut self, a: &Term, b: &Term) -> (r: bool)
        requires
            old(self).wf(),
        ensures
            final(self).wf(),
            r == !old(self)@.contains((a@, b@)),
            final(self)@ == old(self)@.insert((a@, b@)),
    {
        if self.position(a, b).is_some() {
            proof {
                assert(self@ =~= self@.insert((a@, b@)));
            }
            return false;
        }
        let ghost s = pair_views(self.pairs@);
        self.pairs.push((a.copy(), b.copy()));
        proof {
            let t = s.push((a@, b@));
            assert(pair_views(self.pairs@) =~= t);
            assert forall|p| #[trigger] self@.contains(p) == old(self)@.insert((a@, b@)).contains(
                p,
            ) by {
                if self@.contains(p) && p != (a@, b@) {
                    let j = choose|j: int| 0 <= j < t.len() && t[j] == p;
                    assert(s[j] == p);
                }
                if s.contains(p) {
                    let j = choose|j: int| 0 <= j < s.len() && s[j] == p;
                    assert(t[j] == p);
                }
                if p == (a@, b@) {
                    assert(t[s.len() as int] == p);
                }
            }
            assert(self@ =~= old(self)@.insert((a@, b@)));
        }
        true
    }

    /// Takes the pair out, where it is held.
    pub fn remove(&mut self, a: &Term, b: &Term)
        requires
            old(self).wf(),
        ensures
            final(self).wf(),
            final(self)@ == old(self)@.remove((a@, b@)),
    {
        match self.position(a, b) {
            None => {
                proof {
                    assert(self@ =~= self@.remove((a@, b@)));
                }
            },
            Some(i) => {
                let ghost s = pair_views(self.pairs@);
                self.pairs.remove(i);
                proof {
                    assert(pair_views(self.pairs@) =~= s.remove(i as int));
                    assert forall|p| #[trigger] self@.contains(p) == old(self)@.remove(
                        (a@, b@),
                    ).contains(p) by {
                        if self@.contains(p) {
                            let j = choose|j: int| 0 <= j < s.remove(i as int).len() && s.remove(i as int)[j] == p;
                            if j < i {
                                assert(s[j] == p);
                            } else {
                                assert(s[j + 1] == p);
                            }
                        }
                        if old(self)@.remove((a@, b@)).contains(p) {
                            let j = choose|j: int| 0 <= j < s.len() && s[j] == p;
                            if j < i {
                                assert(s.remove(i as int)[j] == p);
                            } else {
                                assert(s.remove(i as int)[j - 1] == p);
                            }
                        }
                    }
                    assert(self@ =~= old(self)@.remove((a@, b@)));
                }
            },
        }
    }
}

} // verus!
