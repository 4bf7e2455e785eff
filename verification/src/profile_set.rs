//! A set of period profiles, deduplicated by structural equality.

use vstd::prelude::*;

verus! {

/// A collection of distinct period profiles. The order of storage is
/// immaterial; the view is the mathematical set of the stored sequences.
pub struct ProfileSet {
    items: Vec<Vec<u64>>,
}

impl View for ProfileSet {
    type V = Set<Seq<u64>>;

    closed spec fn view(&self) -> Set<Seq<u64>> {
        self.seqs().to_set()
    }
}

impl ProfileSet {
    /// The stored profiles, in storage order.
    pub closed spec fn seqs(&self) -> Seq<Seq<u64>> {
        self.items@.map_values(|v: Vec<u64>| v@)
    }

    /// Well-formed: no profile is stored twice.
    pub closed spec fn wf(&self) -> bool {
        self.seqs().no_duplicates()
    }

    /// An empty set of profiles.
    pub fn new() -> (r: ProfileSet)
        ensures
            r@ == Set::<Seq<u64>>::empty(),
            r.wf(),
    {
        let r = ProfileSet { items: Vec::new() };
        proof {
            assert(r.seqs() =~= Seq::<Seq<u64>>::empty());
            assert(r@ =~= Set::<Seq<u64>>::empty());
        }
        r
    }

    fn vec_eq(a: &Vec<u64>, b: &Vec<u64>) -> (r: bool)
        ensures
            r == (a@ == b@),
    {
        if a.len() != b.len() {
            return false;
        }
        let mut i: usize = 0;
        while i < a.len()
            invariant
                0 <= i <= a.len(),
                a@.len() == b@.len(),
                forall|j: int| 0 <= j < i ==> a@[j] == b@[j],
            decreases a.len() - i,
        {
            if a[i] != b[i] {
                return false;
            }
            i = i + 1;
        }
        proof {
            assert(a@ =~= b@);
        }
        true
    }

    /// Whether `p` is already a member.
    pub fn contains(&self, p: &Vec<u64>) -> (r: bool)
        ensures
            r == self@.contains(p@),
    {
        let mut i: usize = 0;
        while i < self.items.len()
            invariant
                0 <= i <= self.items.len(),
                forall|j: int| 0 <= j < i ==> self.seqs()[j] != p@,
            decreases self.items.len() - i,
        {
            if Self::vec_eq(&self.items[i], p) {
                proof {
                    assert(self.seqs()[i as int] == p@);
                    assert(self.seqs().contains(p@));
                }
                return true;
            }
            i = i + 1;
        }
        proof {
            assert(!self.seqs().contains(p@));
        }
        false
    }

    /// Adds `p`; membership of everything else is unchanged.
    pub fn insert(&mut self, p: Vec<u64>)
        requires
            old(self).wf(),
        ensures
            final(self)@ == old(self)@.insert(p@),
            final(self).wf(),
    {
        if !self.contains(&p) {
            let ghost before = self.seqs();
            self.items.push(p);
            proof {
                assert(self.seqs() =~= before.push(p@));
                assert(self.seqs().contains(p@)) by {
                    assert(self.seqs()[before.len() as int] == p@);
                }
                assert forall|x: Seq<u64>| #[trigger] self.seqs().contains(x) && x != p@
                    implies before.contains(x) by {
                    let i = choose|i: int| 0 <= i < self.seqs().len() && self.seqs()[i] == x;
                    assert(before[i] == x);
                }
                assert forall|x: Seq<u64>| #[trigger] before.contains(x)
                    implies self.seqs().contains(x) by {
                    let i = choose|i: int| 0 <= i < before.len() && before[i] == x;
                    assert(self.seqs()[i] == x);
                }
                assert(!before.contains(p@));
                assert(self.seqs().no_duplicates()) by {
                    assert forall|i: int, j: int|
                        0 <= i < self.seqs().len() && 0 <= j < self.seqs().len() && i != j
                        implies self.seqs()[i] != self.seqs()[j] by {
                        if i < before.len() && j < before.len() {
                            assert(before[i] == self.seqs()[i] && before[j] == self.seqs()[j]);
                        } else if i < before.len() {
                            assert(before.contains(before[i]));
                        } else if j < before.len() {
                            assert(before.contains(before[j]));
                        }
                    }
                }
                assert(self@ =~= old(self)@.insert(p@));
            }
        } else {
            proof {
                assert(self@ =~= old(self)@.insert(p@));
            }
        }
    }

    /// The number of distinct profiles held.
    pub fn len(&self) -> (n: usize)
        requires
            self.wf(),
        ensures
            n == self@.len(),
    {
        proof {
            self.seqs().unique_seq_to_set();
        }
        self.items.len()
    }

    /// The stored profiles; each member of the set appears exactly once.
    pub fn as_slice(&self) -> (r: &Vec<Vec<u64>>)
        ensures
            r@.map_values(|v: Vec<u64>| v@) == self.seqs(),
            forall|j: int| 0 <= j < r@.len() ==> self@.contains(#[trigger] r@[j]@),
    {
        proof {
            assert forall|j: int| 0 <= j < self.items@.len() implies self@.contains(
                #[trigger] self.items@[j]@,
            ) by {
                assert(self.seqs()[j] == self.items@[j]@);
                assert(self.seqs().contains(self.items@[j]@));
            }
        }
        &self.items
    }
}

} // verus!
