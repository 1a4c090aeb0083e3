//! The frontier of the best-first strategies: pairs of an estimate and a
//! table index, taken out smallest estimate first, and on equal estimates
//! lowest index first.
use vstd::prelude::*;

verus! {

/// `a` comes strictly before `b`: a smaller estimate, or an equal estimate
/// and a smaller index.
pub open spec fn before(a: (usize, usize), b: (usize, usize)) -> bool {
    a.0 < b.0 || (a.0 == b.0 && a.1 < b.1)
}

/// The first position of an element that no other element comes before.
pub open spec fn min_position(s: Seq<(usize, usize)>) -> int
    decreases s.len(),
{
    if s.len() <= 1 {
        0
    } else {
        let k = min_position(s.drop_last());
        if before(s.last(), s[k]) {
            s.len() - 1
        } else {
            k
        }
    }
}

/// The minimum's position is in range, and nothing comes before it.
pub proof fn lemma_min_position(s: Seq<(usize, usize)>)
    requires
        s.len() > 0,
    ensures
        0 <= min_position(s) < s.len(),
        forall|j: int| 0 <= j < s.len() ==> !before(#[trigger] s[j], s[min_position(s)]),
    decreases s.len(),
{
    if s.len() > 1 {
        let init = s.drop_last();
        lemma_min_position(init);
        let k = min_position(init);
        assert forall|j: int| 0 <= j < s.len() implies !before(#[trigger] s[j], s[min_position(s)]) by {
            if j < s.len() - 1 {
                assert(init[j] == s[j]);
            }
        }
    }
}

pub struct Frontier {
    items: Vec<(usize, usize)>,
}

impl View for Frontier {
    type V = Seq<(usize, usize)>;

    closed spec fn view(&self) -> Seq<(usize, usize)> {
        self.items@
    }
}

impl Frontier {
    pub fn new() -> (r: Frontier)
        ensures
            r@ == Seq::<(usize, usize)>::empty(),
    {
        Frontier { items: Vec::new() }
    }

    pub fn len(&self) -> (r: usize)
        ensures
            r == self@.len(),
    {
        self.items.len()
    }

    pub fn push(&mut self, estimate: usize, index: usize)
        ensures
            final(self)@ == old(self)@.push((estimate, index)),
    {
        self.items.push((estimate, index));
    }

    /// Takes out the first element that nothing comes before.
    pub fn pop_min(&mut self) -> (r: Option<(usize, usize)>)
        ensures
            old(self)@.len() == 0 ==> r is None && final(self)@ == old(self)@,
            old(self)@.len() > 0 ==> {
                let k = min_position(old(self)@);
                &&& 0 <= k < old(self)@.len()
                &&& r == Some(old(self)@[k])
                &&& final(self)@ == old(self)@.remove(k)
                &&& forall|j: int| 0 <= j < old(self)@.len() ==> !before(#[trigger] old(self)@[j], old(self)@[k])
            },
    {
        let n = self.items.len();
        if n == 0 {
            return None;
        }
        proof {
            lemma_min_position(self@);
        }
        let mut best: usize = 0;
        let mut j: usize = 1;
        while j < n
            invariant
                n == self@.len(),
                1 <= j <= n,
                best == min_position(self@.subrange(0, j as int)),
            decreases n - j,
        {
            let ghost prefix = self@.subrange(0, j + 1);
            assert(prefix.drop_last() =~= self@.subrange(0, j as int));
            proof {
                lemma_min_position(self@.subrange(0, j as int));
            }
            let cand = self.items[j];
            let cur = self.items[best];
            if cand.0 < cur.0 || (cand.0 == cur.0 && cand.1 < cur.1) {
                best = j;
            }
            j += 1;
        }
        assert(self@.subrange(0, n as int) =~= self@);
        let e = self.items.remove(best);
        Some(e)
    }
}

} // verus!
