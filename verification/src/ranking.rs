use vstd::prelude::*;
use crate::rect::Rectangle;

verus! {

/// A rectangle awaiting possible further subdivision, tagged with its
/// weighted error.
#[derive(Debug, Clone, Copy, PartialEq, Eq, Structural)]
pub struct Candidate {
    pub error: u64,
    pub rect: Rectangle,
}

/// Ascending by error.
pub open spec fn sorted_by_error(s: Seq<Candidate>) -> bool {
    forall|i: int, j: int| 0 <= i <= j < s.len() ==> s[i].error <= s[j].error
}

/// The stable insertion point for error `e` in `s`: the position after
/// every entry whose error is at most `e`.
pub open spec fn insert_index(s: Seq<Candidate>, e: u64) -> int
    decreases s.len(),
{
    if s.len() == 0 {
        0
    } else if s.last().error <= e {
        s.len() as int
    } else {
        insert_index(s.drop_last(), e)
    }
}

/// The insertion point lies within the sequence bounds.
pub proof fn lemma_insert_index_bounds(s: Seq<Candidate>, e: u64)
    ensures
        0 <= insert_index(s, e) <= s.len(),
    decreases s.len(),
{
    if s.len() > 0 && !(s.last().error <= e) {
        lemma_insert_index_bounds(s.drop_last(), e);
    }
}

/// In a sorted sequence the insertion point is pinned down by its boundary:
/// everything before it has error at most `e`, everything from it on
/// exceeds `e`.
pub proof fn lemma_insert_index_characterization(s: Seq<Candidate>, e: u64, k: int)
    requires
        0 <= k <= s.len(),
        forall|i: int| 0 <= i < k ==> s[i].error <= e,
        forall|i: int| k <= i < s.len() ==> s[i].error > e,
    ensures
        insert_index(s, e) == k,
    decreases s.len(),
{
    if s.len() == 0 {
    } else if s.last().error <= e {
        assert(k == s.len());
    } else {
        assert(k < s.len());
        let d = s.drop_last();
        lemma_insert_index_characterization(d, e, k);
    }
}

/// Whether a candidate's rectangle strictly exceeds `m` pixels in both
/// dimensions.
pub open spec fn big_enough(c: Candidate, m: int) -> bool {
    c.rect.width_spec() > m && c.rect.height_spec() > m
}

/// Index of the last big-enough candidate, or -1 if there is none.
pub open spec fn last_big(s: Seq<Candidate>, m: int) -> int
    decreases s.len(),
{
    if s.len() == 0 {
        -1
    } else if big_enough(s.last(), m) {
        s.len() - 1
    } else {
        last_big(s.drop_last(), m)
    }
}

/// `last_big` names a big-enough candidate, and everything after it is too
/// small.
pub proof fn lemma_last_big_properties(s: Seq<Candidate>, m: int)
    ensures
        -1 <= last_big(s, m) < s.len(),
        last_big(s, m) >= 0 ==> big_enough(s[last_big(s, m)], m),
        forall|i: int| last_big(s, m) < i < s.len() ==> !big_enough(s[i], m),
    decreases s.len(),
{
    if s.len() > 0 && !big_enough(s.last(), m) {
        lemma_last_big_properties(s.drop_last(), m);
        assert forall|i: int| last_big(s, m) < i < s.len() implies !big_enough(s[i], m) by {
            if i < s.len() - 1 {
                assert(s.drop_last()[i] == s[i]);
            }
        }
    }
}

/// A prefix of a sorted sequence is sorted.
pub proof fn lemma_sorted_prefix(s: Seq<Candidate>, k: int)
    requires
        sorted_by_error(s),
        0 <= k <= s.len(),
    ensures
        sorted_by_error(s.subrange(0, k)),
{
}

/// An ascending-by-error collection of subdivision candidates.
#[derive(Debug)]
pub struct Ranking {
    items: Vec<Candidate>,
}

impl Ranking {
    /// The candidates, in ascending error order.
    pub closed spec fn candidates(self) -> Seq<Candidate> {
        self.items@
    }

    /// The candidates are in ascending error order.
    pub open spec fn wf(self) -> bool {
        sorted_by_error(self.candidates())
    }

    /// An empty ranking.
    pub fn new() -> (r: Ranking)
        ensures
            r.candidates() == Seq::<Candidate>::empty(),
            r.wf(),
    {
        Ranking { items: Vec::new() }
    }

    /// Number of candidates.
    pub fn len(&self) -> (n: usize)
        ensures
            n == self.candidates().len(),
    {
        self.items.len()
    }

    /// The candidate at position `i`.
    pub fn get(&self, i: usize) -> (c: Candidate)
        requires
            i < self.candidates().len(),
        ensures
            c == self.candidates()[i as int],
    {
        self.items[i]
    }

    /// Insert a rectangle with its weighted error at the position found by
    /// binary search, keeping ascending order; an entry with an equal error
    /// goes after the entries already present.
    pub fn insert(&mut self, error: u64, rect: Rectangle)
        requires
            old(self).wf(),
        ensures
            final(self).wf(),
            final(self).candidates() == old(self).candidates().insert(
                insert_index(old(self).candidates(), error),
                Candidate { error, rect },
            ),
    {
        let mut lo: usize = 0;
        let mut hi: usize = self.items.len();
        while lo < hi
            invariant
                lo <= hi <= self.items@.len(),
                sorted_by_error(self.items@),
                forall|i: int| 0 <= i < lo ==> self.items@[i].error <= error,
                forall|i: int| hi <= i < self.items@.len() ==> self.items@[i].error > error,
            decreases hi - lo,
        {
            let mid = lo + (hi - lo) / 2;
            if self.items[mid].error <= error {
                lo = mid + 1;
            } else {
                hi = mid;
            }
        }
        proof {
            lemma_insert_index_characterization(self.items@, error, lo as int);
        }
        let c = Candidate { error, rect };
        self.items.insert(lo, c);
        proof {
            let t = self.items@;
            let s = old(self).items@;
            let k = lo as int;
            assert forall|i: int, j: int| 0 <= i <= j < t.len() implies t[i].error <= t[j].error by {
                if i < k && j < k {
                    assert(t[i] == s[i] && t[j] == s[j]);
                } else if i < k && j == k {
                    assert(t[i] == s[i]);
                } else if i < k && j > k {
                    assert(t[i] == s[i] && t[j] == s[j - 1]);
                } else if i == k && j > k {
                    assert(t[j] == s[j - 1]);
                } else if i > k && j > k {
                    assert(t[i] == s[i - 1] && t[j] == s[j - 1]);
                }
            }
        }
    }

    /// Remove and return the highest-error candidate, or nothing if the
    /// ranking is empty.
    pub fn extract_max(&mut self) -> (r: Option<Candidate>)
        ensures
            old(self).candidates().len() == 0 ==> r is None
                && final(self).candidates() == old(self).candidates(),
            old(self).candidates().len() > 0 ==> r == Some(old(self).candidates().last())
                && final(self).candidates() == old(self).candidates().drop_last(),
            old(self).wf() ==> final(self).wf(),
    {
        proof {
            if old(self).wf() && self.items@.len() > 0 {
                lemma_sorted_prefix(self.items@, self.items@.len() - 1 as int);
            }
        }
        self.items.pop()
    }

    /// Pop candidates from the top until one strictly exceeds `min_dim`
    /// pixels in both width and height, and return it; smaller candidates
    /// on the way are discarded for good.  Returns nothing, leaving the
    /// ranking empty, when no candidate is large enough.
    pub fn remove_until(&mut self, min_dim: u32) -> (r: Option<Candidate>)
        requires
            forall|i: int|
                0 <= i < old(self).candidates().len() ==> ((#[trigger] old(self).candidates()[i]).rect.top_left.x
                    <= old(self).candidates()[i].rect.bottom_right.x && old(
                    self,
                ).candidates()[i].rect.top_left.y <= old(self).candidates()[i].rect.bottom_right.y),
        ensures
            ({
                let k = last_big(old(self).candidates(), min_dim as int);
                &&& k >= 0 ==> r == Some(old(self).candidates()[k]) && final(self).candidates()
                    == old(self).candidates().subrange(0, k)
                &&& k < 0 ==> r is None && final(self).candidates().len() == 0
            }),
            old(self).wf() ==> final(self).wf(),
    {
        proof {
            lemma_last_big_properties(self.items@, min_dim as int);
        }
        let ghost s = self.items@;
        let ghost k = last_big(s, min_dim as int);
        proof {
            assert forall|i: int|
                0 <= i < s.len() implies (#[trigger] s[i]).rect.top_left.x
                <= s[i].rect.bottom_right.x && s[i].rect.top_left.y
                <= s[i].rect.bottom_right.y by {
                assert(old(self).candidates()[i] == s[i]);
            }
            assert(self.items@ =~= s.subrange(0, self.items@.len() as int));
        }
        loop
            invariant
                self.items@.len() <= s.len(),
                self.items@ == s.subrange(0, self.items@.len() as int),
                k == last_big(s, min_dim as int),
                k < self.items@.len(),
                -1 <= k < s.len(),
                k >= 0 ==> big_enough(s[k], min_dim as int),
                forall|i: int| k < i < s.len() ==> !big_enough(s[i], min_dim as int),
                forall|i: int|
                    0 <= i < s.len() ==> ((#[trigger] s[i]).rect.top_left.x
                        <= s[i].rect.bottom_right.x && s[i].rect.top_left.y
                        <= s[i].rect.bottom_right.y),
                s == old(self).items@,
            decreases self.items@.len(),
        {
            if self.items.len() == 0 {
                return None;
            }
            let n = self.items.len();
            let c = self.items.pop().unwrap();
            proof {
                assert(c == s[n - 1]);
                assert(self.items@ =~= s.subrange(0, n - 1 as int));
            }
            let wide = c.rect.bottom_right.x - c.rect.top_left.x > (min_dim as usize);
            let tall = c.rect.bottom_right.y - c.rect.top_left.y > (min_dim as usize);
            if wide && tall {
                proof {
                    assert(big_enough(c, min_dim as int));
                    assert(k == n - 1);
                    if old(self).wf() {
                        lemma_sorted_prefix(s, k);
                    }
                }
                return Some(c);
            }
            proof {
                assert(!big_enough(c, min_dim as int));
                assert(k < n - 1);
            }
        }
    }
}

} // verus!
