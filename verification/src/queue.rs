//! A priority queue of orders kept sorted by rank: the order of highest rank is
//! served first, and among orders of equal rank the one queued first.

use vstd::prelude::*;

verus! {

/// Lexicographic order on rank triples.
pub open spec fn rank_le(a: (int, int, int), b: (int, int, int)) -> bool {
    a.0 < b.0 || (a.0 == b.0 && (a.1 < b.1 || (a.1 == b.1 && a.2 <= b.2)))
}

pub open spec fn rank_lt(a: (int, int, int), b: (int, int, int)) -> bool {
    !rank_le(b, a)
}

/// Items that a queue serves by rank.
pub trait Ranked: Sized {
    spec fn rank(&self) -> (int, int, int);

    fn ranks_below(&self, other: &Self) -> (r: bool)
        ensures
            r == rank_lt(self.rank(), other.rank()),
    ;
}

/// Every item ranks at most as high as the items after it.
pub open spec fn sorted_by_rank<T: Ranked>(s: Seq<T>) -> bool {
    forall|i: int, j: int| 0 <= i < j < s.len() ==> rank_le(#[trigger] s[i].rank(), #[trigger] s[j].rank())
}

/// Where a newly queued item goes: after every item of lower rank, before the
/// items of equal rank, which were there first and are served first.
pub open spec fn slot_before_equals<T: Ranked>(s: Seq<T>, x: T) -> int
    decreases s.len(),
{
    if s.len() == 0 {
        0
    } else if rank_lt(s.last().rank(), x.rank()) {
        s.len() as int
    } else {
        slot_before_equals(s.drop_last(), x)
    }
}

/// Where an item goes back to after it was taken from the front and changed:
/// after every item of lower or equal rank.
pub open spec fn slot_after_equals<T: Ranked>(s: Seq<T>, x: T) -> int
    decreases s.len(),
{
    if s.len() == 0 {
        0
    } else if rank_le(s.last().rank(), x.rank()) {
        s.len() as int
    } else {
        slot_after_equals(s.drop_last(), x)
    }
}

/// The queue after `x` is queued.
pub open spec fn queued<T: Ranked>(s: Seq<T>, x: T) -> Seq<T> {
    s.insert(slot_before_equals(s, x), x)
}

/// The queue after `x` is put back in front of the items of equal rank.
pub open spec fn requeued<T: Ranked>(s: Seq<T>, x: T) -> Seq<T> {
    s.insert(slot_after_equals(s, x), x)
}


/// Both slots lie within the queue.
pub proof fn lemma_slots_in_range<T: Ranked>(s: Seq<T>, x: T)
    ensures
        0 <= slot_before_equals(s, x) <= s.len(),
        0 <= slot_after_equals(s, x) <= s.len(),
        queued(s, x).len() == s.len() + 1,
        requeued(s, x).len() == s.len() + 1,
        forall|i: int| 0 <= i < queued(s, x).len() ==> #[trigger] queued(s, x)[i] == x || s.contains(queued(s, x)[i]),
        forall|i: int| 0 <= i < requeued(s, x).len() ==> #[trigger] requeued(s, x)[i] == x || s.contains(requeued(s, x)[i]),
    decreases s.len(),
{
    if s.len() > 0 {
        lemma_slots_in_range(s.drop_last(), x);
    }
    let k1 = slot_before_equals(s, x);
    let k2 = slot_after_equals(s, x);
    assert forall|i: int| 0 <= i < queued(s, x).len() implies #[trigger] queued(s, x)[i] == x || s.contains(queued(s, x)[i]) by {
        if i < k1 {
            assert(queued(s, x)[i] == s[i]);
        } else if i > k1 {
            assert(queued(s, x)[i] == s[i - 1]);
        }
    }
    assert forall|i: int| 0 <= i < requeued(s, x).len() implies #[trigger] requeued(s, x)[i] == x || s.contains(requeued(s, x)[i]) by {
        if i < k2 {
            assert(requeued(s, x)[i] == s[i]);
        } else if i > k2 {
            assert(requeued(s, x)[i] == s[i - 1]);
        }
    }
}

proof fn lemma_slot_before_bounds<T: Ranked>(s: Seq<T>, x: T)
    requires
        sorted_by_rank(s),
    ensures
        0 <= slot_before_equals(s, x) <= s.len(),
        forall|j: int| 0 <= j < slot_before_equals(s, x) ==> rank_lt(#[trigger] s[j].rank(), x.rank()),
        forall|j: int| slot_before_equals(s, x) <= j < s.len() ==> rank_le(x.rank(), #[trigger] s[j].rank()),
    decreases s.len(),
{
    if s.len() > 0 {
        if rank_lt(s.last().rank(), x.rank()) {
            assert forall|j: int| 0 <= j < s.len() implies rank_lt(#[trigger] s[j].rank(), x.rank()) by {
                if j < s.len() - 1 {
                    assert(rank_le(s[j].rank(), s[s.len() - 1].rank()));
                }
            }
        } else {
            let t = s.drop_last();
            assert(sorted_by_rank(t)) by {
                assert forall|i: int, j: int| 0 <= i < j < t.len() implies rank_le(#[trigger] t[i].rank(), #[trigger] t[j].rank()) by {
                    assert(t[i] == s[i] && t[j] == s[j]);
                }
            }
            lemma_slot_before_bounds(t, x);
            assert forall|j: int| 0 <= j < slot_before_equals(s, x) implies rank_lt(#[trigger] s[j].rank(), x.rank()) by {
                assert(t[j] == s[j]);
            }
            assert forall|j: int| slot_before_equals(s, x) <= j < s.len() implies rank_le(x.rank(), #[trigger] s[j].rank()) by {
                if j < s.len() - 1 {
                    assert(t[j] == s[j]);
                }
            }
        }
    }
}

proof fn lemma_slot_after_bounds<T: Ranked>(s: Seq<T>, x: T)
    requires
        sorted_by_rank(s),
    ensures
        0 <= slot_after_equals(s, x) <= s.len(),
        forall|j: int| 0 <= j < slot_after_equals(s, x) ==> rank_le(#[trigger] s[j].rank(), x.rank()),
        forall|j: int| slot_after_equals(s, x) <= j < s.len() ==> rank_lt(x.rank(), #[trigger] s[j].rank()),
    decreases s.len(),
{
    if s.len() > 0 {
        if rank_le(s.last().rank(), x.rank()) {
            assert forall|j: int| 0 <= j < s.len() implies rank_le(#[trigger] s[j].rank(), x.rank()) by {
                if j < s.len() - 1 {
                    assert(rank_le(s[j].rank(), s[s.len() - 1].rank()));
                }
            }
        } else {
            let t = s.drop_last();
            assert(sorted_by_rank(t)) by {
                assert forall|i: int, j: int| 0 <= i < j < t.len() implies rank_le(#[trigger] t[i].rank(), #[trigger] t[j].rank()) by {
                    assert(t[i] == s[i] && t[j] == s[j]);
                }
            }
            lemma_slot_after_bounds(t, x);
            assert forall|j: int| 0 <= j < slot_after_equals(s, x) implies rank_le(#[trigger] s[j].rank(), x.rank()) by {
                assert(t[j] == s[j]);
            }
            assert forall|j: int| slot_after_equals(s, x) <= j < s.len() implies rank_lt(x.rank(), #[trigger] s[j].rank()) by {
                if j < s.len() - 1 {
                    assert(t[j] == s[j]);
                }
            }
        }
    }
}


/// Taking the item served next out of a sorted queue leaves it sorted.
pub proof fn lemma_sorted_drop_last<T: Ranked>(s: Seq<T>)
    requires
        sorted_by_rank(s),
        s.len() > 0,
    ensures
        sorted_by_rank(s.drop_last()),
{
    let t = s.drop_last();
    assert forall|i: int, j: int| 0 <= i < j < t.len() implies rank_le(#[trigger] t[i].rank(), #[trigger] t[j].rank()) by {
        assert(t[i] == s[i] && t[j] == s[j]);
    }
}

/// Queueing an item keeps a sorted queue sorted and adds exactly that item.
pub proof fn lemma_queued_sorted<T: Ranked>(s: Seq<T>, x: T)
    requires
        sorted_by_rank(s),
    ensures
        sorted_by_rank(queued(s, x)),
        queued(s, x).len() == s.len() + 1,
        queued(s, x).to_multiset() == s.to_multiset().insert(x),
{
    lemma_slot_before_bounds(s, x);
    let k = slot_before_equals(s, x);
    let r = queued(s, x);
    assert forall|i: int, j: int| 0 <= i < j < r.len() implies rank_le(#[trigger] r[i].rank(), #[trigger] r[j].rank()) by {
        if i < k && j < k {
            assert(r[i] == s[i] && r[j] == s[j]);
        } else if i < k && j == k {
            assert(r[i] == s[i]);
        } else if i < k {
            assert(r[i] == s[i] && r[j] == s[j - 1]);
            assert(rank_le(s[i].rank(), s[j - 1].rank()));
        } else if i == k {
            assert(r[j] == s[j - 1]);
        } else {
            assert(r[i] == s[i - 1] && r[j] == s[j - 1]);
        }
    }
    vstd::seq_lib::to_multiset_insert(s, k, x);
}

/// Putting an item back keeps a sorted queue sorted and adds exactly that item.
pub proof fn lemma_requeued_sorted<T: Ranked>(s: Seq<T>, x: T)
    requires
        sorted_by_rank(s),
    ensures
        sorted_by_rank(requeued(s, x)),
        requeued(s, x).len() == s.len() + 1,
        requeued(s, x).to_multiset() == s.to_multiset().insert(x),
{
    lemma_slot_after_bounds(s, x);
    let k = slot_after_equals(s, x);
    let r = requeued(s, x);
    assert forall|i: int, j: int| 0 <= i < j < r.len() implies rank_le(#[trigger] r[i].rank(), #[trigger] r[j].rank()) by {
        if i < k && j < k {
            assert(r[i] == s[i] && r[j] == s[j]);
        } else if i < k && j == k {
            assert(r[i] == s[i]);
        } else if i < k {
            assert(r[i] == s[i] && r[j] == s[j - 1]);
            assert(rank_le(s[i].rank(), s[j - 1].rank()));
        } else if i == k {
            assert(r[j] == s[j - 1]);
        } else {
            assert(r[i] == s[i - 1] && r[j] == s[j - 1]);
        }
    }
    vstd::seq_lib::to_multiset_insert(s, k, x);
}

/// A queue of items served by rank.
#[derive(Debug)]
pub struct RankedQueue<T> {
    items: Vec<T>,
}

impl<T> View for RankedQueue<T> {
    type V = Seq<T>;

    closed spec fn view(&self) -> Seq<T> {
        self.items@
    }
}

impl<T: Ranked> RankedQueue<T> {
    pub fn new() -> (q: RankedQueue<T>)
        ensures
            q@ == Seq::<T>::empty(),
    {
        RankedQueue { items: Vec::new() }
    }

    pub fn len(&self) -> (n: usize)
        ensures
            n == self@.len(),
    {
        self.items.len()
    }

    /// The item served next, if any.
    pub fn peek(&self) -> (top: Option<&T>)
        ensures
            top == (if self@.len() == 0 { None } else { Some(&self@.last()) }),
    {
        let n = self.items.len();
        if n == 0 {
            None
        } else {
            Some(&self.items[n - 1])
        }
    }

    /// Takes out the item served next, if any.
    pub fn pop(&mut self) -> (top: Option<T>)
        ensures
            old(self)@.len() == 0 ==> top is None && final(self)@ == old(self)@,
            old(self)@.len() > 0 ==> top == Some(old(self)@.last()) && final(self)@ == old(self)@.drop_last(),
    {
        self.items.pop()
    }

    /// Queues an item behind the items of equal rank.
    pub fn push(&mut self, x: T)
        ensures
            final(self)@ == queued(old(self)@, x),
    {
        let mut i = self.items.len();
        assert(self.items@.take(i as int) =~= self.items@);
        while i > 0 && !self.items[i - 1].ranks_below(&x)
            invariant
                i <= self.items@.len(),
                self.items@ == old(self)@,
                slot_before_equals(self.items@, x) == slot_before_equals(self.items@.take(i as int), x),
            decreases i,
        {
            assert(self.items@.take(i as int).drop_last() =~= self.items@.take(i - 1));
            i = i - 1;
        }
        proof {
            if i > 0 {
                assert(self.items@.take(i as int).last() == self.items@[i - 1]);
            }
        }
        self.items.insert(i, x);
    }

    /// Puts an item back in front of the items of equal rank.
    pub fn push_front_of_equals(&mut self, x: T)
        ensures
            final(self)@ == requeued(old(self)@, x),
    {
        let mut i = self.items.len();
        assert(self.items@.take(i as int) =~= self.items@);
        while i > 0 && x.ranks_below(&self.items[i - 1])
            invariant
                i <= self.items@.len(),
                self.items@ == old(self)@,
                slot_after_equals(self.items@, x) == slot_after_equals(self.items@.take(i as int), x),
            decreases i,
        {
            assert(self.items@.take(i as int).drop_last() =~= self.items@.take(i - 1));
            i = i - 1;
        }
        proof {
            if i > 0 {
                assert(self.items@.take(i as int).last() == self.items@[i - 1]);
            }
        }
        self.items.insert(i, x);
    }
}

} // verus!
