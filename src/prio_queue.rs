use vstd::prelude::*;
use vstd::multiset::Multiset;

verus! {

/// `x` is one of the items of `m`, and no item of `m` has a smaller priority.
pub open spec fn is_least(m: Multiset<(i64, i64)>, x: (i64, i64)) -> bool {
    m.count(x) > 0 && forall|y: (i64, i64)| #[trigger] m.count(y) > 0 ==> x.0 <= y.0
}

/// What a `peek` or a `poll` may return on a queue holding `m`: nothing when `m` is
/// empty, otherwise an item of least priority.
pub open spec fn least_or_none(m: Multiset<(i64, i64)>, o: Option<(i64, i64)>) -> bool {
    match o {
        None => m.len() == 0,
        Some(x) => is_least(m, x),
    }
}

/// A failure of the store under a queue. The queue cannot go on after one.
#[derive(Debug)]
pub struct StorageFault {
    pub cause: rusqlite::Error,
}

/// A queue of `(priority, value)` pairs that hands out the pair of least priority first.
pub trait PriorityQueue: Sized {
    /// The pairs in the queue.
    spec fn items(&self) -> Multiset<(i64, i64)>;

    /// The queue's internal invariant holds.
    spec fn wf(&self) -> bool;

    fn len(&self) -> (r: usize)
        requires
            self.wf(),
        ensures
            r == self.items().len(),
    ;

    fn is_empty(&self) -> (r: bool)
        requires
            self.wf(),
        ensures
            r == (self.items().len() == 0),
    ;

    fn is_not_empty(&self) -> (r: bool)
        requires
            self.wf(),
        ensures
            r == (self.items().len() != 0),
    ;

    fn peek(&mut self) -> (r: Result<Option<(i64, i64)>, StorageFault>)
        requires
            old(self).wf(),
        ensures
            r is Ok ==> final(self).wf() && final(self).items() == old(self).items()
                && least_or_none(old(self).items(), r->Ok_0),
    ;

    fn poll(&mut self) -> (r: Result<Option<(i64, i64)>, StorageFault>)
        requires
            old(self).wf(),
        ensures
            r is Ok ==> final(self).wf() && least_or_none(old(self).items(), r->Ok_0) && match r->Ok_0 {
                None => final(self).items() == old(self).items(),
                Some(x) => final(self).items() == old(self).items().remove(x),
            },
    ;

    fn insert(&mut self, item: (i64, i64)) -> (r: Result<(), StorageFault>)
        requires
            old(self).wf(),
            old(self).items().len() < usize::MAX,
        ensures
            r is Ok ==> final(self).wf() && final(self).items() == old(self).items().insert(item),
    ;

    fn insert_all(&mut self, items: &Vec<(i64, i64)>) -> (r: Result<(), StorageFault>)
        requires
            old(self).wf(),
            old(self).items().len() + items@.len() <= usize::MAX,
        ensures
            r is Ok ==> final(self).wf() && final(self).items() == old(self).items().add(
                items@.to_multiset(),
            ),
    ;
}

/// Successive polls come out in ascending order of priority: after `x` leaves `m` as
/// a least item, and only pairs of priority no smaller than `x`'s come in, the next
/// least item has a priority no smaller than `x`'s.
pub proof fn polls_ascend(
    m: Multiset<(i64, i64)>,
    x: (i64, i64),
    arrivals: Multiset<(i64, i64)>,
    y: (i64, i64),
)
    requires
        is_least(m, x),
        forall|z: (i64, i64)| #[trigger] arrivals.count(z) > 0 ==> x.0 <= z.0,
        is_least(m.remove(x).add(arrivals), y),
    ensures
        x.0 <= y.0,
{
    assert(m.remove(x).add(arrivals).count(y) == m.remove(x).count(y) + arrivals.count(y));
    if arrivals.count(y) == 0 {
        assert(m.count(y) > 0);
    }
}

/// The priority that a queue hands out next depends on its pairs alone, however they
/// are held: two least items of one multiset have the same priority.
pub proof fn least_priority_is_determined(m: Multiset<(i64, i64)>, x: (i64, i64), y: (i64, i64))
    requires
        is_least(m, x),
        is_least(m, y),
    ensures
        x.0 == y.0,
{
}

} // verus!
