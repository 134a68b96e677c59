use vstd::prelude::*;
use vstd::multiset::Multiset;

verus! {

/// `s` is in ascending order of priority.
pub open spec fn sorted_by_priority(s: Seq<(i64, i64)>) -> bool {
    forall|i: int, j: int| 0 <= i < j < s.len() ==> s[i].0 <= s[j].0
}

/// Each pair of `a` has a priority no larger than that of any pair of `b`.
pub open spec fn all_le(a: Multiset<(i64, i64)>, b: Multiset<(i64, i64)>) -> bool {
    forall|x: (i64, i64), y: (i64, i64)|
        #[trigger] a.count(x) > 0 && #[trigger] b.count(y) > 0 ==> x.0 <= y.0
}

/// A retrieval of up to `count` pairs from a store that held `before` handed out
/// `out` and left `after`: `out` holds `min(count, |before|)` pairs of lowest
/// priority, in ascending order of priority, and they left the store.
pub open spec fn retrieval(
    before: Multiset<(i64, i64)>,
    count: int,
    out: Seq<(i64, i64)>,
    after: Multiset<(i64, i64)>,
) -> bool {
    &&& out.len() == if count < before.len() {
        count
    } else {
        before.len() as int
    }
    &&& sorted_by_priority(out)
    &&& before == after.add(out.to_multiset())
    &&& all_le(out.to_multiset(), after)
}

/// `o` is the least priority in `m`, or nothing when `m` is empty.
pub open spec fn lowest_of(m: Multiset<(i64, i64)>, o: Option<i64>) -> bool {
    match o {
        None => m.len() == 0,
        Some(p) => (exists|v: i64| #[trigger] m.count((p, v)) > 0) && forall|y: (i64, i64)|
            #[trigger] m.count(y) > 0 ==> p <= y.0,
    }
}

/// A store of `(priority, value)` pairs that hands them back lowest priority first.
pub trait I64PrioQueueStorage: Sized {
    /// The pairs in the store.
    spec fn contents(&self) -> Multiset<(i64, i64)>;

    /// Adds all of `items` to the store.
    fn insert(&mut self, items: &Vec<(i64, i64)>) -> (r: Result<(), rusqlite::Error>)
        ensures
            r is Ok ==> final(self).contents() == old(self).contents().add(items@.to_multiset()),
    ;

    /// Removes up to `count` pairs of lowest priority and returns them in ascending
    /// order of priority.
    fn retrieve(&mut self, count: usize) -> (r: Result<Vec<(i64, i64)>, rusqlite::Error>)
        ensures
            r is Ok ==> retrieval(
                old(self).contents(),
                count as int,
                r->Ok_0@,
                final(self).contents(),
            ),
    ;

    fn lowest_priority(&self) -> (r: Result<Option<i64>, rusqlite::Error>)
        ensures
            r is Ok ==> lowest_of(self.contents(), r->Ok_0),
    ;

    fn len(&self) -> (r: Result<usize, rusqlite::Error>)
        ensures
            r is Ok ==> r->Ok_0 == self.contents().len(),
    ;

    fn is_empty(&self) -> (r: Result<bool, rusqlite::Error>)
        ensures
            r is Ok ==> r->Ok_0 == (self.contents().len() == 0),
    ;

    fn is_not_empty(&self) -> (r: Result<bool, rusqlite::Error>)
        ensures
            r is Ok ==> r->Ok_0 == (self.contents().len() != 0),
    ;
}

} // verus!
