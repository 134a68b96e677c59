use vstd::prelude::*;
use vstd::multiset::Multiset;
use skiplist::OrderedSkipList;
use crate::dao::{I64PrioQueueStorage, all_le};
use crate::hot_list::{
    skip_items,
    is_first,
    list_new,
    list_len,
    list_insert,
    list_front,
    list_back,
    list_pop_front,
    list_pop_back,
    list_to_vec,
};
use crate::prio_queue::{PriorityQueue, StorageFault};

verus! {

broadcast use vstd::seq_lib::group_to_multiset_ensures;

pub const DEFAULT_OFFLOAD_TO_STORAGE_THRESHOLD: usize = 5000;

pub const DEFAULT_LOAD_FROM_STORAGE_THRESHOLD: usize = 1000;

/// The smaller of `a` and `b`.
pub open spec fn min_of(a: int, b: int) -> int {
    if a < b {
        a
    } else {
        b
    }
}

/// Adds each pair of `v` to the list.
fn extend_list(l: &mut OrderedSkipList<(i64, i64)>, v: &Vec<(i64, i64)>)
    ensures
        skip_items(*final(l)) == skip_items(*old(l)).add(v@.to_multiset()),
{
    let ghost start = skip_items(*l);
    let mut i: usize = 0;
    while i < v.len()
        invariant
            i <= v.len(),
            skip_items(*l) == start.add(v@.subrange(0, i as int).to_multiset()),
        decreases v.len() - i,
    {
        list_insert(l, v[i]);
        proof {
            assert(v@.subrange(0, i + 1) =~= v@.subrange(0, i as int).push(v@[i as int]));
            assert(start.add(v@.subrange(0, i + 1).to_multiset()) =~= start.add(
                v@.subrange(0, i as int).to_multiset(),
            ).insert(v@[i as int]));
        }
        i = i + 1;
    }
    proof {
        assert(v@.subrange(0, v@.len() as int) =~= v@);
    }
}

/// The least and the greatest priority among `items`, or nothing when it is empty.
fn priority_bounds(items: &Vec<(i64, i64)>) -> (r: Option<(i64, i64)>)
    ensures
        match r {
            None => items@.len() == 0,
            Some((lo, hi)) => {
                &&& exists|i: int| 0 <= i < items@.len() && items@[i].0 == lo
                &&& forall|i: int| 0 <= i < items@.len() ==> lo <= #[trigger] items@[i].0 <= hi
            },
        },
{
    if items.len() == 0 {
        return None;
    }
    let mut lo = items[0].0;
    let mut hi = items[0].0;
    let mut i: usize = 1;
    while i < items.len()
        invariant
            1 <= i <= items.len(),
            exists|j: int| 0 <= j < items@.len() && items@[j].0 == lo,
            forall|j: int| 0 <= j < i ==> lo <= #[trigger] items@[j].0 <= hi,
        decreases items.len() - i,
    {
        if items[i].0 < lo {
            lo = items[i].0;
        }
        if items[i].0 > hi {
            hi = items[i].0;
        }
        i = i + 1;
    }
    Some((lo, hi))
}

/// A priority queue of `(priority, value)` pairs in two tiers: a hot tier in memory
/// that holds pairs of least priority, and a cold tier in a store that takes the pairs
/// beyond the offload threshold. The hot tier is refilled from the store when it runs
/// below the load threshold.
pub struct StorageBackedI64PriorityQueue<S: I64PrioQueueStorage> {
    map: OrderedSkipList<(i64, i64)>,
    storage: S,
    size: usize,
    offload_to_storage_threshold: usize,
    load_from_storage_threshold: usize,
}

impl<S: I64PrioQueueStorage> StorageBackedI64PriorityQueue<S> {
    /// The pairs held in memory.
    pub closed spec fn hot(&self) -> Multiset<(i64, i64)> {
        skip_items(self.map)
    }

    /// The pairs held in the store.
    pub closed spec fn cold(&self) -> Multiset<(i64, i64)> {
        self.storage.contents()
    }

    /// The offload threshold: the most pairs that the hot tier keeps.
    pub closed spec fn high(&self) -> nat {
        self.offload_to_storage_threshold as nat
    }

    /// The load threshold: below it the hot tier is refilled before a read.
    pub closed spec fn low(&self) -> nat {
        self.load_from_storage_threshold as nat
    }

    /// The thresholds are in order and the cached size counts both tiers.
    pub closed spec fn accounted(&self) -> bool {
        &&& 0 < self.load_from_storage_threshold < self.offload_to_storage_threshold
        &&& self.size == self.hot().len() + self.cold().len()
    }

    /// The invariant: sizes accounted, the hot tier within its bound, no pair of the
    /// hot tier with a priority above that of a pair of the cold tier, and the hot tier
    /// empty only when the whole queue is.
    pub closed spec fn well_formed(&self) -> bool {
        &&& self.accounted()
        &&& self.hot().len() <= self.high()
        &&& all_le(self.hot(), self.cold())
        &&& self.synced()
    }

    /// The hot tier is empty only when the whole queue is.
    pub closed spec fn synced(&self) -> bool {
        self.hot().len() == 0 ==> self.cold().len() == 0
    }

    /// A queue over `storage` with the default thresholds. Pairs already in the store
    /// belong to the queue.
    pub fn new(storage: S) -> (r: Result<Self, StorageFault>)
        ensures
            r is Ok ==> {
                let q = r->Ok_0;
                &&& q.well_formed()
                &&& q.hot().add(q.cold()) == storage.contents()
                &&& q.high() == DEFAULT_OFFLOAD_TO_STORAGE_THRESHOLD
                &&& q.low() == DEFAULT_LOAD_FROM_STORAGE_THRESHOLD
            },
    {
        Self::new_with_thresholds(
            storage,
            DEFAULT_OFFLOAD_TO_STORAGE_THRESHOLD,
            DEFAULT_LOAD_FROM_STORAGE_THRESHOLD,
        )
    }

    /// A queue over `storage` whose hot tier keeps at most `offload_to_storage_threshold`
    /// pairs and is refilled when it holds fewer than `load_from_storage_threshold`.
    pub fn new_with_thresholds(
        storage: S,
        offload_to_storage_threshold: usize,
        load_from_storage_threshold: usize,
    ) -> (r: Result<Self, StorageFault>)
        requires
            0 < load_from_storage_threshold < offload_to_storage_threshold,
        ensures
            r is Ok ==> {
                let q = r->Ok_0;
                &&& q.well_formed()
                &&& q.hot().add(q.cold()) == storage.contents()
                &&& q.high() == offload_to_storage_threshold
                &&& q.low() == load_from_storage_threshold
            },
    {
        let size = match storage.len() {
            Ok(n) => n,
            Err(e) => {
                return Err(StorageFault { cause: e });
            },
        };
        let ghost stored = storage.contents();
        let mut queue = StorageBackedI64PriorityQueue {
            map: list_new(),
            size,
            storage,
            offload_to_storage_threshold,
            load_from_storage_threshold,
        };
        proof {
            assert(queue.hot().add(queue.cold()) =~= stored);
        }
        queue.sync_with_storage()?;
        Ok(queue)
    }

    /// The number of pairs in the hot tier.
    pub fn hot_len(&self) -> (r: usize)
        ensures
            r == self.hot().len(),
    {
        list_len(&self.map)
    }

    /// The pairs of the hot tier, in `(priority, value)` order.
    pub fn hot_items(&self) -> (r: Vec<(i64, i64)>)
        ensures
            r@.to_multiset() == self.hot(),
            forall|i: int, j: int| 0 <= i < j < r@.len() ==> crate::hot_list::pair_le(r@[i], r@[j]),
    {
        list_to_vec(&self.map)
    }

    /// The store that holds the cold tier.
    pub fn storage(&self) -> (r: &S)
        ensures
            r.contents() == self.cold(),
    {
        &self.storage
    }

    /// Restores the order between the tiers: moves the pairs of the hot tier that lie
    /// above the least priority of the store into the store, and refills the hot tier
    /// from the store, up to the offload threshold.
    fn sync_with_storage(&mut self) -> (r: Result<(), StorageFault>)
        requires
            old(self).accounted(),
            old(self).hot().len() <= old(self).high(),
        ensures
            final(self).high() == old(self).high(),
            final(self).low() == old(self).low(),
            r is Ok ==> {
                &&& final(self).well_formed()
                &&& final(self).synced()
                &&& final(self).hot().add(final(self).cold()) == old(self).hot().add(old(self).cold())
                &&& final(self).high() == old(self).high()
                &&& final(self).low() == old(self).low()
                &&& (old(self).well_formed() && old(self).synced()) ==> (final(self).hot()
                    == old(self).hot() && final(self).cold() == old(self).cold())
                &&& old(self).cold().len() == 0 ==> (final(self).hot() == old(self).hot()
                    && final(self).cold() == old(self).cold())
                &&& old(self).hot().len() == 0 ==> final(self).hot().len() == min_of(
                    old(self).high() as int,
                    old(self).cold().len() as int,
                )
                &&& !all_le(old(self).hot(), old(self).cold()) ==> final(self).hot().len()
                    == min_of(old(self).high() as int, (old(self).hot().len() + old(self).cold().len()) as int)
            },
    {
        let ghost hot0 = self.hot();
        let ghost cold0 = self.cold();
        // Hit storage for length once only
        let storage_len = match self.storage.len() {
            Ok(n) => n,
            Err(e) => {
                return Err(StorageFault { cause: e });
            },
        };
        let hot_len = list_len(&self.map);
        self.size = hot_len + storage_len;
        if storage_len == 0 {
            return Ok(());
        }
        if hot_len == 0 {
            let loaded = match self.storage.retrieve(self.offload_to_storage_threshold) {
                Ok(v) => v,
                Err(e) => {
                    return Err(StorageFault { cause: e });
                },
            };
            extend_list(&mut self.map, &loaded);
            proof {
                assert(self.hot() =~= loaded@.to_multiset());
                assert(self.hot().add(self.cold()) =~= hot0.add(cold0));
            }
            return Ok(());
        }
        let storage_lowest = match self.storage.lowest_priority() {
            Ok(Some(p)) => p,
            Ok(None) => {
                return Ok(());
            },
            Err(e) => {
                return Err(StorageFault { cause: e });
            },
        };
        let max_hot = match list_back(&self.map) {
            Some(item) => item.0,
            None => {
                return Ok(());
            },
        };
        if max_hot <= storage_lowest {
            proof {
                assert(all_le(hot0, cold0));
            }
            return Ok(());
        }
        let mut to_storage: Vec<(i64, i64)> = Vec::new();
        let mut done = false;
        while !done
            invariant
                0 < self.load_from_storage_threshold < self.offload_to_storage_threshold,
                self.size == hot0.len() + cold0.len(),
                self.cold() == cold0,
                self.high() == old(self).high(),
                self.low() == old(self).low(),
                self.hot().add(to_storage@.to_multiset()) == hot0,
                forall|x: (i64, i64)|
                    #[trigger] to_storage@.to_multiset().count(x) > 0 ==> x.0 > storage_lowest,
                done ==> forall|x: (i64, i64)|
                    #[trigger] self.hot().count(x) > 0 ==> x.0 <= storage_lowest,
            decreases self.hot().len() + if done {
                0int
            } else {
                1int
            },
        {
            match list_back(&self.map) {
                Some(item) => {
                    if item.0 > storage_lowest {
                        let ghost before = to_storage@;
                        let popped = list_pop_back(&mut self.map);
                        if let Some(x) = popped {
                            to_storage.push(x);
                            proof {
                                assert(to_storage@ == before.push(x));
                                assert(self.hot().add(to_storage@.to_multiset()) =~= hot0);
                            }
                        }
                    } else {
                        done = true;
                    }
                },
                None => {
                    done = true;
                },
            }
        }
        let ghost hot1 = self.hot();
        match self.storage.insert(&to_storage) {
            Ok(()) => {},
            Err(e) => {
                return Err(StorageFault { cause: e });
            },
        }
        let ghost cold1 = self.cold();
        proof {
            assert(hot1.add(cold1) =~= hot0.add(cold0));
            assert(all_le(hot1, cold1)) by {
                assert forall|x: (i64, i64), y: (i64, i64)|
                    #[trigger] hot1.count(x) > 0 && #[trigger] cold1.count(y) > 0 implies x.0
                    <= y.0 by {
                    if cold0.count(y) == 0 {
                        assert(to_storage@.to_multiset().count(y) > 0);
                    }
                }
            }
        }
        let remaining = list_len(&self.map);
        let loaded = match self.storage.retrieve(self.offload_to_storage_threshold - remaining) {
            Ok(v) => v,
            Err(e) => {
                return Err(StorageFault { cause: e });
            },
        };
        extend_list(&mut self.map, &loaded);
        proof {
            let cold2 = self.cold();
            let got = loaded@.to_multiset();
            assert(self.hot() == hot1.add(got));
            assert(self.hot().add(cold2) =~= hot1.add(cold1));
            assert forall|x: (i64, i64), y: (i64, i64)|
                #[trigger] self.hot().count(x) > 0 && #[trigger] cold2.count(y) > 0 implies x.0
                <= y.0 by {
                assert(cold1.count(y) > 0);
                if hot1.count(x) == 0 {
                    assert(got.count(x) > 0);
                }
            }
        }
        Ok(())
    }

    /// Moves the pairs of greatest priority from the hot tier into the store until the
    /// hot tier is back at the offload threshold.
    fn offload_to_storage_if_needed(&mut self) -> (r: Result<(), StorageFault>)
        requires
            old(self).accounted(),
        ensures
            final(self).high() == old(self).high(),
            final(self).low() == old(self).low(),
            r is Ok ==> exists|moved: Multiset<(i64, i64)>|
                #![trigger old(self).cold().add(moved)]
                final(self).cold() == old(self).cold().add(moved) && old(self).hot()
                    == final(self).hot().add(moved) && all_le(final(self).hot(), moved),
            r is Ok ==> {
                &&& final(self).accounted()
                &&& final(self).hot().len() <= final(self).high()
                &&& final(self).hot().add(final(self).cold()) == old(self).hot().add(old(self).cold())
                &&& final(self).high() == old(self).high()
                &&& final(self).low() == old(self).low()
                &&& all_le(old(self).hot(), old(self).cold()) ==> all_le(
                    final(self).hot(),
                    final(self).cold(),
                )
                &&& old(self).synced() ==> final(self).synced()
                &&& old(self).hot().len() > old(self).high() ==> final(self).hot().len()
                    == old(self).high()
            },
            old(self).hot().len() <= old(self).high() ==> (r is Ok && final(self).hot() == old(
                self,
            ).hot() && final(self).cold() == old(self).cold() && final(self).size == old(self).size),
    {
        let ghost hot0 = self.hot();
        let ghost cold0 = self.cold();
        if list_len(&self.map) > self.offload_to_storage_threshold {
            let mut to_storage: Vec<(i64, i64)> = Vec::new();
            while list_len(&self.map) > self.offload_to_storage_threshold
                invariant
                    0 < self.load_from_storage_threshold < self.offload_to_storage_threshold,
                    self.size == hot0.len() + cold0.len(),
                    self.cold() == cold0,
                    self.high() == old(self).high(),
                    self.low() == old(self).low(),
                    self.hot().add(to_storage@.to_multiset()) == hot0,
                    all_le(self.hot(), to_storage@.to_multiset()),
                    self.hot().len() >= self.high(),
                decreases self.hot().len(),
            {
                let ghost before = to_storage@;
                let ghost h = self.hot();
                let popped = list_pop_back(&mut self.map);
                if let Some(x) = popped {
                    to_storage.push(x);
                    proof {
                        assert(to_storage@ == before.push(x));
                        assert(self.hot().add(to_storage@.to_multiset()) =~= hot0);
                        assert forall|a: (i64, i64), b: (i64, i64)|
                            #[trigger] self.hot().count(a) > 0
                                && #[trigger] to_storage@.to_multiset().count(b) > 0 implies a.0
                            <= b.0 by {
                            assert(h.count(a) > 0);
                            if b != x {
                                assert(before.to_multiset().count(b) > 0);
                            }
                        }
                    }
                }
            }
            let ghost hot1 = self.hot();
            match self.storage.insert(&to_storage) {
                Ok(()) => {},
                Err(e) => {
                    return Err(StorageFault { cause: e });
                },
            }
            proof {
                let cold1 = self.cold();
                let moved = to_storage@.to_multiset();
                assert(cold1 == cold0.add(moved));
                assert(hot0 == hot1.add(moved));
                assert(all_le(hot1, moved));
                assert(hot1.add(cold1) =~= hot0.add(cold0));
                if all_le(hot0, cold0) {
                    assert forall|x: (i64, i64), y: (i64, i64)|
                        #[trigger] hot1.count(x) > 0 && #[trigger] cold1.count(y) > 0 implies x.0
                        <= y.0 by {
                        assert(hot0.count(x) > 0);
                    }
                }
            }
        } else {
            proof {
                let moved = Multiset::<(i64, i64)>::empty();
                assert(cold0.add(moved) =~= cold0);
                assert(hot0.add(moved) =~= hot0);
                assert(self.cold() == cold0.add(moved));
            }
        }
        Ok(())
    }
}

impl<S: I64PrioQueueStorage> PriorityQueue for StorageBackedI64PriorityQueue<S> {
    open spec fn items(&self) -> Multiset<(i64, i64)> {
        self.hot().add(self.cold())
    }

    open spec fn wf(&self) -> bool {
        self.well_formed()
    }

    fn len(&self) -> (r: usize) {
        self.size
    }

    fn is_empty(&self) -> (r: bool) {
        self.size == 0
    }

    fn is_not_empty(&self) -> (r: bool) {
        !self.is_empty()
    }

    fn peek(&mut self) -> (r: Result<Option<(i64, i64)>, StorageFault>)
        ensures
            r is Ok ==> {
                &&& final(self).high() == old(self).high()
                &&& final(self).low() == old(self).low()
                &&& final(self).hot() == old(self).hot()
                &&& final(self).cold() == old(self).cold()
                &&& match r->Ok_0 {
                    None => final(self).hot().len() == 0,
                    Some(x) => is_first(final(self).hot(), x),
                }
            },
            old(self).hot().len() >= old(self).low() ==> r is Ok,
    {
        if list_len(&self.map) < self.load_from_storage_threshold {
            self.sync_with_storage()?;
        }
        let front = list_front(&self.map);
        proof {
            if let Some(x) = front {
                assert forall|y: (i64, i64)| #[trigger] self.items().count(y) > 0 implies x.0 <= y.0 by {
                    if self.hot().count(y) == 0 {
                        assert(self.cold().count(y) > 0);
                    }
                }
            }
        }
        Ok(front)
    }

    fn poll(&mut self) -> (r: Result<Option<(i64, i64)>, StorageFault>)
        ensures
            final(self).high() == old(self).high(),
            final(self).low() == old(self).low(),
            old(self).hot().len() >= old(self).low() && old(self).hot().len() >= 2 ==> r is Ok,
            r is Ok && old(self).hot().len() >= 2 ==> r->Ok_0 is Some && final(self).hot()
                == old(self).hot().remove(r->Ok_0->Some_0) && final(self).cold() == old(self).cold(),
    {
        if list_len(&self.map) < self.load_from_storage_threshold {
            self.sync_with_storage()?;
        }
        let ghost before = self.hot();
        let front = list_pop_front(&mut self.map);
        match front {
            Some(x) => {
                self.size = self.size - 1;
                proof {
                    assert forall|y: (i64, i64)| #[trigger] old(self).items().count(y) > 0 implies x.0
                        <= y.0 by {
                        if before.count(y) == 0 {
                            assert(self.cold().count(y) > 0);
                        }
                    }
                    assert(self.items() =~= old(self).items().remove(x));
                }
                if list_len(&self.map) == 0 && self.size > 0 {
                    self.sync_with_storage()?;
                }
                Ok(Some(x))
            },
            None => Ok(None),
        }
    }

    fn insert(&mut self, item: (i64, i64)) -> (r: Result<(), StorageFault>)
        ensures
            final(self).high() == old(self).high(),
            final(self).low() == old(self).low(),
            old(self).cold().len() == 0 && old(self).hot().len() < old(self).high() ==> r is Ok,
            r is Ok ==> (final(self).hot() == old(self).hot().insert(item) && final(self).cold()
                == old(self).cold()) || final(self).hot().len() == min_of(
                old(self).high() as int,
                old(self).items().len() + 1int,
            ),
            r is Ok && old(self).cold().len() == 0 && old(self).hot().len() < old(self).high()
                ==> final(self).hot() == old(self).hot().insert(item) && final(self).cold()
                == old(self).cold(),
    {
        let hot_len = list_len(&self.map);
        // With the store empty there is nothing to order against it.
        let spilled = self.size > hot_len;
        let crosses = match list_back(&self.map) {
            Some(back) => spilled && item.0 < back.0,
            None => false,
        };
        if spilled && hot_len == 0 || crosses {
            self.sync_with_storage()?;
        }
        let fits = match list_back(&self.map) {
            Some(back) => item.0 <= back.0 || self.size == list_len(&self.map),
            None => true,
        };
        let ghost hot0 = self.hot();
        list_insert(&mut self.map, item);
        self.size = self.size + 1;
        proof {
            assert(self.items() =~= old(self).items().insert(item));
            if fits {
                assert forall|x: (i64, i64), y: (i64, i64)|
                    #[trigger] self.hot().count(x) > 0 && #[trigger] self.cold().count(y) > 0 implies x.0
                    <= y.0 by {
                    if x != item {
                        assert(hot0.count(x) > 0);
                    }
                }
            }
        }
        self.offload_to_storage_if_needed()?;
        if !fits {
            self.sync_with_storage()?;
        }
        Ok(())
    }

    fn insert_all(&mut self, items: &Vec<(i64, i64)>) -> (r: Result<(), StorageFault>)
        ensures
            final(self).high() == old(self).high(),
            final(self).low() == old(self).low(),
            old(self).cold().len() == 0 && old(self).hot().len() + items@.len() <= old(self).high()
                ==> r is Ok,
            r is Ok ==> (final(self).hot() == old(self).hot().add(items@.to_multiset())
                && final(self).cold() == old(self).cold()) || final(self).hot().len() == min_of(
                old(self).high() as int,
                (old(self).items().len() + items@.len()) as int,
            ),
            r is Ok && old(self).cold().len() == 0 && old(self).hot().len() + items@.len()
                <= old(self).high() ==> final(self).hot() == old(self).hot().add(
                items@.to_multiset(),
            ) && final(self).cold() == old(self).cold(),
    {
        let bounds = priority_bounds(items);
        let hot_len = list_len(&self.map);
        let spilled = self.size > hot_len;
        let crosses = match (list_back(&self.map), bounds) {
            (Some(back), Some((lo, _))) => spilled && lo < back.0,
            _ => false,
        };
        if spilled && hot_len == 0 || crosses {
            self.sync_with_storage()?;
        }
        let fits = match (list_back(&self.map), bounds) {
            (Some(back), Some((_, hi))) => hi <= back.0 || self.size == list_len(&self.map),
            _ => true,
        };
        let ghost hot0 = self.hot();
        extend_list(&mut self.map, items);
        self.size = self.size + items.len();
        proof {
            let added = items@.to_multiset();
            assert(self.items() =~= old(self).items().add(added));
            if fits {
                assert forall|x: (i64, i64), y: (i64, i64)|
                    #[trigger] self.hot().count(x) > 0 && #[trigger] self.cold().count(y) > 0 implies x.0
                    <= y.0 by {
                    if hot0.count(x) == 0 {
                        assert(added.count(x) > 0);
                        assert(items@.contains(x));
                    }
                }
            }
        }
        self.offload_to_storage_if_needed()?;
        if !fits {
            self.sync_with_storage()?;
        }
        Ok(())
    }
}

/// The tiers keep their order and their accounting: no pair in memory has a priority
/// above that of a pair in the store, the hot tier is empty only when the store is,
/// and the length counts both tiers.
pub proof fn tiers_in_order<S: I64PrioQueueStorage>(q: &StorageBackedI64PriorityQueue<S>)
    requires
        q.well_formed(),
    ensures
        all_le(q.hot(), q.cold()),
        q.hot().len() == 0 ==> q.cold().len() == 0,
        q.items().len() == q.hot().len() + q.cold().len(),
{
}

/// The hot tier never holds more pairs than the offload threshold.
pub proof fn hot_tier_bounded<S: I64PrioQueueStorage>(q: &StorageBackedI64PriorityQueue<S>)
    requires
        q.well_formed(),
    ensures
        q.hot().len() <= q.high(),
{
}

} // verus!
