use vstd::prelude::*;
use vstd::multiset::Multiset;
use skiplist::OrderedSkipList;

verus! {

#[verifier::external_type_specification]
#[verifier::external_body]
#[verifier::reject_recursive_types(T)]
pub struct ExOrderedSkipList<T>(OrderedSkipList<T>);

/// The pairs that an ordered skip list holds.
pub uninterp spec fn skip_items(l: OrderedSkipList<(i64, i64)>) -> Multiset<(i64, i64)>;

/// `x` comes no later than `y` in the order of `(i64, i64)`: by priority, then by value.
pub open spec fn pair_le(x: (i64, i64), y: (i64, i64)) -> bool {
    x.0 < y.0 || (x.0 == y.0 && x.1 <= y.1)
}

/// `x` is in `m`, and no pair of `m` comes before it.
pub open spec fn is_first(m: Multiset<(i64, i64)>, x: (i64, i64)) -> bool {
    m.count(x) > 0 && forall|y: (i64, i64)| #[trigger] m.count(y) > 0 ==> pair_le(x, y)
}

/// `x` is in `m`, and no pair of `m` comes after it.
pub open spec fn is_last(m: Multiset<(i64, i64)>, x: (i64, i64)) -> bool {
    m.count(x) > 0 && forall|y: (i64, i64)| #[trigger] m.count(y) > 0 ==> pair_le(y, x)
}

/// Relies on `OrderedSkipList::new`: the list starts empty, ordered by `PartialOrd`.
#[verifier::external_body]
pub(crate) fn list_new() -> (r: OrderedSkipList<(i64, i64)>)
    ensures
        skip_items(r) == Multiset::<(i64, i64)>::empty(),
{
    OrderedSkipList::new()
}

/// Relies on `OrderedSkipList::len`: the number of elements.
#[verifier::external_body]
pub(crate) fn list_len(l: &OrderedSkipList<(i64, i64)>) -> (r: usize)
    ensures
        r == skip_items(*l).len(),
{
    l.len()
}

/// Relies on `OrderedSkipList::insert`: the element joins the list.
#[verifier::external_body]
pub(crate) fn list_insert(l: &mut OrderedSkipList<(i64, i64)>, x: (i64, i64))
    ensures
        skip_items(*final(l)) == skip_items(*old(l)).insert(x),
{
    l.insert(x)
}

/// Relies on `OrderedSkipList::front`: the first element in the list's order.
#[verifier::external_body]
pub(crate) fn list_front(l: &OrderedSkipList<(i64, i64)>) -> (r: Option<(i64, i64)>)
    ensures
        match r {
            None => skip_items(*l).len() == 0,
            Some(x) => is_first(skip_items(*l), x),
        },
{
    l.front().copied()
}

/// Relies on `OrderedSkipList::back`: the last element in the list's order.
#[verifier::external_body]
pub(crate) fn list_back(l: &OrderedSkipList<(i64, i64)>) -> (r: Option<(i64, i64)>)
    ensures
        match r {
            None => skip_items(*l).len() == 0,
            Some(x) => is_last(skip_items(*l), x),
        },
{
    l.back().copied()
}

/// Relies on `OrderedSkipList::pop_front`: removes and returns the first element.
#[verifier::external_body]
pub(crate) fn list_pop_front(l: &mut OrderedSkipList<(i64, i64)>) -> (r: Option<(i64, i64)>)
    ensures
        match r {
            None => skip_items(*old(l)).len() == 0 && skip_items(*final(l)) == skip_items(*old(l)),
            Some(x) => is_first(skip_items(*old(l)), x) && skip_items(*final(l)) == skip_items(
                *old(l),
            ).remove(x),
        },
{
    l.pop_front()
}

/// Relies on `OrderedSkipList::pop_back`: removes and returns the last element.
#[verifier::external_body]
pub(crate) fn list_pop_back(l: &mut OrderedSkipList<(i64, i64)>) -> (r: Option<(i64, i64)>)
    ensures
        match r {
            None => skip_items(*old(l)).len() == 0 && skip_items(*final(l)) == skip_items(*old(l)),
            Some(x) => is_last(skip_items(*old(l)), x) && skip_items(*final(l)) == skip_items(
                *old(l),
            ).remove(x),
        },
{
    l.pop_back()
}

/// Relies on `OrderedSkipList::iter`: the elements in the list's order.
#[verifier::external_body]
pub(crate) fn list_to_vec(l: &OrderedSkipList<(i64, i64)>) -> (r: Vec<(i64, i64)>)
    ensures
        r@.to_multiset() == skip_items(*l),
        forall|i: int, j: int| 0 <= i < j < r@.len() ==> pair_le(r@[i], r@[j]),
{
    l.iter().copied().collect()
}

/// The first pair of a multiset in `(priority, value)` order is unique.
pub proof fn first_is_unique(m: Multiset<(i64, i64)>, x: (i64, i64), y: (i64, i64))
    requires
        is_first(m, x),
        is_first(m, y),
    ensures
        x == y,
{
}

} // verus!
