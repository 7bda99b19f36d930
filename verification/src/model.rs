//! How executable collections are seen in contracts.

use vstd::prelude::*;

verus! {

/// The views of the items of a vector, in order.
pub open spec fn views<T: View>(items: Seq<T>) -> Seq<T::V> {
    items.map_values(|x: T| x@)
}

pub broadcast proof fn views_push<T: View>(items: Seq<T>, x: T)
    ensures
        #[trigger] views(items.push(x)) == views(items).push(x@),
{
    assert(views(items.push(x)) =~= views(items).push(x@));
}

pub broadcast proof fn views_take<T: View>(items: Seq<T>, n: int)
    requires
        0 <= n <= items.len(),
    ensures
        #[trigger] views(items.take(n)) == views(items).take(n),
{
    assert(views(items.take(n)) =~= views(items).take(n));
}

pub broadcast proof fn views_empty<T: View>()
    ensures
        #[trigger] views(Seq::<T>::empty()) == Seq::<T::V>::empty(),
{
    assert(views(Seq::<T>::empty()) =~= Seq::<T::V>::empty());
}

pub broadcast group group_views {
    views_push,
    views_take,
    views_empty,
}

/// Copies a vector of texts.
pub fn copy_texts(v: &Vec<String>) -> (r: Vec<String>)
    ensures
        r@ == v@,
{
    let mut r: Vec<String> = Vec::new();
    let mut i: usize = 0;
    while i < v.len()
        invariant
            i <= v.len(),
            r@ == v@.take(i as int),
        decreases v.len() - i,
    {
        r.push(v[i].clone());
        i = i + 1;
        assert(v@.take(i as int) =~= v@.take(i - 1).push(v@[i - 1]));
    }
    assert(v@.take(i as int) =~= v@);
    r
}

} // verus!
