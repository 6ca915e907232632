//! Small tools for vectors and their models.

use vstd::prelude::*;

verus! {

/// The models of the items of a sequence: what `deep_view` gives for a
/// vector that holds them.
pub open spec fn deep<T: DeepView>(items: Seq<T>) -> Seq<T::V> {
    Seq::new(items.len(), |i: int| items[i].deep_view())
}

/// The deep view of a vector of characters is its view.
pub proof fn lemma_deep_view_chars(v: Vec<char>)
    ensures
        v.deep_view() == v@,
{
    assert(v.deep_view() =~= v@);
}

/// The deep view follows a `push`.
pub proof fn lemma_deep_view_push<T: DeepView>(items: Seq<T>, item: T)
    ensures
        forall|before: Vec<T>, longer: Vec<T>|
            before@ == items && longer@ == items.push(item) ==> #[trigger] longer.deep_view()
                == (#[trigger] before.deep_view()).push(item.deep_view()),
{
    assert forall|before: Vec<T>, longer: Vec<T>|
        before@ == items && longer@ == items.push(item) implies #[trigger] longer.deep_view() == (
    #[trigger] before.deep_view()).push(item.deep_view()) by {
        assert(longer.deep_view() =~= before.deep_view().push(item.deep_view()));
    }
}

/// The items of `items`, the last first.
pub fn reversed<T>(items: Vec<T>) -> (turned: Vec<T>)
    ensures
        turned@ == items@.reverse(),
{
    let ghost all = items@;
    let mut items = items;
    let mut turned: Vec<T> = Vec::new();
    while items.len() > 0
        invariant
            items.len() + turned.len() == all.len(),
            items@ == all.take(items.len() as int),
            forall|i: int| 0 <= i < turned.len() ==> turned@[i] == all[all.len() - 1 - i],
        decreases items.len(),
    {
        let item = items.pop().unwrap();
        turned.push(item);
    }
    proof {
        assert(turned@ =~= all.reverse());
    }
    turned
}

} // verus!
