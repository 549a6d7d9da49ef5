use vstd::prelude::*;

verus! {

/// The deep view of a vector that has grown by one element.
pub proof fn lemma_deep_view_push<T: DeepView>(before: Vec<T>, after: Vec<T>, x: T)
    requires
        after@ == before@.push(x),
    ensures
        after.deep_view() == before.deep_view().push(x.deep_view()),
{
    assert(after.deep_view() =~= before.deep_view().push(x.deep_view()));
}

/// The deep view of a vector that has lost its last element.
pub proof fn lemma_deep_view_pop<T: DeepView>(before: Vec<T>, after: Vec<T>)
    requires
        before@.len() > 0,
        after@ == before@.drop_last(),
    ensures
        after.deep_view() == before.deep_view().drop_last(),
        before.deep_view().last() == before@.last().deep_view(),
        before.deep_view().len() == before@.len(),
{
    assert(after.deep_view() =~= before.deep_view().drop_last());
}

} // verus!
