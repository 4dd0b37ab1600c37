//! Arrays of arrays: they are stored row after row, and built again as they were.
use vstd::prelude::*;

use crate::nested::{
    dims_prod, leaves, lemma_product_split, lemma_row_view, nest_view, nested_build, nested_consume,
    product, product_of, row_view, shaped, Nest,
};

verus! {

/// Whether an array has these lengths, the outermost first.
pub open spec fn has_lengths<T>(n: Nest<T>, dims: Seq<usize>) -> bool
    decreases dims.len(),
{
    if dims.len() == 0 {
        n is Leaf
    } else {
        n matches Nest::Row(v) && v@.len() == dims[0] && forall|i: int|
            0 <= i < v@.len() ==> has_lengths(#[trigger] v@[i], dims.drop_first())
    }
}

proof fn lemma_has_lengths<T>(n: Nest<T>, dims: Seq<usize>)
    requires
        shaped(nest_view(n), dims),
    ensures
        has_lengths(n, dims),
    decreases dims.len(),
{
    if dims.len() > 0 {
        if let Nest::Row(v) = n {
            lemma_row_view(v@);
            assert forall|i: int| 0 <= i < v@.len() implies has_lengths(
                #[trigger] v@[i],
                dims.drop_first(),
            ) by {
                assert(row_view(v@)[i] == nest_view(v@[i]));
                lemma_has_lengths(v@[i], dims.drop_first());
            }
        }
    }
}

/// The leaves of one leaf are that leaf, and those of a row those of its elements one after
/// another.
pub proof fn law_rows_are_stored_one_after_another<T: Copy>(
    n: &Nest<T>,
    init: &Nest<T>,
    last: &Nest<T>,
    r: Vec<T>,
    p: Vec<T>,
    q: Vec<T>,
)
    requires
        call_ensures(nested_consume::<T>, (n,), r),
        call_ensures(nested_consume::<T>, (init,), p),
        call_ensures(nested_consume::<T>, (last,), q),
    ensures
        *n matches Nest::Leaf(t) ==> r@ == seq![t],
        *n matches Nest::Row(v) ==> {
            &&& v@.len() == 0 ==> r@.len() == 0
            &&& v@.len() > 0 && *last == v@.last() && (*init matches Nest::Row(w) && w@
                == v@.drop_last()) ==> r@ == p@ + q@
        },
{
    if let Nest::Row(v) = *n {
        if v@.len() > 0 {
            let rows = row_view(v@);
            assert(rows.drop_last() =~= row_view(v@.drop_last()));
            assert(rows.last() == nest_view(v@.last()));
        }
    }
}

/// An array that is built has the lengths that were asked for, and storing it again gives the
/// leaves it was built from.
pub proof fn law_an_array_is_built_as_it_was_stored<T: Copy>(
    dims: &Vec<usize>,
    flat: &Vec<T>,
    n: Nest<T>,
    r: Vec<T>,
)
    requires
        product(dims@) == flat@.len(),
        call_ensures(nested_build::<T>, (dims, flat), n),
        call_ensures(nested_consume::<T>, (&n,), r),
    ensures
        has_lengths(n, dims@),
        r@ == flat@,
{
    lemma_has_lengths(n, dims@);
}

proof fn lemma_same_product(dims: Seq<usize>, k: int)
    requires
        0 <= k < dims.len(),
    ensures
        product_of(dims, k) == product_of(dims.drop_last(), k),
    decreases k,
{
    if k > 0 {
        lemma_same_product(dims, k - 1);
    }
}

/// One more length makes as many times more leaves; with no lengths there is one.
pub proof fn law_lengths_multiply(dims: &Vec<usize>, init: &Vec<usize>, n: usize, m: usize)
    requires
        call_ensures(dims_prod, (dims,), Some(n)),
        call_ensures(dims_prod, (init,), Some(m)),
    ensures
        dims@.len() == 0 ==> n == 1,
        dims@.len() > 0 && init@ == dims@.drop_last() ==> n == m * dims@.last(),
{
    let k = dims@.len() as int;
    lemma_product_split(dims@, k);
    assert(dims@.skip(k) =~= Seq::empty());
    assert(product(Seq::empty()) == 1);
    assert(product_of(dims@, k) * 1 == product_of(dims@, k)) by (nonlinear_arith);
    if k > 0 && init@ == dims@.drop_last() {
        lemma_product_split(init@, k - 1);
        assert(init@.skip(k - 1) =~= Seq::empty());
        assert(product_of(init@, k - 1) * 1 == product_of(init@, k - 1)) by (nonlinear_arith);
        lemma_same_product(dims@, k - 1);
    }
}

} // verus!
