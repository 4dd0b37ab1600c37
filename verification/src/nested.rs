//! Arrays of arrays, stored flat: row after row, the last index moving fastest.
use vstd::prelude::*;

verus! {

/// An array of any depth.
pub enum Nest<T> {
    Leaf(T),
    Row(Vec<Nest<T>>),
}

/// [`Nest`], as a value.
pub enum NestView<T> {
    Leaf(T),
    Row(Seq<NestView<T>>),
}

/// The array as a value.
pub open spec fn nest_view<T>(n: Nest<T>) -> NestView<T>
    decreases n,
{
    match n {
        Nest::Leaf(t) => NestView::Leaf(t),
        Nest::Row(v) => NestView::Row(row_view(v@)),
    }
}

/// A row as a value.
pub open spec fn row_view<T>(v: Seq<Nest<T>>) -> Seq<NestView<T>>
    decreases v,
{
    if v.len() == 0 {
        Seq::empty()
    } else {
        row_view(v.drop_last()).push(nest_view(v.last()))
    }
}

/// The leaves of an array, in the order of the rows.
pub open spec fn leaves<T>(n: NestView<T>) -> Seq<T>
    decreases n,
{
    match n {
        NestView::Leaf(t) => seq![t],
        NestView::Row(v) => row_leaves(v),
    }
}

/// The leaves of a row.
pub open spec fn row_leaves<T>(v: Seq<NestView<T>>) -> Seq<T>
    decreases v,
{
    if v.len() == 0 {
        Seq::empty()
    } else {
        row_leaves(v.drop_last()) + leaves(v.last())
    }
}

/// Whether an array has these lengths, the outermost first.
pub open spec fn shaped<T>(n: NestView<T>, dims: Seq<usize>) -> bool
    decreases dims.len(),
{
    if dims.len() == 0 {
        n is Leaf
    } else {
        n matches NestView::Row(v) && v.len() == dims[0] && forall|i: int|
            0 <= i < v.len() ==> shaped(#[trigger] v[i], dims.drop_first())
    }
}

/// How many leaves an array with these lengths has.
pub open spec fn product(dims: Seq<usize>) -> nat
    decreases dims.len(),
{
    if dims.len() == 0 {
        1
    } else {
        dims[0] as nat * product(dims.drop_first())
    }
}

pub(crate) proof fn lemma_row_view<T>(v: Seq<Nest<T>>)
    ensures
        row_view(v).len() == v.len(),
        forall|i: int| 0 <= i < v.len() ==> #[trigger] row_view(v)[i] == nest_view(v[i]),
    decreases v.len(),
{
    if v.len() > 0 {
        lemma_row_view(v.drop_last());
    }
}

proof fn lemma_leaves_count<T>(n: NestView<T>, dims: Seq<usize>)
    requires
        shaped(n, dims),
    ensures
        leaves(n).len() == product(dims),
    decreases dims.len(), 0int,
{
    if dims.len() > 0 {
        lemma_row_count(n->Row_0, dims);
    }
}

proof fn lemma_row_count<T>(v: Seq<NestView<T>>, dims: Seq<usize>)
    requires
        dims.len() > 0,
        forall|i: int| 0 <= i < v.len() ==> shaped(#[trigger] v[i], dims.drop_first()),
    ensures
        row_leaves(v).len() == v.len() * product(dims.drop_first()),
    decreases dims.len() - 1, v.len() + 1,
{
    let p = product(dims.drop_first());
    if v.len() == 0 {
        assert(0 * p == 0) by (nonlinear_arith);
    } else {
        let init = v.drop_last();
        assert forall|i: int| 0 <= i < init.len() implies shaped(
            #[trigger] init[i],
            dims.drop_first(),
        ) by {
            assert(init[i] == v[i]);
        }
        lemma_row_count(init, dims);
        assert(v.last() == v[v.len() - 1]);
        lemma_leaves_count(v.last(), dims.drop_first());
        assert(v.len() * p == (v.len() - 1) * p + p) by (nonlinear_arith)
            requires
                v.len() >= 1,
        ;
    }
}

/// An array is given by its lengths and its leaves: no two arrays of one shape have the same
/// leaves in the same order.
pub proof fn law_flat_form_is_faithful<T>(a: NestView<T>, b: NestView<T>, dims: Seq<usize>)
    requires
        shaped(a, dims),
        shaped(b, dims),
        leaves(a) == leaves(b),
    ensures
        a == b,
    decreases dims.len(), 0int,
{
    if dims.len() == 0 {
        assert(leaves(a)[0] == a->Leaf_0);
        assert(leaves(b)[0] == b->Leaf_0);
    } else {
        lemma_rows_faithful(a->Row_0, b->Row_0, dims);
    }
}

proof fn lemma_rows_faithful<T>(v: Seq<NestView<T>>, w: Seq<NestView<T>>, dims: Seq<usize>)
    requires
        dims.len() > 0,
        v.len() == w.len(),
        forall|i: int| 0 <= i < v.len() ==> shaped(#[trigger] v[i], dims.drop_first()),
        forall|i: int| 0 <= i < w.len() ==> shaped(#[trigger] w[i], dims.drop_first()),
        row_leaves(v) == row_leaves(w),
    ensures
        v == w,
    decreases dims.len() - 1, v.len() + 1,
{
    if v.len() == 0 {
        assert(v =~= w);
    } else {
        let v1 = v.drop_last();
        let w1 = w.drop_last();
        assert forall|i: int| 0 <= i < v1.len() implies shaped(
            #[trigger] v1[i],
            dims.drop_first(),
        ) by {
            assert(v1[i] == v[i]);
        }
        assert forall|i: int| 0 <= i < w1.len() implies shaped(
            #[trigger] w1[i],
            dims.drop_first(),
        ) by {
            assert(w1[i] == w[i]);
        }
        assert(v.last() == v[v.len() - 1]);
        assert(w.last() == w[w.len() - 1]);
        lemma_row_count(v1, dims);
        lemma_row_count(w1, dims);
        lemma_leaves_count(v.last(), dims.drop_first());
        lemma_leaves_count(w.last(), dims.drop_first());
        let n = row_leaves(v1).len() as int;
        assert(row_leaves(v).take(n) =~= row_leaves(v1));
        assert(row_leaves(w).take(n) =~= row_leaves(w1));
        assert(row_leaves(v).skip(n) =~= leaves(v.last()));
        assert(row_leaves(w).skip(n) =~= leaves(w.last()));
        lemma_rows_faithful(v1, w1, dims);
        law_flat_form_is_faithful(v.last(), w.last(), dims.drop_first());
        assert(v =~= v1.push(v.last()));
        assert(w =~= w1.push(w.last()));
    }
}

/// Put the leaves of an array behind what is there, in the order of the rows.
fn flatten_onto<T: Copy>(n: &Nest<T>, out: &mut Vec<T>)
    ensures
        final(out)@ == old(out)@ + leaves(nest_view(*n)),
    decreases n,
{
    match n {
        Nest::Leaf(t) => {
            let ghost before = out@;
            out.push(*t);
            assert(out@ =~= before + seq![*t]);
        },
        Nest::Row(v) => {
            let ghost before = out@;
            let mut i: usize = 0;
            assert(v@.take(0) =~= Seq::empty());
            assert(out@ =~= before + row_leaves(row_view(v@.take(0))));
            while i < v.len()
                invariant
                    i <= v@.len(),
                    n matches Nest::Row(w) && w == v,
                    before == old(out)@,
                    out@ == before + row_leaves(row_view(v@.take(i as int))),
                decreases v@.len() - i,
            {
                let ghost now = v@.take(i + 1);
                let ghost mid = out@;
                assert(now.drop_last() =~= v@.take(i as int));
                assert(now.last() == v@[i as int]);
                flatten_onto(&v[i], out);
                proof {
                    let rows = row_view(v@.take(i as int));
                    assert(row_view(now).drop_last() =~= rows);
                    assert(out@ =~= before + (row_leaves(rows) + leaves(nest_view(v@[i as int]))));
                }
                i += 1;
            }
            assert(v@.take(i as int) =~= v@);
        },
    }
}

/// The leaves of an array, in the order of the rows.
pub fn nested_consume<T: Copy>(n: &Nest<T>) -> (r: Vec<T>)
    ensures
        r@ == leaves(nest_view(*n)),
{
    let mut out: Vec<T> = Vec::new();
    flatten_onto(n, &mut out);
    assert(Seq::<T>::empty() + leaves(nest_view(*n)) =~= leaves(nest_view(*n)));
    out
}

/// Build an array from the leaves from `k` on; the second part of the result is where the next
/// leaf is.
fn build_from<T: Copy>(dims: &Vec<usize>, depth: usize, flat: &Vec<T>, k: usize) -> (r: (
    Nest<T>,
    usize,
))
    requires
        depth <= dims@.len(),
        k + product(dims@.skip(depth as int)) <= flat@.len(),
    ensures
        shaped(nest_view(r.0), dims@.skip(depth as int)),
        r.1 == k + product(dims@.skip(depth as int)),
        leaves(nest_view(r.0)) == flat@.subrange(k as int, r.1 as int),
    decreases dims@.len() - depth,
{
    let ghost shape = dims@.skip(depth as int);
    let _d: usize = dims.len();
    let _n: usize = flat.len();
    if depth == dims.len() {
        assert(shape.len() == 0);
        let leaf = Nest::Leaf(flat[k]);
        assert(leaves(nest_view(leaf)) =~= flat@.subrange(k as int, k + 1));
        return (leaf, k + 1);
    }
    let d: usize = dims[depth];
    let ghost rest = dims@.skip(depth + 1);
    let ghost p = product(rest);
    let ghost total = product(shape);
    proof {
        assert(shape.drop_first() =~= rest);
        assert(shape[0] == d);
        assert(0 * p == 0) by (nonlinear_arith);
    }
    let mut row: Vec<Nest<T>> = Vec::new();
    let mut at: usize = k;
    let mut i: usize = 0;
    assert(row_leaves(row_view(row@)) =~= flat@.subrange(k as int, k as int));
    while i < d
        invariant
            i <= d,
            depth < dims@.len() <= usize::MAX,
            d == dims@[depth as int],
            rest == dims@.skip(depth + 1),
            p == product(rest),
            total == d * p,
            k + total <= flat@.len(),
            at == k + i * p,
            at <= flat@.len(),
            row@.len() == i,
            forall|j: int| 0 <= j < row@.len() ==> shaped(#[trigger] row_view(row@)[j], rest),
            row_leaves(row_view(row@)) == flat@.subrange(k as int, at as int),
        decreases d - i,
    {
        proof {
            assert((i + 1) * p == i * p + p) by (nonlinear_arith);
            assert((i + 1) * p <= d * p) by (nonlinear_arith)
                requires
                    i + 1 <= d,
            ;
        }
        let (one, next): (Nest<T>, usize) = build_from(dims, depth + 1, flat, at);
        let ghost before = row@;
        row.push(one);
        proof {
            lemma_row_view(before);
            lemma_row_view(row@);
            assert(row@.drop_last() =~= before);
            let now = row_view(row@);
            assert(now.drop_last() =~= row_view(before));
            assert(now.last() == nest_view(one));
            assert forall|j: int| 0 <= j < row@.len() implies shaped(#[trigger] now[j], rest) by {
                if j < before.len() {
                    assert(now[j] == row_view(before)[j]);
                }
            }
            assert(row_leaves(now) =~= flat@.subrange(k as int, next as int));
        }
        at = next;
        i += 1;
    }
    proof {
        lemma_row_view(row@);
    }
    (Nest::Row(row), at)
}

/// Build an array with these lengths from its leaves, in the order of the rows.
pub fn nested_build<T: Copy>(dims: &Vec<usize>, flat: &Vec<T>) -> (r: Nest<T>)
    requires
        product(dims@) == flat@.len(),
    ensures
        shaped(nest_view(r), dims@),
        leaves(nest_view(r)) == flat@,
{
    assert(dims@.skip(0) =~= dims@);
    let (n, _): (Nest<T>, usize) = build_from(dims, 0, flat, 0);
    assert(flat@.subrange(0, flat@.len() as int) =~= flat@);
    n
}

/// How many leaves an array with the first `k` lengths has.
pub open spec fn product_of(dims: Seq<usize>, k: int) -> nat
    decreases k,
{
    if k <= 0 {
        1
    } else {
        product_of(dims, k - 1) * dims[k - 1] as nat
    }
}

pub(crate) proof fn lemma_product_split(dims: Seq<usize>, k: int)
    requires
        0 <= k <= dims.len(),
    ensures
        product(dims) == product_of(dims, k) * product(dims.skip(k)),
    decreases k,
{
    if k == 0 {
        assert(dims.skip(0) =~= dims);
        assert(1 * product(dims) == product(dims)) by (nonlinear_arith);
    } else {
        lemma_product_split(dims, k - 1);
        let before = dims.skip(k - 1);
        assert(before.drop_first() =~= dims.skip(k));
        assert(before[0] == dims[k - 1]);
        let a = product_of(dims, k - 1);
        let d = dims[k - 1] as nat;
        let c = product(dims.skip(k));
        assert(a * (d * c) == (a * d) * c) by (nonlinear_arith);
    }
}

/// How many leaves an array with these lengths has; nothing where the lengths, multiplied one
/// after another, pass what a length can be.
pub fn dims_prod(dims: &Vec<usize>) -> (r: Option<usize>)
    ensures
        match r {
            Some(n) => n == product(dims@),
            None => exists|k: int|
                0 < k <= dims@.len() && #[trigger] product_of(dims@, k) > usize::MAX,
        },
{
    let mut n: usize = 1;
    let mut i: usize = 0;
    while i < dims.len()
        invariant
            i <= dims@.len(),
            n == product_of(dims@, i as int),
        decreases dims@.len() - i,
    {
        assert(product_of(dims@, i + 1) == n * dims@[i as int]);
        match n.checked_mul(dims[i]) {
            None => {
                return None;
            },
            Some(m) => {
                n = m;
            },
        }
        i += 1;
    }
    proof {
        lemma_product_split(dims@, i as int);
        assert(dims@.skip(i as int).len() == 0);
        assert(n * 1 == n) by (nonlinear_arith);
    }
    Some(n)
}

} // verus!
