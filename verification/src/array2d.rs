//! A two-dimensional array stored row by row.
use vstd::prelude::*;
use vstd::arithmetic::div_mod::lemma_fundamental_div_mod_converse;
use vstd::arithmetic::mul::{lemma_mul_is_distributive_sub_other_way, lemma_mul_inequality};

verus! {

/// The rows of a vector of vectors, as sequences.
pub open spec fn rows_view<T>(rows: Seq<Vec<T>>) -> Seq<Seq<T>> {
    rows.map_values(|r: Vec<T>| r@)
}

/// The rows of an array of arrays, as sequences.
pub open spec fn array_rows<T, const N: usize>(rows: Seq<[T; N]>) -> Seq<Seq<T>> {
    rows.map_values(|r: [T; N]| r@)
}

/// Calls std's `Vec::from` on an array (`impl From<[T; N]> for Vec<T>`),
/// which std documents as allocating a vector and moving the array's items
/// into it. Trusted, not proved: the result holds the array's items, in
/// order.
#[verifier::external_body]
fn array_into_vec<T, const K: usize>(a: [T; K]) -> (v: Vec<T>)
    ensures
        v@ == a@,
{
    Vec::from(a)
}

/// A `rows` by `cols` array whose element `(i, j)` is stored at index
/// `i * cols + j`.
pub struct Array2d<T> {
    shape: (usize, usize),
    data: Vec<T>,
}

impl<T> Array2d<T> {
    /// The number of rows and columns.
    pub closed spec fn shape(&self) -> (usize, usize) {
        self.shape
    }

    /// The elements, row by row.
    pub closed spec fn elements(&self) -> Seq<T> {
        self.data@
    }

    /// The storage index of element `(i, j)`.
    pub open spec fn index_of(&self, i: int, j: int) -> int {
        i * self.shape().1 + j
    }

    /// An array of the given shape holding `data` row by row.
    pub fn new(shape: (usize, usize), data: Vec<T>) -> (r: Self)
        ensures
            r.shape() == shape,
            r.elements() == data@,
    {
        Self { shape, data }
    }

    /// An array whose rows are the vectors of `d`, which must all have the
    /// same length.
    pub fn from_vec(d: Vec<Vec<T>>) -> (r: Self)
        requires
            forall|i: int| 0 <= i < d@.len() ==> (#[trigger] d@[i])@.len() == d@[0]@.len(),
        ensures
            r.shape() == if d@.len() == 0 {
                (0usize, 0usize)
            } else {
                (d@.len() as usize, d@[0]@.len() as usize)
            },
            r.elements() == rows_view(d@).flatten(),
    {
        if d.len() == 0 {
            assert(rows_view(d@) =~= Seq::<Seq<T>>::empty());
            return Self::new((0, 0), Vec::new());
        }
        let m = d.len();
        let n = d[0].len();
        let ghost rows = rows_view(d@);
        let mut data: Vec<T> = Vec::new();
        for row in it: d
            invariant
                rows == rows_view(it.seq()),
                data@ == rows.take(it.index() as int).flatten(),
        {
            let mut row = row;
            let ghost k = it.index();
            proof {
                assert(rows.take(k + 1) =~= rows.take(k as int).push(row@));
                rows.take(k as int).lemma_flatten_push(row@);
            }
            data.append(&mut row);
        }
        proof {
            assert(rows.take(rows.len() as int) =~= rows);
        }
        Self::new((m, n), data)
    }

    /// An `M` by `N` array whose rows are the rows of `d`.
    pub fn from_array<const M: usize, const N: usize>(d: [[T; N]; M]) -> (r: Self)
        ensures
            r.shape() == (M, N),
            r.elements() == array_rows(d@).flatten(),
    {
        let outer: Vec<[T; N]> = array_into_vec(d);
        let ghost rows = array_rows(outer@);
        let mut data: Vec<T> = Vec::new();
        for row in it: outer
            invariant
                rows == array_rows(it.seq()),
                data@ == rows.take(it.index() as int).flatten(),
        {
            let mut flat_row = array_into_vec(row);
            let ghost k = it.index();
            proof {
                assert(rows.take(k + 1) =~= rows.take(k as int).push(flat_row@));
                rows.take(k as int).lemma_flatten_push(flat_row@);
            }
            data.append(&mut flat_row);
        }
        proof {
            assert(rows.take(rows.len() as int) =~= rows);
            assert(outer@.len() == M);
        }
        Self::new((M, N), data)
    }

    /// Element `(i, j)`.
    pub fn get(&self, i: usize, j: usize) -> (r: &T)
        requires
            self.index_of(i as int, j as int) < self.elements().len(),
        ensures
            *r == self.elements()[self.index_of(i as int, j as int)],
    {
        let len = self.data.len();
        assert(i * self.shape.1 + j < len);
        let idx = i * self.shape.1 + j;
        &self.data[idx]
    }

    /// Element `(i, j)`, to be changed in place.
    pub fn get_mut(&mut self, i: usize, j: usize) -> (r: &mut T)
        requires
            old(self).index_of(i as int, j as int) < old(self).elements().len(),
        ensures
            *r == old(self).elements()[old(self).index_of(i as int, j as int)],
            final(self).shape() == old(self).shape(),
            final(self).elements() == old(self).elements().update(
                old(self).index_of(i as int, j as int),
                *final(r),
            ),
    {
        let len = self.data.len();
        assert(i * self.shape.1 + j < len);
        let idx = i * self.shape.1 + j;
        &mut self.data[idx]
    }
}

impl<T> std::ops::Index<(usize, usize)> for Array2d<T> {
    type Output = T;

    /// Element `(i, j)`, as `a[(i, j)]`.
    fn index(&self, index: (usize, usize)) -> (r: &T)
        ensures
            *r == self.elements()[self.index_of(index.0 as int, index.1 as int)],
    {
        self.get(index.0, index.1)
    }
}

impl<T> vstd::std_specs::core::IndexSpecImpl<(usize, usize)> for Array2d<T> {
    open spec fn index_req(&self, index: &(usize, usize)) -> bool {
        self.index_of(index.0 as int, index.1 as int) < self.elements().len()
    }
}

/// Rows of one length, laid end to end: the result holds `rows.len() * n`
/// elements, and element `j` of row `i` stands at `i * n + j`.
pub proof fn lemma_row_major_layout<T>(rows: Seq<Seq<T>>, n: nat, i: int, j: int)
    requires
        forall|k: int| 0 <= k < rows.len() ==> (#[trigger] rows[k]).len() == n,
        0 <= i < rows.len(),
        0 <= j < n,
    ensures
        rows.flatten().len() == rows.len() * n,
        rows.flatten()[i * n + j] == rows[i][j],
    decreases rows.len(),
{
    let rest = rows.drop_first();
    assert forall|k: int| 0 <= k < rest.len() implies (#[trigger] rest[k]).len() == n by {
        assert(rest[k] == rows[k + 1]);
    }
    lemma_mul_is_distributive_sub_other_way(n as int, rows.len() as int, 1);
    if rest.len() > 0 {
        lemma_row_major_layout(rest, n, 0, 0);
    }
    assert(rows.flatten() == rows[0] + rest.flatten());
    if i == 0 {
        assert(i * n + j == j);
    } else {
        lemma_row_major_layout(rest, n, i - 1, j);
        lemma_mul_is_distributive_sub_other_way(n as int, i, 1);
        assert(i * n + j == n + ((i - 1) * n + j));
        lemma_mul_inequality(i - 1, rest.len() - 1, n as int);
        lemma_mul_is_distributive_sub_other_way(n as int, rest.len() as int, 1);
    }
}

/// Distinct cells of an array with `cols` columns are stored at distinct
/// indices, so writing one cell leaves every other cell as it was.
pub proof fn lemma_index_of_injective(cols: nat, i1: nat, j1: nat, i2: nat, j2: nat)
    requires
        j1 < cols,
        j2 < cols,
        i1 * cols + j1 == i2 * cols + j2,
    ensures
        i1 == i2,
        j1 == j2,
{
    lemma_fundamental_div_mod_converse((i1 * cols + j1) as int, cols as int, i1 as int, j1 as int);
    lemma_fundamental_div_mod_converse((i2 * cols + j2) as int, cols as int, i2 as int, j2 as int);
}

/// An array laid out from rows of one length `n` (as `from_vec` and
/// `from_array` build it) holds row `i`'s element `j` at cell `(i, j)`, for
/// every row: `get(i, j)`, `get_mut(i, j)` and `a[(i, j)]` reach exactly
/// that element.
pub proof fn lemma_cell_is_row_element<T>(a: Array2d<T>, rows: Seq<Seq<T>>, n: nat, i: int, j: int)
    requires
        forall|k: int| 0 <= k < rows.len() ==> (#[trigger] rows[k]).len() == n,
        a.shape().0 == rows.len(),
        a.shape().1 == n,
        a.elements() == rows.flatten(),
        0 <= i < rows.len(),
        0 <= j < n,
    ensures
        0 <= a.index_of(i, j) < a.elements().len(),
        a.elements()[a.index_of(i, j)] == rows[i][j],
{
    lemma_row_major_layout(rows, n, i, j);
    lemma_mul_inequality(i + 1, rows.len() as int, n as int);
    vstd::arithmetic::mul::lemma_mul_is_distributive_add_other_way(n as int, i, 1);
    vstd::arithmetic::mul::lemma_mul_nonnegative(i, n as int);
}

} // verus!
