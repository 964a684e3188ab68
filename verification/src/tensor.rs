//! Arrays that go into and come out of the models.
//!
//! Elements are binary32 bit patterns. The arrays themselves are `ndarray`
//! arrays; the functions that reach into them are marked as trusted and state
//! what the `ndarray` functions they call do.

use vstd::prelude::*;
use crate::binary32::Binary32;

verus! {

/// A four-dimensional array in standard (row-major) layout.
#[verifier::external_body]
pub struct Tensor4 {
    array: ndarray::Array4<u32>,
}

/// The lengths of the four axes.
pub uninterp spec fn tensor_shape(t: Tensor4) -> Seq<usize>;

/// The elements in row-major order.
pub uninterp spec fn tensor_elements(t: Tensor4) -> Seq<u32>;

/// Where element `(n, c, y, x)` stands in row-major order.
pub open spec fn row_major(shape: Seq<usize>, n: int, c: int, y: int, x: int) -> int {
    ((n * shape[1] + c) * shape[2] + y) * shape[3] + x
}

impl Tensor4 {
    pub open spec fn shape(self) -> Seq<usize> {
        tensor_shape(self)
    }

    /// The element at `(n, c, y, x)`.
    pub open spec fn element(self, n: int, c: int, y: int, x: int) -> Binary32 {
        Binary32 { bits: tensor_elements(self)[row_major(self.shape(), n, c, y, x)] }
    }

    /// `ndarray::Array4::zeros`: an array of the given shape whose elements are
    /// all zero, laid out in row-major order. It panics where the number of
    /// elements or of bytes exceeds `isize::MAX`, which `requires` leaves out.
    #[verifier::external_body]
    pub(crate) fn zeros(n: usize, c: usize, h: usize, w: usize) -> (t: Tensor4)
        requires
            c > 0,
            h > 0,
            w > 0,
            c * h * w * 4 <= isize::MAX,
            n * c * h * w * 4 <= isize::MAX,
        ensures
            tensor_shape(t) == seq![n, c, h, w],
            tensor_elements(t) == Seq::new((n * c * h * w) as nat, |i: int| 0u32),
    {
        Tensor4 { array: ndarray::Array4::zeros((n, c, h, w)) }
    }

    /// `ndarray::ArrayBase::as_slice_memory_order_mut`: the elements as one
    /// slice, in the order in which they lie in memory. It answers `None` for
    /// an array that is not contiguous; a `Tensor4` only ever holds an array
    /// that `zeros` made, which is contiguous and row-major.
    #[verifier::external_body]
    pub(crate) fn as_slice_memory_order_mut(&mut self) -> (r: Option<&mut [u32]>)
        ensures
            r is Some,
            r matches Some(s) ==> {
                &&& s@ == tensor_elements(*old(self))
                &&& tensor_elements(*final(self)) == final(s)@
                &&& tensor_shape(*final(self)) == tensor_shape(*old(self))
            },
    {
        self.array.as_slice_memory_order_mut()
    }
}

impl Tensor4 {
    /// `ndarray::ArrayBase::dim`: the lengths of the axes.
    #[verifier::external_body]
    fn dim(&self) -> (r: (usize, usize, usize, usize))
        ensures
            tensor_shape(*self) == seq![r.0, r.1, r.2, r.3],
    {
        self.array.dim()
    }

    /// Indexing an `ndarray::Array4`: the element at a position. It panics
    /// outside the array, which `requires` leaves out.
    #[verifier::external_body]
    fn index(&self, n: usize, c: usize, y: usize, x: usize) -> (r: u32)
        requires
            n < tensor_shape(*self)[0],
            c < tensor_shape(*self)[1],
            y < tensor_shape(*self)[2],
            x < tensor_shape(*self)[3],
        ensures
            r == tensor_elements(*self)[row_major(tensor_shape(*self), n as int, c as int, y as int, x as int)],
    {
        self.array[[n, c, y, x]]
    }

    /// The lengths of the four axes.
    pub fn dimensions(&self) -> (r: (usize, usize, usize, usize))
        ensures
            self.shape() == seq![r.0, r.1, r.2, r.3],
    {
        self.dim()
    }

    /// The element at `(n, c, y, x)`, or `None` outside the array.
    pub fn get(&self, n: usize, c: usize, y: usize, x: usize) -> (r: Option<Binary32>)
        ensures
            r == (if n < self.shape()[0] && c < self.shape()[1] && y < self.shape()[2] && x < self.shape()[3] {
                Some(self.element(n as int, c as int, y as int, x as int))
            } else {
                None
            }),
    {
        let (shape_n, shape_c, shape_y, shape_x) = self.dim();
        if n < shape_n && c < shape_c && y < shape_y && x < shape_x {
            Some(Binary32 { bits: self.index(n, c, y, x) })
        } else {
            None
        }
    }
}

/// A two-dimensional array.
#[verifier::external_body]
pub struct Matrix {
    array: ndarray::Array2<u32>,
}

/// The rows, from first to last.
pub uninterp spec fn matrix_rows(m: Matrix) -> Seq<Seq<u32>>;

/// The number of columns.
pub uninterp spec fn matrix_columns(m: Matrix) -> usize;

impl Matrix {
    /// The elements of row `i`.
    pub open spec fn row_at(self, i: int) -> Seq<Binary32> {
        matrix_rows(self)[i].map_values(|bits: u32| Binary32 { bits })
    }

    pub open spec fn spec_nrows(self) -> nat {
        matrix_rows(self).len()
    }

    /// `ndarray::Array2::from_shape_vec`: the array of the given shape, filled
    /// row by row. It fails where the shape asks for another number of elements,
    /// or for a row or column count above `isize::MAX`, which `requires` leaves out.
    #[verifier::external_body]
    fn with_shape(rows: usize, columns: usize, data: Vec<u32>) -> (r: Option<Matrix>)
        requires
            rows <= isize::MAX,
            columns <= isize::MAX,
            data@.len() == rows * columns,
        ensures
            r is Some,
            r matches Some(m) ==> {
                &&& matrix_columns(m) == columns
                &&& matrix_rows(m) == Seq::new(
                    rows as nat,
                    |i: int| data@.subrange(i * columns, (i + 1) * columns),
                )
            },
    {
        ndarray::Array2::from_shape_vec((rows, columns), data).ok().map(|array| Matrix { array })
    }

    /// `ndarray::ArrayBase::nrows`: the number of rows.
    #[verifier::external_body]
    pub(crate) fn nrows(&self) -> (r: usize)
        ensures
            r == matrix_rows(*self).len(),
    {
        self.array.nrows()
    }

    /// `ndarray::ArrayBase::row`, copied: the elements of row `i`. It panics
    /// outside the array, which `requires` leaves out.
    #[verifier::external_body]
    fn row(&self, i: usize) -> (r: Vec<u32>)
        requires
            i < matrix_rows(*self).len(),
        ensures
            r@ == matrix_rows(*self)[i as int],
            r@.len() == matrix_columns(*self),
    {
        self.array.row(i).to_vec()
    }

    /// Assignment to an indexed `ndarray::Array2`: element `(i, j)` becomes
    /// `value`, the others stay. It panics outside the array, which `requires`
    /// leaves out.
    #[verifier::external_body]
    fn assign(&mut self, i: usize, j: usize, value: u32)
        requires
            i < matrix_rows(*old(self)).len(),
            j < matrix_columns(*old(self)),
        ensures
            matrix_columns(*final(self)) == matrix_columns(*old(self)),
            matrix_rows(*final(self)) == matrix_rows(*old(self)).update(
                i as int,
                matrix_rows(*old(self))[i as int].update(j as int, value),
            ),
    {
        self.array[[i, j]] = value;
    }

    /// The matrix with the given shape and elements, row by row, where their
    /// number fits the shape.
    pub fn from_shape_vec(rows: usize, columns: usize, data: &Vec<Binary32>) -> (r: Option<Matrix>)
        ensures
            r is Some <==> data@.len() == rows * columns && rows <= isize::MAX && columns <= isize::MAX,
            r matches Some(m) ==> {
                &&& m.spec_nrows() == rows
                &&& matrix_columns(m) == columns
                &&& forall|i: int| 0 <= i < rows ==> #[trigger] m.row_at(i) == data@.subrange(i * columns, (i + 1) * columns)
            },
    {
        let most: usize = isize::MAX as usize;
        if rows > most || columns > most {
            return None;
        }
        assert(data.len() <= usize::MAX);
        match rows.checked_mul(columns) {
            None => {
                return None;
            },
            Some(len) => {
                if len != data.len() {
                    return None;
                }
            },
        }
        let mut bits: Vec<u32> = Vec::new();
        let mut i: usize = 0;
        while i < data.len()
            invariant
                i <= data.len(),
                bits@.len() == i,
                forall|k: int| 0 <= k < i ==> #[trigger] bits@[k] == data@[k].bits,
            decreases data.len() - i,
        {
            bits.push(data[i].bits);
            i = i + 1;
        }
        let ghost flat = bits@;
        let r = Matrix::with_shape(rows, columns, bits);
        proof {
            let m = r->0;
            assert forall|i: int| 0 <= i < rows implies #[trigger] m.row_at(i) == data@.subrange(
                i * columns,
                (i + 1) * columns,
            ) by {
                assert(0 <= i * columns <= (i + 1) * columns <= rows * columns) by (nonlinear_arith)
                    requires 0 <= i, i + 1 <= rows, 0 <= columns;
                assert(matrix_rows(m)[i] == flat.subrange(i * columns, (i + 1) * columns));
                assert(m.row_at(i) =~= data@.subrange(i * columns, (i + 1) * columns));
            }
        }
        r
    }

    /// The number of rows.
    pub fn row_count(&self) -> (r: usize)
        ensures
            r == self.spec_nrows(),
    {
        self.nrows()
    }

    /// The elements of row `i`.
    pub fn row_values(&self, i: usize) -> (r: Vec<Binary32>)
        requires
            i < self.spec_nrows(),
        ensures
            r@ == self.row_at(i as int),
            r@.len() == matrix_columns(*self),
    {
        let row = self.row(i);
        let mut r: Vec<Binary32> = Vec::new();
        let mut j: usize = 0;
        while j < row.len()
            invariant
                j <= row.len(),
                r@.len() == j,
                forall|k: int| 0 <= k < j ==> #[trigger] r@[k] == (Binary32 { bits: row@[k] }),
            decreases row.len() - j,
        {
            r.push(Binary32 { bits: row[j] });
            j = j + 1;
        }
        assert(r@ =~= self.row_at(i as int));
        r
    }

    /// Gives row `i` new elements; the other rows keep theirs.
    pub(crate) fn set_row(&mut self, i: usize, values: &Vec<Binary32>)
        requires
            i < old(self).spec_nrows(),
            values@.len() == matrix_columns(*old(self)),
            old(self).row_at(i as int).len() == values@.len(),
        ensures
            final(self).spec_nrows() == old(self).spec_nrows(),
            matrix_columns(*final(self)) == matrix_columns(*old(self)),
            final(self).row_at(i as int) == values@,
            forall|k: int| 0 <= k < old(self).spec_nrows() && k != i ==> #[trigger] final(self).row_at(k) == old(self).row_at(k),
    {
        let mut j: usize = 0;
        while j < values.len()
            invariant
                j <= values.len(),
                i < old(self).spec_nrows(),
                self.spec_nrows() == old(self).spec_nrows(),
                values@.len() == matrix_columns(*self),
                matrix_columns(*self) == matrix_columns(*old(self)),
                matrix_rows(*self)[i as int].len() == values@.len(),
                forall|k: int| 0 <= k < j ==> #[trigger] matrix_rows(*self)[i as int][k] == values@[k].bits,
                forall|k: int|
                    0 <= k < old(self).spec_nrows() && k != i ==> #[trigger] matrix_rows(*self)[k] == matrix_rows(
                        *old(self),
                    )[k],
            decreases values.len() - j,
        {
            self.assign(i, j, values[j].bits);
            j = j + 1;
        }
        assert(self.row_at(i as int) =~= values@);
    }
}

/// The number of elements of an array with the given axes.
pub open spec fn element_count(shape: Seq<usize>) -> nat
    decreases shape.len(),
{
    if shape.len() == 0 {
        1
    } else {
        element_count(shape.drop_last()) * shape.last() as nat
    }
}

/// No axis is longer than an array can be.
pub open spec fn axes_in_range(shape: Seq<usize>) -> bool {
    forall|k: int| 0 <= k < shape.len() ==> #[trigger] shape[k] <= isize::MAX
}

/// An array that a model returned: the lengths of its axes, and its elements in
/// row-major order.
pub struct ModelOutput {
    shape: Vec<usize>,
    data: Vec<Binary32>,
}

impl ModelOutput {
    #[verifier::type_invariant]
    pub closed spec fn well_formed(self) -> bool {
        self.data@.len() == element_count(self.shape@) && axes_in_range(self.shape@)
    }

    pub closed spec fn spec_shape(self) -> Seq<usize> {
        self.shape@
    }

    pub closed spec fn spec_data(self) -> Seq<Binary32> {
        self.data@
    }

    /// The output with the given axes and elements, where their number fits.
    pub fn new(shape: Vec<usize>, data: Vec<Binary32>) -> (r: Option<ModelOutput>)
        ensures
            r is Some <==> data@.len() == element_count(shape@) && axes_in_range(shape@),
            r matches Some(o) ==> o.spec_shape() == shape@ && o.spec_data() == data@,
    {
        let most: usize = isize::MAX as usize;
        let mut i: usize = 0;
        while i < shape.len()
            invariant
                i <= shape.len(),
                most == isize::MAX,
                axes_in_range(shape@.take(i as int)),
            decreases shape.len() - i,
        {
            if shape[i] > most {
                return None;
            }
            assert(shape@.take(i + 1) =~= shape@.take(i as int).push(shape@[i as int]));
            i = i + 1;
        }
        assert(shape@.take(i as int) =~= shape@);
        if let Some(count) = count_elements(&shape) {
            if count == data.len() {
                return Some(ModelOutput { shape, data });
            }
        }
        assert(data.len() <= usize::MAX);
        None
    }

    /// The lengths of the axes.
    pub fn shape(&self) -> (r: &Vec<usize>)
        ensures
            r@ == self.spec_shape(),
            axes_in_range(r@),
    {
        proof {
            use_type_invariant(self);
        }
        &self.shape
    }

    /// The elements in row-major order, as many as the axes ask for.
    pub fn data(&self) -> (r: &Vec<Binary32>)
        ensures
            r@ == self.spec_data(),
            r@.len() == element_count(self.spec_shape()),
    {
        proof {
            use_type_invariant(self);
        }
        &self.data
    }
}

/// The number of elements of an array with the given axes, or `None` where it
/// is beyond `usize`.
fn count_elements(shape: &Vec<usize>) -> (r: Option<usize>)
    ensures
        r matches Some(n) ==> n == element_count(shape@),
        r is None ==> element_count(shape@) > usize::MAX,
{
    let mut i: usize = 0;
    while i < shape.len()
        invariant
            i <= shape.len(),
            forall|k: int| 0 <= k < i ==> shape@[k] > 0,
        decreases shape.len() - i,
    {
        if shape[i] == 0 {
            proof {
                lemma_empty_axis(shape@, i as int);
            }
            return Some(0);
        }
        i = i + 1;
    }
    let mut count: usize = 1;
    let mut j: usize = 0;
    while j < shape.len()
        invariant
            j <= shape.len(),
            count == element_count(shape@.take(j as int)),
            forall|k: int| 0 <= k < shape.len() ==> shape@[k] > 0,
        decreases shape.len() - j,
    {
        proof {
            assert(shape@.take(j + 1).drop_last() =~= shape@.take(j as int));
            assert(shape@.take(j + 1).last() == shape@[j as int]);
            lemma_prefix_count(shape@, j + 1);
        }
        match count.checked_mul(shape[j]) {
            None => {
                return None;
            },
            Some(product) => {
                count = product;
            },
        }
        j = j + 1;
    }
    assert(shape@.take(j as int) =~= shape@);
    Some(count)
}

/// The number of elements of a two-dimensional array.
pub proof fn lemma_two_axes(shape: Seq<usize>)
    requires
        shape.len() == 2,
    ensures
        element_count(shape) == shape[0] * shape[1],
{
    let front = shape.drop_last();
    let none = front.drop_last();
    assert(element_count(none) == 1);
    assert(front.last() == shape[0]);
    assert(element_count(front) == 1 * shape[0] as nat);
    assert(element_count(shape) == element_count(front) * shape.last() as nat);
}

/// An array with an empty axis has no elements.
proof fn lemma_empty_axis(shape: Seq<usize>, i: int)
    requires
        0 <= i < shape.len(),
        shape[i] == 0,
    ensures
        element_count(shape) == 0,
    decreases shape.len(),
{
    if i < shape.len() - 1 {
        lemma_empty_axis(shape.drop_last(), i);
    }
    let (a, b) = (element_count(shape.drop_last()), shape.last() as nat);
    assert(a * b == 0) by (nonlinear_arith)
        requires a == 0 || b == 0;
}

/// Further axes that are not empty do not make an array smaller.
proof fn lemma_prefix_count(shape: Seq<usize>, n: int)
    requires
        0 <= n <= shape.len(),
        forall|k: int| 0 <= k < shape.len() ==> shape[k] > 0,
    ensures
        element_count(shape.take(n)) <= element_count(shape),
    decreases shape.len(),
{
    if n == shape.len() {
        assert(shape.take(n) =~= shape);
    } else {
        let front = shape.drop_last();
        assert(front.take(n) =~= shape.take(n));
        lemma_prefix_count(front, n);
        let (a, b) = (element_count(front), shape.last() as nat);
        assert(a <= a * b) by (nonlinear_arith)
            requires b >= 1, a >= 0;
    }
}

/// Elements stand in row-major order: the last index runs fastest, and each block
/// follows the one before it.
pub proof fn law_row_major_order(shape: Seq<usize>, n: int, c: int, y: int, x: int)
    requires
        shape.len() == 4,
        0 <= n < shape[0],
        0 <= c < shape[1],
        0 <= y < shape[2],
        0 <= x < shape[3],
    ensures
        row_major(shape, 0, 0, 0, 0) == 0,
        row_major(shape, n, c, y, x + 1) == row_major(shape, n, c, y, x) + 1,
        row_major(shape, n, c, y + 1, 0) == row_major(shape, n, c, y, shape[3] - 1) + 1,
        row_major(shape, n, c + 1, 0, 0) == row_major(shape, n, c, shape[2] - 1, shape[3] - 1) + 1,
        row_major(shape, n + 1, 0, 0, 0) == row_major(shape, n, shape[1] - 1, shape[2] - 1, shape[3] - 1) + 1,
        0 <= row_major(shape, n, c, y, x) < shape[0] * shape[1] * shape[2] * shape[3],
{
    let (s0, s1, s2, s3) = (shape[0] as int, shape[1] as int, shape[2] as int, shape[3] as int);
    assert(((0 * s1 + 0) * s2 + 0) * s3 + 0 == 0) by (nonlinear_arith);
    let a = (n * s1 + c) * s2 + y;
    assert((a + 1) * s3 == a * s3 + s3) by (nonlinear_arith);
    let b = n * s1 + c;
    assert((b + 1) * s2 + 0 == (b * s2 + (s2 - 1)) + 1) by (nonlinear_arith);
    let e = b * s2 + (s2 - 1);
    assert((e + 1) * s3 == e * s3 + s3) by (nonlinear_arith);
    assert((n + 1) * s1 + 0 == (n * s1 + (s1 - 1)) + 1) by (nonlinear_arith);
    let f = n * s1 + (s1 - 1);
    assert((f + 1) * s2 + 0 == (f * s2 + (s2 - 1)) + 1) by (nonlinear_arith);
    let g = f * s2 + (s2 - 1);
    assert((g + 1) * s3 == g * s3 + s3) by (nonlinear_arith);
    assert(0 <= b && b + 1 <= s0 * s1) by (nonlinear_arith)
        requires b == n * s1 + c, 0 <= n, n + 1 <= s0, 0 <= c, c + 1 <= s1;
    let t = s0 * s1;
    assert(0 <= a && a + 1 <= t * s2) by (nonlinear_arith)
        requires a == b * s2 + y, 0 <= b, b + 1 <= t, 0 <= y, y + 1 <= s2;
    let v = t * s2;
    assert(0 <= a * s3 + x && a * s3 + x + 1 <= v * s3) by (nonlinear_arith)
        requires 0 <= a, a + 1 <= v, 0 <= x, x + 1 <= s3;
}

/// An array has as many elements as its axes multiply to.
pub proof fn law_axes_multiply(shape: Seq<usize>, n: usize)
    ensures
        element_count(Seq::<usize>::empty()) == 1,
        element_count(shape.push(n)) == element_count(shape) * n as nat,
        element_count(seq![n]) == n,
{
    assert(shape.push(n).drop_last() =~= shape);
    assert(seq![n].drop_last() =~= Seq::<usize>::empty());
    assert(element_count(seq![n]) == element_count(seq![n].drop_last()) * n as nat);
    assert(1 * n as nat == n);
}

/// An axis that is longer than an array can be is out of range.
pub proof fn law_axes_out_of_range(shape: Seq<usize>, k: int)
    requires
        0 <= k < shape.len(),
        shape[k] > isize::MAX,
    ensures
        !axes_in_range(shape),
{
}

} // verus!
