//! A dense row-major tensor: its elements in a flat vector and its shape.
//! This module holds the layout logic (sizes, flat offsets, transposition,
//! masking); it is generic in the element type, so the numeric kernels can
//! stay with the caller.
use vstd::prelude::*;
use vstd::arithmetic::div_mod::{lemma_fundamental_div_mod, lemma_fundamental_div_mod_converse};

verus! {

/// A tensor: `data` holds the elements in row-major order, `shape` the
/// size of each dimension.
#[derive(Debug, Clone)]
pub struct Tensor<T> {
    pub data: Vec<T>,
    pub shape: Vec<usize>,
}

/// The number of elements of a shape: the product of its sizes, taken
/// from the first dimension on.
pub open spec fn shape_size(shape: Seq<usize>) -> int
    decreases shape.len(),
{
    if shape.len() == 0 {
        1
    } else {
        shape_size(shape.drop_last()) * shape.last()
    }
}

/// Every partial product of the sizes, from the first dimension on, fits
/// in a `usize`.
pub open spec fn size_fits(shape: Seq<usize>) -> bool {
    forall|k: int| 0 <= k <= shape.len() ==> #[trigger] shape_size(shape.take(k)) <= usize::MAX
}

/// The product of the sizes from dimension `k` to the last: the stride of
/// dimension `k - 1`.
pub open spec fn suffix_size(shape: Seq<usize>, k: int) -> int
    decreases shape.len() - k,
{
    if k >= shape.len() {
        1
    } else {
        shape[k] * suffix_size(shape, k + 1)
    }
}

/// Every product of the sizes from some dimension to the last fits in a
/// `usize`.
pub open spec fn strides_fit(shape: Seq<usize>) -> bool {
    forall|k: int| 0 <= k <= shape.len() ==> #[trigger] suffix_size(shape, k) <= usize::MAX
}

/// The flat offset of the dimensions from `k` on.
pub open spec fn offset_from(shape: Seq<usize>, indices: Seq<usize>, k: int) -> int
    decreases shape.len() - k,
{
    if k >= shape.len() {
        0
    } else {
        indices[k] * suffix_size(shape, k + 1) + offset_from(shape, indices, k + 1)
    }
}

/// The flat offset of an element: each index times the stride of its
/// dimension, summed.
pub open spec fn flat_offset(shape: Seq<usize>, indices: Seq<usize>) -> int {
    offset_from(shape, indices, 0)
}

/// A matrix of `rows` by `cols`, transposed: the element at row `r` and
/// column `c` moves to row `c` and column `r`.
pub open spec fn transposed<T>(data: Seq<T>, rows: int, cols: int) -> Seq<T> {
    Seq::new((rows * cols) as nat, |i: int| data[(i % rows) * cols + i / rows])
}

/// The element at flat position `k` of a tensor whose rows have `last`
/// elements lies above the diagonal of the first `rows` rows.
pub open spec fn above_diagonal(k: int, rows: int, last: int) -> bool {
    last > 0 && k / last < rows && k % last > k / last
}

/// The number of rows that the causal mask writes to.
pub open spec fn masked_rows(rows: int, last: int) -> int {
    if last == 0 {
        0
    } else if rows < last - 1 {
        rows
    } else {
        last - 1
    }
}

/// In row `i`, the element at flat position `k` lies between the
/// diagonal and column `j`.
pub open spec fn row_prefix_masked(k: int, i: int, j: int, last: int) -> bool {
    last > 0 && k / last == i && i < k % last && k % last < j
}

proof fn lemma_nonneg_products(shape: Seq<usize>, k: int)
    ensures
        suffix_size(shape, k) >= 0,
        shape_size(shape) >= 0,
    decreases shape.len() - k,
{
    if k < shape.len() {
        lemma_nonneg_products(shape, k + 1);
        assert(shape[k] * suffix_size(shape, k + 1) >= 0) by (nonlinear_arith)
            requires
                suffix_size(shape, k + 1) >= 0,
        ;
    }
    lemma_shape_size_nonneg(shape);
}

proof fn lemma_shape_size_nonneg(shape: Seq<usize>)
    ensures
        shape_size(shape) >= 0,
    decreases shape.len(),
{
    if shape.len() > 0 {
        lemma_shape_size_nonneg(shape.drop_last());
        assert(shape_size(shape.drop_last()) * shape.last() >= 0) by (nonlinear_arith)
            requires
                shape_size(shape.drop_last()) >= 0,
        ;
    }
}

proof fn lemma_offset_bounds(shape: Seq<usize>, indices: Seq<usize>, k: int)
    requires
        0 <= k <= shape.len(),
    ensures
        0 <= offset_from(shape, indices, k) <= flat_offset(shape, indices),
    decreases k,
{
    lemma_offset_nonneg(shape, indices, k);
    if k > 0 {
        lemma_offset_bounds(shape, indices, k - 1);
        lemma_nonneg_products(shape, k);
        assert(indices[k - 1] * suffix_size(shape, k) >= 0) by (nonlinear_arith)
            requires
                suffix_size(shape, k) >= 0,
        ;
    }
}

proof fn lemma_offset_nonneg(shape: Seq<usize>, indices: Seq<usize>, k: int)
    ensures
        offset_from(shape, indices, k) >= 0,
    decreases shape.len() - k,
{
    if k < shape.len() {
        lemma_offset_nonneg(shape, indices, k + 1);
        lemma_nonneg_products(shape, k + 1);
        assert(indices[k] * suffix_size(shape, k + 1) >= 0) by (nonlinear_arith)
            requires
                suffix_size(shape, k + 1) >= 0,
        ;
    }
}

/// The number of elements of `shape`.
pub fn shape_product(shape: &Vec<usize>) -> (n: usize)
    requires
        size_fits(shape@),
    ensures
        n == shape_size(shape@),
{
    let mut p: usize = 1;
    for i in 0..shape.len()
        invariant
            size_fits(shape@),
            p == shape_size(shape@.take(i as int)),
    {
        assert(shape@.take(i + 1).drop_last() =~= shape@.take(i as int));
        assert(shape_size(shape@.take(i + 1)) <= usize::MAX);
        p = p * shape[i];
    }
    assert(shape@.take(shape.len() as int) =~= shape@);
    p
}

/// The flat offset of `indices` in a tensor of `shape`, computed from the
/// last dimension back to the first.
fn offset_of(shape: &Vec<usize>, indices: &Vec<usize>) -> (index: usize)
    requires
        strides_fit(shape@),
        indices.len() >= shape.len(),
        flat_offset(shape@, indices@) <= usize::MAX,
    ensures
        index == flat_offset(shape@, indices@),
{
    let mut index: usize = 0;
    let mut product: usize = 1;
    let mut i = shape.len();
    while i > 0
        invariant
            i <= shape.len() <= indices.len(),
            strides_fit(shape@),
            flat_offset(shape@, indices@) <= usize::MAX,
            index == offset_from(shape@, indices@, i as int),
            product == suffix_size(shape@, i as int),
        decreases i,
    {
        i = i - 1;
        proof {
            lemma_offset_bounds(shape@, indices@, i as int);
            lemma_offset_nonneg(shape@, indices@, i + 1);
            lemma_nonneg_products(shape@, i + 1);
            assert(indices[i as int] * suffix_size(shape@, i + 1) >= 0) by (nonlinear_arith)
                requires
                    suffix_size(shape@, i + 1) >= 0,
            ;
        }
        index = index + indices[i] * product;
        assert(suffix_size(shape@, i as int) <= usize::MAX);
        assert(product * shape[i as int] == suffix_size(shape@, i as int)) by (nonlinear_arith)
            requires
                product == suffix_size(shape@, i + 1),
                suffix_size(shape@, i as int) == shape[i as int] * suffix_size(shape@, i + 1),
        ;
        product = product * shape[i];
    }
    index
}

/// A copy of a vector of plain values.
pub fn copy_vec<U: Copy>(v: &Vec<U>) -> (r: Vec<U>)
    ensures
        r@ == v@,
{
    let mut r: Vec<U> = Vec::new();
    for i in 0..v.len()
        invariant
            r@ == v@.take(i as int),
    {
        r.push(v[i]);
        assert(r@ =~= v@.take(i + 1));
    }
    assert(v@.take(v.len() as int) =~= v@);
    r
}

impl<T: Copy> Tensor<T> {
    /// A tensor of the given elements and shape.
    pub fn new(data: Vec<T>, shape: Vec<usize>) -> (t: Tensor<T>)
        ensures
            t.data == data,
            t.shape == shape,
    {
        Tensor { data, shape }
    }

    /// Resets every element to `zero`, as many as the shape holds.
    pub fn zeros(&mut self, zero: T)
        requires
            size_fits(old(self).shape@),
        ensures
            final(self).shape == old(self).shape,
            final(self).data@ == Seq::new(shape_size(old(self).shape@) as nat, |i: int| zero),
    {
        let n = shape_product(&self.shape);
        let mut data: Vec<T> = Vec::new();
        for i in 0..n
            invariant
                data@ == Seq::new(i as nat, |j: int| zero),
        {
            data.push(zero);
            assert(data@ =~= Seq::new((i + 1) as nat, |j: int| zero));
        }
        self.data = data;
    }

    /// Gives the tensor a new shape with the same number of elements.
    pub fn reshape(&mut self, shape: Vec<usize>)
        requires
            size_fits(shape@),
            shape_size(shape@) == old(self).data.len(),
        ensures
            final(self).data == old(self).data,
            final(self).shape == shape,
    {
        self.shape = shape;
    }

    /// The element at `indices` (one index per dimension; further indices
    /// are not read).
    pub fn get(&self, indices: Vec<usize>) -> (v: T)
        requires
            strides_fit(self.shape@),
            indices.len() >= self.shape.len(),
            flat_offset(self.shape@, indices@) < self.data.len(),
        ensures
            v == self.data@[flat_offset(self.shape@, indices@)],
    {
        let index = offset_of(&self.shape, &indices);
        self.data[index]
    }

    /// Sets the element at `indices` to `value`.
    pub fn set(&mut self, indices: Vec<usize>, value: T)
        requires
            strides_fit(old(self).shape@),
            indices.len() >= old(self).shape.len(),
            flat_offset(old(self).shape@, indices@) < old(self).data.len(),
        ensures
            final(self).shape == old(self).shape,
            final(self).data@ == old(self).data@.update(
                flat_offset(old(self).shape@, indices@),
                value,
            ),
    {
        let index = offset_of(&self.shape, &indices);
        self.data.set(index, value);
    }

    /// The transpose of a matrix: shape `[rows, cols]` becomes
    /// `[cols, rows]`, and the element at row `r`, column `c` moves to row
    /// `c`, column `r`.
    pub fn transpose(&self) -> (t: Tensor<T>)
        requires
            self.shape.len() >= 2,
            self.shape[0] * self.shape[1] <= usize::MAX,
            self.shape[0] * self.shape[1] == 0 || (self.shape.len() == 2 && self.shape[0]
                * self.shape[1] <= self.data.len()),
        ensures
            t.shape@ == seq![self.shape[1], self.shape[0]],
            t.data@ == transposed(self.data@, self.shape[0] as int, self.shape[1] as int),
    {
        let rows = self.shape[0];
        let cols = self.shape[1];
        let n = rows * cols;
        let mut data: Vec<T> = Vec::new();
        for i in 0..n
            invariant
                n == rows * cols,
                rows == self.shape[0],
                cols == self.shape[1],
                n == 0 || n <= self.data.len(),
                data@ == transposed(self.data@, rows as int, cols as int).take(i as int),
        {
            proof {
                assert(rows > 0) by (nonlinear_arith)
                    requires
                        i < n,
                        n == rows * cols,
                ;
                lemma_transposed_index(i as int, rows as int, cols as int);
            }
            let src = (i % rows) * cols + i / rows;
            data.push(self.data[src]);
            assert(data@ =~= transposed(self.data@, rows as int, cols as int).take(i + 1));
        }
        assert(data@ =~= transposed(self.data@, rows as int, cols as int));
        Tensor { data, shape: vec![cols, rows] }
    }

    /// The tensor with every element above the diagonal of its rows set
    /// to `masked`: in row `i` (for `i` below the first dimension), the
    /// elements after position `i` of the last dimension.
    pub fn apply_causal_mask(&self, masked: T) -> (t: Tensor<T>)
        requires
            self.shape.len() >= 1,
            self.shape[0] == 0 || (self.shape[0] - 1) * self.shape[self.shape.len() - 1]
                <= usize::MAX,
            masked_rows(self.shape[0] as int, self.shape[self.shape.len() - 1] as int)
                * self.shape[self.shape.len() - 1] <= self.data.len(),
        ensures
            t.shape@ == self.shape@,
            t.data.len() == self.data.len(),
            forall|k: int|
                0 <= k < self.data.len() ==> #[trigger] t.data@[k] == if above_diagonal(
                    k,
                    self.shape[0] as int,
                    self.shape[self.shape.len() - 1] as int,
                ) {
                    masked
                } else {
                    self.data@[k]
                },
    {
        let rows = self.shape[0];
        let last = self.shape[self.shape.len() - 1];
        let mut data = copy_vec(&self.data);
        for i in 0..rows
            invariant
                rows == self.shape[0],
                last == self.shape[self.shape.len() - 1],
                rows == 0 || (rows - 1) * last <= usize::MAX,
                masked_rows(rows as int, last as int) * last <= self.data.len(),
                data.len() == self.data.len(),
                forall|k: int|
                    0 <= k < data.len() ==> #[trigger] data@[k] == if above_diagonal(
                        k,
                        i as int,
                        last as int,
                    ) {
                        masked
                    } else {
                        self.data@[k]
                    },
        {
            proof {
                assert(i * last <= (rows - 1) * last) by (nonlinear_arith)
                    requires
                        i < rows,
                ;
            }
            let start = i * last;
            let mut j = i + 1;
            while j < last
                invariant
                    i < rows,
                    rows == self.shape[0],
                    last == self.shape[self.shape.len() - 1],
                    start == i * last,
                    i + 1 <= j || last <= j,
                    masked_rows(rows as int, last as int) * last <= self.data.len(),
                    data.len() == self.data.len(),
                    forall|k: int|
                        0 <= k < data.len() ==> #[trigger] data@[k] == if above_diagonal(
                            k,
                            i as int,
                            last as int,
                        ) || row_prefix_masked(k, i as int, j as int, last as int) {
                            masked
                        } else {
                            self.data@[k]
                        },
                decreases last - j,
            {
                proof {
                    assert(i < masked_rows(rows as int, last as int));
                    assert(start + j < self.data.len()) by (nonlinear_arith)
                        requires
                            i < masked_rows(rows as int, last as int),
                            masked_rows(rows as int, last as int) * last <= self.data.len(),
                            start == i * last,
                            j < last,
                    ;
                    lemma_fundamental_div_mod_converse(start + j, last as int, i as int, j as int);
                }
                data.set(start + j, masked);
                proof {
                    assert forall|k: int| 0 <= k < data.len() implies #[trigger] data@[k] == if above_diagonal(
                        k,
                        i as int,
                        last as int,
                    ) || row_prefix_masked(k, i as int, j + 1, last as int) {
                        masked
                    } else {
                        self.data@[k]
                    } by {
                        if k != start + j && row_prefix_masked(k, i as int, j + 1, last as int)
                            && !row_prefix_masked(k, i as int, j as int, last as int) {
                            lemma_fundamental_div_mod(k, last as int);
                            assert(k % (last as int) == j);
                            assert(k == last * i + j);
                            assert(last * i == i * last) by (nonlinear_arith);
                            assert(false);
                        }
                    }
                }
                j = j + 1;
            }
            proof {
                assert forall|k: int| 0 <= k < data.len() implies #[trigger] data@[k] == if above_diagonal(
                    k,
                    i + 1,
                    last as int,
                ) {
                    masked
                } else {
                    self.data@[k]
                } by {
                    if last > 0 {
                        assert(0 <= k % (last as int) < last);
                    }
                }
            }
        }
        Tensor { data, shape: copy_vec(&self.shape) }
    }
}

/// Where element `i` of a transposed `rows` by `cols` matrix comes from.
proof fn lemma_transposed_index(i: int, rows: int, cols: int)
    requires
        rows > 0,
        0 <= i < rows * cols,
    ensures
        0 <= (i % rows) * cols + i / rows < rows * cols,
{
    lemma_fundamental_div_mod(i, rows);
    let q = i / rows;
    let r = i % rows;
    assert(0 <= r < rows);
    assert(0 <= q < cols) by (nonlinear_arith)
        requires
            i == rows * q + r,
            0 <= r < rows,
            0 <= i < rows * cols,
            rows > 0,
    ;
    assert(0 <= r * cols + q < rows * cols) by (nonlinear_arith)
        requires
            0 <= r < rows,
            0 <= q < cols,
    ;
}

/// The element at row `r`, column `c` of a matrix is at row `c`, column
/// `r` of its transpose.
pub proof fn lemma_transposed_element<T>(data: Seq<T>, rows: int, cols: int, r: int, c: int)
    requires
        0 <= r < rows,
        0 <= c < cols,
    ensures
        0 <= c * rows + r < rows * cols,
        transposed(data, rows, cols)[c * rows + r] == data[r * cols + c],
{
    lemma_fundamental_div_mod_converse(c * rows + r, rows, c, r);
    assert(0 <= c * rows + r < rows * cols) by (nonlinear_arith)
        requires
            0 <= r < rows,
            0 <= c < cols,
    ;
}

/// Transposing twice gives back the matrix.
pub proof fn lemma_transpose_twice<T>(data: Seq<T>, rows: int, cols: int)
    requires
        rows >= 0,
        cols >= 0,
        data.len() == rows * cols,
    ensures
        transposed(transposed(data, rows, cols), cols, rows) == data,
{
    let once = transposed(data, rows, cols);
    let twice = transposed(once, cols, rows);
    assert(cols * rows == rows * cols) by (nonlinear_arith);
    assert forall|i: int| 0 <= i < data.len() implies #[trigger] twice[i] == data[i] by {
        assert(rows > 0 && cols > 0) by (nonlinear_arith)
            requires
                0 <= i < rows * cols,
                rows >= 0,
                cols >= 0,
        ;
        lemma_fundamental_div_mod(i, cols);
        let r = i / cols;
        let c = i % cols;
        assert(0 <= r < rows) by (nonlinear_arith)
            requires
                i == cols * r + c,
                0 <= c < cols,
                0 <= i < rows * cols,
        ;
        assert(twice[i] == once[c * rows + r]);
        lemma_transposed_element(data, rows, cols, r, c);
        assert(r * cols + c == i) by (nonlinear_arith)
            requires
                i == cols * r + c,
        ;
    }
    assert(twice =~= data);
}

/// One index per dimension of `shape`, each below the dimension's size.
pub open spec fn in_bounds(shape: Seq<usize>, indices: Seq<usize>) -> bool {
    indices.len() >= shape.len() && forall|k: int| 0 <= k < shape.len() ==> #[trigger] indices[k] < shape[k]
}

/// Two index lists name the same element of a tensor of `shape`.
pub open spec fn same_position(shape: Seq<usize>, a: Seq<usize>, b: Seq<usize>) -> bool {
    forall|k: int| 0 <= k < shape.len() ==> #[trigger] a[k] == b[k]
}

proof fn lemma_offset_from_below(shape: Seq<usize>, indices: Seq<usize>, k: int)
    requires
        0 <= k <= shape.len(),
        in_bounds(shape, indices),
    ensures
        0 <= offset_from(shape, indices, k) < suffix_size(shape, k),
    decreases shape.len() - k,
{
    if k < shape.len() {
        lemma_offset_from_below(shape, indices, k + 1);
        let s = suffix_size(shape, k + 1);
        let r = offset_from(shape, indices, k + 1);
        assert(indices[k] < shape[k]);
        assert(0 <= indices[k] * s + r < shape[k] * s) by (nonlinear_arith)
            requires
                0 <= r < s,
                0 <= indices[k] < shape[k],
        ;
    }
}

proof fn lemma_offset_from_injective(shape: Seq<usize>, a: Seq<usize>, b: Seq<usize>, k: int)
    requires
        0 <= k <= shape.len(),
        in_bounds(shape, a),
        in_bounds(shape, b),
        offset_from(shape, a, k) == offset_from(shape, b, k),
    ensures
        forall|j: int| k <= j < shape.len() ==> #[trigger] a[j] == b[j],
    decreases shape.len() - k,
{
    if k < shape.len() {
        lemma_offset_from_below(shape, a, k + 1);
        lemma_offset_from_below(shape, b, k + 1);
        let s = suffix_size(shape, k + 1);
        let ra = offset_from(shape, a, k + 1);
        let rb = offset_from(shape, b, k + 1);
        let qa = a[k] as int;
        let qb = b[k] as int;
        assert(qa == qb && ra == rb) by (nonlinear_arith)
            requires
                qa * s + ra == qb * s + rb,
                0 <= ra < s,
                0 <= rb < s,
                qa >= 0,
                qb >= 0,
        ;
        lemma_offset_from_injective(shape, a, b, k + 1);
    }
}

proof fn lemma_suffix_size_drop_last(shape: Seq<usize>, k: int)
    requires
        0 <= k < shape.len(),
    ensures
        suffix_size(shape, k) == suffix_size(shape.drop_last(), k) * shape.last(),
    decreases shape.len() - k,
{
    let d = shape.drop_last();
    if k < shape.len() - 1 {
        lemma_suffix_size_drop_last(shape, k + 1);
        let t = suffix_size(d, k + 1);
        assert(d[k] == shape[k]);
        assert(suffix_size(d, k) == shape[k] * t);
        assert(shape[k] * (t * shape.last()) == (shape[k] * t) * shape.last()) by (nonlinear_arith);
    } else {
        assert(suffix_size(shape, k + 1) == 1);
        assert(suffix_size(d, k) == 1);
        assert(suffix_size(shape, k) == shape.last() * 1);
    }
}

/// The product of the sizes is the same taken from either end.
proof fn lemma_suffix_size_whole(shape: Seq<usize>)
    ensures
        suffix_size(shape, 0) == shape_size(shape),
    decreases shape.len(),
{
    if shape.len() > 0 {
        lemma_suffix_size_whole(shape.drop_last());
        lemma_suffix_size_drop_last(shape, 0);
    }
}

/// Row-major layout is one-to-one: indices inside the shape give an
/// offset inside the tensor's elements, and two index lists give the same
/// offset only if they name the same element.
pub proof fn lemma_layout_one_to_one(shape: Seq<usize>, a: Seq<usize>, b: Seq<usize>)
    requires
        in_bounds(shape, a),
        in_bounds(shape, b),
    ensures
        0 <= flat_offset(shape, a) < shape_size(shape),
        flat_offset(shape, a) == flat_offset(shape, b) <==> same_position(shape, a, b),
{
    lemma_offset_from_below(shape, a, 0);
    lemma_suffix_size_whole(shape);
    if flat_offset(shape, a) == flat_offset(shape, b) {
        lemma_offset_from_injective(shape, a, b, 0);
    }
    if same_position(shape, a, b) {
        lemma_offset_same(shape, a, b, 0);
    }
}

proof fn lemma_offset_same(shape: Seq<usize>, a: Seq<usize>, b: Seq<usize>, k: int)
    requires
        0 <= k <= shape.len(),
        same_position(shape, a, b),
    ensures
        offset_from(shape, a, k) == offset_from(shape, b, k),
    decreases shape.len() - k,
{
    if k < shape.len() {
        lemma_offset_same(shape, a, b, k + 1);
        assert(a[k] == b[k]);
    }
}

/// Reading back a write: after `set` at `written`, `get` at the same
/// element gives the value written, and `get` at any other element inside
/// the shape gives what it held before.
pub proof fn lemma_get_after_set<T>(data: Seq<T>, shape: Seq<usize>, written: Seq<usize>, read: Seq<usize>, value: T)
    requires
        data.len() >= shape_size(shape),
        in_bounds(shape, written),
        in_bounds(shape, read),
    ensures
        data.update(flat_offset(shape, written), value)[flat_offset(shape, read)] == if same_position(
            shape,
            written,
            read,
        ) {
            value
        } else {
            data[flat_offset(shape, read)]
        },
{
    lemma_layout_one_to_one(shape, written, read);
    lemma_layout_one_to_one(shape, read, written);
}

/// The rows `ids` of a table whose rows have `width` elements, one after
/// another.
pub open spec fn gathered_rows<T>(table: Seq<T>, ids: Seq<usize>, width: int) -> Seq<T> {
    Seq::new((ids.len() * width) as nat, |k: int| table[ids[k / width] * width + k % width])
}

proof fn lemma_row_position(i: int, e: int, width: int, n: int)
    requires
        0 <= i < n,
        0 <= e < width,
    ensures
        (i * width + e) / width == i,
        (i * width + e) % width == e,
        i * width + e + 1 <= n * width,
{
    lemma_fundamental_div_mod_converse(i * width + e, width, i, e);
    assert(i * width + e + 1 <= n * width) by (nonlinear_arith)
        requires
            0 <= i < n,
            0 <= e < width,
    ;
}

/// Looks up rows of a table (an embedding, say): row `ids[i]` of `width`
/// elements for each `i`, one after another.
pub fn gather_rows<T: Copy>(table: &Vec<T>, ids: &[usize], width: usize) -> (r: Vec<T>)
    requires
        forall|i: int| 0 <= i < ids.len() ==> (#[trigger] ids[i] + 1) * width <= table.len(),
        ids.len() * width <= usize::MAX,
    ensures
        r@ == gathered_rows(table@, ids@, width as int),
{
    let ghost goal = gathered_rows(table@, ids@, width as int);
    let mut r: Vec<T> = Vec::new();
    assert(0 * width == 0);
    assert(r@ =~= goal.take(0));
    for i in 0..ids.len()
        invariant
            ids.len() * width <= usize::MAX,
            forall|j: int| 0 <= j < ids.len() ==> (#[trigger] ids[j] + 1) * width <= table.len(),
            goal == gathered_rows(table@, ids@, width as int),
            r@ == goal.take(i * width),
    {
        proof {
            assert((i + 1) * width <= ids.len() * width) by (nonlinear_arith)
                requires
                    i < ids.len(),
            ;
            assert(ids[i as int] * width + width == (ids[i as int] + 1) * width) by (nonlinear_arith);
        }
        let start = ids[i] * width;
        for e in 0..width
            invariant
                i < ids.len(),
                start == ids[i as int] * width,
                start + width <= table.len(),
                (i + 1) * width <= ids.len() * width,
                goal == gathered_rows(table@, ids@, width as int),
                r@ == goal.take(i * width + e),
        {
            proof {
                lemma_row_position(i as int, e as int, width as int, ids.len() as int);
                assert(i * width + e + 1 == (i * width + e) + 1);
            }
            r.push(table[start + e]);
            assert(r@ =~= goal.take(i * width + e + 1));
        }
        assert((i + 1) * width == i * width + width) by (nonlinear_arith);
    }
    assert(r@ =~= goal);
    r
}

/// The last `width` elements of a tensor, as a vector of shape `[width]`.
pub fn last_row<T: Copy>(t: &Tensor<T>, width: usize) -> (r: Tensor<T>)
    requires
        width <= t.data.len(),
    ensures
        r.data@ == t.data@.skip(t.data.len() - width),
        r.shape@ == seq![width],
{
    let start = t.data.len() - width;
    let mut data: Vec<T> = Vec::new();
    for i in start..t.data.len()
        invariant
            start == t.data.len() - width,
            data@ == t.data@.subrange(start as int, i as int),
    {
        data.push(t.data[i]);
        assert(data@ =~= t.data@.subrange(start as int, i + 1));
    }
    assert(data@ =~= t.data@.skip(start as int));
    Tensor { data, shape: vec![width] }
}

proof fn lemma_suffix_below(shape: Seq<usize>, k: int)
    requires
        0 <= k <= shape.len(),
        forall|d: int| 0 <= d < shape.len() ==> #[trigger] shape[d] >= 1,
    ensures
        1 <= suffix_size(shape, k) <= suffix_size(shape, 0),
    decreases k,
{
    lemma_nonneg_products(shape, k);
    if k > 0 {
        lemma_suffix_below(shape, k - 1);
        lemma_suffix_at_least_one(shape, k);
        assert(suffix_size(shape, k - 1) == shape[k - 1] * suffix_size(shape, k));
        assert(shape[k - 1] * suffix_size(shape, k) >= suffix_size(shape, k)) by (nonlinear_arith)
            requires
                shape[k - 1] >= 1,
                suffix_size(shape, k) >= 1,
        ;
    } else {
        lemma_suffix_at_least_one(shape, 0);
    }
}

proof fn lemma_suffix_at_least_one(shape: Seq<usize>, k: int)
    requires
        0 <= k <= shape.len(),
        forall|d: int| 0 <= d < shape.len() ==> #[trigger] shape[d] >= 1,
    ensures
        suffix_size(shape, k) >= 1,
    decreases shape.len() - k,
{
    if k < shape.len() {
        lemma_suffix_at_least_one(shape, k + 1);
        assert(shape[k] * suffix_size(shape, k + 1) >= 1) by (nonlinear_arith)
            requires
                shape[k] >= 1,
                suffix_size(shape, k + 1) >= 1,
        ;
    }
}

/// Indices inside a shape whose size fits a `usize` meet what `get` and
/// `set` ask: every stride fits, and the offset lies below the size.
pub proof fn lemma_strides_fit(shape: Seq<usize>, indices: Seq<usize>)
    requires
        in_bounds(shape, indices),
        shape_size(shape) <= usize::MAX,
    ensures
        strides_fit(shape),
        flat_offset(shape, indices) < shape_size(shape),
{
    assert forall|d: int| 0 <= d < shape.len() implies #[trigger] shape[d] >= 1 by {
        assert(indices[d] < shape[d]);
    }
    lemma_suffix_size_whole(shape);
    assert forall|k: int| 0 <= k <= shape.len() implies #[trigger] suffix_size(shape, k) <= usize::MAX by {
        lemma_suffix_below(shape, k);
    }
    lemma_layout_one_to_one(shape, indices, indices);
}

/// The causal mask hides exactly what lies ahead: in row `i` (below the
/// first dimension) of a tensor whose rows have `last` elements, column `j`
/// is masked if and only if it comes after the diagonal, however far.
pub proof fn lemma_mask_ahead(rows: int, last: int, i: int, j: int)
    requires
        0 <= i < rows,
        0 <= j < last,
    ensures
        above_diagonal(i * last + j, rows, last) <==> i < j,
{
    lemma_fundamental_div_mod_converse(i * last + j, last, i, j);
}

/// Looking up rows: element `e` of the `i`-th row looked up is element `e`
/// of row `ids[i]` of the table.
pub proof fn lemma_gathered_element<T>(table: Seq<T>, ids: Seq<usize>, width: int, i: int, e: int)
    requires
        0 <= i < ids.len(),
        0 <= e < width,
    ensures
        gathered_rows(table, ids, width).len() == ids.len() * width,
        gathered_rows(table, ids, width)[i * width + e] == table[ids[i] * width + e],
{
    lemma_row_position(i, e, width, ids.len() as int);
    assert(ids.len() * width >= 0) by (nonlinear_arith)
        requires
            width > 0,
    ;
}

} // verus!
