//! How the attention layers lay out their operands: the fused
//! query-key-value projection cut in three, a matrix cut into heads and the
//! heads joined again, cached keys extended and truncated.
use vstd::prelude::*;
use vstd::arithmetic::div_mod::{lemma_fundamental_div_mod, lemma_fundamental_div_mod_converse};
use crate::model::truncated_rows;
use crate::tensor::{copy_vec, Tensor};

verus! {

/// Head `h` of a matrix whose rows have `last` elements: from each of the
/// `rows` rows, the `head_dim` elements starting at `h * head_dim`.
pub open spec fn head_data<T>(data: Seq<T>, rows: int, last: int, head_dim: int, h: int) -> Seq<T> {
    Seq::new((rows * head_dim) as nat, |k: int| data[(k / head_dim) * last + h * head_dim + k % head_dim])
}

/// The heads joined again: row by row, the rows of each head in turn.
pub open spec fn joined_heads<T>(heads: Seq<Seq<T>>, rows: int, head_dim: int) -> Seq<T> {
    let n = heads.len() as int;
    Seq::new(
        (rows * n * head_dim) as nat,
        |k: int| heads[(k / head_dim) % n][(k / head_dim / n) * head_dim + k % head_dim],
    )
}

proof fn lemma_row_element(i: int, w: int, e: int, n: int)
    requires
        0 <= e < w,
        0 <= i < n,
    ensures
        0 <= i * w + e < n * w,
        (i * w + e) / w == i,
        (i * w + e) % w == e,
{
    lemma_fundamental_div_mod_converse(i * w + e, w, i, e);
    assert(0 <= i * w + e < n * w) by (nonlinear_arith)
        requires
            0 <= e < w,
            0 <= i < n,
    ;
}

proof fn lemma_index_split(k: int, w: int, n: int)
    requires
        w > 0,
        0 <= k < n * w,
    ensures
        0 <= k / w < n,
        0 <= k % w < w,
        k == (k / w) * w + k % w,
{
    lemma_fundamental_div_mod(k, w);
    assert(0 <= k / w < n) by (nonlinear_arith)
        requires
            k == w * (k / w) + k % w,
            0 <= k % w < w,
            0 <= k < n * w,
            w > 0,
    ;
    assert((k / w) * w == w * (k / w)) by (nonlinear_arith);
}

/// Cuts a matrix `[rows, width]` into `num_heads` heads of
/// `width / num_heads` columns each: head `h` takes columns
/// `h * head_dim .. (h + 1) * head_dim` of every row.
pub fn split_into_heads<T: Copy>(tensor: &Tensor<T>, num_heads: usize) -> (heads: Vec<Tensor<T>>)
    requires
        tensor.shape.len() >= 2,
        num_heads > 0,
        tensor.shape[tensor.shape.len() - 1] > 0,
        (tensor.shape[1] / num_heads) * num_heads <= tensor.shape[tensor.shape.len() - 1],
    ensures
        heads.len() == num_heads,
        forall|h: int|
            0 <= h < num_heads ==> {
                &&& (#[trigger] heads[h]).shape@ == seq![tensor.shape[0], tensor.shape[1] / num_heads]
                &&& heads[h].data@ == head_data(
                    tensor.data@,
                    (tensor.data.len() / tensor.shape[tensor.shape.len() - 1]) as int,
                    tensor.shape[tensor.shape.len() - 1] as int,
                    (tensor.shape[1] / num_heads) as int,
                    h,
                )
            },
{
    let head_dim = tensor.shape[1] / num_heads;
    let last = tensor.shape[tensor.shape.len() - 1];
    let rows = tensor.data.len() / last;
    proof {
        lemma_fundamental_div_mod(tensor.data.len() as int, last as int);
        assert(rows * last <= tensor.data.len()) by (nonlinear_arith)
            requires
                tensor.data.len() == last * (tensor.data.len() / last) + tensor.data.len() % last,
                rows == tensor.data.len() / last,
                tensor.data.len() % last >= 0,
        ;
        assert(rows * head_dim <= rows * last) by (nonlinear_arith)
            requires
                head_dim * num_heads <= last,
                num_heads > 0,
        ;
    }
    let mut heads: Vec<Tensor<T>> = Vec::new();
    for h in 0..num_heads
        invariant
            head_dim == tensor.shape[1] / num_heads,
            last == tensor.shape[tensor.shape.len() - 1],
            rows == tensor.data.len() / last,
            last > 0,
            tensor.shape.len() >= 2,
            head_dim * num_heads <= last,
            rows * last <= tensor.data.len(),
            rows * head_dim <= rows * last,
            heads.len() == h,
            forall|g: int|
                0 <= g < h ==> {
                    &&& (#[trigger] heads[g]).shape@ == seq![tensor.shape[0], head_dim]
                    &&& heads[g].data@ == head_data(
                        tensor.data@,
                        rows as int,
                        last as int,
                        head_dim as int,
                        g,
                    )
                },
    {
        let mut data: Vec<T> = Vec::new();
        let n = rows * head_dim;
        for k in 0..n
            invariant
                n == rows * head_dim,
                h < num_heads,
                head_dim * num_heads <= last,
                rows * last <= tensor.data.len(),
                last > 0,
                data@ == head_data(tensor.data@, rows as int, last as int, head_dim as int, h as int).take(
                    k as int,
                ),
        {
            proof {
                lemma_index_split(k as int, head_dim as int, rows as int);
                assert((k / head_dim) * last + h * head_dim + k % head_dim < rows * last) by (nonlinear_arith)
                    requires
                        0 <= k / head_dim < rows,
                        0 <= k % head_dim < head_dim,
                        h < num_heads,
                        head_dim * num_heads <= last,
                ;
            }
            let src = (k / head_dim) * last + h * head_dim + k % head_dim;
            data.push(tensor.data[src]);
            assert(data@ =~= head_data(tensor.data@, rows as int, last as int, head_dim as int, h as int).take(
                k + 1,
            ));
        }
        assert(data@ =~= head_data(tensor.data@, rows as int, last as int, head_dim as int, h as int));
        heads.push(Tensor { data, shape: vec![tensor.shape[0], head_dim] });
    }
    heads
}

/// The data of each tensor.
pub open spec fn datas<T>(ts: Seq<Tensor<T>>) -> Seq<Seq<T>> {
    ts.map_values(|t: Tensor<T>| t.data@)
}

/// Joins heads of `[seq_len, head_dim]` (taken from the first head) into
/// one matrix `[seq_len, heads * head_dim]`: row by row, the row of each
/// head in turn.
pub fn concatenate_heads<T: Copy>(heads: &Vec<Tensor<T>>) -> (t: Tensor<T>)
    requires
        heads.len() >= 1,
        heads[0].shape.len() >= 2,
        heads.len() * heads[0].shape[1] <= usize::MAX,
        heads[0].shape[0] * heads.len() * heads[0].shape[1] <= usize::MAX,
        forall|h: int|
            0 <= h < heads.len() ==> heads[0].shape[0] * heads[0].shape[1] <= (#[trigger] heads[h]).data.len(),
    ensures
        t.shape@ == seq![heads[0].shape[0], (heads.len() * heads[0].shape[1]) as usize],
        t.data@ == joined_heads(datas(heads@), heads[0].shape[0] as int, heads[0].shape[1] as int),
{
    let seq_len = heads[0].shape[0];
    let head_dim = heads[0].shape[1];
    let nh = heads.len();
    let ghost ds = datas(heads@);
    let ghost goal = joined_heads(ds, seq_len as int, head_dim as int);
    proof {
        assert(seq_len * nh * head_dim == (seq_len * nh) * head_dim) by (nonlinear_arith);
    }
    let mut data: Vec<T> = Vec::new();
    assert(0 * nh * head_dim == 0) by (nonlinear_arith);
    assert(data@ =~= goal.take(0));
    for row in 0..seq_len
        invariant
            seq_len == heads[0].shape[0],
            head_dim == heads[0].shape[1],
            nh == heads.len(),
            nh >= 1,
            ds == datas(heads@),
            goal == joined_heads(ds, seq_len as int, head_dim as int),
            seq_len * nh * head_dim <= usize::MAX,
            forall|h: int| 0 <= h < nh ==> seq_len * head_dim <= (#[trigger] heads[h]).data.len(),
            data@ == goal.take(row * nh * head_dim),
    {
        for h in 0..nh
            invariant
                row < seq_len,
                seq_len == heads[0].shape[0],
                head_dim == heads[0].shape[1],
                nh == heads.len(),
                nh >= 1,
                ds == datas(heads@),
                goal == joined_heads(ds, seq_len as int, head_dim as int),
                seq_len * nh * head_dim <= usize::MAX,
                forall|g: int| 0 <= g < nh ==> seq_len * head_dim <= (#[trigger] heads[g]).data.len(),
                data@ == goal.take((row * nh + h) * head_dim),
        {
            proof {
                assert(row * head_dim + head_dim <= seq_len * head_dim) by (nonlinear_arith)
                    requires
                        row < seq_len,
                ;
                assert((row * nh + h + 1) * head_dim <= seq_len * nh * head_dim) by (nonlinear_arith)
                    requires
                        row < seq_len,
                        h < nh,
                ;
            }
            let start = row * head_dim;
            let src = &heads[h];
            for e in 0..head_dim
                invariant
                    row < seq_len,
                    h < nh,
                    nh == heads.len(),
                    head_dim == heads[0].shape[1],
                    start == row * head_dim,
                    start + head_dim <= src.data.len(),
                    src == heads[h as int],
                    ds == datas(heads@),
                    goal == joined_heads(ds, seq_len as int, head_dim as int),
                    (row * nh + h + 1) * head_dim <= seq_len * nh * head_dim,
                    data@ == goal.take((row * nh + h) * head_dim + e),
            {
                proof {
                    let k = (row * nh + h) * head_dim + e;
                    assert(k == (row * nh + h) * head_dim + e);
                    assert(row * nh + h < seq_len * nh) by (nonlinear_arith)
                        requires
                            row < seq_len,
                            h < nh,
                    ;
                    lemma_row_element((row * nh + h) as int, head_dim as int, e as int, (seq_len * nh) as int);
                    lemma_row_element(row as int, nh as int, h as int, seq_len as int);
                    assert(k < seq_len * nh * head_dim) by (nonlinear_arith)
                        requires
                            k == (row * nh + h) * head_dim + e,
                            e < head_dim,
                            (row * nh + h + 1) * head_dim <= seq_len * nh * head_dim,
                    ;
                    assert(goal[k] == ds[h as int][row * head_dim + e]);
                }
                data.push(src.data[start + e]);
                assert(data@ =~= goal.take((row * nh + h) * head_dim + e + 1));
            }
            assert((row * nh + h) * head_dim + head_dim == (row * nh + h + 1) * head_dim) by (nonlinear_arith);
        }
        assert((row * nh + nh) * head_dim == (row + 1) * nh * head_dim) by (nonlinear_arith);
        assert(row * nh * head_dim == (row * nh) * head_dim) by (nonlinear_arith);
    }
    assert(seq_len * nh * head_dim == goal.len());
    assert(data@ =~= goal);
    Tensor { data, shape: vec![seq_len, nh * head_dim] }
}

/// Cutting a matrix into heads and joining them again gives back the
/// matrix, when its width is a multiple of the number of heads.
pub proof fn lemma_join_split_heads<T>(data: Seq<T>, rows: int, num_heads: int, head_dim: int)
    requires
        rows >= 0,
        num_heads > 0,
        head_dim >= 0,
        data.len() == rows * (num_heads * head_dim),
    ensures
        joined_heads(
            Seq::new(num_heads as nat, |h: int| head_data(data, rows, num_heads * head_dim, head_dim, h)),
            rows,
            head_dim,
        ) == data,
{
    let width = num_heads * head_dim;
    let heads = Seq::new(num_heads as nat, |h: int| head_data(data, rows, width, head_dim, h));
    let j = joined_heads(heads, rows, head_dim);
    assert(rows * num_heads * head_dim == rows * (num_heads * head_dim)) by (nonlinear_arith);
    if head_dim == 0 {
        assert(data.len() == 0) by (nonlinear_arith)
            requires
                data.len() == rows * (num_heads * head_dim),
                head_dim == 0,
        ;
    }
    assert forall|k: int| 0 <= k < data.len() implies #[trigger] j[k] == data[k] by {
        lemma_index_split(k, head_dim, rows * num_heads);
        let q = k / head_dim;
        let e = k % head_dim;
        lemma_index_split(q, num_heads, rows);
        let h = q % num_heads;
        let row = q / num_heads;
        lemma_row_element(row, head_dim, e, rows);
        assert(j[k] == heads[h][row * head_dim + e]);
        assert(heads[h][row * head_dim + e] == data[row * width + h * head_dim + e]);
        assert(row * width + h * head_dim + e == k) by (nonlinear_arith)
            requires
                k == q * head_dim + e,
                q == row * num_heads + h,
                width == num_heads * head_dim,
        ;
    }
    assert(j =~= data);
}

/// Stacks the rows of `b` below those of `a`: the data of both in turn,
/// shape `[a.shape[0] + b.shape[0], a.shape[1]]`.
pub fn concat<T: Copy>(a: &Tensor<T>, b: &Tensor<T>) -> (t: Tensor<T>)
    requires
        a.shape.len() >= 2,
        b.shape.len() >= 1,
        a.shape[0] + b.shape[0] <= usize::MAX,
        a.data.len() + b.data.len() <= usize::MAX,
    ensures
        t.data@ == a.data@ + b.data@,
        t.shape@ == seq![(a.shape[0] + b.shape[0]) as usize, a.shape[1]],
{
    let mut data = copy_vec(&a.data);
    for i in 0..b.data.len()
        invariant
            data@ == a.data@ + b.data@.take(i as int),
    {
        data.push(b.data[i]);
        assert(data@ =~= a.data@ + b.data@.take(i + 1));
    }
    assert(b.data@.take(b.data.len() as int) =~= b.data@);
    Tensor { data, shape: vec![a.shape[0] + b.shape[0], a.shape[1]] }
}

/// Part `part` (0 for queries, 1 for keys, 2 for values) of a fused
/// projection whose rows have `last` elements: `len` elements, of which
/// the first `rows * seg` are the `seg`-wide slices of each row starting
/// at `part * seg`, and the rest `zero`.
pub open spec fn qkv_part<T>(data: Seq<T>, rows: int, last: int, seg: int, part: int, len: int, zero: T) -> Seq<T> {
    Seq::new(
        len as nat,
        |k: int|
            if k < rows * seg {
                data[(k / seg) * last + part * seg + k % seg]
            } else {
                zero
            },
    )
}

fn gather_part<T: Copy>(data: &Vec<T>, rows: usize, last: usize, seg: usize, part: usize, len: usize, zero: T) -> (r: Vec<T>)
    requires
        part < 3,
        3 * seg <= last,
        rows * last <= data.len(),
        rows * seg <= len,
    ensures
        r@ == qkv_part(data@, rows as int, last as int, seg as int, part as int, len as int, zero),
{
    let ghost goal = qkv_part(data@, rows as int, last as int, seg as int, part as int, len as int, zero);
    let mut r: Vec<T> = Vec::new();
    let n = rows * seg;
    for k in 0..len
        invariant
            n == rows * seg,
            n <= len,
            part < 3,
            3 * seg <= last,
            rows * last <= data.len(),
            goal == qkv_part(data@, rows as int, last as int, seg as int, part as int, len as int, zero),
            r@ == goal.take(k as int),
    {
        if k < n {
            proof {
                lemma_index_split(k as int, seg as int, rows as int);
                assert((k / seg) * last + part * seg + k % seg < rows * last) by (nonlinear_arith)
                    requires
                        0 <= k / seg < rows,
                        0 <= k % seg < seg,
                        part < 3,
                        3 * seg <= last,
                ;
            }
            r.push(data[(k / seg) * last + part * seg + k % seg]);
        } else {
            r.push(zero);
        }
        assert(r@ =~= goal.take(k + 1));
    }
    assert(r@ =~= goal);
    r
}

/// Cuts a fused query-key-value projection `[rows, 3 * width]` into the
/// three projections `[rows, width]`. Each gets `shape[0] * shape[1] / 3`
/// elements; those that no row fills keep the value `zero`.
pub fn split_into_qkv<T: Copy>(qkv: &Tensor<T>, zero: T) -> (r: (Tensor<T>, Tensor<T>, Tensor<T>))
    requires
        qkv.shape.len() >= 2,
        qkv.shape[0] * qkv.shape[1] <= usize::MAX,
        qkv.shape[qkv.shape.len() - 1] > 0,
        qkv.data.len() < qkv.shape[qkv.shape.len() - 1] || qkv.shape[qkv.shape.len() - 1] % 3 == 0,
        (qkv.data.len() / qkv.shape[qkv.shape.len() - 1]) * (qkv.shape[qkv.shape.len() - 1] / 3)
            <= (qkv.shape[0] * qkv.shape[1]) / 3,
    ensures
        ({
            let last = qkv.shape[qkv.shape.len() - 1] as int;
            let rows = qkv.data.len() as int / last;
            let len = (qkv.shape[0] * qkv.shape[1]) / 3;
            let shape = seq![qkv.shape[0], qkv.shape[1] / 3];
            &&& r.0.shape@ == shape
            &&& r.1.shape@ == shape
            &&& r.2.shape@ == shape
            &&& r.0.data@ == qkv_part(qkv.data@, rows, last, last / 3, 0, len, zero)
            &&& r.1.data@ == qkv_part(qkv.data@, rows, last, last / 3, 1, len, zero)
            &&& r.2.data@ == qkv_part(qkv.data@, rows, last, last / 3, 2, len, zero)
        }),
{
    let len = qkv.shape[0] * qkv.shape[1] / 3;
    let last = qkv.shape[qkv.shape.len() - 1];
    let seg = last / 3;
    let rows = qkv.data.len() / last;
    proof {
        lemma_fundamental_div_mod(qkv.data.len() as int, last as int);
        assert(rows * last <= qkv.data.len()) by (nonlinear_arith)
            requires
                qkv.data.len() == last * (qkv.data.len() / last) + qkv.data.len() % last,
                rows == qkv.data.len() / last,
                qkv.data.len() % last >= 0,
        ;
    }
    let q = gather_part(&qkv.data, rows, last, seg, 0, len, zero);
    let k = gather_part(&qkv.data, rows, last, seg, 1, len, zero);
    let v = gather_part(&qkv.data, rows, last, seg, 2, len, zero);
    let shape_q = vec![qkv.shape[0], qkv.shape[1] / 3];
    let shape_k = vec![qkv.shape[0], qkv.shape[1] / 3];
    let shape_v = vec![qkv.shape[0], qkv.shape[1] / 3];
    (Tensor { data: q, shape: shape_q }, Tensor { data: k, shape: shape_k }, Tensor { data: v, shape: shape_v })
}

/// Cutting a cached head back to the rows it had undoes appending rows to
/// it: a head of `rows` rows, extended by the rows of `b` and then cut to
/// `rows` rows of its width, has its data and shape back.
pub proof fn lemma_truncate_undoes_append<T>(a: Tensor<T>, b: Tensor<T>, joined: Tensor<T>, cut: Tensor<T>)
    requires
        a.shape.len() == 2,
        a.data.len() == a.shape[0] * a.shape[1],
        joined.data@ == a.data@ + b.data@,
        joined.shape@ == seq![(a.shape[0] + b.shape[0]) as usize, a.shape[1]],
        truncated_rows(joined, cut, a.shape[0] as int, a.shape[1] as int),
    ensures
        cut.data@ == a.data@,
        cut.shape@ == a.shape@,
{
    assert(cut.data@ =~= a.data@);
    assert(cut.shape@ =~= a.shape@);
}

/// The key-value head that query head `h` reads when `num_heads` query
/// heads share `num_kv_heads` key-value heads in equal groups.
pub fn kv_head_of(h: usize, num_heads: usize, num_kv_heads: usize) -> (k: usize)
    requires
        0 < num_kv_heads <= num_heads,
    ensures
        k == h / (num_heads / num_kv_heads),
{
    let group = num_heads / num_kv_heads;
    assert(group >= 1) by (nonlinear_arith)
        requires
            0 < num_kv_heads <= num_heads,
            group == num_heads / num_kv_heads,
    ;
    h / group
}

/// How many cached positions query row `row` sees, when the last `rows`
/// of `positions` cached positions are the queries' own: every position up
/// to and including its own.
pub fn visible_positions(rows: usize, positions: usize, row: usize) -> (n: usize)
    requires
        row < rows <= positions,
    ensures
        n == positions - rows + row + 1,
        n <= positions,
{
    positions - rows + row + 1
}

/// Cutting a fused projection: for any number of rows, element `c` of row
/// `r` of the queries, keys and values is element `c`, `seg + c` and
/// `2 * seg + c` of row `r` of the input.
pub proof fn lemma_qkv_columns<T>(data: Seq<T>, rows: int, last: int, seg: int, len: int, zero: T, r: int, c: int)
    requires
        0 <= r < rows,
        0 <= c < seg,
        rows * seg <= len,
    ensures
        qkv_part(data, rows, last, seg, 0, len, zero)[r * seg + c] == data[r * last + c],
        qkv_part(data, rows, last, seg, 1, len, zero)[r * seg + c] == data[r * last + seg + c],
        qkv_part(data, rows, last, seg, 2, len, zero)[r * seg + c] == data[r * last + 2 * seg + c],
{
    lemma_row_element(r, seg, c, rows);
}

/// Cutting into heads and joining them place elements where they belong:
/// element `c` of row `r` of head `h` is element `h * head_dim + c` of row
/// `r` of the matrix, and joining puts element `c` of row `r` of head `h`
/// at element `h * head_dim + c` of row `r`.
pub proof fn lemma_head_elements<T>(data: Seq<T>, heads: Seq<Seq<T>>, rows: int, last: int, head_dim: int, r: int, h: int, c: int)
    requires
        0 <= r < rows,
        0 <= h < heads.len(),
        0 <= c < head_dim,
    ensures
        head_data(data, rows, last, head_dim, h)[r * head_dim + c] == data[r * last + h * head_dim + c],
        joined_heads(heads, rows, head_dim)[r * (heads.len() * head_dim) + h * head_dim + c] == heads[h][r
            * head_dim + c],
{
    lemma_row_element(r, head_dim, c, rows);
    let n = heads.len() as int;
    let k = r * (n * head_dim) + h * head_dim + c;
    let q = r * n + h;
    assert(k == q * head_dim + c) by (nonlinear_arith)
        requires
            k == r * (n * head_dim) + h * head_dim + c,
            q == r * n + h,
    ;
    lemma_row_element(r, n, h, rows);
    lemma_row_element(q, head_dim, c, rows * n);
    assert(0 <= k < rows * n * head_dim) by (nonlinear_arith)
        requires
            0 <= q < rows * n,
            0 <= c < head_dim,
            k == q * head_dim + c,
    ;
}

} // verus!
