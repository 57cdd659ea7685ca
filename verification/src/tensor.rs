use vstd::prelude::*;
use crate::shape::{lemma_flat_index, lemma_mul_le, lemma_mul_succ, numel, prefix_products_fit, shape_product};

verus! {

/// Element `(r, c)` of a row-major matrix stored flat with `cols` columns.
pub open spec fn at<T>(data: Seq<T>, cols: int, r: int, c: int) -> T {
    data[r * cols + c]
}

/// A fresh copy of `src[start..end]`.
pub fn copy_range<T: Copy>(src: &Vec<T>, start: usize, end: usize) -> (out: Vec<T>)
    requires
        start <= end <= src@.len(),
    ensures
        out@ == src@.subrange(start as int, end as int),
{
    let mut out: Vec<T> = Vec::with_capacity(end - start);
    let mut i: usize = start;
    while i < end
        invariant
            start <= i <= end <= src@.len(),
            out@ == src@.subrange(start as int, i as int),
        decreases end - i,
    {
        out.push(src[i]);
        i = i + 1;
    }
    out
}

/// A vector of `n` copies of `value`.
pub fn filled<T: Copy>(value: T, n: usize) -> (out: Vec<T>)
    ensures
        out@ == Seq::new(n as nat, |i: int| value),
{
    let mut out: Vec<T> = Vec::with_capacity(n);
    let mut i: usize = 0;
    while i < n
        invariant
            i <= n,
            out@ == Seq::new(i as nat, |k: int| value),
        decreases n - i,
    {
        out.push(value);
        i = i + 1;
        assert(out@ =~= Seq::new(i as nat, |k: int| value));
    }
    out
}

/// A dense tensor: a flat row-major buffer and its logical shape. The shape
/// is a view over the buffer; the buffer may be longer than the shape needs
/// (see [`Tensor::set_view`]).
#[derive(Clone)]
pub struct Tensor<T> {
    pub data: Vec<T>,
    pub shape: Vec<usize>,
}

impl<T: Copy> Tensor<T> {
    /// Wraps a buffer and a shape.
    pub fn new(data: Vec<T>, shape: Vec<usize>) -> (t: Self)
        ensures
            t.data@ == data@,
            t.shape@ == shape@,
    {
        Tensor { data, shape }
    }

    /// Element `(row, col)` of a matrix: `data[row * shape[1] + col]`.
    pub fn get(&self, row: usize, col: usize) -> (v: T)
        requires
            self.shape@.len() >= 2,
            row * self.shape@[1] + col < self.data@.len(),
        ensures
            v == at(self.data@, self.shape@[1] as int, row as int, col as int),
    {
        let cols = self.shape[1];
        let _n = self.data.len();
        let flat = row * cols + col;
        self.data[flat]
    }

    /// The transpose of a `[rows, cols]` matrix, as a new `[cols, rows]` matrix.
    pub fn transpose(&self) -> (t: Self)
        requires
            self.shape@.len() == 2,
            self.shape@[0] * self.shape@[1] <= self.data@.len(),
        ensures
            t.shape@ == seq![self.shape@[1], self.shape@[0]],
            t.data@.len() == self.shape@[0] * self.shape@[1],
            forall|i: int, j: int|
                0 <= i < self.shape@[1] && 0 <= j < self.shape@[0] ==> #[trigger] at(
                    t.data@,
                    self.shape@[0] as int,
                    i,
                    j,
                ) == at(self.data@, self.shape@[1] as int, j, i),
    {
        let rows = self.shape[0];
        let cols = self.shape[1];
        let ghost src = self.data@;
        let n = self.data.len();
        let mut out: Vec<T> = Vec::new();
        let mut i: usize = 0;
        proof {
            lemma_mul_succ(0, rows as int);
        }
        while i < cols
            invariant
                self.shape@.len() == 2,
                rows == self.shape@[0],
                cols == self.shape@[1],
                src == self.data@,
                rows * cols <= src.len(),
                n == src.len(),
                i <= cols,
                out@.len() == i * rows,
                forall|a: int, b: int|
                    0 <= a < i && 0 <= b < rows ==> #[trigger] at(out@, rows as int, a, b) == at(
                        src,
                        cols as int,
                        b,
                        a,
                    ),
            decreases cols - i,
        {
            let mut j: usize = 0;
            while j < rows
                invariant
                    self.shape@.len() == 2,
                    rows == self.shape@[0],
                    cols == self.shape@[1],
                    src == self.data@,
                    rows * cols <= src.len(),
                    n == src.len(),
                    i < cols,
                    j <= rows,
                    out@.len() == i * rows + j,
                    forall|a: int, b: int|
                        0 <= a < i && 0 <= b < rows ==> #[trigger] at(out@, rows as int, a, b)
                            == at(src, cols as int, b, a),
                    forall|b: int|
                        0 <= b < j ==> #[trigger] at(out@, rows as int, i as int, b) == at(
                            src,
                            cols as int,
                            b,
                            i as int,
                        ),
                decreases rows - j,
            {
                proof {
                    lemma_flat_index(j as int, i as int, rows as int, cols as int);
                }
                let v = self.data[j * cols + i];
                let ghost before = out@;
                out.push(v);
                proof {
                    assert forall|a: int, b: int|
                        0 <= a < i && 0 <= b < rows implies #[trigger] at(out@, rows as int, a, b)
                        == at(src, cols as int, b, a) by {
                        lemma_flat_index(a, b, i as int, rows as int);
                        assert(at(before, rows as int, a, b) == at(src, cols as int, b, a));
                        assert(out@[a * rows + b] == before[a * rows + b]);
                    }
                    assert forall|b: int| 0 <= b < j + 1 implies #[trigger] at(
                        out@,
                        rows as int,
                        i as int,
                        b,
                    ) == at(src, cols as int, b, i as int) by {
                        if b < j {
                            assert(at(before, rows as int, i as int, b) == at(src, cols as int, b, i as int));
                            assert(out@[i * rows + b] == before[i * rows + b]);
                        }
                    }
                }
                j = j + 1;
            }
            proof {
                lemma_mul_succ(i as int, rows as int);
            }
            i = i + 1;
        }
        proof {
            assert(out@.len() == rows * cols) by (nonlinear_arith)
                requires
                    out@.len() == cols * rows,
            ;
        }
        Tensor { data: out, shape: vec![cols, rows] }
    }
}


impl<T: Copy> Tensor<T> {
    /// A copy of the tensor with a new shape holding exactly as many elements
    /// as the buffer.
    pub fn reshape(&self, new_shape: Vec<usize>) -> (t: Self)
        requires
            prefix_products_fit(new_shape@),
            shape_product(new_shape@) == self.data@.len(),
        ensures
            t.data@ == self.data@,
            t.shape@ == new_shape@,
    {
        let total = numel(&new_shape);
        let data = copy_range(&self.data, 0, total);
        assert(data@ =~= self.data@);
        Tensor { data, shape: new_shape }
    }

    /// Changes the logical shape without touching the buffer; the new shape
    /// may not need more elements than the buffer holds.
    pub fn set_view(&mut self, new_shape: Vec<usize>)
        requires
            prefix_products_fit(new_shape@),
            shape_product(new_shape@) <= old(self).data@.len(),
        ensures
            final(self).data@ == old(self).data@,
            final(self).shape@ == new_shape@,
    {
        let _required = numel(&new_shape);
        self.shape = new_shape;
    }
}

/// Columns `col_start..col_end` of every row of a `[rows, src_cols]` matrix,
/// as a new `[rows, col_end - col_start]` matrix. Row `r` is read from
/// `data[r * src_cols + col_start ..][..col_end - col_start]`.
pub fn extract_columns<T: Copy>(matrix: &Tensor<T>, col_start: usize, col_end: usize) -> (t: Tensor<T>)
    requires
        matrix.shape@.len() >= 2,
        col_start <= col_end,
        matrix.shape@[0] * (col_end - col_start) <= usize::MAX,
        matrix.shape@[0] == 0 || (matrix.shape@[0] - 1) * matrix.shape@[1] + col_end <= matrix.data@.len(),
    ensures
        t.shape@ == seq![matrix.shape@[0], (col_end - col_start) as usize],
        t.data@.len() == matrix.shape@[0] * (col_end - col_start),
        forall|r: int, c: int|
            0 <= r < matrix.shape@[0] && 0 <= c < col_end - col_start ==> #[trigger] at(
                t.data@,
                col_end - col_start,
                r,
                c,
            ) == matrix.data@[r * matrix.shape@[1] + col_start + c],
{
    let rows = matrix.shape[0];
    let src_cols = matrix.shape[1];
    let out_cols = col_end - col_start;
    let n = matrix.data.len();
    let ghost src = matrix.data@;
    let mut out: Vec<T> = Vec::new();
    let mut r: usize = 0;
    proof {
        lemma_mul_succ(0, out_cols as int);
    }
    while r < rows
        invariant
            rows == matrix.shape@[0],
            src_cols == matrix.shape@[1],
            out_cols == col_end - col_start,
            n == src.len(),
            src == matrix.data@,
            rows == 0 || (rows - 1) * src_cols + col_end <= src.len(),
            r <= rows,
            out@.len() == r * out_cols,
            forall|a: int, c: int|
                0 <= a < r && 0 <= c < out_cols ==> #[trigger] at(out@, out_cols as int, a, c)
                    == src[a * src_cols + col_start + c],
        decreases rows - r,
    {
        proof {
            lemma_mul_le(r as int, (rows - 1) as int, src_cols as int);
        }
        let start = r * src_cols + col_start;
        let mut row = copy_range(&matrix.data, start, start + out_cols);
        let ghost before = out@;
        let ghost row_view = row@;
        out.append(&mut row);
        proof {
            lemma_mul_succ(r as int, out_cols as int);
            assert forall|a: int, c: int|
                0 <= a < r + 1 && 0 <= c < out_cols implies #[trigger] at(out@, out_cols as int, a, c)
                == src[a * src_cols + col_start + c] by {
                lemma_flat_index(a, c, r + 1, out_cols as int);
                if a < r {
                    lemma_flat_index(a, c, r as int, out_cols as int);
                    assert(at(before, out_cols as int, a, c) == src[a * src_cols + col_start + c]);
                    assert(out@[a * out_cols + c] == before[a * out_cols + c]);
                } else {
                    assert(out@[a * out_cols + c] == row_view[c]);
                }
            }
        }
        r = r + 1;
    }
    Tensor { data: out, shape: vec![rows, out_cols] }
}

/// Gathers rows of an embedding table: row `i` of the `[token_ids.len(), d]`
/// result is row `token_ids[i]` of the `[vocab, d]` table.
pub fn embedding_lookup<T: Copy>(embedding_table: &Tensor<T>, token_ids: &[usize]) -> (t: Tensor<T>)
    requires
        embedding_table.shape@.len() >= 2,
        token_ids@.len() * embedding_table.shape@[1] <= usize::MAX,
        forall|i: int|
            0 <= i < token_ids@.len() ==> #[trigger] token_ids@[i] < embedding_table.shape@[0]
                && token_ids@[i] * embedding_table.shape@[1] + embedding_table.shape@[1]
                <= embedding_table.data@.len(),
    ensures
        t.shape@ == seq![token_ids@.len() as usize, embedding_table.shape@[1]],
        t.data@.len() == token_ids@.len() * embedding_table.shape@[1],
        forall|i: int, c: int|
            0 <= i < token_ids@.len() && 0 <= c < embedding_table.shape@[1] ==> #[trigger] at(
                t.data@,
                embedding_table.shape@[1] as int,
                i,
                c,
            ) == at(embedding_table.data@, embedding_table.shape@[1] as int, token_ids@[i] as int, c),
{
    let d_model = embedding_table.shape[1];
    let seq_len = token_ids.len();
    let ghost src = embedding_table.data@;
    let n = embedding_table.data.len();
    let mut out: Vec<T> = Vec::new();
    let mut i: usize = 0;
    proof {
        lemma_mul_succ(0, d_model as int);
    }
    while i < seq_len
        invariant
            d_model == embedding_table.shape@[1],
            seq_len == token_ids@.len(),
            src == embedding_table.data@,
            n == src.len(),
            embedding_table.shape@.len() >= 2,
            forall|k: int|
                0 <= k < token_ids@.len() ==> #[trigger] token_ids@[k] < embedding_table.shape@[0]
                    && token_ids@[k] * embedding_table.shape@[1] + embedding_table.shape@[1]
                    <= embedding_table.data@.len(),
            i <= seq_len,
            out@.len() == i * d_model,
            forall|a: int, c: int|
                0 <= a < i && 0 <= c < d_model ==> #[trigger] at(out@, d_model as int, a, c) == at(
                    src,
                    d_model as int,
                    token_ids@[a] as int,
                    c,
                ),
        decreases seq_len - i,
    {
        let token_id = token_ids[i];
        assert(token_ids@[i as int] == token_id);
        let src_start = token_id * d_model;
        let mut row = copy_range(&embedding_table.data, src_start, src_start + d_model);
        let ghost before = out@;
        let ghost row_view = row@;
        out.append(&mut row);
        proof {
            lemma_mul_succ(i as int, d_model as int);
            assert forall|a: int, c: int|
                0 <= a < i + 1 && 0 <= c < d_model implies #[trigger] at(out@, d_model as int, a, c)
                == at(src, d_model as int, token_ids@[a] as int, c) by {
                lemma_flat_index(a, c, i + 1, d_model as int);
                if a < i {
                    lemma_flat_index(a, c, i as int, d_model as int);
                    assert(at(before, d_model as int, a, c) == at(
                        src,
                        d_model as int,
                        token_ids@[a] as int,
                        c,
                    ));
                    assert(out@[a * d_model + c] == before[a * d_model + c]);
                } else {
                    assert(out@[a * d_model + c] == row_view[c]);
                }
            }
        }
        i = i + 1;
    }
    Tensor { data: out, shape: vec![seq_len, d_model] }
}


/// Columns `k * third .. (k + 1) * third` of a `[rows, 3 * third]` matrix hold
/// `part` at row `r`, column `c`.
pub open spec fn is_column_block<T>(part: Tensor<T>, fused: Tensor<T>, k: int, third: int) -> bool {
    &&& part.shape@ == seq![fused.shape@[0], third as usize]
    &&& part.data@.len() == fused.shape@[0] * third
    &&& forall|r: int, c: int|
        0 <= r < fused.shape@[0] && 0 <= c < third ==> #[trigger] at(part.data@, third, r, c)
            == at(fused.data@, fused.shape@[1] as int, r, k * third + c)
}

/// Elements `k * third .. (k + 1) * third` of the fused bias, as a 1-D tensor.
pub open spec fn is_bias_block<T>(part: Tensor<T>, fused: Tensor<T>, k: int, third: int) -> bool {
    &&& part.shape@ == seq![third as usize]
    &&& part.data@ == fused.data@.subrange(k * third, (k + 1) * third)
}

/// Splits a fused `[d_model, 3 * d]` attention weight and its `[3 * d]` bias
/// into the query, key and value parts, in that order:
/// `(q_w, q_b, k_w, k_b, v_w, v_b)`.
pub fn split_qkv<T: Copy>(fused_weight: &Tensor<T>, fused_bias: &Tensor<T>) -> (parts: (
    Tensor<T>,
    Tensor<T>,
    Tensor<T>,
    Tensor<T>,
    Tensor<T>,
    Tensor<T>,
))
    requires
        fused_weight.shape@.len() >= 2,
        fused_weight.shape@[1] % 3 == 0,
        fused_weight.shape@[0] * fused_weight.shape@[1] <= fused_weight.data@.len(),
        fused_weight.shape@[1] <= fused_bias.data@.len(),
    ensures
        ({
            let third = fused_weight.shape@[1] / 3;
            &&& is_column_block(parts.0, *fused_weight, 0, third as int)
            &&& is_bias_block(parts.1, *fused_bias, 0, third as int)
            &&& is_column_block(parts.2, *fused_weight, 1, third as int)
            &&& is_bias_block(parts.3, *fused_bias, 1, third as int)
            &&& is_column_block(parts.4, *fused_weight, 2, third as int)
            &&& is_bias_block(parts.5, *fused_bias, 2, third as int)
        }),
        ({
            let rows = fused_weight.shape@[0] as int;
            let cols = fused_weight.shape@[1] as int;
            let third = cols / 3;
            &&& parts.1.data@ == fused_bias.data@.subrange(0, third)
            &&& parts.3.data@ == fused_bias.data@.subrange(third, 2 * third)
            &&& parts.5.data@ == fused_bias.data@.subrange(2 * third, 3 * third)
            &&& parts.1.shape@ == seq![third as usize]
            &&& parts.3.shape@ == seq![third as usize]
            &&& parts.5.shape@ == seq![third as usize]
            &&& parts.0.shape@ == seq![rows as usize, third as usize]
            &&& parts.2.shape@ == seq![rows as usize, third as usize]
            &&& parts.4.shape@ == seq![rows as usize, third as usize]
            &&& forall|r: int, c: int|
                0 <= r < rows && 0 <= c < third ==> {
                    &&& #[trigger] at(parts.0.data@, third, r, c) == at(fused_weight.data@, cols, r, c)
                    &&& at(parts.2.data@, third, r, c) == at(fused_weight.data@, cols, r, third + c)
                    &&& at(parts.4.data@, third, r, c) == at(fused_weight.data@, cols, r, 2 * third + c)
                }
        }),
{
    let rows = fused_weight.shape[0];
    let total_dim = fused_weight.shape[1];
    let third = total_dim / 3;
    let _len = fused_weight.data.len();
    proof {
        let t = third as int;
        assert(total_dim == 3 * t);
        if rows > 0 {
            lemma_mul_succ((rows - 1) as int, total_dim as int);
        }
        lemma_mul_le(t, total_dim as int, rows as int);
        assert(rows * t == t * rows) by (nonlinear_arith);
        assert(rows * total_dim == total_dim * rows) by (nonlinear_arith);
    }
    let q_w = extract_columns(fused_weight, 0, third);
    let k_w = extract_columns(fused_weight, third, third * 2);
    let v_w = extract_columns(fused_weight, third * 2, third * 3);
    let q_b = Tensor { data: copy_range(&fused_bias.data, 0, third), shape: vec![third] };
    let k_b = Tensor { data: copy_range(&fused_bias.data, third, third * 2), shape: vec![third] };
    let v_b = Tensor {
        data: copy_range(&fused_bias.data, third * 2, third * 3),
        shape: vec![third],
    };
    proof {
        let t = third as int;
        let cols = total_dim as int;
        assert forall|r: int, c: int| 0 <= r < rows && 0 <= c < t implies #[trigger] at(q_w.data@, t, r, c)
            == at(fused_weight.data@, cols, r, 0 * t + c) by {}
        assert forall|r: int, c: int| 0 <= r < rows && 0 <= c < t implies #[trigger] at(k_w.data@, t, r, c)
            == at(fused_weight.data@, cols, r, 1 * t + c) by {}
        assert forall|r: int, c: int| 0 <= r < rows && 0 <= c < t implies #[trigger] at(v_w.data@, t, r, c)
            == at(fused_weight.data@, cols, r, 2 * t + c) by {}
        assert(is_column_block(q_w, *fused_weight, 0, t));
        assert(is_column_block(k_w, *fused_weight, 1, t));
        assert(is_column_block(v_w, *fused_weight, 2, t));
        assert(0 * t == 0 && (0 + 1) * t == t && (1 + 1) * t == 2 * t && (2 + 1) * t == 3 * t);
        assert(q_b.data@ == fused_bias.data@.subrange(0 * t, (0 + 1) * t));
        assert(q_b.shape@ == seq![t as usize]);
        assert(is_bias_block(q_b, *fused_bias, 0, t));
        assert(is_bias_block(k_b, *fused_bias, 1, t));
        assert(is_bias_block(v_b, *fused_bias, 2, t));
        assert forall|r: int, c: int| 0 <= r < rows && 0 <= c < t implies {
            &&& #[trigger] at(q_w.data@, t, r, c) == at(fused_weight.data@, cols, r, c)
            &&& at(k_w.data@, t, r, c) == at(fused_weight.data@, cols, r, t + c)
            &&& at(v_w.data@, t, r, c) == at(fused_weight.data@, cols, r, 2 * t + c)
        } by {
            assert(at(q_w.data@, t, r, c) == at(fused_weight.data@, cols, r, 0 * t + c));
            assert(at(k_w.data@, t, r, c) == at(fused_weight.data@, cols, r, 1 * t + c));
            assert(at(v_w.data@, t, r, c) == at(fused_weight.data@, cols, r, 2 * t + c));
        }
    }
    (q_w, q_b, k_w, k_b, v_w, v_b)
}

/// Pre-sized scratch buffers for one transformer layer, reused across layers
/// and decoding steps; [`ComputeWorkspace::resize_for_step`] only changes
/// their logical shapes.
pub struct ComputeWorkspace<T> {
    pub q_proj: Tensor<T>,
    pub k_proj: Tensor<T>,
    pub v_proj: Tensor<T>,
    pub attn_scores: Tensor<T>,
    pub attn_output: Tensor<T>,
    pub ffn_hidden: Tensor<T>,
    pub ffn_output: Tensor<T>,
}

/// `t` is a `[rows, cols]` tensor whose buffer holds `rows * cols` copies of `fill`.
pub open spec fn is_filled_matrix<T>(t: Tensor<T>, rows: int, cols: int, fill: T) -> bool {
    &&& t.shape@ == seq![rows as usize, cols as usize]
    &&& t.data@ == Seq::new((rows * cols) as nat, |i: int| fill)
}

/// `t` keeps a buffer of `capacity` elements and is viewed as `[rows, cols]`.
pub open spec fn is_view<T>(t: Tensor<T>, capacity: int, rows: int, cols: int) -> bool {
    &&& t.shape@ == seq![rows as usize, cols as usize]
    &&& t.data@.len() == capacity
}

fn filled_matrix<T: Copy>(fill: T, rows: usize, cols: usize) -> (t: Tensor<T>)
    requires
        rows * cols <= usize::MAX,
    ensures
        is_filled_matrix(t, rows as int, cols as int, fill),
{
    Tensor { data: filled(fill, rows * cols), shape: vec![rows, cols] }
}

impl<T: Copy> ComputeWorkspace<T> {
    /// Allocates every buffer at its largest size for sequences of up to
    /// `max_seq_len` tokens: `[max_seq_len, d_model]` for the projections and
    /// outputs, `[max_seq_len, max_seq_len]` for the attention scores and
    /// `[max_seq_len, 4 * d_model]` for the feed-forward hidden layer.
    pub fn new(max_seq_len: usize, d_model: usize, fill: T) -> (w: Self)
        requires
            max_seq_len * max_seq_len <= usize::MAX,
            d_model * 4 <= usize::MAX,
            max_seq_len * (d_model * 4) <= usize::MAX,
        ensures
            is_filled_matrix(w.q_proj, max_seq_len as int, d_model as int, fill),
            is_filled_matrix(w.k_proj, max_seq_len as int, d_model as int, fill),
            is_filled_matrix(w.v_proj, max_seq_len as int, d_model as int, fill),
            is_filled_matrix(w.attn_scores, max_seq_len as int, max_seq_len as int, fill),
            is_filled_matrix(w.attn_output, max_seq_len as int, d_model as int, fill),
            is_filled_matrix(w.ffn_hidden, max_seq_len as int, d_model * 4, fill),
            is_filled_matrix(w.ffn_output, max_seq_len as int, d_model as int, fill),
    {
        proof {
            lemma_mul_le(d_model as int, (d_model * 4) as int, max_seq_len as int);
            assert(max_seq_len * d_model == d_model * max_seq_len) by (nonlinear_arith);
            assert(max_seq_len * (d_model * 4) == (d_model * 4) * max_seq_len) by (nonlinear_arith);
        }
        ComputeWorkspace {
            q_proj: filled_matrix(fill, max_seq_len, d_model),
            k_proj: filled_matrix(fill, max_seq_len, d_model),
            v_proj: filled_matrix(fill, max_seq_len, d_model),
            attn_scores: filled_matrix(fill, max_seq_len, max_seq_len),
            attn_output: filled_matrix(fill, max_seq_len, d_model),
            ffn_hidden: filled_matrix(fill, max_seq_len, d_model * 4),
            ffn_output: filled_matrix(fill, max_seq_len, d_model),
        }
    }

    /// Views every buffer at the current sequence length: `[len, d_model]`,
    /// `[len, len]` for the scores and `[len, 4 * d_model]` for the hidden
    /// layer. Buffers are left as they are.
    pub fn resize_for_step(&mut self, current_seq_len: usize, d_model: usize)
        requires
            d_model * 4 <= usize::MAX,
            current_seq_len * d_model <= old(self).q_proj.data@.len(),
            current_seq_len * d_model <= old(self).k_proj.data@.len(),
            current_seq_len * d_model <= old(self).v_proj.data@.len(),
            current_seq_len * current_seq_len <= old(self).attn_scores.data@.len(),
            current_seq_len * d_model <= old(self).attn_output.data@.len(),
            current_seq_len * (d_model * 4) <= old(self).ffn_hidden.data@.len(),
            current_seq_len * d_model <= old(self).ffn_output.data@.len(),
        ensures
            is_view(final(self).q_proj, old(self).q_proj.data@.len() as int, current_seq_len as int, d_model as int),
            is_view(final(self).k_proj, old(self).k_proj.data@.len() as int, current_seq_len as int, d_model as int),
            is_view(final(self).v_proj, old(self).v_proj.data@.len() as int, current_seq_len as int, d_model as int),
            is_view(final(self).attn_scores, old(self).attn_scores.data@.len() as int, current_seq_len as int, current_seq_len as int),
            is_view(final(self).attn_output, old(self).attn_output.data@.len() as int, current_seq_len as int, d_model as int),
            is_view(final(self).ffn_hidden, old(self).ffn_hidden.data@.len() as int, current_seq_len as int, d_model * 4),
            is_view(final(self).ffn_output, old(self).ffn_output.data@.len() as int, current_seq_len as int, d_model as int),
            final(self).q_proj.data@ == old(self).q_proj.data@,
            final(self).k_proj.data@ == old(self).k_proj.data@,
            final(self).v_proj.data@ == old(self).v_proj.data@,
            final(self).attn_scores.data@ == old(self).attn_scores.data@,
            final(self).attn_output.data@ == old(self).attn_output.data@,
            final(self).ffn_hidden.data@ == old(self).ffn_hidden.data@,
            final(self).ffn_output.data@ == old(self).ffn_output.data@,
    {
        let _q = self.q_proj.data.len();
        let _k = self.k_proj.data.len();
        let _v = self.v_proj.data.len();
        let _s = self.attn_scores.data.len();
        let _o = self.attn_output.data.len();
        let _h = self.ffn_hidden.data.len();
        let _f = self.ffn_output.data.len();
        proof {
            lemma_pair_fits(current_seq_len, d_model);
            lemma_pair_fits(current_seq_len, current_seq_len);
            lemma_pair_fits(current_seq_len, (d_model * 4) as usize);
        }
        self.q_proj.set_view(vec![current_seq_len, d_model]);
        self.k_proj.set_view(vec![current_seq_len, d_model]);
        self.v_proj.set_view(vec![current_seq_len, d_model]);
        self.attn_scores.set_view(vec![current_seq_len, current_seq_len]);
        self.attn_output.set_view(vec![current_seq_len, d_model]);
        self.ffn_hidden.set_view(vec![current_seq_len, d_model * 4]);
        self.ffn_output.set_view(vec![current_seq_len, d_model]);
    }
}

/// The running products of a two-dimensional shape `[a, b]` are `1`, `a` and
/// `a * b`.
pub proof fn lemma_pair_fits(a: usize, b: usize)
    ensures
        shape_product(seq![a, b]) == a * b,
        a * b <= usize::MAX ==> prefix_products_fit(seq![a, b]),
{
    let s = seq![a, b];
    assert(s.drop_last() =~= seq![a]);
    assert(seq![a].drop_last() =~= Seq::<usize>::empty());
    assert(shape_product(Seq::<usize>::empty()) == 1);
    assert(shape_product(seq![a]) == 1 * a);
    assert(shape_product(s) == shape_product(seq![a]) * b);
    assert(s.take(0) =~= Seq::<usize>::empty());
    assert(s.take(1) =~= seq![a]);
    assert(s.take(2) =~= s);
    if a * b <= usize::MAX {
        assert forall|i: int| 0 <= i <= s.len() implies #[trigger] shape_product(s.take(i)) <= usize::MAX by {
            if i == 0 {
                assert(shape_product(s.take(0)) == 1);
            } else if i == 1 {
                assert(shape_product(s.take(1)) == a);
            } else {
                assert(shape_product(s.take(2)) == a * b);
            }
        }
    }
}


/// `t` is the transpose of the `[rows, cols]` matrix stored in `src`, as
/// [`Tensor::transpose`] produces it.
pub open spec fn is_transpose_of<T>(t: Seq<T>, src: Seq<T>, rows: int, cols: int) -> bool {
    &&& t.len() == rows * cols
    &&& forall|i: int, j: int|
        0 <= i < cols && 0 <= j < rows ==> #[trigger] at(t, rows, i, j) == at(src, cols, j, i)
}

/// Transposing twice gives back the matrix: the transpose of the transpose of
/// a `[rows, cols]` matrix holds the matrix's `rows * cols` elements.
pub proof fn lemma_transpose_twice<T>(src: Seq<T>, once: Seq<T>, twice: Seq<T>, rows: int, cols: int)
    requires
        0 <= rows,
        0 <= cols,
        rows * cols <= src.len(),
        is_transpose_of(once, src, rows, cols),
        is_transpose_of(twice, once, cols, rows),
    ensures
        twice == src.subrange(0, rows * cols),
{
    assert(twice.len() == rows * cols) by (nonlinear_arith)
        requires
            twice.len() == cols * rows,
    ;
    assert forall|k: int| 0 <= k < twice.len() implies twice[k] == src[k] by {
        vstd::arithmetic::div_mod::lemma_fundamental_div_mod(k, cols);
        let r = k / cols;
        let c = k % cols;
        assert(cols > 0 && 0 <= c < cols && 0 <= r < rows) by (nonlinear_arith)
            requires
                0 <= k < rows * cols,
                0 <= rows,
                0 <= cols,
                k == cols * r + c,
                c == k % cols,
        ;
        assert(k == r * cols + c) by (nonlinear_arith)
            requires
                k == cols * r + c,
        ;
        assert(at(twice, cols, r, c) == at(once, rows, c, r));
        assert(at(once, rows, c, r) == at(src, cols, r, c));
    }
    assert(twice =~= src.subrange(0, rows * cols));
}


/// The query, key and value weights that [`split_qkv`] returns cover the fused
/// weight: column `c` of row `r` of the fused `[rows, 3 * third]` matrix is
/// column `c % third` of row `r` of part `c / third` (query, key, value).
pub proof fn lemma_qkv_parts_cover_fused<T>(
    fused: Tensor<T>,
    q: Tensor<T>,
    k: Tensor<T>,
    v: Tensor<T>,
    third: int,
)
    requires
        fused.shape@.len() >= 2,
        fused.shape@[1] == 3 * third,
        third >= 0,
        is_column_block(q, fused, 0, third),
        is_column_block(k, fused, 1, third),
        is_column_block(v, fused, 2, third),
    ensures
        forall|r: int, c: int|
            0 <= r < fused.shape@[0] && 0 <= c < 3 * third ==> #[trigger] at(fused.data@, 3 * third, r, c) == at(
                if c / third == 0 {
                    q.data@
                } else if c / third == 1 {
                    k.data@
                } else {
                    v.data@
                },
                third,
                r,
                c % third,
            ),
{
    assert forall|r: int, c: int| 0 <= r < fused.shape@[0] && 0 <= c < 3 * third implies #[trigger] at(
        fused.data@,
        3 * third,
        r,
        c,
    ) == at(
        if c / third == 0 {
            q.data@
        } else if c / third == 1 {
            k.data@
        } else {
            v.data@
        },
        third,
        r,
        c % third,
    ) by {
        vstd::arithmetic::div_mod::lemma_fundamental_div_mod(c, third);
        let part = c / third;
        let d = c % third;
        assert(0 <= d < third) by (nonlinear_arith)
            requires
                third > 0,
                d == c % third,
        ;
        assert(0 <= part < 3) by (nonlinear_arith)
            requires
                third > 0,
                c == third * part + d,
                0 <= d < third,
                0 <= c < 3 * third,
        ;
        assert(c == part * third + d) by (nonlinear_arith)
            requires
                c == third * part + d,
        ;
        if part == 0 {
            assert(at(q.data@, third, r, d) == at(fused.data@, fused.shape@[1] as int, r, 0 * third + d));
        } else if part == 1 {
            assert(at(k.data@, third, r, d) == at(fused.data@, fused.shape@[1] as int, r, 1 * third + d));
        } else {
            assert(at(v.data@, third, r, d) == at(fused.data@, fused.shape@[1] as int, r, 2 * third + d));
        }
    }
}

/// The query, key and value biases that [`split_qkv`] returns cover the fused
/// bias: element `c` of the fused `[3 * third]` bias is element `c % third` of
/// part `c / third` (query, key, value).
pub proof fn lemma_qkv_biases_cover_fused<T>(
    fused: Tensor<T>,
    q: Tensor<T>,
    k: Tensor<T>,
    v: Tensor<T>,
    third: int,
)
    requires
        third >= 0,
        3 * third <= fused.data@.len(),
        is_bias_block(q, fused, 0, third),
        is_bias_block(k, fused, 1, third),
        is_bias_block(v, fused, 2, third),
    ensures
        forall|c: int|
            0 <= c < 3 * third ==> #[trigger] fused.data@[c] == (if c / third == 0 {
                q.data@
            } else if c / third == 1 {
                k.data@
            } else {
                v.data@
            })[c % third],
{
    assert forall|c: int| 0 <= c < 3 * third implies #[trigger] fused.data@[c] == (if c / third == 0 {
        q.data@
    } else if c / third == 1 {
        k.data@
    } else {
        v.data@
    })[c % third] by {
        vstd::arithmetic::div_mod::lemma_fundamental_div_mod(c, third);
        let part = c / third;
        let d = c % third;
        assert(0 <= d < third) by (nonlinear_arith)
            requires
                third > 0,
                d == c % third,
        ;
        assert(0 <= part < 3) by (nonlinear_arith)
            requires
                third > 0,
                c == third * part + d,
                0 <= d < third,
                0 <= c < 3 * third,
        ;
        assert(c == part * third + d) by (nonlinear_arith)
            requires
                c == third * part + d,
        ;
        assert((0 + 1) * third == third && (1 + 1) * third == 2 * third && (2 + 1) * third == 3 * third);
        if part == 0 {
            assert(q.data@[d] == fused.data@[0 * third + d]);
        } else if part == 1 {
            assert(k.data@[d] == fused.data@[1 * third + d]);
        } else {
            assert(v.data@[d] == fused.data@[2 * third + d]);
        }
    }
}

} // verus!
