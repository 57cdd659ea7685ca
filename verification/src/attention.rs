use vstd::prelude::*;
use crate::kv_cache::{
    head_slot, head_view, lemma_push_keeps_other_slots, lemma_slot_in_arena, lemma_view_grows_by_slot,
    lemma_wf_stride_fits, LayerKVCache,
};
use crate::shape::{lemma_flat_index, lemma_mul_le, lemma_mul_succ};
use crate::tensor::{at, copy_range, extract_columns, Tensor};

verus! {

/// The `head_dim` elements of head `h` in row `r` of a `[rows, d_model]`
/// projection whose heads sit side by side.
pub open spec fn head_row<T>(proj: Seq<T>, r: int, d_model: int, h: int, head_dim: int) -> Seq<T> {
    proj.subrange(r * d_model + h * head_dim, r * d_model + h * head_dim + head_dim)
}

/// Head `h`'s part of the first `rows` rows of a projection, row after row.
pub open spec fn head_rows<T>(proj: Seq<T>, rows: nat, d_model: int, h: int, head_dim: int) -> Seq<T>
    decreases rows,
{
    if rows == 0 {
        Seq::empty()
    } else {
        head_rows(proj, (rows - 1) as nat, d_model, h, head_dim) + head_row(
            proj,
            rows - 1,
            d_model,
            h,
            head_dim,
        )
    }
}

/// Head `h`'s columns `h * head_dim .. (h + 1) * head_dim` of a
/// `[seq_len, d_model]` projection, as a `[seq_len, head_dim]` matrix.
pub fn split_head<T: Copy>(proj: &Tensor<T>, h: usize, head_dim: usize) -> (t: Tensor<T>)
    requires
        proj.shape@.len() >= 2,
        h * head_dim + head_dim <= proj.shape@[1],
        proj.shape@[0] == 0 || (proj.shape@[0] - 1) * proj.shape@[1] + h * head_dim + head_dim
            <= proj.data@.len(),
    ensures
        t.shape@ == seq![proj.shape@[0], head_dim],
        t.data@.len() == proj.shape@[0] * head_dim,
        forall|s: int, d: int|
            0 <= s < proj.shape@[0] && 0 <= d < head_dim ==> #[trigger] at(t.data@, head_dim as int, s, d)
                == at(proj.data@, proj.shape@[1] as int, s, h * head_dim + d),
{
    let rows = proj.shape[0];
    let cols = proj.shape[1];
    let _len = proj.data.len();
    proof {
        if rows > 0 {
            lemma_mul_le(head_dim as int, cols as int, (rows - 1) as int);
            lemma_mul_succ((rows - 1) as int, head_dim as int);
            assert((rows - 1) * head_dim == head_dim * (rows - 1)) by (nonlinear_arith);
            assert((rows - 1) * cols == cols * (rows - 1)) by (nonlinear_arith);
            assert(0 <= h * head_dim) by (nonlinear_arith);
        }
    }
    let start = h * head_dim;
    let t = extract_columns(proj, start, start + head_dim);
    proof {
        assert forall|s: int, d: int| 0 <= s < rows && 0 <= d < head_dim implies #[trigger] at(
            t.data@,
            head_dim as int,
            s,
            d,
        ) == at(proj.data@, cols as int, s, h * head_dim + d) by {
            assert(at(t.data@, (start + head_dim - start) as int, s, d) == proj.data@[s * cols + start
                + d]);
        }
    }
    t
}

/// Stores the keys and values of `seq_len` new tokens in a layer cache: for
/// each token, the slot of every head is written from that head's columns
/// of the token's row, then one more position is counted. Every head's
/// cached keys (values) grow by exactly its part of the new rows.
pub fn append_projections<T: Copy>(
    cache: &mut LayerKVCache<T>,
    k_proj: &Vec<T>,
    v_proj: &Vec<T>,
    seq_len: usize,
    d_model: usize,
)
    requires
        old(cache).wf(),
        old(cache).num_heads * old(cache).head_dim == d_model,
        old(cache).current_seq_len + seq_len <= old(cache).max_seq_len,
        seq_len * d_model <= k_proj@.len(),
        seq_len * d_model <= v_proj@.len(),
    ensures
        final(cache).wf(),
        final(cache).num_heads == old(cache).num_heads,
        final(cache).head_dim == old(cache).head_dim,
        final(cache).max_seq_len == old(cache).max_seq_len,
        final(cache).current_seq_len == old(cache).current_seq_len + seq_len,
        forall|h: int|
            0 <= h < old(cache).num_heads ==> #[trigger] final(cache).k_view(h) == old(cache).k_view(h)
                + head_rows(k_proj@, seq_len as nat, d_model as int, h, old(cache).head_dim as int),
        forall|h: int|
            0 <= h < old(cache).num_heads ==> #[trigger] final(cache).v_view(h) == old(cache).v_view(h)
                + head_rows(v_proj@, seq_len as nat, d_model as int, h, old(cache).head_dim as int),
{
    let num_heads = cache.num_heads;
    let head_dim = cache.head_dim;
    let ghost start_cache = *cache;
    let ghost stride = cache.stride();
    let ghost nh = num_heads as int;
    let ghost hd = head_dim as int;
    let ghost dm = d_model as int;
    let _kl = k_proj.len();
    let _vl = v_proj.len();
    let mut s: usize = 0;
    while s < seq_len
        invariant
            cache.wf(),
            cache.num_heads == num_heads,
            cache.head_dim == head_dim,
            cache.max_seq_len == start_cache.max_seq_len,
            stride == cache.stride(),
            nh == num_heads,
            hd == head_dim,
            dm == d_model,
            num_heads * head_dim == d_model,
            start_cache.current_seq_len + seq_len <= start_cache.max_seq_len,
            cache.current_seq_len == start_cache.current_seq_len + s,
            s <= seq_len,
            seq_len * d_model <= k_proj@.len(),
            seq_len * d_model <= v_proj@.len(),
            _kl == k_proj@.len(),
            _vl == v_proj@.len(),
            forall|h: int|
                0 <= h < nh ==> #[trigger] cache.k_view(h) == start_cache.k_view(h) + head_rows(
                    k_proj@,
                    s as nat,
                    dm,
                    h,
                    hd,
                ),
            forall|h: int|
                0 <= h < nh ==> #[trigger] cache.v_view(h) == start_cache.v_view(h) + head_rows(
                    v_proj@,
                    s as nat,
                    dm,
                    h,
                    hd,
                ),
        decreases seq_len - s,
    {
        let ghost pos = cache.current_seq_len as int;
        let ghost k_before = cache.k_data@;
        let ghost v_before = cache.v_data@;
        proof {
            lemma_mul_le((s + 1) as int, seq_len as int, d_model as int);
            lemma_mul_succ(s as int, d_model as int);
            assert forall|g: int| 0 <= g < nh implies #[trigger] head_view(k_before, g, pos, stride, hd)
                == start_cache.k_view(g) + head_rows(k_proj@, s as nat, dm, g, hd) by {
                assert(cache.k_view(g) == head_view(k_before, g, pos, stride, hd));
            }
            assert forall|g: int| 0 <= g < nh implies #[trigger] head_view(v_before, g, pos, stride, hd)
                == start_cache.v_view(g) + head_rows(v_proj@, s as nat, dm, g, hd) by {
                assert(cache.v_view(g) == head_view(v_before, g, pos, stride, hd));
            }
        }
        let mut h: usize = 0;
        while h < num_heads
            invariant
                cache.wf(),
                cache.num_heads == num_heads,
                cache.head_dim == head_dim,
                cache.max_seq_len == start_cache.max_seq_len,
                stride == cache.stride(),
                nh == num_heads,
                hd == head_dim,
                dm == d_model,
                num_heads * head_dim == d_model,
                cache.current_seq_len == pos,
                pos < cache.max_seq_len,
                s < seq_len,
                s * d_model + d_model <= k_proj@.len(),
                s * d_model + d_model <= v_proj@.len(),
                _kl == k_proj@.len(),
                _vl == v_proj@.len(),
                h <= num_heads,
                cache.k_data@.len() == k_before.len(),
                cache.v_data@.len() == v_before.len(),
                forall|g: int|
                    0 <= g < nh ==> #[trigger] head_view(k_before, g, pos, stride, hd) == start_cache.k_view(g)
                        + head_rows(k_proj@, s as nat, dm, g, hd),
                forall|g: int|
                    0 <= g < nh ==> #[trigger] head_view(v_before, g, pos, stride, hd) == start_cache.v_view(g)
                        + head_rows(v_proj@, s as nat, dm, g, hd),
                forall|g: int|
                    0 <= g < nh ==> #[trigger] head_view(cache.k_data@, g, pos, stride, hd) == head_view(
                        k_before,
                        g,
                        pos,
                        stride,
                        hd,
                    ),
                forall|g: int|
                    0 <= g < nh ==> #[trigger] head_view(cache.v_data@, g, pos, stride, hd) == head_view(
                        v_before,
                        g,
                        pos,
                        stride,
                        hd,
                    ),
                forall|g: int|
                    0 <= g < h ==> #[trigger] head_slot(cache.k_data@, g, pos, stride, hd) == head_row(
                        k_proj@,
                        s as int,
                        dm,
                        g,
                        hd,
                    ),
                forall|g: int|
                    0 <= g < h ==> #[trigger] head_slot(cache.v_data@, g, pos, stride, hd) == head_row(
                        v_proj@,
                        s as int,
                        dm,
                        g,
                        hd,
                    ),
            decreases num_heads - h,
        {
            proof {
                lemma_slot_in_arena(nh, cache.max_seq_len as int, hd, h as int, pos);
                lemma_wf_stride_fits(*cache);
                lemma_mul_succ(h as int, hd);
                lemma_mul_le(h as int + 1, nh, hd);
                lemma_push_keeps_other_slots(
                    cache.k_data@,
                    head_row(k_proj@, s as int, dm, h as int, hd),
                    nh,
                    cache.max_seq_len as int,
                    hd,
                    pos,
                    h as int,
                );
                lemma_push_keeps_other_slots(
                    cache.v_data@,
                    head_row(v_proj@, s as int, dm, h as int, hd),
                    nh,
                    cache.max_seq_len as int,
                    hd,
                    pos,
                    h as int,
                );
            }
            let src_offset = s * d_model + h * head_dim;
            let current_k_vector = vstd::slice::slice_subrange(
                k_proj.as_slice(),
                src_offset,
                src_offset + head_dim,
            );
            let current_v_vector = vstd::slice::slice_subrange(
                v_proj.as_slice(),
                src_offset,
                src_offset + head_dim,
            );
            let ghost k_mid = cache.k_data@;
            let ghost v_mid = cache.v_data@;
            cache.push_k(h, current_k_vector);
            cache.push_v(h, current_v_vector);
            proof {
                assert forall|g: int| 0 <= g < h + 1 implies #[trigger] head_slot(
                    cache.k_data@,
                    g,
                    pos,
                    stride,
                    hd,
                ) == head_row(k_proj@, s as int, dm, g, hd) by {
                    if g < h {
                        assert(head_slot(k_mid, g, pos, stride, hd) == head_row(k_proj@, s as int, dm, g, hd));
                    }
                }
                assert forall|g: int| 0 <= g < h + 1 implies #[trigger] head_slot(
                    cache.v_data@,
                    g,
                    pos,
                    stride,
                    hd,
                ) == head_row(v_proj@, s as int, dm, g, hd) by {
                    if g < h {
                        assert(head_slot(v_mid, g, pos, stride, hd) == head_row(v_proj@, s as int, dm, g, hd));
                    }
                }
                assert forall|g: int| 0 <= g < nh implies #[trigger] head_view(
                    cache.k_data@,
                    g,
                    pos,
                    stride,
                    hd,
                ) == head_view(k_before, g, pos, stride, hd) by {
                    assert(head_view(k_mid, g, pos, stride, hd) == head_view(k_before, g, pos, stride, hd));
                }
                assert forall|g: int| 0 <= g < nh implies #[trigger] head_view(
                    cache.v_data@,
                    g,
                    pos,
                    stride,
                    hd,
                ) == head_view(v_before, g, pos, stride, hd) by {
                    assert(head_view(v_mid, g, pos, stride, hd) == head_view(v_before, g, pos, stride, hd));
                }
            }
            h = h + 1;
        }
        cache.increment_seq_len();
        proof {
            assert forall|g: int| 0 <= g < nh implies #[trigger] cache.k_view(g) == start_cache.k_view(g)
                + head_rows(k_proj@, (s + 1) as nat, dm, g, hd) by {
                lemma_slot_in_arena(nh, cache.max_seq_len as int, hd, g, pos);
                lemma_view_grows_by_slot(cache.k_data@, g, pos, cache.max_seq_len as int, hd);
                assert(head_view(cache.k_data@, g, pos, stride, hd) == head_view(k_before, g, pos, stride, hd));
                assert(head_slot(cache.k_data@, g, pos, stride, hd) == head_row(k_proj@, s as int, dm, g, hd));
                assert(head_rows(k_proj@, (s + 1) as nat, dm, g, hd) == head_rows(k_proj@, s as nat, dm, g, hd)
                    + head_row(k_proj@, s as int, dm, g, hd));
                assert(start_cache.k_view(g) + head_rows(k_proj@, (s + 1) as nat, dm, g, hd)
                    =~= start_cache.k_view(g) + head_rows(k_proj@, s as nat, dm, g, hd) + head_row(
                    k_proj@,
                    s as int,
                    dm,
                    g,
                    hd,
                ));
            }
            assert forall|g: int| 0 <= g < nh implies #[trigger] cache.v_view(g) == start_cache.v_view(g)
                + head_rows(v_proj@, (s + 1) as nat, dm, g, hd) by {
                lemma_slot_in_arena(nh, cache.max_seq_len as int, hd, g, pos);
                lemma_view_grows_by_slot(cache.v_data@, g, pos, cache.max_seq_len as int, hd);
                assert(head_view(cache.v_data@, g, pos, stride, hd) == head_view(v_before, g, pos, stride, hd));
                assert(head_slot(cache.v_data@, g, pos, stride, hd) == head_row(v_proj@, s as int, dm, g, hd));
                assert(head_rows(v_proj@, (s + 1) as nat, dm, g, hd) == head_rows(v_proj@, s as nat, dm, g, hd)
                    + head_row(v_proj@, s as int, dm, g, hd));
                assert(start_cache.v_view(g) + head_rows(v_proj@, (s + 1) as nat, dm, g, hd)
                    =~= start_cache.v_view(g) + head_rows(v_proj@, s as nat, dm, g, hd) + head_row(
                    v_proj@,
                    s as int,
                    dm,
                    g,
                    hd,
                ));
            }
        }
        s = s + 1;
    }
}


/// Element `d` of head `h` in row `s` of a `[rows, d_model]` matrix whose
/// heads of `head_dim` columns sit side by side.
pub open spec fn head_elem<T>(data: Seq<T>, d_model: int, head_dim: int, s: int, h: int, d: int) -> T {
    data[s * d_model + h * head_dim + d]
}

/// Lays per-head outputs side by side: row `s` of the `[seq_len,
/// heads * head_dim]` result is row `s` of every head's `[seq_len, head_dim]`
/// output, head after head.
pub fn concat_heads<T: Copy>(head_outputs: &Vec<Tensor<T>>, seq_len: usize, head_dim: usize) -> (t: Tensor<T>)
    requires
        head_outputs@.len() * head_dim <= usize::MAX,
        seq_len * (head_outputs@.len() * head_dim) <= usize::MAX,
        forall|h: int|
            0 <= h < head_outputs@.len() ==> seq_len * head_dim <= (#[trigger] head_outputs@[h]).data@.len(),
    ensures
        t.shape@ == seq![seq_len, (head_outputs@.len() * head_dim) as usize],
        t.data@.len() == seq_len * (head_outputs@.len() * head_dim),
        forall|s: int, h: int, d: int|
            0 <= s < seq_len && 0 <= h < head_outputs@.len() && 0 <= d < head_dim ==> #[trigger] head_elem(
                t.data@,
                head_outputs@.len() * head_dim,
                head_dim as int,
                s,
                h,
                d,
            ) == at(head_outputs@[h].data@, head_dim as int, s, d),
{
    let num_heads = head_outputs.len();
    let d_model = num_heads * head_dim;
    let ghost dm = d_model as int;
    let ghost hd = head_dim as int;
    let ghost nh = num_heads as int;
    let mut out: Vec<T> = Vec::new();
    let mut s: usize = 0;
    proof {
        lemma_mul_succ(0, dm);
    }
    while s < seq_len
        invariant
            num_heads == head_outputs@.len(),
            d_model == num_heads * head_dim,
            dm == d_model,
            hd == head_dim,
            nh == num_heads,
            seq_len * d_model <= usize::MAX,
            forall|h: int| 0 <= h < nh ==> seq_len * head_dim <= (#[trigger] head_outputs@[h]).data@.len(),
            s <= seq_len,
            out@.len() == s * dm,
            forall|a: int, h: int, d: int|
                0 <= a < s && 0 <= h < nh && 0 <= d < hd ==> #[trigger] head_elem(out@, dm, hd, a, h, d) == at(
                    head_outputs@[h].data@,
                    hd,
                    a,
                    d,
                ),
        decreases seq_len - s,
    {
        let ghost row_start = out@.len() as int;
        proof {
            lemma_mul_le((s + 1) as int, seq_len as int, hd);
            lemma_mul_succ(s as int, hd);
            lemma_mul_succ(s as int, dm);
        }
        let mut h: usize = 0;
        while h < num_heads
            invariant
                num_heads == head_outputs@.len(),
                d_model == num_heads * head_dim,
                dm == d_model,
                hd == head_dim,
                nh == num_heads,
                s < seq_len,
                s * head_dim + head_dim <= seq_len * head_dim,
                forall|g: int| 0 <= g < nh ==> seq_len * head_dim <= (#[trigger] head_outputs@[g]).data@.len(),
                row_start == s * dm,
                h <= num_heads,
                out@.len() == row_start + h * hd,
                forall|a: int, g: int, d: int|
                    0 <= a < s && 0 <= g < nh && 0 <= d < hd ==> #[trigger] head_elem(out@, dm, hd, a, g, d)
                        == at(head_outputs@[g].data@, hd, a, d),
                forall|g: int, d: int|
                    0 <= g < h && 0 <= d < hd ==> #[trigger] head_elem(out@, dm, hd, s as int, g, d) == at(
                        head_outputs@[g].data@,
                        hd,
                        s as int,
                        d,
                    ),
            decreases num_heads - h,
        {
            let ghost before = out@;
            let head = &head_outputs[h];
            let _hl = head.data.len();
            let mut part = copy_range(&head.data, s * head_dim, s * head_dim + head_dim);
            let ghost part_view = part@;
            out.append(&mut part);
            proof {
                lemma_mul_succ(h as int, hd);
                assert forall|a: int, g: int, d: int|
                    0 <= a < s && 0 <= g < nh && 0 <= d < hd implies #[trigger] head_elem(out@, dm, hd, a, g, d)
                    == at(head_outputs@[g].data@, hd, a, d) by {
                    lemma_flat_index(g, d, nh, hd);
                    lemma_flat_index(a, g * hd + d, s as int, dm);
                    assert(head_elem(before, dm, hd, a, g, d) == at(head_outputs@[g].data@, hd, a, d));
                }
                assert forall|g: int, d: int| 0 <= g < h + 1 && 0 <= d < hd implies #[trigger] head_elem(
                    out@,
                    dm,
                    hd,
                    s as int,
                    g,
                    d,
                ) == at(head_outputs@[g].data@, hd, s as int, d) by {
                    lemma_flat_index(g, d, (h + 1) as int, hd);
                    if g < h {
                        lemma_flat_index(g, d, h as int, hd);
                        assert(head_elem(before, dm, hd, s as int, g, d) == at(
                            head_outputs@[g].data@,
                            hd,
                            s as int,
                            d,
                        ));
                    } else {
                        assert(out@[s * dm + g * hd + d] == part_view[d]);
                    }
                }
            }
            h = h + 1;
        }
        s = s + 1;
    }
    Tensor { data: out, shape: vec![seq_len, d_model] }
}


/// Splits a flat index of a row-major `[rows, num_heads * head_dim]` matrix
/// into its row, head and offset within the head.
proof fn lemma_split_flat_index(i: int, rows: int, num_heads: int, head_dim: int) -> (shd: (int, int, int))
    requires
        0 <= i < rows * (num_heads * head_dim),
        0 <= num_heads,
        0 <= head_dim,
    ensures
        0 <= shd.0 < rows,
        0 <= shd.1 < num_heads,
        0 <= shd.2 < head_dim,
        i == shd.0 * (num_heads * head_dim) + shd.1 * head_dim + shd.2,
{
    let dm = num_heads * head_dim;
    assert(dm > 0) by (nonlinear_arith)
        requires
            0 <= i < rows * dm,
            0 <= dm,
    ;
    assert(head_dim > 0 && num_heads > 0) by (nonlinear_arith)
        requires
            dm == num_heads * head_dim,
            dm > 0,
            0 <= num_heads,
            0 <= head_dim,
    ;
    let s = i / dm;
    let c = i % dm;
    vstd::arithmetic::div_mod::lemma_fundamental_div_mod(i, dm);
    assert(0 <= c < dm) by (nonlinear_arith)
        requires
            dm > 0,
            c == i % dm,
    ;
    assert(0 <= s < rows) by (nonlinear_arith)
        requires
            dm > 0,
            i == dm * s + c,
            0 <= c < dm,
            0 <= i < rows * dm,
    ;
    let h = c / head_dim;
    let d = c % head_dim;
    vstd::arithmetic::div_mod::lemma_fundamental_div_mod(c, head_dim);
    assert(0 <= d < head_dim) by (nonlinear_arith)
        requires
            head_dim > 0,
            d == c % head_dim,
    ;
    assert(0 <= h < num_heads) by (nonlinear_arith)
        requires
            head_dim > 0,
            c == head_dim * h + d,
            0 <= d < head_dim,
            0 <= c < num_heads * head_dim,
    ;
    assert(i == s * dm + h * head_dim + d) by (nonlinear_arith)
        requires
            i == dm * s + c,
            c == head_dim * h + d,
    ;
    (s, h, d)
}

/// Splitting a `[rows, num_heads * head_dim]` projection into its heads (as
/// [`split_head`] does for every head) and laying the heads side by side
/// again (as [`concat_heads`] does) gives back the projection's first `rows`
/// rows.
pub proof fn lemma_concat_inverts_split<T>(
    proj: Seq<T>,
    parts: Seq<Seq<T>>,
    merged: Seq<T>,
    rows: int,
    num_heads: int,
    head_dim: int,
)
    requires
        0 <= num_heads,
        0 <= head_dim,
        0 <= rows,
        rows * (num_heads * head_dim) <= proj.len(),
        parts.len() == num_heads,
        forall|h: int, s: int, d: int|
            0 <= h < num_heads && 0 <= s < rows && 0 <= d < head_dim ==> #[trigger] at(parts[h], head_dim, s, d)
                == at(proj, num_heads * head_dim, s, h * head_dim + d),
        merged.len() == rows * (num_heads * head_dim),
        forall|s: int, h: int, d: int|
            0 <= s < rows && 0 <= h < num_heads && 0 <= d < head_dim ==> #[trigger] head_elem(
                merged,
                num_heads * head_dim,
                head_dim,
                s,
                h,
                d,
            ) == at(parts[h], head_dim, s, d),
    ensures
        merged == proj.subrange(0, rows * (num_heads * head_dim)),
{
    let dm = num_heads * head_dim;
    assert forall|i: int| 0 <= i < merged.len() implies merged[i] == proj[i] by {
        let (s, h, d) = lemma_split_flat_index(i, rows, num_heads, head_dim);
        assert(head_elem(merged, dm, head_dim, s, h, d) == at(parts[h], head_dim, s, d));
        assert(at(parts[h], head_dim, s, d) == at(proj, dm, s, h * head_dim + d));
    }
    assert(merged =~= proj.subrange(0, rows * dm));
}

/// Keys visible to query `i` when `q_len` queries are the last positions of a
/// `kv_len`-long sequence: those at absolute positions up to the query's own,
/// `kv_len - q_len + i` (with `kv_len - q_len` floored at zero).
pub open spec fn causally_visible(i: int, j: int, q_len: int, kv_len: int) -> bool {
    let offset = if kv_len >= q_len { kv_len - q_len } else { 0 };
    j <= offset + i
}

/// The causal mask of a `[q_len, kv_len]` score matrix, row-major: entry
/// `(i, j)` is `true` when key `j` lies after query `i`'s position and its
/// score must be hidden.
pub fn causal_mask(q_len: usize, kv_len: usize) -> (mask: Vec<bool>)
    requires
        q_len * kv_len <= usize::MAX,
    ensures
        mask@.len() == q_len * kv_len,
        forall|i: int, j: int|
            0 <= i < q_len && 0 <= j < kv_len ==> #[trigger] at(mask@, kv_len as int, i, j) == !causally_visible(
                i,
                j,
                q_len as int,
                kv_len as int,
            ),
        forall|i: int, j: int|
            0 <= i < q_len && 0 <= j < kv_len ==> #[trigger] at(mask@, kv_len as int, i, j) == (j > (
            if kv_len >= q_len {
                kv_len - q_len
            } else {
                0
            }) + i),
{
    let native_offset = kv_len.saturating_sub(q_len);
    let mut mask: Vec<bool> = Vec::new();
    let mut i: usize = 0;
    proof {
        lemma_mul_succ(0, kv_len as int);
    }
    while i < q_len
        invariant
            native_offset == if kv_len >= q_len { kv_len - q_len } else { 0 },
            q_len * kv_len <= usize::MAX,
            i <= q_len,
            mask@.len() == i * kv_len,
            forall|a: int, j: int|
                0 <= a < i && 0 <= j < kv_len ==> #[trigger] at(mask@, kv_len as int, a, j) == !causally_visible(
                    a,
                    j,
                    q_len as int,
                    kv_len as int,
                ),
        decreases q_len - i,
    {
        let mut j: usize = 0;
        while j < kv_len
            invariant
                native_offset == if kv_len >= q_len { kv_len - q_len } else { 0 },
                i < q_len,
                j <= kv_len,
                mask@.len() == i * kv_len + j,
                forall|a: int, b: int|
                    0 <= a < i && 0 <= b < kv_len ==> #[trigger] at(mask@, kv_len as int, a, b)
                        == !causally_visible(a, b, q_len as int, kv_len as int),
                forall|b: int|
                    0 <= b < j ==> #[trigger] at(mask@, kv_len as int, i as int, b) == !causally_visible(
                        i as int,
                        b,
                        q_len as int,
                        kv_len as int,
                    ),
            decreases kv_len - j,
        {
            let ghost before = mask@;
            mask.push(j > native_offset + i);
            proof {
                assert forall|a: int, b: int| 0 <= a < i && 0 <= b < kv_len implies #[trigger] at(
                    mask@,
                    kv_len as int,
                    a,
                    b,
                ) == !causally_visible(a, b, q_len as int, kv_len as int) by {
                    lemma_flat_index(a, b, i as int, kv_len as int);
                    assert(at(before, kv_len as int, a, b) == !causally_visible(a, b, q_len as int, kv_len as int));
                }
                assert forall|b: int| 0 <= b < j + 1 implies #[trigger] at(mask@, kv_len as int, i as int, b)
                    == !causally_visible(i as int, b, q_len as int, kv_len as int) by {
                    if b < j {
                        assert(at(before, kv_len as int, i as int, b) == !causally_visible(
                            i as int,
                            b,
                            q_len as int,
                            kv_len as int,
                        ));
                    }
                }
            }
            j = j + 1;
        }
        proof {
            lemma_mul_succ(i as int, kv_len as int);
        }
        i = i + 1;
    }
    mask
}

/// Causality: query `i` sees exactly the keys up to its own position
/// `kv_len - q_len + i` (offset floored at zero), its own key among them; no
/// query sees a key after its own position; each query sees every key the
/// previous query saw; and when the queries are the last positions of the
/// sequence (`q_len <= kv_len`), the last query sees every key.
pub proof fn lemma_causal_visibility(q_len: int, kv_len: int)
    requires
        0 <= q_len,
        0 <= kv_len,
    ensures
        forall|i: int, j: int|
            0 <= i < q_len && 0 <= j < kv_len ==> (#[trigger] causally_visible(i, j, q_len, kv_len) <==> j <= (
            if kv_len >= q_len {
                kv_len - q_len
            } else {
                0
            }) + i),
        forall|i: int, j: int|
            0 <= i < q_len && j == (if kv_len >= q_len {
                kv_len - q_len
            } else {
                0
            }) + i ==> #[trigger] causally_visible(i, j, q_len, kv_len),
        forall|i: int, j: int|
            0 <= i < q_len && 0 <= j < kv_len && #[trigger] causally_visible(i, j, q_len, kv_len) ==> j <= (
            if kv_len >= q_len { kv_len - q_len } else { 0 }) + i,
        forall|i: int, j: int|
            0 <= i && i + 1 < q_len && #[trigger] causally_visible(i, j, q_len, kv_len) ==> causally_visible(
                i + 1,
                j,
                q_len,
                kv_len,
            ),
        q_len <= kv_len && 0 < q_len ==> forall|j: int|
            0 <= j < kv_len ==> #[trigger] causally_visible(q_len - 1, j, q_len, kv_len),
{
}

/// The absolute positions `start, start + 1, ..., start + n - 1` of `n` new
/// tokens that follow `start` cached ones.
pub fn position_ids(start: usize, n: usize) -> (ids: Vec<usize>)
    requires
        start + n <= usize::MAX,
    ensures
        ids@.len() == n,
        forall|i: int| 0 <= i < n ==> #[trigger] ids@[i] == start + i,
{
    let mut ids: Vec<usize> = Vec::with_capacity(n);
    let mut p: usize = start;
    while p < start + n
        invariant
            start <= p <= start + n,
            start + n <= usize::MAX,
            ids@.len() == p - start,
            forall|i: int| 0 <= i < ids@.len() ==> #[trigger] ids@[i] == start + i,
        decreases start + n - p,
    {
        ids.push(p);
        p = p + 1;
    }
    ids
}


/// Positions carry on from the cache: after a pass of `n` tokens starting at
/// the cache's position `start` has been cached (as [`append_projections`]
/// counts it), the next pass starts right after the last position of that
/// pass.
pub proof fn lemma_positions_continue(first: Seq<usize>, start: int, n: int, cached_after: int)
    requires
        0 < n,
        first.len() == n,
        forall|i: int| 0 <= i < n ==> #[trigger] first[i] == start + i,
        cached_after == start + n,
    ensures
        cached_after == first.last() + 1,
{
    assert(first[n - 1] == start + n - 1);
}

} // verus!
