use inference_core::shape::{block_ranges, checked_numel, numel};
use inference_core::tensor::{embedding_lookup, extract_columns, split_qkv, ComputeWorkspace, Tensor};

fn matrix(rows: usize, cols: usize) -> Tensor<f32> {
    let data: Vec<f32> = (0..rows * cols).map(|i| i as f32).collect();
    Tensor::new(data, vec![rows, cols])
}

#[test]
fn new_keeps_buffer_and_shape() {
    let t = Tensor::new(vec![1.0f32, 2.0, 3.0], vec![3]);
    assert_eq!(t.data, vec![1.0, 2.0, 3.0]);
    assert_eq!(t.shape, vec![3]);
}

#[test]
fn get_reads_row_major() {
    let t = matrix(2, 3);
    assert_eq!(t.get(0, 0), 0.0);
    assert_eq!(t.get(0, 2), 2.0);
    assert_eq!(t.get(1, 0), 3.0);
    assert_eq!(t.get(1, 2), 5.0);
}

#[test]
fn transpose_swaps_rows_and_columns() {
    let t = matrix(2, 3);
    let tt = t.transpose();
    assert_eq!(tt.shape, vec![3, 2]);
    assert_eq!(tt.data, vec![0.0, 3.0, 1.0, 4.0, 2.0, 5.0]);
    assert_eq!(tt.get(2, 1), t.get(1, 2));
}

#[test]
fn transpose_twice_gives_back_the_matrix() {
    let t = matrix(3, 4);
    let back = t.transpose().transpose();
    assert_eq!(back.shape, t.shape);
    assert_eq!(back.data, t.data);
}

#[test]
fn transpose_of_empty_matrix() {
    let t: Tensor<f32> = Tensor::new(vec![], vec![0, 5]);
    let tt = t.transpose();
    assert_eq!(tt.shape, vec![5, 0]);
    assert!(tt.data.is_empty());
}

#[test]
fn reshape_keeps_elements() {
    let t = matrix(2, 3);
    let r = t.reshape(vec![3, 2]);
    assert_eq!(r.shape, vec![3, 2]);
    assert_eq!(r.data, t.data);
    let flat = t.reshape(vec![6]);
    assert_eq!(flat.shape, vec![6]);
}

#[test]
fn set_view_changes_only_the_shape() {
    let mut t = matrix(4, 4);
    let before = t.data.clone();
    t.set_view(vec![2, 4]);
    assert_eq!(t.shape, vec![2, 4]);
    assert_eq!(t.data, before);
    t.set_view(vec![4, 4]);
    assert_eq!(t.shape, vec![4, 4]);
}

#[test]
fn numel_multiplies_dimensions() {
    assert_eq!(numel(&vec![]), 1);
    assert_eq!(numel(&vec![2, 3, 4]), 24);
    assert_eq!(numel(&vec![5, 0, 7]), 0);
}

#[test]
fn checked_numel_reports_overflow() {
    assert_eq!(checked_numel(&vec![768, 2304]), Some(768 * 2304));
    assert_eq!(checked_numel(&vec![usize::MAX, 2]), None);
    assert_eq!(checked_numel(&vec![usize::MAX, 2, 0]), None);
    assert_eq!(checked_numel(&vec![usize::MAX]), Some(usize::MAX));
}

#[test]
fn block_ranges_clip_the_last_tile() {
    assert_eq!(block_ranges(70, 32), vec![(0, 32), (32, 64), (64, 70)]);
    assert_eq!(block_ranges(64, 32), vec![(0, 32), (32, 64)]);
    assert_eq!(block_ranges(0, 32), vec![]);
    assert_eq!(block_ranges(5, 1).len(), 5);
}

#[test]
fn block_ranges_cover_every_index_once() {
    for len in 0..100usize {
        let tiles = block_ranges(len, 32);
        let mut seen = vec![0usize; len];
        for (start, end) in &tiles {
            assert!(start < end);
            for k in *start..*end {
                seen[k] += 1;
            }
        }
        assert!(seen.iter().all(|&c| c == 1));
    }
}

#[test]
fn extract_columns_takes_a_column_block() {
    let t = matrix(2, 6);
    let part = extract_columns(&t, 2, 4);
    assert_eq!(part.shape, vec![2, 2]);
    assert_eq!(part.data, vec![2.0, 3.0, 8.0, 9.0]);
}

#[test]
fn split_qkv_splits_weights_and_bias() {
    let w = matrix(2, 6);
    let b = Tensor::new(vec![10.0f32, 11.0, 12.0, 13.0, 14.0, 15.0], vec![6]);
    let (q_w, q_b, k_w, k_b, v_w, v_b) = split_qkv(&w, &b);
    assert_eq!(q_w.shape, vec![2, 2]);
    assert_eq!(q_w.data, vec![0.0, 1.0, 6.0, 7.0]);
    assert_eq!(k_w.data, vec![2.0, 3.0, 8.0, 9.0]);
    assert_eq!(v_w.data, vec![4.0, 5.0, 10.0, 11.0]);
    assert_eq!(q_b.data, vec![10.0, 11.0]);
    assert_eq!(k_b.data, vec![12.0, 13.0]);
    assert_eq!(v_b.data, vec![14.0, 15.0]);
    assert_eq!(v_b.shape, vec![2]);
}

#[test]
fn embedding_lookup_gathers_rows() {
    let table = matrix(4, 3);
    let out = embedding_lookup(&table, &[2, 0, 2]);
    assert_eq!(out.shape, vec![3, 3]);
    assert_eq!(out.data, vec![6.0, 7.0, 8.0, 0.0, 1.0, 2.0, 6.0, 7.0, 8.0]);
    let none = embedding_lookup(&table, &[]);
    assert_eq!(none.shape, vec![0, 3]);
    assert!(none.data.is_empty());
}

#[test]
fn workspace_buffers_have_their_largest_sizes() {
    let w: ComputeWorkspace<f32> = ComputeWorkspace::new(4, 3, 0.0);
    assert_eq!(w.q_proj.shape, vec![4, 3]);
    assert_eq!(w.q_proj.data.len(), 12);
    assert_eq!(w.attn_scores.shape, vec![4, 4]);
    assert_eq!(w.attn_scores.data.len(), 16);
    assert_eq!(w.ffn_hidden.shape, vec![4, 12]);
    assert_eq!(w.ffn_hidden.data.len(), 48);
    assert!(w.ffn_output.data.iter().all(|&x| x == 0.0));
}

#[test]
fn resize_for_step_changes_views_only() {
    let mut w: ComputeWorkspace<f32> = ComputeWorkspace::new(4, 3, 0.0);
    w.resize_for_step(2, 3);
    assert_eq!(w.q_proj.shape, vec![2, 3]);
    assert_eq!(w.q_proj.data.len(), 12);
    assert_eq!(w.attn_scores.shape, vec![2, 2]);
    assert_eq!(w.attn_scores.data.len(), 16);
    assert_eq!(w.ffn_hidden.shape, vec![2, 12]);
    assert_eq!(w.attn_output.shape, vec![2, 3]);
}

#[test]
fn qkv_parts_put_back_together_give_the_fused_weight() {
    let w = matrix(3, 9);
    let b = Tensor::new(vec![0.0f32; 9], vec![9]);
    let (q_w, _, k_w, _, v_w, _) = split_qkv(&w, &b);
    for r in 0..3 {
        for c in 0..9 {
            let part = [&q_w, &k_w, &v_w][c / 3];
            assert_eq!(w.get(r, c), part.get(r, c % 3));
        }
    }
}
