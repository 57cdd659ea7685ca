use inference_core::attention::{append_projections, causal_mask, concat_heads, position_ids, split_head};
use inference_core::kv_cache::LayerKVCache;
use inference_core::tensor::Tensor;

fn projection(rows: usize, cols: usize) -> Tensor<f32> {
    let data: Vec<f32> = (0..rows * cols).map(|i| i as f32).collect();
    Tensor::new(data, vec![rows, cols])
}

#[test]
fn split_head_takes_the_heads_columns() {
    let p = projection(2, 6);
    let h1 = split_head(&p, 1, 2);
    assert_eq!(h1.shape, vec![2, 2]);
    assert_eq!(h1.data, vec![2.0, 3.0, 8.0, 9.0]);
}

#[test]
fn concat_heads_lays_heads_side_by_side() {
    let a = Tensor::new(vec![1.0f32, 2.0, 3.0, 4.0], vec![2, 2]);
    let b = Tensor::new(vec![5.0f32, 6.0, 7.0, 8.0], vec![2, 2]);
    let merged = concat_heads(&vec![a, b], 2, 2);
    assert_eq!(merged.shape, vec![2, 4]);
    assert_eq!(merged.data, vec![1.0, 2.0, 5.0, 6.0, 3.0, 4.0, 7.0, 8.0]);
}

#[test]
fn concat_of_split_heads_gives_back_the_projection() {
    let p = projection(3, 12);
    let heads: Vec<Tensor<f32>> = (0..4).map(|h| split_head(&p, h, 3)).collect();
    let merged = concat_heads(&heads, 3, 3);
    assert_eq!(merged.shape, p.shape);
    assert_eq!(merged.data, p.data);
}

#[test]
fn causal_mask_for_a_fresh_prompt_is_lower_triangular() {
    let m = causal_mask(3, 3);
    assert_eq!(
        m,
        vec![false, true, true, false, false, true, false, false, false]
    );
}

#[test]
fn decode_step_sees_every_cached_key() {
    let m = causal_mask(1, 5);
    assert_eq!(m, vec![false; 5]);
}

#[test]
fn causal_mask_aligns_queries_with_the_end_of_the_keys() {
    let m = causal_mask(2, 4);
    assert_eq!(m, vec![false, false, false, true, false, false, false, false]);
}

#[test]
fn more_queries_than_keys_use_no_offset() {
    let m = causal_mask(3, 2);
    assert_eq!(m, vec![false, true, false, false, false, false]);
}

#[test]
fn position_ids_count_up_from_the_start() {
    assert_eq!(position_ids(5, 3), vec![5, 6, 7]);
    assert!(position_ids(0, 0).is_empty());
}

#[test]
fn positions_carry_on_from_the_cache() {
    let mut c: LayerKVCache<f32> = LayerKVCache::new(1, 1, 8, 0.0);
    let first = position_ids(c.seq_len(), 3);
    append_projections(&mut c, &vec![1.0, 2.0, 3.0], &vec![1.0, 2.0, 3.0], 3, 1);
    let second = position_ids(c.seq_len(), 1);
    assert_eq!(first, vec![0, 1, 2]);
    assert_eq!(second, vec![3]);
}
