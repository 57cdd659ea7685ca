use inference_core::attention::append_projections;
use inference_core::kv_cache::{KVCache, LayerKVCache};

#[test]
fn new_cache_is_empty_and_preallocated() {
    let c: LayerKVCache<f32> = LayerKVCache::new(2, 3, 4, 0.0);
    assert_eq!(c.seq_len(), 0);
    assert_eq!(c.k_data.len(), 24);
    assert_eq!(c.v_data.len(), 24);
    assert!(c.k_slice(0).is_empty());
    assert!(c.v_slice(1).is_empty());
}

#[test]
fn push_then_increment_reads_back_the_vectors() {
    let mut c: LayerKVCache<f32> = LayerKVCache::new(2, 2, 3, 0.0);
    c.push_k(0, &[1.0, 2.0]);
    c.push_k(1, &[3.0, 4.0]);
    c.push_v(0, &[5.0, 6.0]);
    c.push_v(1, &[7.0, 8.0]);
    c.increment_seq_len();
    assert_eq!(c.seq_len(), 1);
    assert_eq!(c.k_slice(0), &[1.0, 2.0]);
    assert_eq!(c.k_slice(1), &[3.0, 4.0]);
    assert_eq!(c.v_slice(0), &[5.0, 6.0]);
    assert_eq!(c.v_slice(1), &[7.0, 8.0]);
    c.push_k(0, &[9.0, 10.0]);
    c.push_k(1, &[11.0, 12.0]);
    c.push_v(0, &[0.5, 0.5]);
    c.push_v(1, &[0.25, 0.25]);
    c.increment_seq_len();
    assert_eq!(c.k_slice(0), &[1.0, 2.0, 9.0, 10.0]);
    assert_eq!(c.k_slice(1), &[3.0, 4.0, 11.0, 12.0]);
    assert_eq!(c.v_slice(1), &[7.0, 8.0, 0.25, 0.25]);
}

#[test]
fn arena_layout_is_head_position_dim() {
    let mut c: LayerKVCache<u32> = LayerKVCache::new(2, 2, 3, 0);
    c.push_k(1, &[7, 8]);
    assert_eq!(c.k_data, vec![0, 0, 0, 0, 0, 0, 7, 8, 0, 0, 0, 0]);
    c.increment_seq_len();
    c.push_k(0, &[5, 6]);
    assert_eq!(c.k_data, vec![0, 0, 5, 6, 0, 0, 7, 8, 0, 0, 0, 0]);
    assert_eq!(c.v_data, vec![0; 12]);
}

#[test]
fn increment_stops_at_capacity() {
    let mut c: LayerKVCache<f32> = LayerKVCache::new(1, 1, 2, 0.0);
    c.increment_seq_len();
    c.increment_seq_len();
    c.increment_seq_len();
    assert_eq!(c.seq_len(), 2);
}

#[test]
fn clear_forgets_positions_but_keeps_the_arena() {
    let mut c: LayerKVCache<f32> = LayerKVCache::new(1, 2, 2, 0.0);
    c.push_k(0, &[1.0, 2.0]);
    c.push_v(0, &[3.0, 4.0]);
    c.increment_seq_len();
    let k_before = c.k_data.clone();
    c.clear();
    assert_eq!(c.seq_len(), 0);
    assert!(c.k_slice(0).is_empty());
    assert!(c.v_slice(0).is_empty());
    assert_eq!(c.k_data, k_before);
    c.push_k(0, &[9.0, 9.0]);
    c.push_v(0, &[8.0, 8.0]);
    c.increment_seq_len();
    assert_eq!(c.k_slice(0), &[9.0, 9.0]);
}

#[test]
fn model_cache_has_one_cache_per_layer() {
    let mut kv: KVCache<f32> = KVCache::new(3, 2, 4, 8, 0.0);
    assert_eq!(kv.layers.len(), 3);
    assert_eq!(kv.layers[2].k_data.len(), 64);
    kv.layers[1].increment_seq_len();
    kv.layers[2].increment_seq_len();
    kv.clear();
    assert!(kv.layers.iter().all(|l| l.seq_len() == 0));
}

#[test]
fn gpt2_small_cache_geometry() {
    let kv: KVCache<f32> = KVCache::new(12, 12, 64, 1024, 0.0);
    assert_eq!(kv.layers.len(), 12);
    assert_eq!(kv.layers[0].k_data.len(), 12 * 1024 * 64);
}

#[test]
fn appending_projections_extends_every_head() {
    // two heads of width 2, so rows are 4 wide: [h0 h0 h1 h1]
    let mut c: LayerKVCache<i32> = LayerKVCache::new(2, 2, 4, 0);
    let k = vec![1, 2, 3, 4, 5, 6, 7, 8];
    let v = vec![-1, -2, -3, -4, -5, -6, -7, -8];
    append_projections(&mut c, &k, &v, 2, 4);
    assert_eq!(c.seq_len(), 2);
    assert_eq!(c.k_slice(0), &[1, 2, 5, 6]);
    assert_eq!(c.k_slice(1), &[3, 4, 7, 8]);
    assert_eq!(c.v_slice(1), &[-3, -4, -7, -8]);
    // one more token (decode step)
    append_projections(&mut c, &vec![9, 10, 11, 12], &vec![0, 0, 0, 0], 1, 4);
    assert_eq!(c.seq_len(), 3);
    assert_eq!(c.k_slice(0), &[1, 2, 5, 6, 9, 10]);
    assert_eq!(c.k_slice(1), &[3, 4, 7, 8, 11, 12]);
}
