use inference_core::attention::{append_projections, position_ids};
use inference_core::generation::GenerationState;
use inference_core::kv_cache::LayerKVCache;

#[test]
fn prefill_feeds_the_whole_prompt() {
    let g = GenerationState::new(&[464, 3797, 3332], 30);
    assert_eq!(g.input_tokens, vec![464, 3797, 3332]);
    assert_eq!(g.context, vec![464, 3797, 3332]);
    assert_eq!(g.steps, 0);
    assert!(!g.is_done());
    assert_eq!(g.last_logits_range(50257), (2 * 50257, 3 * 50257));
}

#[test]
fn decode_feeds_only_the_newest_token() {
    let mut g = GenerationState::new(&[1, 2, 3], 5);
    g.record_token(42, true);
    assert_eq!(g.input_tokens, vec![42]);
    assert_eq!(g.context, vec![1, 2, 3, 42]);
    assert_eq!(g.last_logits_range(10), (0, 10));
    g.record_token(7, true);
    assert_eq!(g.input_tokens, vec![7]);
    assert_eq!(g.context, vec![1, 2, 3, 42, 7]);
    assert_eq!(g.steps, 2);
}

#[test]
fn stops_after_max_tokens() {
    let mut g = GenerationState::new(&[1], 2);
    g.record_token(5, true);
    assert!(!g.is_done());
    g.record_token(6, true);
    assert!(g.is_done());
    assert_eq!(g.context, vec![1, 5, 6]);
}

#[test]
fn callback_can_stop_early() {
    let mut g = GenerationState::new(&[1, 2], 10);
    g.record_token(9, false);
    assert!(g.is_done());
    assert!(g.stopped);
    assert_eq!(g.context, vec![1, 2, 9]);
    assert_eq!(g.input_tokens, vec![1, 2]);
}

#[test]
fn zero_max_tokens_generates_nothing() {
    let g = GenerationState::new(&[1, 2], 0);
    assert!(g.is_done());
}

#[test]
fn fed_tokens_get_their_context_index_as_position() {
    let mut cache: LayerKVCache<f32> = LayerKVCache::new(1, 1, 16, 0.0);
    let mut g = GenerationState::new(&[11, 12, 13], 4);
    let mut step = 0.0f32;
    while !g.is_done() {
        let n = g.input_tokens.len();
        let positions = position_ids(cache.seq_len(), n);
        for (i, &p) in positions.iter().enumerate() {
            assert_eq!(g.context[p], g.input_tokens[i]);
        }
        let proj = vec![step; n];
        append_projections(&mut cache, &proj, &proj, n, 1);
        assert_eq!(cache.seq_len(), g.context.len());
        step += 1.0;
        g.record_token(100 + g.steps, true);
        assert_eq!(cache.seq_len(), g.context.len() - g.input_tokens.len());
    }
    assert_eq!(g.context, vec![11, 12, 13, 100, 101, 102, 103]);
}
