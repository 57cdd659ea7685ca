# inference_core

The integer and data-movement core of a small GPT-2 inference engine, written
in Verus and verified:

- `shape` — element counts of shapes, tile ranges of blocked loops.
- `tensor` — flat row-major tensors generic over their element type:
  element access, transpose, reshape, views, column blocks, fused
  query/key/value splitting, embedding lookup, the scratch workspace.
- `kv_cache` — the per-layer key/value arena laid out `[head][pos][dim]`.
- `attention` — per-head splitting and merging, writing new tokens to the
  cache, the causal mask, position ids.
- `generation` — the decisions of the prefill/decode generation loop.
- `model` — the SafeTensors container: header bounds, UTF-8 header text,
  per-tensor checks and little-endian decoding.
- `profiler` — profiling totals and the stack of timed regions.
- `backend` — backend names and the startup choice.

`app/` holds the floating-point arithmetic (matrix products, softmax, layer
norm, GELU, sampling), the NEON and Metal backends, file and JSON reading, and
the command-line program. `extras/matmul.metal` is the GPU kernel the Metal
backend compiles.
