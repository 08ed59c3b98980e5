# engine_core

The decision logic of an LLM inference engine core, written in Verus and
proved against its contracts:

- `grammar`: a character-level JSON grammar (RFC 8259 syntax) for constrained
  decoding (`JsonGrammar`, `JsonObjectGrammar`), with laws on acceptance,
  rejection and the shape of the bracket stack.
- `tokenizer`: Qwen2 pre-tokenization (the pattern's alternatives tried in
  order), the GPT-2 byte alphabet, greedy BPE merging by rank, encoding and
  decoding; decoding what was encoded gives ASCII text back when each of its
  bytes is a token and no merge that fires on it leaves a symbol that is
  neither a token nor printable ASCII.
- `ngram_draft`: n-gram draft proposal from the token history.
- `speculative`: greedy verification of drafted tokens.
- `sampler`: the seedable xorshift generator and stop-sequence detection.
- `moe`: the LRU expert slot cache with balanced fetching (a reset cache
  behaves as a fresh one), the VRAM budget
  planner and prefill double buffer, and the host expert bank.
- `forward_driver`, `vram_accounting`, `pipeline`, `layer_double_buffer`,
  `streaming_forward_driver`, `dequant`, `forward_cpu`: decode-path selection,
  speculative, prefill and per-token position planning, memory accounting, and the data
  descriptions that the device code consumes.

`app/` holds what is not verified: floating-point numerics (dequantization,
the CPU reference forward pass, sampling, stochastic verification), timing
measurements, JSON profile files, and the printable error type.
