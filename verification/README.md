# Aegis

The verified core of Aegis, an inference engine for 1.58-bit ternary
(BitNet-style) language models.

`src/` is a Verus library.  Its functions carry contracts that Verus
proves, except a few small trusted wrappers (marked `external_body`) that
call the standard library or the `tokenizers` crate; their doc comments
say what their contracts assume of the outside code:

- `kv_cache` — the paged KV-cache pool (a bitmap allocator of pages) and
  where a token's keys and values live in its slab.
- `scheduler` — continuous batching: admission of waiting sequences, the
  step cleanup (finishing, growing, preempting), the page-ownership
  invariant and the conservation of sequences.
- `engine` — what one forward step does to the batch, and which tokens
  reach the caller.
- `gguf`, `gguf_parser` — two GGUF readers over a file's bytes, the Q8_0 to
  dual-bitmask weight conversion, the weight loader and the validator's
  measurements.
- `simd`, `ternary` — the ternary dot-product kernels and the 2-bit packed
  tensor.
- `tokenizer` — the whitespace vocabulary tokenizer and the GGUF BPE
  tokenizer: vocabulary extraction, merge recovery from scores and the
  token-to-id map, with the `tokenizers` crate doing the tokenizing.
- `mesh` — the orchestrating node's ledger of dispatched tasks.

`app/` is the program around the library: file mapping, the
floating-point forward pass, the C interface, the HTTP server, the
command-line tools and the peer-to-peer mesh node.

`tests/` exercises the library on concrete inputs.
