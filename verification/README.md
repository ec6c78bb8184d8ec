# llm_rs

A small LLM inference engine (GPT-2 and Llama / TinyLlama) whose
non-numeric core is verified with Verus.

## Layout

- `src/` — the verified library.
  - `text.rs`: characters, UTF-8, byte tokens `<0xNN>`, splitting and joining.
  - `json.rs`: JSON values (parsed by serde_json) and reading fields of them.
  - `number.rs`: reading a JSON number as an integer id.
  - `byte_level.rs`: GPT-2's byte-level alphabet.
  - `bpe.rs`: the merge-rank table and greedy byte-pair merging.
  - `vocab.rs`: vocabularies, reverse vocabularies and merge lists.
  - `tokenizer.rs`: the GPT-2 and Llama tokenizers and their common trait.
  - `tokenizer_files.rs`: building the tokenizers from the text of their files.
  - `roundtrip.rs`: what decoding makes of an encoding.
  - `tensor.rs`: the row-major tensor layout (offsets, transpose, causal mask,
    row lookup).
  - `attention.rs`: splitting and joining attention heads, fused projections,
    appending rows.
  - `model.rs`: model family and the key/value cache (growing and cutting).
  - `safetensors.rs`: the `.safetensors` file layout.
  - `speculative.rs`: the acceptance rule of speculative decoding.
- `app/` — the command-line program: file reading, the float
  kernels (norms, softmax, matmul, attention scores), sampling and the
  generation loops.
- `tests/` — tests of the library.

## Running

```sh
llm-rs --model llama        # TinyLlama-1.1B (default)
llm-rs --model gpt2         # GPT-2-medium
llm-rs --model gpt2 -s      # GPT-2-medium with speculative decoding
llm-rs --prompt "The capital of France is" --tokens 50
```

Model files are read from `models/` (see `--weights`, `--tokenizer`,
`--vocab`, `--merges`).
