# unltd-inference

The decision-making core of a disk-first inference runtime for quantised language models, verified
with Verus, and a command line around it.

One rule runs through the library: refuse rather than guess. A field that is missing, a size that
does not add up or a type that is not known is an error with a message, never a default. The
contracts say which answer, or which refusal, comes back for an input. Where a model or float
arithmetic handed in by the caller has a say, they fix what it is handed, and what becomes of each
of its answers.

## Layout

- `src/gguf`: the GGUF container. `parse` gives back the one index that the bytes spell out, or the
  first refusal; `laws` says what holds of every accepted file.
- `src/weights.rs`, `src/forward.rs`, `src/layers.rs`, `src/qwen35.rs`: the weights of a file, its
  configuration, and the check of every tensor of every layer.
- `src/wiring.rs`, `src/session.rs`, `src/engine`: how a layer is wired, what is kept between
  tokens, and one token through all layers.
- `src/kernels`, `src/packed.rs`, `src/quants.rs`: which numbers are combined with which, and in
  which order. The float arithmetic itself is the caller's.
- `src/tokenizer`: byte-level BPE, with `encode` and `decode` and the laws that tie them together.
- `src/greedy.rs`: choosing tokens.
- `src/budget.rs`, `src/plan.rs`: sizes, budgets, and the memory of a run.
- `src/report`, `src/text.rs`, `src/units.rs`, `src/order.rs`: what commands read and show.
- `app`: the command line, memory maps, threads and float arithmetic.
- `tests`: the library at work, with the outside crates linked.
