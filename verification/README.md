# needle2

A verified reader for the Needle 2 `.cact` model format and the integer-level
parts of Needle 2 inference, written in Verus.

`src/` is the verified library:

- `model`: the container (header, codebook, tensor directory, embedded
  tokenizer) with an exact specification of when a file is accepted and what it
  yields;
- `tensor`: tensor payloads, element counts, half-to-single widening on bit
  patterns, the layout and code indices of codebook-quantized tensors, and
  the sign pattern of their Walsh–Hadamard rotation;
- `tokenizer`: the tokenizer blob, byte-pair merging, marker matching,
  encoding and decoding;
- `round_trip`: decoding the ids that encoding gives a text yields the text
  back, and the conditions under which it does;
- `engram`: hashed n-gram slot indices, which read only the current and
  earlier tokens;
- `tools`: the tool-routing prompt and the extraction of tool calls from
  generated text (JSON parsing through `serde_json`);
- `blocks`: regrouping attention blocks between token-major and head-major
  order;
- `greedy`: greedy decoding as a state machine driven by next-token logits;
- `float_bits`, `le_bytes`, `text`, `error`: shared helpers.

`app/` holds what stays outside: the floating-point kernels (norms,
attention, the mixing stack, dequantization), the generation loop that feeds
logits to the verified decoder, and the browser entry point.
