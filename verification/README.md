# tiny_llm

A tiny character-level transformer language model.

- `src/` is the verified library:
  - `tokenizer`: builds a vocabulary from a corpus (characters numbered from 1
    in the order of their first occurrence), encodes text to ids and decodes
    ids to text; decoding undoes encoding and the reverse.
  - `tensors`: a four-dimensional tensor generic over its element type, with
    dense layouts, the shape of a matrix product, embedding lookup, transposition,
    the causal mask of attention and the extraction of the last token's logits.
- `app/` is the program: reading the corpus, the `f32` arithmetic of the model
  (matrix products, softmax, layer normalisation, activations), random weights
  and sampling.
- `tests/` runs the library on concrete values.
