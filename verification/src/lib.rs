//! A tiny character-level language model: a vocabulary built from a text
//! corpus, the encoding and decoding of text with it, and the layout and
//! data-movement parts of the tensor code that the model runs on.
pub mod tokenizer;
pub mod tensors;
