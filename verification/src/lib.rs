use vstd::prelude::*;

pub mod model;
pub mod text;
pub mod byte_level;
pub mod json;
pub mod number;
pub mod bpe;
pub mod vocab;
pub mod tokenizer;
pub mod tokenizer_files;
pub mod roundtrip;
pub mod tensor;
pub mod attention;
pub mod safetensors;
pub mod speculative;

verus! {

} // verus!
