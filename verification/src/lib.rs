//! A verified text layout core for flashcard rendering.
//!
//! The pipeline turns a lightly marked-up string into width-bounded,
//! vertically centered lines: `tokenizer` reads the string into word, tag
//! and space tokens; `hyphen` cuts over-long words into hyphenated
//! fragments; `wrap` packs tokens greedily into lines, reopening and
//! closing markup tags that span a line break and failing on unbalanced
//! markup; `serialize` turns each line back into markup text; `layout`
//! composes the pipeline, computes the vertical centering offsets and
//! splits a line into underlined and plain runs. `pdf_name` holds the one
//! file-name rule the surrounding program needs.

pub mod tokens;
pub mod tokenizer;
pub mod serialize;
pub mod hyphen;
pub mod wrap;
pub mod layout;
pub mod pdf_name;
