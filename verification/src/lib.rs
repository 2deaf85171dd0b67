//! Parser combinators over string slices, with two small grammars built from them.

pub mod combinators;
pub mod laws;
pub mod parse;
pub mod re_compile;
pub mod std_specs;
pub mod text;
pub mod util;
pub mod xml;
