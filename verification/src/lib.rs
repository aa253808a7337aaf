//! Address-ordered relinking of split executables: image-wide COFF symbol identities,
//! function size records, and link contributions.
pub mod text;
pub mod order;
pub mod error;
pub mod obj;
pub mod naming;
pub mod duplicates;
pub mod coff_symbols;
pub mod outcome;
pub mod tokens;
pub mod zero_fill;
pub mod contribution;
pub mod gaps;
pub mod relink;
pub mod coff_table;
pub mod function_sizes;
pub mod laws;
