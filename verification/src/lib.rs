pub mod apply;
pub mod parse;
pub mod vuint;

pub use apply::{apply_patch, apply_patch_with, xor_slice, Options};
pub use parse::{parse_patch, Error, UpsPatch, UpsSection, UpsSectionIter};
pub use vuint::read_vuint;
