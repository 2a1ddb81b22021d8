//! Dense, row-major, rectangular integer matrices with verified
//! construction, transposition, elementwise addition, matrix
//! multiplication, column means, and a tab/newline text format.

mod codec;
mod error;
mod matrix;
mod num_text;

pub use codec::format_means;
pub use error::Error;
pub use matrix::Matrix;
