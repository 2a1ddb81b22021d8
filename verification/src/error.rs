use vstd::prelude::*;

verus! {

/// The two failure kinds of this library.
///
/// `ParseError` reports a token of the input text that is not a decimal
/// integer representable by the element type; it carries that token.
///
/// `DimensionError` reports a structural size mismatch between two shapes
/// or lengths, as a pair of row/column counts. Each function that returns
/// it documents what the four fields hold there.
#[derive(Debug)]
pub enum Error {
    ParseError { token: String },
    DimensionError {
        left_rows: usize,
        left_cols: usize,
        right_rows: usize,
        right_cols: usize,
    },
}

} // verus!
