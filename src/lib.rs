//! Side-by-side rendering of diff hunks: panel geometry, detection of
//! over-long lines, wrapping of styled lines, re-alignment of wrapped
//! minus/plus blocks and composition of fixed-width panel rows.

pub mod minusplus;
pub mod panel;
pub mod segmentation;
pub mod side_by_side;
pub mod wrapping;
