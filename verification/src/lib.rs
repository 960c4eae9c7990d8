//! Verified core of the signals gateway: window bookkeeping, the alignment of
//! signal series into argument rows, the split of a price buffer into its
//! warm-up part and its working tail, and the assembly of the arguments that a
//! ready signal receives at the last point of a series.

pub mod columns;
pub mod names;
pub mod series;
pub mod settings;
pub mod window;
