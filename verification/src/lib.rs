//! Plots of labelled point series on a grid of characters: points, box plots,
//! empirical cumulative distributions and histograms.
//!
//! A value is a whole number of a unit that the caller chooses, a thousandth for
//! one. Whatever is computed from values (an axis bound, a quartile, a cumulative
//! fraction, a bin boundary) is an exact fraction, and a cell of the canvas is found
//! by exact rounding. A coordinate that is missing is `None`.

pub mod canvas;
pub mod cdf;
pub mod dataset;
pub mod error;
pub mod histogram;
pub mod laws;
pub mod mapper;
pub mod quantiles;
pub mod ratio;
pub mod samples;
pub mod table;
pub mod text;

pub use crate::canvas::Canvas;
pub use crate::cdf::CDF;
pub use crate::dataset::DataSet;
pub use crate::dataset::PlotKind;
pub use crate::error::CanvasError;
pub use crate::error::DatasetError;
pub use crate::histogram::Histogram;
pub use crate::quantiles::Quantiles;
pub use crate::ratio::Ratio;
