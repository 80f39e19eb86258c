//! Bollinger Bands over fixed-point price series.
//!
//! Prices are carried as signed integers in a caller-chosen fixed-point
//! scale (for example thousandths of a currency unit); every derived
//! quantity (moving average, standard deviation, band edges) is expressed
//! in the same scale. The band multiplier is carried in thousandths, so
//! the conventional multiplier of 2.0 is written 2000.

pub mod stats;
pub mod bollingerbands;
