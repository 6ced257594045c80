//! Fusion of position reports from several telemetry feeds into one
//! canonical position, with an append-only log of accepted samples.
//!
//! Positions are fixed-point: latitude and longitude in millionths of a
//! degree, altitude in hundredths of a metre, time in unix seconds.

pub mod aprs;
pub mod coords;
pub mod fetch;
pub mod iridium;
pub mod json;
pub mod log;
pub mod number;
pub mod outlier;
pub mod position_time;
pub mod sondehub;
pub mod sort;
pub mod text;
pub mod tracker;
pub mod tracking_type;
