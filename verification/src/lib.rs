//! Typed access to time-series responses of a market-data service.

pub mod crypto;
pub mod custom;
pub mod error;
pub mod text;
pub mod vec_trait;
