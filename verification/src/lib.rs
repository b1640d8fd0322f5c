//! Pure domain logic for a network monitor, with its behaviour stated and proved.
//!
//! Everything here is synchronous and reads no clock: time arrives as a value.

pub mod address;
pub mod asn;
pub mod backoff;
pub mod diagnosis;
pub mod edge;
pub mod endpoint;
pub mod error;
pub mod flow;
pub mod forgery;
pub mod health;
pub mod history;
pub mod path;
pub mod platform;
pub mod pool;
pub mod ring;
pub mod sample;
pub mod scheduler;
pub mod series;
pub mod settle;
pub mod stats;
pub mod text;
pub mod spelling;
pub mod status;
pub mod target;
pub mod time;

pub use error::Error;
