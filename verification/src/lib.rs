//! A small personal-finance helper library.
//!
//! The heart of the crate is the paid-time-off (PTO) hours engine in
//! [`pto_logic`]: it counts Monday-through-Friday workdays in an inclusive
//! calendar-date range at eight hours per workday and deducts the hours of
//! holidays that fall inside the range, using exact decimal arithmetic
//! throughout. Supporting modules supply the calendar-date and decimal
//! number types the engine works on, plus the small pieces of configuration
//! and screen-layout glue the surrounding application shares.

pub mod common_layout;
pub mod configuration_manager;
pub mod date;
pub mod decimal;
pub mod digits;
pub mod models;
pub mod pto_logic;
