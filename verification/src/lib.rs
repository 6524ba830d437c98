//! Two libraries in one: what a Python distribution consists of, and the client's side of the
//! Time-Stamp Protocol (RFC 3161).
//!
//! A distribution is described by [`dist`], which rests on [`setup`] and [`config`] for CPython's
//! build files and on [`paths`], [`text`], [`order`] and [`sorted_map`].
//!
//! Time stamps are requested and checked by [`time_stamp_protocol`]. The messages are in [`rfc3161`]
//! and [`rfc5652`], and their encoding in [`der`] and [`integer`]. How they are written is stated once more
//! in [`forms`], apart from how they are read.

pub mod config;
pub mod der;
pub mod dist;
pub mod forms;
pub mod integer;
pub mod order;
pub mod paths;
pub mod rfc3161;
pub mod rfc5652;
pub mod setup;
pub mod sorted_map;
pub mod text;
pub mod time_stamp_protocol;
