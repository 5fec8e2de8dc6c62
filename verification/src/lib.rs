//! The verified core of a multilateration server.

pub mod altitude;
pub mod beacons;
pub mod clock_sync;
pub mod cluster;
pub mod connection;
pub mod coordinates;
pub mod cpr;
pub mod fixed;
pub mod frames;
pub mod json;
pub mod messages;
pub mod modes;
pub mod options;
pub mod protocol;
pub mod receiver;
pub mod sbs;
pub mod scalar;
pub mod server;
pub mod sets;
pub mod table;
pub mod tdoa_solver;
pub mod text;
pub mod track;
pub mod tracker;
pub mod utc;
pub mod zlib_transport;
