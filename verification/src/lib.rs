//! Offline tooling for the Paparazzi UAS PPRZ v1 transport, message
//! dictionaries and airframe configuration files.
pub mod config;
pub mod messages;
pub mod protocol;
pub mod sim;
pub mod text;
pub mod xml;
