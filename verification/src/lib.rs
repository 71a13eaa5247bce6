//! Core of a mock service for serial-attached devices.

pub mod bytes;
pub mod capture;
pub mod cli;
pub mod config;
pub mod framing;
pub mod http;
pub mod json;
pub mod matching;
pub mod outside;
pub mod port;
pub mod reading;
pub mod reload;
pub mod server;
pub mod table;
pub mod text;
pub mod transport;
