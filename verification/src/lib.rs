//! A small DNS relay: it answers the questions listed in a route table with
//! the configured records and hands every other query on to an upstream
//! server, routing each upstream answer back to the client that asked.
//!
//! This crate holds the message handling: the wire format of names, questions
//! and records, the route table, and the decisions the relay takes for each
//! datagram. Sockets, channels and the configuration file are left to the
//! program that drives it.

pub mod config;
pub mod error;
pub mod handle;
pub mod models;
pub mod msg;
pub mod route;
pub mod tasks;
pub mod utils;
