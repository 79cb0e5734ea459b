//! Moving text and files between the devices of a local network.

pub mod chat;
pub mod client;
pub mod discovery;
pub mod engine;
pub mod ids;
pub mod net;
pub mod page;
pub mod panels;
pub mod paths;
pub mod proto;
pub mod seqs;
pub mod server;
pub mod startup;
pub mod store;
pub mod text;
pub mod textmap;
pub mod tray;
pub mod ui;
pub mod web;
