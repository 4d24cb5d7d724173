//! Recovery of a Snapchat data export: the rules that decide what a run writes, where it
//! writes it, and what it may skip on the next run.
//!
//! Everything in this crate is a function of plain values. Reading directories, files, sqlite
//! and the terminal is the caller's work; what is done with what was read is decided here.

pub mod app;
pub mod calendar;
pub mod config;
pub mod env;
pub mod export;
pub mod order;
pub mod paths;
pub mod screens;
pub mod tab;
pub mod text;
