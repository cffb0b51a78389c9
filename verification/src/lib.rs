//! Orchestration core of a command-line tool for the TimeFlip2, a
//! twelve-sided activity tracker that talks Bluetooth Low Energy.
//!
//! The crate holds the decisions of the tool and none of its input or
//! output: how a cached log of entries is reconciled with what the device
//! reports, how the live notification sequence is formed and ended, which
//! commands need a configuration, and how the race between operator
//! interrupt, connection task and command is settled. A driver performs the
//! device calls and the file accesses and hands their results in as plain
//! values.

pub mod calendar;
pub mod command;
pub mod config;
pub mod entry;
pub mod history;
pub mod notify;
pub mod run_loop;
pub mod text;
