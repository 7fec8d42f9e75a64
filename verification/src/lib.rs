//! Model-vs-model evaluation for LLMs.
//!
//! The same tasks are run against several models, the replies are scored
//! against expected answers, and pairs of replies are put before a judge model
//! in both orders. This crate holds the rules of such a run: what is asked, how
//! replies are read, how pairs are resolved, counted and rated, and how a run
//! is reported. Network, files and the command line are left to its callers.
pub mod bootstrap;
pub mod cli;
pub mod compare;
pub mod config;
pub mod error;
pub mod evaluate;
pub mod event;
pub mod exec;
pub mod execute;
pub mod graph;
pub mod html;
pub mod judge;
pub mod pairs;
pub mod persist;
pub mod progress;
pub mod provider;
pub mod rating;
pub mod report;
pub mod retry;
pub mod roster;
pub mod slots;
pub mod stats;
pub mod task;
pub mod text;
pub mod web;
