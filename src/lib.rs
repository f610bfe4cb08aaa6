//! A parallel search of a directory tree for names that match a glob or an exact query.
//!
//! `pattern` matches names; `scan` turns one directory's listing into matches and
//! subdirectories; `frontier` is the state that all workers share under one lock;
//! `config` and `cli` set a search up; `recursive` backs the single-threaded searcher;
//! `laws` and `traversal` state and prove how these pieces fit together.
pub mod cli;
pub mod config;
pub mod frontier;
pub mod laws;
pub mod pattern;
pub mod recursive;
pub mod scan;
pub mod traversal;
