//! Per-test coverage mapping: which tests cover which line of code.

pub mod calc;
pub mod text;
pub mod sorted;
pub mod lcov;
pub mod strmap;
pub mod pattern;
pub mod database;
pub mod classify;
pub mod showcase;
pub mod util;
pub mod highlight;
pub mod sample;
pub mod reverse;
pub mod html;
pub mod llvm;
pub mod run;
pub mod discovery;
pub mod cli;
pub mod config;
pub mod collect;
