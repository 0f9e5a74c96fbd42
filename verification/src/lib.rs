//! Task-precedence graphs for multiprocessor scheduling: the graph model, the
//! interval-order test, two priority-list strategies and greedy list
//! scheduling, each with a machine-checked contract.

pub mod algorithm;
pub mod closure;
pub mod coffman_graham;
pub mod command;
pub mod counting;
pub mod decimal;
pub mod graph;
pub mod interval;
pub mod msf;
pub mod nodeset;
pub mod parser;
pub mod relation;
pub mod schedule;
pub mod scheduler;
pub mod text;
