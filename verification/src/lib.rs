//! Verified core of a teaching kernel's process and synchronisation system calls.
pub mod action;
pub mod sem_deadlock;
pub mod wait_graph;
pub mod slots;
pub mod sync;
pub mod deadlock;
pub mod memory;
pub mod process;
pub mod banker;
