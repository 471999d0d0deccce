//! Remote procedure calls from the simulation.

pub mod py_calls;
