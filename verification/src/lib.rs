//! Core of a hidden-parameter scanner: a binary-search differential probing
//! engine. Given a dictionary of candidate parameter names, it decides which
//! names make the target's response differ from a baseline. Probing itself is
//! I/O and is performed by a driver; the engine is a state machine that hands
//! the driver probe requests and consumes probe outcomes.

pub mod bisect;
pub mod data;
pub mod decimal;
pub mod laws;
pub mod ledger;
pub mod names;
pub mod scan;
