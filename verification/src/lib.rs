//! A verified core for an interactively edited signal circuit: a directed
//! acyclic graph of device handles and polarity-tagged wires, with a cached
//! topological order and reachability relation, and a tick evaluator that
//! propagates boolean signals through the circuit in dependency order.
#![verifier::loop_isolation(false)]

pub mod dag;
pub mod device;
pub mod eval;
pub mod reach;
