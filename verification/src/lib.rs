//! Proofs for light clients of a DAG ledger.
//!
//! A light client holds no copy of the ledger. What it is told about units
//! it has to be able to check against the little that it trusts: a witness
//! list, and the balls of units it already knows to be stable. This library
//! works out what to send it: the units that concern it, and for each of
//! them the chain of balls that ties it to the trusted part of the main
//! chain. It decides nothing about stability and checks no hash; it reads
//! a [`ledger::Ledger`] and tells what is in it.
//!
//! * [`joint`] and [`ledger`] hold the data: units, joints, and the picture
//!   of the ledger that everything else reads.
//! * [`graph`] answers whether one unit lies in the history of another.
//! * [`shared_address`] closes a set of addresses over their co-signers.
//! * [`proof_chain`] builds proof chains down the main chain and off it.
//! * [`link_proof`] finds the joints between two units.
//! * [`light`] answers a request for history.
//! * [`config`], [`my_witness`] and [`wallet`] hold what a node is set up
//!   with and what a wallet says to its hub.
//!
//! Every function comes with a contract over the mathematical reading of
//! its arguments, and is proved to keep it.

pub mod config;
pub mod error;
pub mod graph;
pub mod joint;
pub mod ledger;
pub mod light;
pub mod link_proof;
pub mod my_witness;
pub mod proof_chain;
pub mod shared_address;
pub mod text;
pub mod wallet;
