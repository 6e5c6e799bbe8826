//! Centrality metrics over a directed communication graph.
//!
//! A [`graph::EdgeWeightedDigraph`] counts interactions between a fixed set of
//! nodes. From it the crate derives degree centrality ([`degree`]) and a
//! breadth-first reachability tally ([`reach`]), and ranks the resulting
//! `(node, score)` lists ([`ranking`]). The graph can be filled edge by edge
//! or from lines of text ([`ingest`]).
//!
//! Contracts are stated over the weight matrix of a graph, a `Seq<Seq<nat>>`
//! whose model is in [`matrix`].

pub mod degree;
pub mod error;
pub mod graph;
pub mod ingest;
pub mod matrix;
pub mod ranking;
pub mod reach;
