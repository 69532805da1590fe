//! An embedded retrieval engine over a graph of nodes with embeddings.
//!
//! A node has content, an embedding, a list of neighbours and usage figures.
//! A query is answered by blending four signals: the similarity of the
//! embeddings, the connectivity in the graph, the decay of the usage
//! figures, and the membership in clusters.
//!
//! Every number of this crate is an integer, and every result is exact:
//! - an embedding is a vector of `i16` components;
//! - a score is a fixed-point number in units of `1 / SCALE`, and each
//!   contract says how it is rounded;
//! - the time is handed in, in seconds since the epoch.
//!
//! The modules, leaves first: [`wide`] and [`root`] compute floors of roots
//! of ratios; [`topk`] picks the best of a list of scores; [`search`] holds
//! the cosine similarity and the scan of a corpus, [`index`] an approximate
//! index; [`bio`] the life score; [`cluster`] the clustering engine;
//! [`ranking`] the ranking pipeline; [`db`] the arena of nodes.

pub mod bio;
pub mod cluster;
pub mod db;
pub mod export;
pub mod fixed;
pub mod index;
pub mod ranking;
pub mod root;
pub mod search;
pub mod storage;
pub mod topk;
pub mod wide;
