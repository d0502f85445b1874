//! Verified core of a poker trainer.

pub mod analyze;
pub mod bits;
pub mod board;
pub mod browse;
pub mod corpus;
pub mod deck;
pub mod equity;
pub mod eval;
pub mod export;
pub mod fnv;
pub mod game;
pub mod generate;
pub mod ground;
pub mod iso;
pub mod order;
pub mod postflop_table;
pub mod preflop;
pub mod range;
pub mod report;
pub mod serve;
pub mod solution;
pub mod solve;
pub mod stats;
pub mod table;
pub mod text;
pub mod textmap;
pub mod texture;
pub mod trainer;
pub mod tree;
pub mod web;
