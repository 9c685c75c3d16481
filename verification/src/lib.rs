pub mod coloring;
pub mod db;
pub mod graph;
pub mod import;
pub mod infusion;
pub mod laws;
pub mod order;
pub mod request;
pub mod solver;
pub mod soundness;
pub mod text;
