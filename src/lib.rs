pub mod query;
pub mod table;
pub mod algebra;
pub mod join_symmetry;
pub mod hypergraph;
pub mod join_tree;
pub mod database;
pub mod evaluator;
pub mod parser;
pub mod engine;
