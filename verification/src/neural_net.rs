//! The genome and everything that is done to it.

pub mod activation_functions;
pub mod building;
pub mod cloning;
pub mod connections;
pub mod crossing;
pub mod crossover;
pub mod cycles;
pub mod editing;
pub mod evaluation;
pub mod generations;
pub mod genes;
pub mod genome_lemmas;
pub mod ids;
pub mod invariants;
pub mod kinship;
pub mod laws;
pub mod layering;
pub mod layers;
pub mod mutation;
pub mod nets;
pub mod nodes;
pub mod ordering;
pub mod populations;
