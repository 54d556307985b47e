//! Evolving small feed-forward networks that steer a snake on a grid.
//!
//! The [`neural_net`] module holds the genome: its genes, its layering and
//! evaluation order, mutation, crossover and the generational population.
//! [`snake_game`] is the grid game the networks play, and [`nn_plays_snake`]
//! holds the era schedule that drives a long run. [`chance`] and [`tables`]
//! are the only places where the library leans on code it does not verify.

pub mod chance;
pub mod neural_net;
pub mod nn_plays_snake;
pub mod snake_game;
pub mod tables;
