//! Conway's Game of Life on a toroidal board: positions with wrap-around
//! neighbourhoods, a sparse index of live cells, and the generation step.

pub mod board;
pub mod rules;
pub mod simulation;
