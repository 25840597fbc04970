//! The Abelian sandpile: a grid of grain counts in which every cell that
//! holds four grains or more topples, handing grains to its four neighbours.

pub mod model;
pub mod grid;
pub mod random;
pub mod sandpile;
pub mod sweep;
pub mod cascade;
pub mod laws;
pub mod output;
