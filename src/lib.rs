//! A game engine for an 11x11 king's table board game, with two tree-search agents.
pub mod bits;
pub mod position;
pub mod piece;
pub mod moves;
pub mod board;
pub mod chance;
pub mod rules;
pub mod eval;
pub mod agent;
pub mod clock;
pub mod alpha_beta;
pub mod random_bot;
pub mod mcts;
pub mod arena;
pub mod move_generation;
pub mod text;
