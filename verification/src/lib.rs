//! Adversarial search for two-player, perfect-information, zero-sum games:
//! rules engines with reversible moves, and alpha-beta and Monte Carlo
//! engines that work on any of them.

pub mod game;
pub mod tictactoe;
pub mod clock;
pub mod minimax;
pub mod ai;
pub mod minimax_simple;
pub mod sorting;
pub mod tablut;
pub mod tablut_with_draw;
pub mod heuristic;
pub mod tablut_heuristics;
pub mod test_heuristic;
pub mod minimax_tablut;
pub mod transposition;
pub mod minimax_hard;
pub mod mancala;
pub mod othello;
pub mod default_heuristic;
pub mod minimax_final;
pub mod random;
pub mod playout;
pub mod random_agent;
pub mod monte_carlo_total;
pub mod monte_carlo_tree_search;
pub mod monte_carlo;
pub mod mcts_heuristic;
pub mod ucb;
