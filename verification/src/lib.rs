//! High-Frequency Chess: chess with a fixed budget of core cycles for each move.
//!
//! The rules of the game stand on a ghost position (`position`), which the board with its
//! bitboards and mailbox represents (`board`). On top of them are the notations, the
//! engines, the arbiter of a game, and the books of a match.

pub mod arbiter;
pub mod bits;
pub mod board;
pub mod board_laws;
pub mod book;
pub mod book_laws;
pub mod budget;
pub mod cli;
pub mod contest;
pub mod effort;
pub mod evaluation;
pub mod evaluation_laws;
pub mod example;
pub mod failing_laws;
pub mod failure;
pub mod failure_laws;
pub mod fen;
pub mod fen_laws;
pub mod fen_text;
pub mod field_laws;
pub mod game;
pub mod geometry;
pub mod legality;
pub mod make_laws;
pub mod makemove;
pub mod message_laws;
pub mod mixing;
pub mod movegen;
pub mod movegen_laws;
pub mod movement_laws;
pub mod moves;
pub mod native;
pub mod notation;
pub mod notation_laws;
pub mod order_laws;
pub mod ordering;
pub mod pacing;
pub mod plan;
pub mod play_laws;
pub mod position;
pub mod random;
pub mod reading_laws;
pub mod record_laws;
pub mod referee_laws;
pub mod reference;
pub mod reference_laws;
pub mod repetition;
pub mod results;
pub mod results_laws;
pub mod sandbox;
pub mod sandbox_laws;
pub mod search;
pub mod search_laws;
pub mod searcher;
pub mod stats;
pub mod symmetry_laws;
pub mod tables;
pub mod tally;
pub mod text;
pub mod text_laws;
pub mod trial;
pub mod verdict_laws;
pub mod view_laws;
pub mod writing_laws;
pub mod zobrist;
pub mod zobrist_laws;
