//! Novelty: opening repertoire logic for Lichess and Chess.com profiles.
pub mod analysis_session;
pub mod board;
pub mod chess;
pub mod engine_catalog;
pub mod engine_shapes;
pub mod engine_state;
pub mod engine_uci;
pub mod engines;
pub mod fetch;
pub mod graph;
pub mod history;
pub mod lichess;
pub mod loading;
pub mod move_tree;
pub mod opening_book;
pub mod opening_explorer;
pub mod panel_tabs;
pub mod profiles;
pub mod repertoire;
pub mod repertoire_import;
pub mod session;
pub mod tab;
pub mod performance;
pub mod pgn;
pub mod pgn_tree;
pub mod pgn_round_trip;
pub mod text;
pub mod uci_control;
