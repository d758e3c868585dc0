//! What a board view is told: position, last move, legal targets, arrows and the
//! evaluation bar.
use vstd::prelude::*;
use crate::chess::{Color, Key};
use crate::engine_uci::EvalDisplay;
use crate::fetch::PlayerColor;

verus! {

/// How an arrow is drawn: by how often a move was played (level 1 to 3), or by the rank of
/// an engine line (0 is the best).
#[derive(Clone, Copy, Debug, PartialEq, Eq, Structural)]
pub enum ArrowStyle {
    Frequency(u8),
    Engine(usize),
}

/// An arrow from one square to another.
#[derive(Clone, Copy, Debug, PartialEq, Eq, Structural)]
pub struct Arrow {
    pub orig: Key,
    pub dest: Key,
    pub style: ArrowStyle,
}

/// Side of the board the evaluation bar stands on.
#[derive(Clone, Copy, Debug, PartialEq, Eq, Structural)]
pub enum EvalBarPosition {
    Left,
    Right,
}

/// Changes to the evaluation bar; `None` leaves a setting as it is.
#[derive(Clone, Copy, Debug, PartialEq, Eq, Structural)]
pub struct EvalPatch {
    pub enabled: Option<bool>,
    pub position: Option<EvalBarPosition>,
    pub display: Option<Option<EvalDisplay>>,
}

/// Everything a board view is set to.
#[derive(Debug)]
pub struct BoardConfig {
    pub fen: String,
    pub orientation: Color,
    pub last_move: Option<(Key, Key)>,
    pub dests: Vec<(Key, Vec<Key>)>,
    pub show_dests: bool,
    pub shapes: Vec<Arrow>,
    pub eval: Option<EvalPatch>,
}

/// The board is seen from the side the player plays.
pub fn board_orientation(color: PlayerColor) -> (r: Color)
    ensures
        r == (match color {
            PlayerColor::White => Color::White,
            PlayerColor::Black => Color::Black,
        }),
{
    match color {
        PlayerColor::White => Color::White,
        PlayerColor::Black => Color::Black,
    }
}

} // verus!
