//! Lichess Opening Explorer: request state, move statistics and their labels.
use vstd::prelude::*;
use crate::graph::{details_view, empty_details, DetailsV, LastGame, PositionDetails};
use crate::text::{append_chars, append_str, dec, decimal, decimal_string, str_eq, string_of};

verus! {

broadcast use vstd::string::group_string_axioms;

pub const EXPLORER_URL: &'static str = "https://explorer.lichess.org/lichess";

/// One move of the explorer with the results of the games that played it.
#[derive(Clone, Debug)]
pub struct ExplorerMove {
    pub san: String,
    pub white: u32,
    pub black: u32,
    pub draws: u32,
}

/// What the explorer panel shows and whether a request is under way.
#[derive(Debug)]
pub struct ExplorerState {
    pub loading: bool,
    pub fen: String,
    pub moves: Vec<ExplorerMove>,
    pub error: Option<String>,
    pub request_id: u64,
}

pub struct ExplorerMoveV {
    pub san: Seq<char>,
    pub white: u32,
    pub black: u32,
    pub draws: u32,
}

pub open spec fn move_view(m: ExplorerMove) -> ExplorerMoveV {
    ExplorerMoveV { san: m.san@, white: m.white, black: m.black, draws: m.draws }
}

pub open spec fn moves_view(v: Seq<ExplorerMove>) -> Seq<ExplorerMoveV> {
    v.map_values(|m: ExplorerMove| move_view(m))
}

impl Default for ExplorerState {
    fn default() -> (r: Self)
        ensures
            !r.loading,
            r.fen@ == Seq::<char>::empty(),
            r.moves@.len() == 0,
            r.error is None,
            r.request_id == 0,
    {
        ExplorerState { loading: false, fen: String::new(), moves: Vec::new(), error: None, request_id: 0 }
    }
}

impl ExplorerState {
    /// A request is due when none is under way and the shown position is another one.
    pub fn needs_fetch(&self, fen: &str) -> (r: bool)
        ensures
            r == (!self.loading && self.fen@ != fen@),
    {
        !self.loading && !str_eq(self.fen.as_str(), fen)
    }

    /// Marks request `request_id` as under way.
    pub fn begin_fetch(&mut self, request_id: u64)
        ensures
            final(self).loading,
            final(self).error is None,
            final(self).request_id == request_id,
            final(self).fen == old(self).fen,
            final(self).moves == old(self).moves,
    {
        self.loading = true;
        self.error = None;
        self.request_id = request_id;
    }

    /// Starts a request when one is due for `fen`: its id is one more than the last
    /// (saturating). Without a Lichess login the request fails at once; otherwise its id is
    /// returned, for the fetch.
    pub fn refresh_if_needed(&mut self, fen: &str, logged_in: bool) -> (r: Option<u64>)
        ensures
            !(!old(self).loading && old(self).fen@ != fen@) ==> r is None && *final(self) == *old(self),
            !old(self).loading && old(self).fen@ != fen@ ==> {
                let id = if old(self).request_id == u64::MAX {
                    u64::MAX
                } else {
                    (old(self).request_id + 1) as u64
                };
                &&& final(self).request_id == id
                &&& final(self).fen == old(self).fen
                &&& logged_in ==> r == Some(id) && final(self).loading && final(self).error is None
                    && final(self).moves == old(self).moves
                &&& !logged_in ==> r is None && !final(self).loading && final(self).moves@.len() == 0
                &&& !logged_in ==> (final(self).error matches Some(e) && e@
                    == "Log in to Lichess in Settings to use Opening Explorer."@)
            },
    {
        if !self.needs_fetch(fen) {
            return None;
        }
        let request_id = self.request_id.saturating_add(1);
        self.begin_fetch(request_id);
        if !logged_in {
            self.set_error(request_id, String::from_str("Log in to Lichess in Settings to use Opening Explorer."));
            return None;
        }
        Some(request_id)
    }

    /// Shows the moves a request answered with, when it is the latest request.
    pub fn apply_moves(&mut self, request_id: u64, fen: String, moves: Vec<ExplorerMove>)
        ensures
            old(self).request_id != request_id ==> *final(self) == *old(self),
            old(self).request_id == request_id ==> {
                &&& !final(self).loading
                &&& final(self).fen@ == fen@
                &&& moves_view(final(self).moves@) == moves_view(moves@)
                &&& final(self).error is None
                &&& final(self).request_id == request_id
            },
    {
        if self.request_id != request_id {
            return;
        }
        self.loading = false;
        self.fen = fen;
        self.moves = moves;
        self.error = None;
    }

    /// Shows the error a request failed with, when it is the latest request.
    pub fn set_error(&mut self, request_id: u64, message: String)
        ensures
            old(self).request_id != request_id ==> *final(self) == *old(self),
            old(self).request_id == request_id ==> {
                &&& !final(self).loading
                &&& final(self).fen == old(self).fen
                &&& final(self).moves@.len() == 0
                &&& final(self).error matches Some(e) && e@ == message@
                &&& final(self).request_id == request_id
            },
    {
        if self.request_id != request_id {
            return;
        }
        self.loading = false;
        self.moves.clear();
        self.error = Some(message);
    }
}

impl ExplorerMove {
    pub fn total(&self) -> (r: u32)
        requires
            self.white + self.black + self.draws <= u32::MAX,
        ensures
            r == self.white + self.black + self.draws,
    {
        self.white + self.black + self.draws
    }

    /// The results of the move as position details, with no ratings or last game.
    pub fn position_details(&self) -> (r: PositionDetails)
        ensures
            details_view(r) == (DetailsV { white_wins: self.white, black_wins: self.black, draws: self.draws, ..empty_details() }),
    {
        PositionDetails {
            white_wins: self.white,
            black_wins: self.black,
            draws: self.draws,
            total_opponent_elo: 0,
            opponent_elo_games: 0,
            last_game: None,
        }
    }
}

/// Games over all moves.
pub open spec fn grand_total(ms: Seq<ExplorerMoveV>) -> int
    decreases ms.len(),
{
    if ms.len() == 0 {
        0
    } else {
        grand_total(ms.drop_last()) + ms.last().white + ms.last().black + ms.last().draws
    }
}

/// White wins, black wins and draws over all moves.
pub open spec fn result_sums(ms: Seq<ExplorerMoveV>) -> (int, int, int)
    decreases ms.len(),
{
    if ms.len() == 0 {
        (0, 0, 0)
    } else {
        let s = result_sums(ms.drop_last());
        (s.0 + ms.last().white, s.1 + ms.last().black, s.2 + ms.last().draws)
    }
}

pub fn explorer_grand_total(moves: &[ExplorerMove]) -> (r: u32)
    requires
        grand_total(moves_view(moves@)) <= u32::MAX,
    ensures
        r == grand_total(moves_view(moves@)),
{
    let ghost mv = moves_view(moves@);
    let mut sum: u32 = 0;
    let mut i: usize = 0;
    while i < moves.len()
        invariant
            i <= moves@.len(),
            mv == moves_view(moves@),
            grand_total(mv) <= u32::MAX,
            sum == grand_total(mv.take(i as int)),
        decreases moves@.len() - i,
    {
        assert(mv.take(i + 1).drop_last() =~= mv.take(i as int));
        assert(mv.take(i + 1).last() == move_view(moves@[i as int]));
        proof {
            lemma_grand_total_prefix(mv, i + 1);
        }
        sum = sum + moves[i].white + moves[i].black + moves[i].draws;
        i += 1;
    }
    assert(mv.take(i as int) =~= mv);
    sum
}

/// Totals never shrink along a list.
proof fn lemma_grand_total_prefix(ms: Seq<ExplorerMoveV>, k: int)
    requires
        0 <= k <= ms.len(),
    ensures
        grand_total(ms.take(k)) <= grand_total(ms),
        grand_total(ms.take(k)) >= 0,
    decreases ms.len() - k,
{
    lemma_grand_total_nonneg(ms.take(k));
    if k < ms.len() {
        lemma_grand_total_prefix(ms, k + 1);
        assert(ms.take(k + 1).drop_last() =~= ms.take(k));
    } else {
        assert(ms.take(k) =~= ms);
    }
}

proof fn lemma_grand_total_nonneg(ms: Seq<ExplorerMoveV>)
    ensures
        grand_total(ms) >= 0,
    decreases ms.len(),
{
    if ms.len() > 0 {
        lemma_grand_total_nonneg(ms.drop_last());
    }
}

/// The wins, losses and draws that `aggregate_explorer_details` adds up make up the games
/// that `explorer_grand_total` counts.
pub proof fn law_aggregate_matches_grand_total(ms: Seq<ExplorerMoveV>)
    ensures
        result_sums(ms).0 + result_sums(ms).1 + result_sums(ms).2 == grand_total(ms),
    decreases ms.len(),
{
    if ms.len() > 0 {
        law_aggregate_matches_grand_total(ms.drop_last());
    }
}

/// The results of all moves added up.
pub fn aggregate_explorer_details(moves: &[ExplorerMove]) -> (r: PositionDetails)
    requires
        result_sums(moves_view(moves@)).0 <= u32::MAX,
        result_sums(moves_view(moves@)).1 <= u32::MAX,
        result_sums(moves_view(moves@)).2 <= u32::MAX,
    ensures
        details_view(r) == (DetailsV {
            white_wins: result_sums(moves_view(moves@)).0 as u32,
            black_wins: result_sums(moves_view(moves@)).1 as u32,
            draws: result_sums(moves_view(moves@)).2 as u32,
            ..empty_details()
        }),
{
    let ghost mv = moves_view(moves@);
    let mut details = PositionDetails {
        white_wins: 0,
        black_wins: 0,
        draws: 0,
        total_opponent_elo: 0,
        opponent_elo_games: 0,
        last_game: None,
    };
    let mut i: usize = 0;
    while i < moves.len()
        invariant
            i <= moves@.len(),
            mv == moves_view(moves@),
            result_sums(mv).0 <= u32::MAX,
            result_sums(mv).1 <= u32::MAX,
            result_sums(mv).2 <= u32::MAX,
            details.white_wins == result_sums(mv.take(i as int)).0,
            details.black_wins == result_sums(mv.take(i as int)).1,
            details.draws == result_sums(mv.take(i as int)).2,
            details.total_opponent_elo == 0,
            details.opponent_elo_games == 0,
            details.last_game is None,
        decreases moves@.len() - i,
    {
        assert(mv.take(i + 1).drop_last() =~= mv.take(i as int));
        assert(mv.take(i + 1).last() == move_view(moves@[i as int]));
        proof {
            lemma_result_sums_prefix(mv, i + 1);
        }
        details.white_wins = details.white_wins + moves[i].white;
        details.black_wins = details.black_wins + moves[i].black;
        details.draws = details.draws + moves[i].draws;
        i += 1;
    }
    assert(mv.take(i as int) =~= mv);
    details
}

proof fn lemma_result_sums_prefix(ms: Seq<ExplorerMoveV>, k: int)
    requires
        0 <= k <= ms.len(),
    ensures
        0 <= result_sums(ms.take(k)).0 <= result_sums(ms).0,
        0 <= result_sums(ms.take(k)).1 <= result_sums(ms).1,
        0 <= result_sums(ms.take(k)).2 <= result_sums(ms).2,
    decreases ms.len() - k,
{
    lemma_result_sums_nonneg(ms.take(k));
    if k < ms.len() {
        lemma_result_sums_prefix(ms, k + 1);
        assert(ms.take(k + 1).drop_last() =~= ms.take(k));
    } else {
        assert(ms.take(k) =~= ms);
    }
}

proof fn lemma_result_sums_nonneg(ms: Seq<ExplorerMoveV>)
    ensures
        result_sums(ms).0 >= 0,
        result_sums(ms).1 >= 0,
        result_sums(ms).2 >= 0,
    decreases ms.len(),
{
    if ms.len() > 0 {
        lemma_result_sums_nonneg(ms.drop_last());
    }
}

/// `num / den` rounded to the nearest integer, halves to the even one.
pub open spec fn round_half_even(num: nat, den: nat) -> nat {
    let q = num / den;
    let r = num % den;
    if 2 * r > den {
        q + 1
    } else if 2 * r < den {
        q
    } else if q % 2 == 0 {
        q
    } else {
        q + 1
    }
}

/// The share of a move among all games at a position: a whole percentage (rounded to the
/// nearest, halves to even) above 100 games, the raw count otherwise, and a dash when
/// there are no games.
pub open spec fn share_label(move_total: u32, grand: u32) -> Seq<char> {
    if grand == 0 {
        "—"@
    } else if move_total > 100 {
        dec(round_half_even(100 * move_total as nat, grand as nat)) + "%"@
    } else {
        dec(move_total as nat)
    }
}

pub fn explorer_move_share_label(move_total: u32, grand_total: u32) -> (r: String)
    ensures
        r@ == share_label(move_total, grand_total),
{
    if grand_total == 0 {
        return String::from_str("—");
    }
    if move_total > 100 {
        let num: u64 = 100 * move_total as u64;
        let den: u64 = grand_total as u64;
        let q = num / den;
        let rem = num % den;
        let pct = if 2 * rem > den {
            q + 1
        } else if 2 * rem < den {
            q
        } else if q % 2 == 0 {
            q
        } else {
            q + 1
        };
        let mut v = decimal(pct);
        append_str(&mut v, "%");
        string_of(v.as_slice())
    } else {
        decimal_string(move_total as u64)
    }
}

} // verus!
