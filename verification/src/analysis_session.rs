//! The game analysis tab: a game from PGN or played on the board, a cursor on its
//! positions, and the engine's evaluation of the current one.
use vstd::prelude::*;
use crate::board::{Arrow, BoardConfig, EvalPatch};
use crate::chess::{group_moves, groups_view, legal_dests_at, spec_legal_moves, play_move_keys, side_to_move, spec_move_keys, start_fen, start_fen_text, turn_color, Color, Key};
use crate::engine_state::{best_eval_in, best_eval_of, engine_arrows_for, engine_arrows_of, eval_patch_for, eval_patch_of};
use crate::engine_uci::AnalysisResult;
use crate::history::{append_step, history_opening_label, opening_label_of};
use crate::pgn::{headers_of, history_of, label_of, movetext_of, pairs_of, parse_pgn, step_view, steps_view, HistoryStep, ParsedGame, StepV};
use crate::text::{append_chars, append_str, chars_of, dec, decimal, seq_eq, string_of, trim, trim_str};

verus! {

broadcast use vstd::string::group_string_axioms;

/// The tabs of the analysis side panel.
#[derive(Clone, Copy, Debug, PartialEq, Eq, Structural)]
pub enum AnalysisPanelTab {
    Engine,
    Game,
}

impl Default for AnalysisPanelTab {
    fn default() -> (r: Self)
        ensures
            r == AnalysisPanelTab::Engine,
    {
        AnalysisPanelTab::Engine
    }
}

impl AnalysisPanelTab {
    pub open spec fn index_of(self) -> usize {
        match self {
            AnalysisPanelTab::Engine => 0,
            AnalysisPanelTab::Game => 1,
        }
    }

    pub fn index(self) -> (r: usize)
        ensures
            r == self.index_of(),
    {
        match self {
            AnalysisPanelTab::Engine => 0,
            AnalysisPanelTab::Game => 1,
        }
    }

    /// The tab at `index`; any index but 1 is the engine tab.
    pub fn from_index(index: usize) -> (r: Self)
        ensures
            r == (if index == 1 {
                AnalysisPanelTab::Game
            } else {
                AnalysisPanelTab::Engine
            }),
    {
        if index == 1 {
            AnalysisPanelTab::Game
        } else {
            AnalysisPanelTab::Engine
        }
    }
}

/// Each tab is found again from its index.
pub proof fn law_panel_tab_round_trip(tab: AnalysisPanelTab)
    ensures
        (if tab.index_of() == 1 {
            AnalysisPanelTab::Game
        } else {
            AnalysisPanelTab::Engine
        }) == tab,
{
}

/// How deep to search and how many lines to show.
#[derive(Clone, Copy, Debug, PartialEq, Eq, Structural)]
pub struct AnalysisSettings {
    pub depth: u32,
    pub line_count: u32,
    pub show_engine_lines: bool,
}

impl Default for AnalysisSettings {
    /// Depth 16, three lines, lines shown.
    fn default() -> (r: Self)
        ensures
            r == (AnalysisSettings { depth: 16, line_count: 3, show_engine_lines: true }),
    {
        AnalysisSettings { depth: 16, line_count: 3, show_engine_lines: true }
    }
}

/// The game analysis tab, without its widgets.
#[derive(Debug)]
pub struct AnalysisSession {
    pub id: u64,
    pub label: String,
    pub headers: Vec<(String, String)>,
    pub current_fen: String,
    pub history: Vec<HistoryStep>,
    pub history_index: usize,
    pub last_synced_move: Option<(Key, Key)>,
    pub last_parsed_pgn: String,
    pub status: String,
    pub selected_engine_id: Option<String>,
    pub analyzing: bool,
    pub analysis: Option<AnalysisResult>,
    pub settings: AnalysisSettings,
    pub panel_tab: AnalysisPanelTab,
}

pub open spec fn synced_of(step: StepV) -> Option<(u8, u8)> {
    match (step.orig, step.dest) {
        (Some(o), Some(d)) => Some((o, d)),
        _ => None,
    }
}

pub open spec fn keys_view(k: Option<(Key, Key)>) -> Option<(u8, u8)> {
    match k {
        Some((o, d)) => Some((o.index, d.index)),
        None => None,
    }
}

/// Whether loading the text as PGN succeeds.
pub open spec fn pgn_loads(text: Seq<char>) -> bool {
    movetext_of(text) matches Some(m) && history_of(m) is Ok
}

pub fn empty_hint() -> (r: String)
    ensures
        r@ == "Paste PGN or play moves on the board"@,
{
    let mut v: Vec<char> = Vec::new();
    append_str(&mut v, "Paste PGN or play moves on the board");
    string_of(v.as_slice())
}

fn last_move_of(step: &HistoryStep) -> (r: Option<(Key, Key)>)
    ensures
        keys_view(r) == synced_of(step_view(*step)),
{
    match (step.orig, step.dest) {
        (Some(o), Some(d)) => Some((o, d)),
        _ => None,
    }
}

impl AnalysisSession {
    /// The cursor is on a step, and the board shows that step's position.
    pub open spec fn wf(&self) -> bool {
        &&& self.history_index < self.history@.len()
        &&& self.current_fen@ == self.history@[self.history_index as int].fen@
    }

    pub fn new(id: u64) -> (r: Self)
        ensures
            r.wf(),
            r.id == id,
            r.label@ == "Game Analysis"@,
            r.headers@.len() == 0,
            steps_view(r.history@) == seq![StepV { fen: start_fen_text(), san: None, orig: None, dest: None }],
            r.history_index == 0,
            r.last_synced_move is None,
            r.last_parsed_pgn@.len() == 0,
            r.status@ == "Paste PGN or play moves on the board"@,
            r.selected_engine_id is None,
            !r.analyzing,
            r.analysis is None,
            r.settings == (AnalysisSettings { depth: 16, line_count: 3, show_engine_lines: true }),
            r.panel_tab == AnalysisPanelTab::Engine,
    {
        let fen = start_fen();
        let mut history: Vec<HistoryStep> = Vec::new();
        history.push(HistoryStep::start(start_fen()));
        let mut label: Vec<char> = Vec::new();
        append_str(&mut label, "Game Analysis");
        let r = AnalysisSession {
            id,
            label: string_of(label.as_slice()),
            headers: Vec::new(),
            current_fen: fen,
            history,
            history_index: 0,
            last_synced_move: None,
            last_parsed_pgn: String::new(),
            status: empty_hint(),
            selected_engine_id: None,
            analyzing: false,
            analysis: None,
            settings: AnalysisSettings::default(),
            panel_tab: AnalysisPanelTab::Engine,
        };
        assert(steps_view(r.history@) =~= seq![StepV { fen: start_fen_text(), san: None, orig: None, dest: None }]);
        r
    }

    /// Moves the cursor to step `index` (ignored past the end): the board shows it, the
    /// move that led there counts as synced, and the analysis is dropped.
    pub fn go_to_history(&mut self, index: usize)
        requires
            old(self).wf(),
        ensures
            final(self).wf(),
            final(self).history == old(self).history,
            index < old(self).history@.len() ==> {
                &&& final(self).history_index == index
                &&& keys_view(final(self).last_synced_move) == synced_of(step_view(old(self).history@[index as int]))
                &&& !final(self).analyzing && final(self).analysis is None
            },
            index >= old(self).history@.len() ==> final(self).history_index == old(self).history_index
                && final(self).last_synced_move == old(self).last_synced_move && final(self).analysis
                == old(self).analysis && final(self).analyzing == old(self).analyzing,
            final(self).status == old(self).status,
            final(self).label == old(self).label,
            final(self).headers == old(self).headers,
    {
        if index >= self.history.len() {
            return;
        }
        self.history_index = index;
        self.sync_history_cursor();
    }

    fn sync_history_cursor(&mut self)
        requires
            old(self).history_index < old(self).history@.len(),
        ensures
            final(self).wf(),
            final(self).history == old(self).history,
            final(self).history_index == old(self).history_index,
            keys_view(final(self).last_synced_move) == synced_of(
                step_view(old(self).history@[old(self).history_index as int]),
            ),
            !final(self).analyzing && final(self).analysis is None,
            final(self).status == old(self).status,
            final(self).label == old(self).label,
            final(self).headers == old(self).headers,
            final(self).last_parsed_pgn == old(self).last_parsed_pgn,
    {
        let step = &self.history[self.history_index];
        self.current_fen = step.fen.clone();
        self.last_synced_move = last_move_of(step);
        self.clear_analysis();
    }

    /// One step back, when there is one.
    pub fn go_back(&mut self)
        requires
            old(self).wf(),
        ensures
            final(self).wf(),
            final(self).history == old(self).history,
            final(self).history_index == (if old(self).history_index > 0 {
                old(self).history_index - 1
            } else {
                old(self).history_index as int
            }),
    {
        if self.history_index > 0 {
            self.go_to_history(self.history_index - 1);
        }
    }

    /// One step forward, when there is one.
    pub fn go_forward(&mut self)
        requires
            old(self).wf(),
        ensures
            final(self).wf(),
            final(self).history == old(self).history,
            final(self).history_index == (if old(self).history_index + 1 < old(self).history@.len() {
                old(self).history_index + 1
            } else {
                old(self).history_index as int
            }),
    {
        if self.history_index < self.history.len() - 1 {
            self.go_to_history(self.history_index + 1);
        }
    }

    fn clear_analysis(&mut self)
        ensures
            !final(self).analyzing,
            final(self).analysis is None,
            final(self).history == old(self).history,
            final(self).history_index == old(self).history_index,
            final(self).current_fen == old(self).current_fen,
            final(self).last_synced_move == old(self).last_synced_move,
            final(self).status == old(self).status,
            final(self).label == old(self).label,
            final(self).headers == old(self).headers,
            final(self).last_parsed_pgn == old(self).last_parsed_pgn,
    {
        self.analyzing = false;
        self.analysis = None;
    }

    /// Shows a parsed game from its first position.
    pub fn load_game(&mut self, game: ParsedGame)
        requires
            game.history@.len() > 0,
        ensures
            final(self).wf(),
            final(self).label == game.label,
            final(self).headers == game.headers,
            final(self).history == game.history,
            final(self).history_index == 0,
            keys_view(final(self).last_synced_move) == synced_of(step_view(game.history@[0])),
            !final(self).analyzing && final(self).analysis is None,
            final(self).status@ == dec((game.history@.len() - 1) as nat) + " moves loaded"@,
            final(self).last_parsed_pgn == old(self).last_parsed_pgn,
    {
        self.label = game.label;
        self.headers = game.headers;
        self.history = game.history;
        self.history_index = 0;
        self.current_fen = self.history[0].fen.clone();
        self.last_synced_move = None;
        self.clear_analysis();
        let mut v = decimal((self.history.len() - 1) as u64);
        append_str(&mut v, " moves loaded");
        self.status = string_of(v.as_slice());
        self.sync_history_cursor();
    }

    /// Loads pasted PGN (trimmed). Empty text clears the remembered PGN and shows the hint;
    /// the PGN last loaded is not loaded again; a PGN that does not parse leaves the game and
    /// shows the error. Whether a game was loaded.
    pub fn try_load_pgn_from_text(&mut self, text: &str) -> (r: bool)
        requires
            old(self).wf(),
        ensures
            final(self).wf(),
            r == (trim(text@).len() > 0 && trim(text@) != old(self).last_parsed_pgn@ && pgn_loads(trim(text@))),
            trim(text@).len() == 0 ==> final(self).last_parsed_pgn@.len() == 0 && final(self).status@
                == "Paste PGN or play moves on the board"@ && final(self).history == old(self).history,
            r ==> final(self).last_parsed_pgn@ == trim(text@) && final(self).history_index == 0,
            r ==> (movetext_of(trim(text@)) matches Some(m) && history_of(m) == Ok::<Seq<StepV>, Seq<char>>(
                steps_view(final(self).history@),
            )),
            r ==> final(self).label@ == label_of(headers_of(trim(text@))) && pairs_of(final(self).headers@)
                == headers_of(trim(text@)),
            !r && trim(text@).len() > 0 ==> final(self).history == old(self).history
                && final(self).history_index == old(self).history_index,
    {
        let t = trim_str(text);
        if t.len() == 0 {
            self.last_parsed_pgn = String::new();
            self.status = empty_hint();
            return false;
        }
        let last = chars_of(self.last_parsed_pgn.as_str());
        if seq_eq(t.as_slice(), last.as_slice()) {
            return false;
        }
        let ts = string_of(t.as_slice());
        match parse_pgn(ts.as_str()) {
            Ok(game) => {
                proof {
                    let m = movetext_of(ts@)->0;
                    assert(history_of(m) == Ok::<Seq<StepV>, Seq<char>>(steps_view(game.history@)));
                    assert(steps_view(game.history@).len() > 0);
                }
                self.last_parsed_pgn = ts;
                self.load_game(game);
                true
            },
            Err(e) => {
                self.status = e;
                false
            },
        }
    }

    /// A move made on the board, given by the last two squares it reports. It counts when
    /// it is not the move already synced and is legal at the current position: then it is
    /// appended after the cursor. Whether it counted.
    pub fn on_board_changed(&mut self, last_move: Option<Vec<Key>>) -> (r: bool)
        requires
            old(self).wf(),
        ensures
            final(self).wf(),
            match last_move {
                Some(keys) if keys@.len() >= 2 && keys_view(old(self).last_synced_move) != Some(
                    (keys@[0].index, keys@[1].index),
                ) => match spec_move_keys(old(self).current_fen@, keys@[0].index, keys@[1].index) {
                    Ok((fen, san, o, d)) => r && keys_view(final(self).last_synced_move) == Some((o, d))
                        && steps_view(final(self).history@) == steps_view(
                        old(self).history@.take(old(self).history_index + 1),
                    ).push(StepV { fen, san: Some(san), orig: Some(o), dest: Some(d) })
                        && final(self).history_index == old(self).history_index + 1,
                    Err(_) => !r && final(self).history == old(self).history,
                },
                _ => !r && final(self).history == old(self).history,
            },
    {
        let keys = match last_move {
            Some(k) => k,
            None => return false,
        };
        if keys.len() < 2 {
            return false;
        }
        let orig = keys[0];
        let dest = keys[1];
        match self.last_synced_move {
            Some((o, d)) => {
                if o.index == orig.index && d.index == dest.index {
                    return false;
                }
            },
            None => {},
        }
        match play_move_keys(self.current_fen.as_str(), &orig, &dest) {
            Err(_) => false,
            Ok((fen, san, o, d)) => {
                self.last_synced_move = Some((o, d));
                self.append_history_step(fen, san, o, d);
                true
            },
        }
    }

    fn append_history_step(&mut self, fen: String, san: String, orig: Key, dest: Key)
        requires
            old(self).wf(),
        ensures
            final(self).wf(),
            steps_view(final(self).history@) == steps_view(old(self).history@.take(old(self).history_index + 1)).push(
                StepV { fen: fen@, san: Some(san@), orig: Some(orig.index), dest: Some(dest.index) },
            ),
            final(self).history_index == old(self).history_index + 1,
            final(self).last_synced_move == old(self).last_synced_move,
            !final(self).analyzing && final(self).analysis is None,
            final(self).status@ == "Move "@ + dec(final(self).history_index as nat) + " · play on board or paste PGN"@,
    {
        let step = HistoryStep::after_move(fen.clone(), san, orig, dest);
        let idx = append_step(&mut self.history, self.history_index, step);
        self.history_index = idx;
        self.current_fen = fen;
        assert(self.history@[idx as int].fen@ == fen@) by {
            assert(steps_view(self.history@)[idx as int] == step_view(self.history@[idx as int]));
        }
        self.clear_analysis();
        let mut v: Vec<char> = Vec::new();
        append_str(&mut v, "Move ");
        let d = decimal(idx as u64);
        append_chars(&mut v, d.as_slice());
        append_str(&mut v, " · play on board or paste PGN");
        self.status = string_of(v.as_slice());
    }

    /// A search started: its result is awaited.
    pub fn set_analysis_pending(&mut self)
        ensures
            final(self).analyzing,
            final(self).analysis is None,
            final(self).history == old(self).history,
            final(self).history_index == old(self).history_index,
            final(self).current_fen == old(self).current_fen,
    {
        self.analyzing = true;
        self.analysis = None;
    }

    pub fn apply_analysis(&mut self, result: AnalysisResult)
        ensures
            !final(self).analyzing,
            final(self).analysis == Some(result),
            final(self).history == old(self).history,
            final(self).history_index == old(self).history_index,
            final(self).current_fen == old(self).current_fen,
    {
        self.analyzing = false;
        self.analysis = Some(result);
    }

    pub fn set_analysis_error(&mut self, message: String)
        ensures
            !final(self).analyzing,
            final(self).analysis is None,
            final(self).status == message,
            final(self).history == old(self).history,
            final(self).history_index == old(self).history_index,
            final(self).current_fen == old(self).current_fen,
    {
        self.analyzing = false;
        self.analysis = None;
        self.status = message;
    }

    /// The deepest book opening along the game up to the cursor.
    pub fn opening_label(&self) -> (r: String)
        requires
            self.wf(),
        ensures
            r@ == opening_label_of(steps_view(self.history@).take(self.history_index + 1).map_values(|s: StepV| s.fen)),
    {
        history_opening_label(self.history.as_slice(), self.history_index)
    }

    /// What the board is set to: the current position, the move that led to it, its legal
    /// moves, the engine arrows while lines are shown, and the evaluation bar.
    pub fn refresh_board(&self) -> (r: BoardConfig)
        requires
            self.wf(),
        ensures
            r.fen == self.current_fen,
            r.orientation == Color::White,
            keys_view(r.last_move) == synced_of(step_view(self.history@[self.history_index as int])),
            r.show_dests,
            groups_view(r.dests@) == match spec_legal_moves(self.current_fen@) {
                Some(ms) => group_moves(ms),
                None => seq![],
            },
            r.shapes@ == engine_arrows_of(self.settings.show_engine_lines, self.analysis),
            r.eval == Some(eval_patch_of(self.selected_engine_id is Some, self.analyzing, best_eval_of(self.analysis))),
    {
        let last_move = last_move_of(&self.history[self.history_index]);
        let dests = match legal_dests_at(self.current_fen.as_str()) {
            Ok(d) => d,
            Err(_) => Vec::new(),
        };
        let shapes = engine_arrows_for(self.settings.show_engine_lines, &self.analysis);
        let best = best_eval_in(&self.analysis);
        BoardConfig {
            fen: self.current_fen.clone(),
            orientation: Color::White,
            last_move,
            dests,
            show_dests: true,
            shapes,
            eval: Some(eval_patch_for(self.selected_engine_id.is_some(), self.analyzing, best)),
        }
    }
}

} // verus!
