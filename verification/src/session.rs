//! One opening-tree tab: a profile's games as a graph, a walk through it, the fetch state.
use vstd::prelude::*;
use crate::analysis_session::{keys_view, synced_of, AnalysisSettings};
use crate::board::{Arrow, BoardConfig};
use crate::chess::{group_moves, groups_view, start_fen, start_fen_text, Color, Key};
use crate::engine_state::{best_eval_of, engine_arrows_of, eval_patch_of, EngineState};
use crate::engine_uci::AnalysisResult;
use crate::graph::{graph_wf, moves_view, stat_arrow, stat_view, MoveStat, MoveStatV, NodeGV, OpeningGraph};
use crate::history::{append_step, history_opening_label, opening_label_of};
use crate::panel_tabs::SidePanelTab;
use crate::pgn::{step_view, steps_view, HistoryStep, StepV};
use crate::text::{append_str, str_eq, string_of};

verus! {

broadcast use vstd::string::group_string_axioms;

/// The first move from `orig` to `dest` in a list.
pub open spec fn first_with_squares(ms: Seq<MoveStatV>, o: u8, d: u8, i: int) -> Option<int>
    decreases ms.len() - i,
{
    if i < 0 || i >= ms.len() {
        None
    } else if ms[i].orig == o && ms[i].dest == d {
        Some(i)
    } else {
        first_with_squares(ms, o, d, i + 1)
    }
}

proof fn lemma_first_with_squares(ms: Seq<MoveStatV>, o: u8, d: u8, i: int, j: int)
    requires
        first_with_squares(ms, o, d, i) == Some(j),
    ensures
        0 <= j < ms.len(),
        ms[j].orig == o && ms[j].dest == d,
    decreases ms.len() - i,
{
    if i >= 0 && i < ms.len() && !(ms[i].orig == o && ms[i].dest == d) {
        lemma_first_with_squares(ms, o, d, i + 1, j);
    }
}

/// The first move with the given SAN in a list.
pub open spec fn first_with_san(ms: Seq<MoveStatV>, san: Seq<char>, i: int) -> Option<int>
    decreases ms.len() - i,
{
    if i < 0 || i >= ms.len() {
        None
    } else if ms[i].san == san {
        Some(i)
    } else {
        first_with_san(ms, san, i + 1)
    }
}

/// The step a played move adds.
pub open spec fn move_step(m: MoveStatV) -> StepV {
    StepV { fen: m.target, san: Some(m.san), orig: Some(m.orig), dest: Some(m.dest) }
}

/// The tab of one profile, without its widgets.
#[derive(Debug)]
pub struct ProfileSession {
    pub id: u64,
    pub label: String,
    pub username: String,
    pub graph: OpeningGraph,
    pub cancel_load: bool,
    pub current_fen: String,
    pub history: Vec<HistoryStep>,
    pub history_index: usize,
    pub last_synced_move: Option<(Key, Key)>,
    pub status: String,
    pub loading: bool,
    pub next_move_count: usize,
    pub side_panel_tab: SidePanelTab,
    pub engine: EngineState,
}

fn find_squares(moves: &Vec<MoveStat>, orig: Key, dest: Key) -> (r: Option<usize>)
    ensures
        match r {
            Some(i) => i < moves@.len() && first_with_squares(
                moves@.map_values(|m: MoveStat| stat_view(m)),
                orig.index,
                dest.index,
                0,
            ) == Some(i as int),
            None => first_with_squares(moves@.map_values(|m: MoveStat| stat_view(m)), orig.index, dest.index, 0) is None,
        },
{
    let ghost ms = moves@.map_values(|m: MoveStat| stat_view(m));
    let mut i: usize = 0;
    while i < moves.len()
        invariant
            i <= moves@.len(),
            ms == moves@.map_values(|m: MoveStat| stat_view(m)),
            first_with_squares(ms, orig.index, dest.index, 0) == first_with_squares(ms, orig.index, dest.index, i as int),
        decreases moves@.len() - i,
    {
        assert(ms[i as int] == stat_view(moves@[i as int]));
        if moves[i].orig.index == orig.index && moves[i].dest.index == dest.index {
            return Some(i);
        }
        i += 1;
    }
    None
}

fn find_san(moves: &Vec<MoveStat>, san: &str) -> (r: Option<usize>)
    ensures
        match r {
            Some(i) => i < moves@.len() && first_with_san(moves@.map_values(|m: MoveStat| stat_view(m)), san@, 0) == Some(
                i as int,
            ),
            None => first_with_san(moves@.map_values(|m: MoveStat| stat_view(m)), san@, 0) is None,
        },
{
    let ghost ms = moves@.map_values(|m: MoveStat| stat_view(m));
    let mut i: usize = 0;
    while i < moves.len()
        invariant
            i <= moves@.len(),
            ms == moves@.map_values(|m: MoveStat| stat_view(m)),
            first_with_san(ms, san@, 0) == first_with_san(ms, san@, i as int),
        decreases moves@.len() - i,
    {
        assert(ms[i as int] == stat_view(moves@[i as int]));
        if str_eq(moves[i].san.as_str(), san) {
            return Some(i);
        }
        i += 1;
    }
    None
}

impl ProfileSession {
    /// The graph is well formed, and the cursor is on a step whose position the board shows.
    pub open spec fn wf(&self) -> bool {
        &&& graph_wf(self.graph.nodes_view())
        &&& self.history_index < self.history@.len()
        &&& self.current_fen@ == self.history@[self.history_index as int].fen@
    }

    /// The moves known from the current position.
    pub open spec fn moves_here(&self) -> Seq<MoveStatV> {
        moves_view(self.graph.nodes_view(), self.current_fen@)
    }

    pub fn new(id: u64, label: String) -> (r: Self)
        ensures
            r.wf(),
            r.id == id,
            r.label == label,
            r.username@.len() == 0,
            r.graph.nodes_view().len() == 0,
            r.graph.games == 0,
            !r.cancel_load,
            steps_view(r.history@) == seq![StepV { fen: start_fen_text(), san: None, orig: None, dest: None }],
            r.history_index == 0,
            r.last_synced_move is None,
            r.status@ == "Load games from the sidebar"@,
            !r.loading,
            r.next_move_count == 0,
            r.side_panel_tab == SidePanelTab::Moves,
            r.engine.selected_engine_id is None,
            !r.engine.analyzing,
            r.engine.analysis is None,
            r.engine.settings == (AnalysisSettings { depth: 14, line_count: 3, show_engine_lines: true }),
    {
        let mut history: Vec<HistoryStep> = Vec::new();
        history.push(HistoryStep::start(start_fen()));
        let mut status: Vec<char> = Vec::new();
        append_str(&mut status, "Load games from the sidebar");
        let r = ProfileSession {
            id,
            label,
            username: String::new(),
            graph: OpeningGraph::new(),
            cancel_load: false,
            current_fen: start_fen(),
            history,
            history_index: 0,
            last_synced_move: None,
            status: string_of(status.as_slice()),
            loading: false,
            next_move_count: 0,
            side_panel_tab: SidePanelTab::Moves,
            engine: EngineState {
                selected_engine_id: None,
                analyzing: false,
                analysis: None,
                settings: AnalysisSettings { depth: 14, line_count: 3, show_engine_lines: true },
            },
        };
        assert(steps_view(r.history@) =~= seq![StepV { fen: start_fen_text(), san: None, orig: None, dest: None }]);
        r
    }

    /// Starts loading the games of `username`: the tab is named after the profile, the
    /// graph is emptied and the walk restarts from the initial position.
    pub fn reset_for_load(&mut self, username: String)
        ensures
            final(self).wf(),
            final(self).username == username,
            final(self).label@ == username@,
            !final(self).cancel_load,
            final(self).loading,
            final(self).last_synced_move is None,
            steps_view(final(self).history@) == seq![StepV { fen: start_fen_text(), san: None, orig: None, dest: None }],
            final(self).history_index == 0,
            final(self).graph.nodes_view().len() == 0,
            final(self).graph.games == 0,
            !final(self).engine.analyzing && final(self).engine.analysis is None,
            final(self).engine.selected_engine_id == old(self).engine.selected_engine_id,
    {
        self.label = username.clone();
        self.username = username;
        self.cancel_load = false;
        self.loading = true;
        self.last_synced_move = None;
        let mut history: Vec<HistoryStep> = Vec::new();
        history.push(HistoryStep::start(start_fen()));
        self.history = history;
        self.history_index = 0;
        self.current_fen = start_fen();
        self.graph.clear();
        self.engine.clear_analysis();
        assert(steps_view(self.history@) =~= seq![StepV { fen: start_fen_text(), san: None, orig: None, dest: None }]);
    }

    /// What the board is set to, and the count of moves known here: the frequency arrows
    /// of those moves followed by the engine arrows, their targets as the legal moves (shown
    /// when there are any), and the evaluation bar.
    pub fn refresh_board(&mut self) -> (r: BoardConfig)
        requires
            old(self).wf(),
        ensures
            final(self).wf(),
            final(self).next_move_count == old(self).moves_here().len(),
            final(self).history == old(self).history,
            final(self).history_index == old(self).history_index,
            final(self).current_fen == old(self).current_fen,
            final(self).graph == old(self).graph,
            final(self).engine == old(self).engine,
            r.fen == old(self).current_fen,
            r.orientation == Color::White,
            keys_view(r.last_move) == synced_of(step_view(old(self).history@[old(self).history_index as int])),
            r.show_dests == (old(self).moves_here().len() > 0),
            groups_view(r.dests@) == group_moves(
                old(self).moves_here().map_values(|m: MoveStatV| (m.orig, m.dest)),
            ),
            r.shapes@ == old(self).moves_here().map_values(|m: MoveStatV| stat_arrow(m)) + engine_arrows_of(
                old(self).engine.settings.show_engine_lines,
                old(self).engine.analysis,
            ),
            r.eval == Some(
                eval_patch_of(
                    old(self).engine.selected_engine_id is Some,
                    old(self).engine.analyzing,
                    best_eval_of(old(self).engine.analysis),
                ),
            ),
    {
        let moves = self.graph.moves_at(self.current_fen.as_str());
        self.next_move_count = moves.len();
        let mut shapes = OpeningGraph::auto_shapes(self.current_fen.as_str(), &self.graph);
        let mut engine_shapes = self.engine.board_shapes();
        shapes.append(&mut engine_shapes);
        let dests = OpeningGraph::dests_for_moves(moves.as_slice());
        proof {
            let here = moves@.map_values(|m: MoveStat| stat_view(m));
            assert(here.len() == moves@.len());
            assert(moves@.map_values(|m: MoveStat| (m.orig.index, m.dest.index)) =~= here.map_values(
                |m: MoveStatV| (m.orig, m.dest),
            )) by {
                assert forall|i: int| 0 <= i < moves@.len() implies here[i] == stat_view(moves@[i]) by {}
            }
        }
        let step = &self.history[self.history_index];
        let last_move = match (step.orig, step.dest) {
            (Some(o), Some(d)) => Some((o, d)),
            _ => None,
        };
        BoardConfig {
            fen: self.current_fen.clone(),
            orientation: Color::White,
            last_move,
            dests,
            show_dests: self.next_move_count > 0,
            shapes,
            eval: self.engine.eval_patch(),
        }
    }

    /// A move made on the board, given by the last two squares it reports. It counts when
    /// it is not the move already synced and the graph has it from the current position:
    /// then it is appended after the cursor. Whether it counted.
    pub fn on_board_changed(&mut self, last_move: Option<Vec<Key>>) -> (r: bool)
        requires
            old(self).wf(),
        ensures
            final(self).wf(),
            final(self).graph == old(self).graph,
            match last_move {
                Some(keys) if keys@.len() >= 2 && keys_view(old(self).last_synced_move) != Some(
                    (keys@[0].index, keys@[1].index),
                ) => match first_with_squares(old(self).moves_here(), keys@[0].index, keys@[1].index, 0) {
                    Some(i) => r && keys_view(final(self).last_synced_move) == Some((keys@[0].index, keys@[1].index))
                        && steps_view(final(self).history@) == steps_view(
                        old(self).history@.take(old(self).history_index + 1),
                    ).push(move_step(old(self).moves_here()[i])) && final(self).history_index == old(
                        self,
                    ).history_index + 1,
                    None => !r && final(self).history == old(self).history,
                },
                _ => !r && final(self).history == old(self).history,
            },
    {
        let keys = match last_move {
            Some(k) => k,
            None => return false,
        };
        if keys.len() < 2 {
            return false;
        }
        let orig = keys[0];
        let dest = keys[1];
        match self.last_synced_move {
            Some((o, d)) => {
                if o.index == orig.index && d.index == dest.index {
                    return false;
                }
            },
            None => {},
        }
        let moves = self.graph.moves_at(self.current_fen.as_str());
        match find_squares(&moves, orig, dest) {
            None => false,
            Some(i) => {
                let mv = &moves[i];
                assert(moves@.map_values(|m: MoveStat| stat_view(m))[i as int] == stat_view(moves@[i as int]));
                proof {
                    lemma_first_with_squares(moves@.map_values(|m: MoveStat| stat_view(m)), orig.index, dest.index, 0, i as int);
                }
                self.last_synced_move = Some((orig, dest));
                self.append_history_step(mv.target_fen.clone(), mv.san.clone(), orig, dest);
                true
            },
        }
    }

    /// Plays the known move with the given SAN from the current position, if there is one.
    pub fn play_move_san(&mut self, san: &str)
        requires
            old(self).wf(),
        ensures
            final(self).wf(),
            final(self).graph == old(self).graph,
            match first_with_san(old(self).moves_here(), san@, 0) {
                Some(i) => keys_view(final(self).last_synced_move) == Some(
                    (old(self).moves_here()[i].orig, old(self).moves_here()[i].dest),
                ) && steps_view(final(self).history@) == steps_view(
                    old(self).history@.take(old(self).history_index + 1),
                ).push(move_step(old(self).moves_here()[i])) && final(self).history_index == old(self).history_index
                    + 1,
                None => final(self).history == old(self).history && final(self).history_index == old(
                    self,
                ).history_index,
            },
    {
        let moves = self.graph.moves_at(self.current_fen.as_str());
        match find_san(&moves, san) {
            None => {},
            Some(i) => {
                let mv = &moves[i];
                assert(moves@.map_values(|m: MoveStat| stat_view(m))[i as int] == stat_view(moves@[i as int]));
                self.last_synced_move = Some((mv.orig, mv.dest));
                self.append_history_step(mv.target_fen.clone(), mv.san.clone(), mv.orig, mv.dest);
            },
        }
    }

    /// Follows the most played move from the current position, if there is one.
    pub fn go_forward_popular(&mut self)
        requires
            old(self).wf(),
        ensures
            final(self).wf(),
            final(self).graph == old(self).graph,
            old(self).moves_here().len() > 0 ==> steps_view(final(self).history@) == steps_view(
                old(self).history@.take(old(self).history_index + 1),
            ).push(move_step(old(self).moves_here()[0])) && final(self).history_index == old(self).history_index + 1
                && keys_view(final(self).last_synced_move) == Some(
                (old(self).moves_here()[0].orig, old(self).moves_here()[0].dest),
            ),
            old(self).moves_here().len() == 0 ==> final(self).history == old(self).history
                && final(self).history_index == old(self).history_index,
    {
        let moves = self.graph.moves_at(self.current_fen.as_str());
        if moves.len() == 0 {
            return;
        }
        let mv = &moves[0];
        assert(moves@.map_values(|m: MoveStat| stat_view(m))[0] == stat_view(moves@[0]));
        self.last_synced_move = Some((mv.orig, mv.dest));
        self.append_history_step(mv.target_fen.clone(), mv.san.clone(), mv.orig, mv.dest);
    }

    fn append_history_step(&mut self, fen: String, san: String, orig: Key, dest: Key)
        requires
            old(self).wf(),
        ensures
            final(self).wf(),
            final(self).graph == old(self).graph,
            steps_view(final(self).history@) == steps_view(old(self).history@.take(old(self).history_index + 1)).push(
                StepV { fen: fen@, san: Some(san@), orig: Some(orig.index), dest: Some(dest.index) },
            ),
            final(self).history_index == old(self).history_index + 1,
            final(self).last_synced_move == old(self).last_synced_move,
    {
        let step = HistoryStep::after_move(fen.clone(), san, orig, dest);
        let idx = append_step(&mut self.history, self.history_index, step);
        self.history_index = idx;
        self.current_fen = fen;
        assert(self.history@[idx as int].fen@ == fen@) by {
            assert(steps_view(self.history@)[idx as int] == step_view(self.history@[idx as int]));
        }
    }

    /// Moves the cursor to step `index` (ignored past the end).
    pub fn go_to_history(&mut self, index: usize)
        requires
            old(self).wf(),
        ensures
            final(self).wf(),
            final(self).history == old(self).history,
            final(self).graph == old(self).graph,
            index < old(self).history@.len() ==> final(self).history_index == index && keys_view(
                final(self).last_synced_move,
            ) == synced_of(step_view(old(self).history@[index as int])),
            index >= old(self).history@.len() ==> final(self).history_index == old(self).history_index
                && final(self).last_synced_move == old(self).last_synced_move,
    {
        if index >= self.history.len() {
            return;
        }
        self.history_index = index;
        let step = &self.history[index];
        self.current_fen = step.fen.clone();
        self.last_synced_move = match (step.orig, step.dest) {
            (Some(o), Some(d)) => Some((o, d)),
            _ => None,
        };
    }

    /// One step back, when there is one.
    pub fn go_back(&mut self)
        requires
            old(self).wf(),
        ensures
            final(self).wf(),
            final(self).history == old(self).history,
            final(self).graph == old(self).graph,
            final(self).history_index == (if old(self).history_index > 0 {
                old(self).history_index - 1
            } else {
                old(self).history_index as int
            }),
    {
        if self.history_index > 0 {
            self.go_to_history(self.history_index - 1);
        }
    }

    /// Asks a running load to stop.
    pub fn stop_loading(&mut self)
        ensures
            old(self).loading ==> final(self).cancel_load && final(self).status@ == "Stopping…"@,
            !old(self).loading ==> final(self).cancel_load == old(self).cancel_load && final(self).status
                == old(self).status,
            final(self).loading == old(self).loading,
            final(self).history == old(self).history,
            final(self).history_index == old(self).history_index,
            final(self).current_fen == old(self).current_fen,
            final(self).graph == old(self).graph,
    {
        if !self.loading {
            return;
        }
        self.cancel_load = true;
        let mut v: Vec<char> = Vec::new();
        append_str(&mut v, "Stopping…");
        self.status = string_of(v.as_slice());
    }

    pub fn game_count(&self) -> (r: u32)
        ensures
            r == self.graph.games,
    {
        self.graph.game_count()
    }

    /// The deepest book opening along the walk up to the cursor.
    pub fn opening_label(&self) -> (r: String)
        requires
            self.wf(),
        ensures
            r@ == opening_label_of(steps_view(self.history@).take(self.history_index + 1).map_values(|s: StepV| s.fen)),
    {
        history_opening_label(self.history.as_slice(), self.history_index)
    }

    pub fn set_eval_pending(&mut self)
        ensures
            final(self).engine.analyzing,
            final(self).engine.analysis is None,
            final(self).engine.selected_engine_id == old(self).engine.selected_engine_id,
            final(self).history == old(self).history,
            final(self).history_index == old(self).history_index,
            final(self).current_fen == old(self).current_fen,
            final(self).graph == old(self).graph,
    {
        self.engine.set_eval_pending();
    }

    pub fn apply_engine_analysis(&mut self, result: AnalysisResult)
        ensures
            !final(self).engine.analyzing,
            final(self).engine.analysis == Some(result),
            final(self).engine.selected_engine_id == old(self).engine.selected_engine_id,
            final(self).history == old(self).history,
            final(self).history_index == old(self).history_index,
            final(self).current_fen == old(self).current_fen,
            final(self).graph == old(self).graph,
    {
        self.engine.apply_analysis(result);
    }

    pub fn set_engine_analysis_error(&mut self)
        ensures
            !final(self).engine.analyzing,
            final(self).engine.analysis is None,
            final(self).engine.selected_engine_id == old(self).engine.selected_engine_id,
            final(self).history == old(self).history,
            final(self).history_index == old(self).history_index,
            final(self).current_fen == old(self).current_fen,
            final(self).graph == old(self).graph,
    {
        self.engine.clear_analysis();
    }
}

} // verus!
