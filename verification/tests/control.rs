use novelty::chess::{play_move_keys, start_fen, Key};
use novelty::engine_uci::{AnalysisResult, EngineLine};
use novelty::fetch::{LoadPeriod, LoadedGame, PlayerColor, StreamOutcome, TimeControlFilter};
use novelty::graph::GameMeta;
use novelty::loading::{load_finished, load_request, loading_status, progress_status};
use novelty::move_tree::MoveTree;
use novelty::opening_explorer::{ExplorerMove, ExplorerState};
use novelty::repertoire_import::finish_import;
use novelty::uci_control::{
    analysis_settings_for_target, AnalysisTarget, UciAction, UciConnectionStatus, UciControl, UciEvent,
};

fn key(name: &str) -> Key {
    Key::new(name).unwrap()
}

// ---------------------------------------------------------------- loading

#[test]
fn load_requests_need_a_name_and_a_speed() {
    let all = TimeControlFilter::all_enabled();
    let none = TimeControlFilter { bullet: false, blitz: false, rapid: false, classical: false };
    assert_eq!(load_request("  Hikaru ", all), Ok("Hikaru".to_string()));
    assert_eq!(load_request("   ", all), Err("Username required".to_string()));
    assert_eq!(load_request("Hikaru", none), Err("Select at least one time control".to_string()));
}

#[test]
fn loading_statuses() {
    assert_eq!(loading_status("Hikaru", LoadPeriod::ThreeMonths), "Loading Hikaru (last 3 mo)…");
    assert_eq!(loading_status("Hikaru", LoadPeriod::All), "Loading Hikaru (all games)…");
    assert_eq!(
        progress_status("Hikaru", LoadPeriod::OneMonth, 120, 3),
        "Hikaru — loading (last 1 mo)… 120 games (3 skipped)"
    );
    assert_eq!(
        load_finished("Hikaru", &Ok((StreamOutcome::Completed, 10)), 10, 0),
        ("Hikaru — 10 games loaded (0 skipped)".to_string(), true)
    );
    assert_eq!(
        load_finished("Hikaru", &Ok((StreamOutcome::Cancelled, 4)), 4, 1),
        ("Hikaru — stopped at 4 games (1 skipped)".to_string(), true)
    );
    assert_eq!(
        load_finished("Hikaru", &Err("network down".to_string()), 7, 0),
        ("network down — kept 7 games (0 skipped)".to_string(), true)
    );
    assert_eq!(load_finished("Hikaru", &Err("network down".to_string()), 0, 0), ("network down".to_string(), false));
}

// ---------------------------------------------------------------- engine connections

fn result(depth: u32, lines: usize) -> AnalysisResult {
    AnalysisResult {
        lines: (0..lines)
            .map(|i| EngineLine { rank: i as u32 + 1, pv: vec!["e2e4".to_string()], score: None, eval: None })
            .collect(),
        depth,
    }
}

#[test]
fn analysis_waits_for_the_connection() {
    let mut c = UciControl::new();
    let target = Some(AnalysisTarget::GameAnalysis(3));
    let a = c.run_analysis(target, "sf", "fen1".into(), Some("/bin/sf".into()), (18, 2));
    assert!(matches!(a, UciAction::Connect { ref engine_id, ref path } if engine_id == "sf" && path == "/bin/sf"));
    assert_eq!(c.uci_state("sf").status, UciConnectionStatus::Connecting);
    assert_eq!(c.engine_status, "Connecting to UCI engine…");
    // A second request while connecting does not connect again.
    let again = c.run_analysis(target, "sf", "fen2".into(), Some("/bin/sf".into()), (18, 2));
    assert!(matches!(again, UciAction::Nothing));
    let a = c.on_connected("sf", Ok("Stockfish 17".into()), (18, 2));
    match a {
        UciAction::Analyze { engine_id, fen, depth, line_count } => {
            assert_eq!((engine_id.as_str(), fen.as_str(), depth, line_count), ("sf", "fen2", 18, 2));
        }
        other => panic!("expected an analysis, got {other:?}"),
    }
    assert_eq!(c.engine_status, "Analyzing (depth 18, 2 lines)…");
    let state = c.uci_state("sf");
    assert_eq!(state.status, UciConnectionStatus::Analyzing);
    assert_eq!(state.identity, "Stockfish 17");
    match c.on_event("sf", UciEvent::Analysis(result(18, 2))) {
        UciAction::Apply { target: t, status, result } => {
            assert_eq!(t, AnalysisTarget::GameAnalysis(3));
            assert_eq!(status, "Depth 18 · 2 engine lines");
            assert_eq!(result.lines.len(), 2);
        }
        other => panic!("expected a result, got {other:?}"),
    }
    assert_eq!(c.uci_state("sf").status, UciConnectionStatus::Connected);
    assert_eq!(c.engine_status, "#1 e2e4 · depth 18");
    assert!(c.pending.is_none());
}

#[test]
fn failures_reach_the_waiting_tab() {
    let mut c = UciControl::new();
    let target = Some(AnalysisTarget::OpeningTree(5));
    let a = c.run_analysis(target, "lc0", "fen".into(), None, (14, 3));
    assert!(matches!(a, UciAction::Fail { target: t, ref message } if t == target && message == "Engine not found — add one in the Engine tab"));
    let _ = c.run_analysis(target, "lc0", "fen".into(), Some("/bin/lc0".into()), (14, 3));
    let a = c.on_connected("lc0", Err("Failed to start engine: no such file".into()), (14, 3));
    assert!(matches!(a, UciAction::Fail { target: t, ref message } if t == target && message.starts_with("Failed to start")));
    let state = c.uci_state("lc0");
    assert_eq!(state.status, UciConnectionStatus::Error);
    assert!(c.pending.is_none());
    let a = c.dispatch(target, "lc0", "fen".into(), (14, 3));
    assert!(matches!(a, UciAction::Fail { ref message, .. } if message == "Connect to the engine first"));
}

#[test]
fn engine_errors_and_disconnections() {
    let mut c = UciControl::new();
    assert!(c.begin_connect("sf"));
    assert!(!c.begin_connect("sf"));
    let a = c.on_poll_closed("sf");
    assert!(matches!(a, UciAction::Nothing));
    assert_eq!(c.uci_state("sf").last_result, "Engine connection failed unexpectedly");
    let _ = c.on_connected("sf", Ok("SF".into()), (1, 1));
    let a = c.run_analysis(None, "sf", "fen".into(), None, (16, 1));
    assert!(matches!(a, UciAction::Analyze { .. }));
    let a = c.on_event("sf", UciEvent::Error("Analysis failed: broken pipe".into()));
    assert!(matches!(a, UciAction::Fail { target: None, ref message } if message == "Analysis failed: broken pipe"));
    assert_eq!(c.uci_state("sf").status, UciConnectionStatus::Error);
    let a = c.on_event("sf", UciEvent::Disconnected);
    assert!(matches!(a, UciAction::Nothing));
    assert_eq!(c.engine_status, "Engine disconnected");
    assert_eq!(c.uci_state("sf").status, UciConnectionStatus::Disconnected);
    let _ = c.on_connected("sf", Ok("SF".into()), (1, 1));
    assert!(matches!(c.disconnect("sf"), UciAction::Disconnect { ref engine_id } if engine_id == "sf"));
    assert!(matches!(c.disconnect("sf"), UciAction::Nothing));
}

#[test]
fn settings_follow_the_target() {
    assert_eq!(analysis_settings_for_target(Some(AnalysisTarget::GameAnalysis(1)), Some((20, 4)), None), (20, 4));
    assert_eq!(analysis_settings_for_target(Some(AnalysisTarget::GameAnalysis(1)), None, Some((9, 9))), (16, 3));
    assert_eq!(analysis_settings_for_target(Some(AnalysisTarget::OpeningTree(1)), None, None), (14, 3));
    assert_eq!(analysis_settings_for_target(None, Some((20, 4)), Some((9, 9))), (16, 1));
}

// ---------------------------------------------------------------- explorer

#[test]
fn explorer_refreshes_only_when_due() {
    let mut e = ExplorerState::default();
    assert_eq!(e.refresh_if_needed("fen-a", true), Some(1));
    assert!(e.loading);
    assert_eq!(e.refresh_if_needed("fen-b", true), None);
    e.apply_moves(1, "fen-a".into(), vec![ExplorerMove { san: "e4".into(), white: 1, black: 2, draws: 3 }]);
    assert!(!e.loading);
    assert_eq!(e.refresh_if_needed("fen-a", true), None);
    assert_eq!(e.refresh_if_needed("fen-b", false), None);
    assert_eq!(e.request_id, 2);
    assert!(e.moves.is_empty());
    assert_eq!(e.error.as_deref(), Some("Log in to Lichess in Settings to use Opening Explorer."));
}

// ---------------------------------------------------------------- importing lines

fn pgn_game(movetext: &str) -> LoadedGame {
    LoadedGame::Pgn {
        pgn: format!("[Event \"Test\"]\n[White \"A\"]\n[Black \"B\"]\n\n{movetext}"),
        meta: GameMeta::default(),
    }
}

fn tree_after_e4() -> MoveTree {
    let mut tree = MoveTree::new();
    let (fen, san, o, d) = play_move_keys(&start_fen(), &key("e2"), &key("e4")).unwrap();
    tree.make_step(fen, san, o, d);
    tree
}

#[test]
fn import_merges_new_lines() {
    let mut tree = tree_after_e4();
    let games = vec![pgn_game("1. e4 e5 2. Nf3 Nc6 *"), pgn_game("1. e4 c5 2. Nf3 d6 *")];
    let anchor = tree.current().fen.clone();
    let path = tree.position.clone();
    let out = finish_import(&mut tree, Ok((StreamOutcome::Completed, 2)), &games, anchor, &path, 2, PlayerColor::White);
    assert!(out.merged);
    assert_eq!(out.games_loaded, 2);
    assert!(out.status.starts_with("Imported 2 lines (4 plies) from 2 games at "), "{}", out.status);
    assert_eq!(tree.root.children[0].children.len(), 2);
    let anchor = tree.current().fen.clone();
    let out = finish_import(&mut tree, Ok((StreamOutcome::Cancelled, 2)), &games, anchor, &path, 2, PlayerColor::White);
    assert!(out.merged);
    assert!(out.status.contains("all 2 candidate lines already in repertoire"), "{}", out.status);
}

#[test]
fn import_without_games_or_lines_changes_nothing() {
    let mut tree = tree_after_e4();
    let anchor = tree.current().fen.clone();
    let path = tree.position.clone();
    let out = finish_import(&mut tree, Err("network down".into()), &[], anchor.clone(), &path, 4, PlayerColor::White);
    assert!(!out.merged);
    assert_eq!(out.status, "network down");
    let out = finish_import(&mut tree, Ok((StreamOutcome::Completed, 0)), &[], anchor.clone(), &path, 4, PlayerColor::Black);
    assert_eq!(out.status, "No games as black in this period — try a longer period or check repertoire color");
    let games = vec![pgn_game("1. d4 d5 *")];
    let out = finish_import(&mut tree, Ok((StreamOutcome::Completed, 1)), &games, anchor, &path, 4, PlayerColor::White);
    assert!(!out.merged);
    assert_eq!(out.status, "Loaded 1 games at B00 · King's Pawn Game — no games contain this position");
    assert!(tree.root.children[0].children.is_empty());
}
