use novelty::fetch::TimeControlFilter;
use novelty::repertoire_import::{import_loading_status, import_request};
use novelty::analysis_session::{AnalysisPanelTab, AnalysisSession, AnalysisSettings};
use novelty::board::{board_orientation, Arrow, ArrowStyle, EvalBarPosition, EvalPatch};
use novelty::chess::{start_fen, Color, Key};
use novelty::engine_catalog::{
    asset_kind, asset_preferences_for, asset_stem, catalog_engines, choose_binary, format_bytes, install_dir, install_name,
    is_catalog_installed, latest_release_url, resolve_offer, resolve_catalog, sanitize_version, AssetKind, GithubAsset,
};
use novelty::engine_shapes::engine_line_shapes;
use novelty::engine_state::EngineState;
use novelty::engine_uci::{
    eval_from_score, format_score, handshake_line, multipv_value, position_command, AnalysisResult, EngineLine, EvalDisplay,
    HandshakeStep, InfoCollector, InfoEvent, analyze_infos, Score, ScoreBound, ScoreWithBound,
};
use novelty::engines::LocalEngine;
use novelty::fetch::chesscom::chesscom_user;
use novelty::fetch::{LoadPeriod, PlayerColor};
use novelty::graph::OpeningGraph;
use novelty::history::{append_step, opening_label_for};
use novelty::lichess::{classify_request, Callback};
use novelty::move_tree::variation_group_key;
use novelty::opening_explorer::{aggregate_explorer_details, explorer_grand_total, ExplorerMove};
use novelty::performance::simplify_count;
use novelty::pgn::HistoryStep;
use novelty::repertoire::sanitize_filename;
use novelty::session::ProfileSession;
use novelty::tab::{AppTab, TabKind};

fn key(name: &str) -> Key {
    Key::new(name).unwrap()
}

fn cp(v: isize, bound: Option<ScoreBound>) -> ScoreWithBound {
    ScoreWithBound { kind: Score::Centipawns(v), bound }
}

fn mate(v: isize, bound: Option<ScoreBound>) -> ScoreWithBound {
    ScoreWithBound { kind: Score::MateIn(v), bound }
}

fn line(rank: u32, pv: &[&str], eval: Option<EvalDisplay>, score: Option<&str>) -> EngineLine {
    EngineLine { rank, pv: pv.iter().map(|s| s.to_string()).collect(), score: score.map(str::to_string), eval }
}

// ---------------------------------------------------------------- scores

#[test]
fn eval_turns_scores_to_white_side() {
    assert_eq!(eval_from_score(&cp(35, None), Color::White), EvalDisplay::Cp(35));
    assert_eq!(eval_from_score(&cp(35, None), Color::Black), EvalDisplay::Cp(-35));
    assert_eq!(eval_from_score(&mate(3, None), Color::Black), EvalDisplay::Mate(-3));
    assert_eq!(eval_from_score(&mate(500, None), Color::White), EvalDisplay::Mate(127));
    assert_eq!(eval_from_score(&mate(-500, None), Color::White), EvalDisplay::Mate(-127));
}

#[test]
fn format_score_writes_sign_mate_and_bound() {
    assert_eq!(format_score(&cp(34, None)), "+34 cp");
    assert_eq!(format_score(&cp(0, None)), "+0 cp");
    assert_eq!(format_score(&cp(-5, Some(ScoreBound::UpperBound))), "-5 cp ≤");
    assert_eq!(format_score(&mate(3, None)), "M3");
    assert_eq!(format_score(&mate(-2, Some(ScoreBound::LowerBound))), "M-2 ≥");
}

#[test]
fn summary_and_best_eval() {
    let empty = AnalysisResult { lines: Vec::new(), depth: 10 };
    assert_eq!(empty.summary(), "No analysis");
    assert_eq!(empty.best_eval(), None);
    let result = AnalysisResult {
        lines: vec![line(1, &["e2e4", "e7e5"], Some(EvalDisplay::Cp(20)), Some("+20 cp")), line(2, &["d2d4"], None, None)],
        depth: 12,
    };
    assert_eq!(result.summary(), "#1 e2e4 · +20 cp · depth 12");
    assert_eq!(result.best_eval(), Some(EvalDisplay::Cp(20)));
    let unscored = AnalysisResult { lines: vec![line(1, &[], None, None)], depth: 3 };
    assert_eq!(unscored.summary(), "#1  · depth 3");
}

#[test]
fn multipv_is_clamped_and_position_is_a_fen_command() {
    assert_eq!(multipv_value(0), "1");
    assert_eq!(multipv_value(3), "3");
    assert_eq!(multipv_value(50), "10");
    assert_eq!(position_command("8/8/8/8/8/8/8/K1k5 w - -"), "position fen 8/8/8/8/8/8/8/K1k5 w - -");
}

// ---------------------------------------------------------------- a search

fn pv(moves: &[&str]) -> Vec<String> {
    moves.iter().map(|s| s.to_string()).collect()
}

#[test]
fn collector_keeps_deepest_lines_by_rank() {
    let mut c = InfoCollector::new(Color::White);
    c.on_info(Some(5), Some(2), pv(&["d2d4"]), Some(cp(10, None)));
    c.on_info(Some(5), None, pv(&["e2e4"]), Some(cp(30, None)));
    c.on_info(Some(4), Some(3), pv(&["c2c4"]), None);
    c.on_info(None, Some(3), pv(&["g1f3"]), None);
    c.on_info(Some(5), Some(1), pv(&["e2e4", "e7e5"]), Some(cp(25, None)));
    let result = c.finish(8).unwrap();
    assert_eq!(result.depth, 8);
    assert_eq!(result.lines.len(), 2);
    assert_eq!(result.lines[0].rank, 1);
    assert_eq!(result.lines[0].pv, pv(&["e2e4", "e7e5"]));
    assert_eq!(result.lines[0].score.as_deref(), Some("+25 cp"));
    assert_eq!(result.lines[1].rank, 2);
    assert_eq!(result.lines[1].eval, Some(EvalDisplay::Cp(10)));
}

#[test]
fn collector_drops_lines_when_deeper_report_comes() {
    let mut c = InfoCollector::new(Color::Black);
    c.on_info(Some(3), Some(1), pv(&["e7e5"]), Some(cp(10, None)));
    c.on_info(Some(3), Some(2), pv(&["c7c5"]), Some(cp(5, None)));
    c.on_info(Some(4), Some(2), pv(&["d7d5"]), Some(cp(8, None)));
    let result = c.finish(2).unwrap();
    assert_eq!(result.depth, 4);
    assert_eq!(result.lines.len(), 1);
    assert_eq!(result.lines[0].rank, 2);
    assert_eq!(result.lines[0].eval, Some(EvalDisplay::Cp(-8)));
}

#[test]
fn collector_without_lines_is_an_error() {
    let mut c = InfoCollector::new(Color::White);
    c.on_info(Some(6), Some(1), Vec::new(), Some(cp(10, None)));
    assert_eq!(c.finish(6).unwrap_err(), "Engine returned no analysis lines");
}

#[test]
fn handshake_reads_name_until_uciok() {
    let step = handshake_line(None, Some("id name Stockfish 17\n")).unwrap();
    let name = match step {
        HandshakeStep::Continue(n) => n,
        HandshakeStep::Done(_) => panic!("not done yet"),
    };
    assert_eq!(name.as_deref(), Some("Stockfish 17"));
    match handshake_line(name.clone(), Some("option name Hash type spin")).unwrap() {
        HandshakeStep::Continue(n) => assert_eq!(n, name),
        HandshakeStep::Done(_) => panic!("not done yet"),
    }
    match handshake_line(name, Some("  uciok  ")).unwrap() {
        HandshakeStep::Done(n) => assert_eq!(n, "Stockfish 17"),
        HandshakeStep::Continue(_) => panic!("done"),
    }
    match handshake_line(None, Some("uciok")).unwrap() {
        HandshakeStep::Done(n) => assert_eq!(n, "UCI engine"),
        HandshakeStep::Continue(_) => panic!("done"),
    }
    assert_eq!(handshake_line(None, None).unwrap_err(), "Engine closed connection during UCI handshake");
}

// ---------------------------------------------------------------- arrows and the bar

#[test]
fn engine_arrows_follow_first_moves() {
    let result = AnalysisResult {
        lines: vec![line(1, &["e2e4"], None, None), line(2, &["0000"], None, None), line(3, &["g1f3"], None, None)],
        depth: 1,
    };
    let arrows = engine_line_shapes(&result);
    assert_eq!(
        arrows,
        vec![
            Arrow { orig: key("e2"), dest: key("e4"), style: ArrowStyle::Engine(0) },
            Arrow { orig: key("g1"), dest: key("f3"), style: ArrowStyle::Engine(2) },
        ]
    );
}

#[test]
fn engine_state_bar_and_arrows() {
    let mut state = EngineState {
        selected_engine_id: None,
        analyzing: false,
        analysis: None,
        settings: AnalysisSettings::default(),
    };
    assert_eq!(state.eval_patch(), Some(EvalPatch { enabled: Some(false), position: None, display: None }));
    state.selected_engine_id = Some("sf".into());
    state.set_eval_pending();
    assert_eq!(
        state.eval_patch(),
        Some(EvalPatch { enabled: Some(true), position: Some(EvalBarPosition::Left), display: Some(None) })
    );
    state.apply_analysis(AnalysisResult { lines: vec![line(1, &["e2e4"], Some(EvalDisplay::Mate(2)), None)], depth: 9 });
    assert_eq!(
        state.eval_patch(),
        Some(EvalPatch {
            enabled: Some(true),
            position: Some(EvalBarPosition::Left),
            display: Some(Some(EvalDisplay::Mate(2)))
        })
    );
    assert_eq!(state.board_shapes().len(), 1);
    state.settings.show_engine_lines = false;
    assert!(state.board_shapes().is_empty());
    state.clear_analysis();
    assert!(state.analysis.is_none() && !state.analyzing);
}

#[test]
fn board_faces_the_player() {
    assert_eq!(board_orientation(PlayerColor::White), Color::White);
    assert_eq!(board_orientation(PlayerColor::Black), Color::Black);
}

// ---------------------------------------------------------------- game analysis

#[test]
fn analysis_session_loads_pgn_once() {
    let mut s = AnalysisSession::new(7);
    assert_eq!(s.label, "Game Analysis");
    assert_eq!(s.status, "Paste PGN or play moves on the board");
    assert_eq!(s.settings, AnalysisSettings { depth: 16, line_count: 3, show_engine_lines: true });
    assert!(!s.try_load_pgn_from_text("   "));
    assert!(s.try_load_pgn_from_text("  1. e4 e5 2. Nf3  "));
    assert_eq!(s.status, "3 moves loaded");
    assert_eq!(s.history.len(), 4);
    assert_eq!(s.history_index, 0);
    assert!(!s.try_load_pgn_from_text("1. e4 e5 2. Nf3"));
    assert!(!s.try_load_pgn_from_text("1. e4 Ke5"));
    assert!(s.status.starts_with("illegal move in position") || s.status.starts_with("invalid SAN"));
    assert_eq!(s.history.len(), 4);
}

#[test]
fn analysis_session_navigates_and_appends() {
    let mut s = AnalysisSession::new(1);
    assert!(s.try_load_pgn_from_text("1. e4 e5 2. Nf3"));
    s.go_forward();
    s.go_forward();
    assert_eq!(s.history_index, 2);
    assert_eq!(s.current_fen, s.history[2].fen);
    s.go_back();
    assert_eq!(s.history_index, 1);
    s.go_to_history(99);
    assert_eq!(s.history_index, 1);
    assert!(s.on_board_changed(Some(vec![key("c7"), key("c5")])));
    assert_eq!(s.history.len(), 3);
    assert_eq!(s.history_index, 2);
    assert_eq!(s.history[2].san.as_deref(), Some("c5"));
    assert_eq!(s.status, "Move 2 · play on board or paste PGN");
    assert!(!s.on_board_changed(Some(vec![key("c7"), key("c5")])));
    assert!(!s.on_board_changed(Some(vec![key("a1"), key("a8")])));
    assert!(!s.on_board_changed(None));
    s.go_back();
    assert_eq!(s.history_index, 1);
    assert_eq!(s.opening_label(), "B00 · King's Pawn Game");
}

#[test]
fn analysis_results_and_errors() {
    let mut s = AnalysisSession::new(1);
    s.set_analysis_pending();
    assert!(s.analyzing);
    s.apply_analysis(AnalysisResult { lines: Vec::new(), depth: 1 });
    assert!(!s.analyzing && s.analysis.is_some());
    s.set_analysis_error("engine crashed".into());
    assert!(s.analysis.is_none());
    assert_eq!(s.status, "engine crashed");
    let board = s.refresh_board();
    assert_eq!(board.fen, start_fen());
    assert!(board.last_move.is_none());
    assert_eq!(board.dests.len(), 10);
}

#[test]
fn panel_tab_indexes() {
    assert_eq!(AnalysisPanelTab::Engine.index(), 0);
    assert_eq!(AnalysisPanelTab::Game.index(), 1);
    assert_eq!(AnalysisPanelTab::from_index(1), AnalysisPanelTab::Game);
    assert_eq!(AnalysisPanelTab::from_index(7), AnalysisPanelTab::Engine);
    for tab in [AnalysisPanelTab::Engine, AnalysisPanelTab::Game] {
        assert_eq!(AnalysisPanelTab::from_index(tab.index()), tab);
    }
}

// ---------------------------------------------------------------- opening tree tab

#[test]
fn profile_session_walks_the_graph() {
    let mut s = ProfileSession::new(3, "tab".into());
    s.reset_for_load("DrNykterstein".into());
    assert_eq!(s.label, "DrNykterstein");
    assert!(s.loading);
    s.graph.add_game_san("e4 e5 Nf3").unwrap();
    s.graph.add_game_san("e4 c5").unwrap();
    s.graph.add_game_san("d4 d5").unwrap();
    let board = s.refresh_board();
    assert_eq!(s.next_move_count, 2);
    assert!(board.show_dests);
    assert_eq!(board.shapes[0], Arrow { orig: key("e2"), dest: key("e4"), style: ArrowStyle::Frequency(3) });
    s.go_forward_popular();
    assert_eq!(s.history_index, 1);
    assert_eq!(s.history[1].san.as_deref(), Some("e4"));
    s.play_move_san("c5");
    assert_eq!(s.history[2].san.as_deref(), Some("c5"));
    s.play_move_san("Qh5");
    assert_eq!(s.history.len(), 3);
    s.go_back();
    s.go_back();
    assert_eq!(s.history_index, 0);
    assert!(s.on_board_changed(Some(vec![key("d2"), key("d4")])));
    assert_eq!(s.history.len(), 2);
    assert_eq!(s.history[1].san.as_deref(), Some("d4"));
    assert!(!s.on_board_changed(Some(vec![key("g1"), key("f3")])));
    s.stop_loading();
    assert!(s.cancel_load);
    assert_eq!(s.status, "Stopping…");
    assert_eq!(s.game_count(), 3);
}

// ---------------------------------------------------------------- tabs

#[test]
fn tab_kinds_and_tabs() {
    assert_eq!(TabKind::GameAnalysis.label(), "Game Analysis");
    assert_eq!(TabKind::OpeningTree.tile_id(), "opening-tree");
    assert_eq!(TabKind::Engine.description(), "Load chess engine binaries");
    assert_eq!(TabKind::game_modes().len(), 5);
    assert_eq!(TabKind::tool_modes(), vec![TabKind::Database, TabKind::Engine, TabKind::Settings]);
    assert!(TabKind::OpeningTree.is_implemented());
    assert!(!TabKind::Puzzle.is_implemented());
    let home = AppTab::Home { id: 4 };
    assert_eq!(home.id(), 4);
    assert_eq!(home.label(), "Home");
    assert_eq!(AppTab::Engines { id: 5 }.label(), "Engine");
    let tab = AppTab::GameAnalysis { id: 9, session: AnalysisSession::new(9) };
    assert_eq!(tab.label(), "Game Analysis");
    assert!(tab.game_analysis().is_some());
    assert!(tab.opening_tree().is_none());
}

// ---------------------------------------------------------------- history

#[test]
fn appending_drops_the_steps_after_the_cursor() {
    let mut h = vec![
        HistoryStep::start("a".into()),
        HistoryStep::start("b".into()),
        HistoryStep::start("c".into()),
    ];
    let i = append_step(&mut h, 0, HistoryStep::after_move("d".into(), "e4".into(), key("e2"), key("e4")));
    assert_eq!(i, 1);
    assert_eq!(h.len(), 2);
    assert_eq!(h[0].fen, "a");
    assert_eq!(h[1].fen, "d");
    assert_eq!(opening_label_for(&["not a fen".to_string()]), "Unknown opening");
}

#[test]
fn variation_group_keys() {
    assert_eq!(variation_group_key(&[]), "root");
    assert_eq!(variation_group_key(&[0]), "0");
    assert_eq!(variation_group_key(&[1, 0, 12]), "1-0-12");
}

// ---------------------------------------------------------------- counts

#[test]
fn counts_are_shortened() {
    assert_eq!(simplify_count(0), "0");
    assert_eq!(simplify_count(9_999), "9999");
    assert_eq!(simplify_count(10_000), "10k");
    assert_eq!(simplify_count(12_499), "12k");
    assert_eq!(simplify_count(12_500), "13k");
    assert_eq!(simplify_count(999_999), "1000k");
    assert_eq!(simplify_count(1_000_000), "1.0M");
    assert_eq!(simplify_count(1_360_000), "1.4M");
    assert_eq!(simplify_count(1_050_000), "1.1M");
    assert_eq!(simplify_count(1_150_000), "1.1M");
    assert_eq!(simplify_count(1_250_000), "1.2M");
    assert_eq!(simplify_count(1_350_000), "1.4M");
    assert_eq!(simplify_count(2_050_000), "2.0M");
    assert_eq!(simplify_count(3_450_000), "3.5M");
    assert_eq!(simplify_count(12_650_000), "12.7M");
    assert_eq!(simplify_count(4_294_950_000), "4294.9M");
    assert_eq!(simplify_count(u32::MAX), "4295.0M");
}

#[test]
fn aggregate_results_make_up_the_grand_total() {
    let moves = vec![
        ExplorerMove { san: "e4".into(), white: 3, black: 4, draws: 5 },
        ExplorerMove { san: "c4".into(), white: 0, black: 1, draws: 0 },
    ];
    let d = aggregate_explorer_details(&moves);
    assert_eq!(d.white_wins + d.black_wins + d.draws, explorer_grand_total(&moves));
}

// ---------------------------------------------------------------- catalog

fn asset(name: &str, size: u64) -> GithubAsset {
    GithubAsset { name: name.into(), browser_download_url: format!("https://example.org/{name}"), size }
}

#[test]
fn catalog_lists_three_engines() {
    let ids: Vec<&str> = catalog_engines().iter().map(|e| e.id).collect();
    assert_eq!(ids, vec!["stockfish", "reckless", "lc0"]);
    assert_eq!(
        latest_release_url("official-stockfish/Stockfish"),
        "https://api.github.com/repos/official-stockfish/Stockfish/releases/latest"
    );
}

#[test]
fn asset_preferences_by_platform() {
    assert_eq!(asset_preferences_for("stockfish", "macos", "aarch64"), vec!["stockfish-macos-m1-apple-silicon.tar"]);
    assert_eq!(asset_preferences_for("reckless", "linux", "x86_64"), vec!["reckless-linux-avx2", "reckless-linux-generic"]);
    assert!(asset_preferences_for("lc0", "linux", "x86_64").is_empty());
}

#[test]
fn offers_pick_the_first_preference_found() {
    let engine = catalog_engines()[0];
    let assets = vec![
        asset("stockfish-ubuntu-x86-64.tar", 10),
        asset("stockfish-ubuntu-x86-64-sse41-popcnt.tar", 20),
    ];
    let prefs = asset_preferences_for("stockfish", "linux", "x86_64");
    let offer = resolve_offer(engine, "sf_17".into(), &assets, &prefs);
    assert!(offer.available);
    assert_eq!(offer.asset_name, "stockfish-ubuntu-x86-64-sse41-popcnt.tar");
    assert_eq!(offer.size, Some(20));
    let lc0 = catalog_engines()[2];
    let wild = vec![asset("lc0-v0.31.2-windows-cpu-dnnl.zip", 5)];
    let prefs = asset_preferences_for("lc0", "windows", "x86_64");
    // A `*` inside a name is no wildcard: only a trailing one is.
    assert!(!resolve_offer(lc0, "v0.31.2".into(), &wild, &prefs).available);
    let offer = resolve_offer(lc0, "v0.31.2".into(), &wild, &["lc0-v0.31*"]);
    assert_eq!(offer.asset_name, "lc0-v0.31.2-windows-cpu-dnnl.zip");
    let none = resolve_offer(lc0, "v0.31.2".into(), &wild, &[]);
    assert!(!none.available);
    assert_eq!(none.size, None);
    assert_eq!(install_name(&none).unwrap_err(), "Leela Chess Zero is not available for this platform");
    assert_eq!(install_name(&offer).unwrap(), "Leela Chess Zero v0.31.2");
    assert_eq!(install_dir("/cfg/engines", &offer), "/cfg/engines/lc0/v0.31.2");
}

#[test]
fn resolving_stops_at_the_first_failed_lookup() {
    let releases = vec![
        Ok(("sf_17".to_string(), vec![asset("stockfish-ubuntu-x86-64-avx2.tar", 1)])),
        Err("GitHub API error: 403".to_string()),
        Err("second".to_string()),
    ];
    assert_eq!(resolve_catalog(releases, "linux", "x86_64").unwrap_err(), "GitHub API error: 403");
    let releases = vec![
        Ok(("sf_17".to_string(), vec![asset("stockfish-ubuntu-x86-64-avx2.tar", 1)])),
        Ok(("v0.9.0".to_string(), Vec::new())),
        Ok(("v0.31.2".to_string(), Vec::new())),
    ];
    let offers = resolve_catalog(releases, "linux", "x86_64").unwrap();
    assert_eq!(offers.len(), 3);
    assert!(offers[0].available);
    assert!(!offers[1].available);
    assert_eq!(offers[2].engine.id, "lc0");
}

#[test]
fn catalog_files_and_names() {
    assert_eq!(sanitize_version("v1.2/beta 3"), "v1.2_beta_3");
    assert_eq!(asset_stem("stockfish-ubuntu-x86-64.tar"), "stockfish-ubuntu-x86-64");
    assert_eq!(asset_stem("lc0.zip.zip"), "lc0");
    assert_eq!(asset_kind("a.zip"), AssetKind::Zip);
    assert_eq!(asset_kind("a.tar"), AssetKind::Tar);
    assert_eq!(asset_kind("reckless-macos"), AssetKind::Plain);
    let names = vec!["README.md".to_string(), "stockfish-avx2".to_string()];
    assert_eq!(choose_binary(&names, &[false, true], "stockfish"), Some(1));
    assert_eq!(choose_binary(&names, &[true, false], "lc0"), Some(0));
    assert_eq!(choose_binary(&names, &[false, false], "lc0"), None);
    assert_eq!(choose_binary(&names[..1], &[false], "lc0"), Some(0));
    let engines = vec![LocalEngine {
        id: "/cfg/engines/stockfish/sf_17/sf".into(),
        name: "Stockfish sf_17".into(),
        path: "/cfg/engines/stockfish/sf_17/sf".into(),
    }];
    assert!(is_catalog_installed(&engines, "/cfg/engines", "stockfish", &[true]));
    assert!(!is_catalog_installed(&engines, "/cfg/engines", "stockfish", &[false]));
    assert!(!is_catalog_installed(&engines, "/cfg/engines", "lc0", &[true]));
}

#[test]
fn byte_sizes() {
    assert_eq!(format_bytes(512), "512 B");
    assert_eq!(format_bytes(1024), "1.0 KB");
    assert_eq!(format_bytes(1536), "1.5 KB");
    assert_eq!(format_bytes(1024 * 1024), "1.0 MB");
    assert_eq!(format_bytes(5 * 1024 * 1024 * 1024), "5.0 GB");
    assert_eq!(format_bytes(1024 + 51), "1.0 KB");
    assert_eq!(format_bytes(1024 + 52), "1.1 KB");
}

// ---------------------------------------------------------------- outside calls

#[test]
fn redirect_values_are_url_decoded() {
    match classify_request("/callback?code=a%20b%2Fc&state=xyz", "xyz") {
        Callback::Code(code) => assert_eq!(code, "a b/c"),
        _ => panic!("expected a code"),
    }
    match classify_request("/callback?error=access%20denied", "xyz") {
        Callback::Denied(e) => assert_eq!(e, "authorization denied: access denied"),
        _ => panic!("expected a denial"),
    }
    assert!(matches!(classify_request("/callback?code=a&state=other", "xyz"), Callback::Ignore));
}

#[test]
fn chesscom_user_is_trimmed_and_lowercased() {
    assert_eq!(chesscom_user("  MagnusC "), "magnusc");
}

#[test]
fn sanitize_keeps_unicode_letters() {
    assert_eq!(sanitize_filename("Café Noir!"), "Café_Noir_");
}

#[test]
fn periods_start_months_before() {
    let now = 1_749_945_600_000i64;
    assert_eq!(LoadPeriod::ThreeMonths.since_millis_at(now), Some(1_741_996_800_000));
    assert_eq!(LoadPeriod::ThreeMonths.since_year_month_at(now), Some((2025, 3)));
    assert_eq!(LoadPeriod::All.since_millis_at(now), None);
    assert_eq!(LoadPeriod::OneYear.since_year_month_at(now), Some((2024, 6)));
}

#[test]
fn empty_graph_has_no_moves() {
    let g = OpeningGraph::new();
    assert!(g.moves_at(&start_fen()).is_empty());
    assert_eq!(g.game_count(), 0);
}

#[test]
fn analysis_board_offers_the_legal_moves() {
    let s = AnalysisSession::new(3);
    let board = s.refresh_board();
    let total: usize = board.dests.iter().map(|(_, ds)| ds.len()).sum();
    assert_eq!(total, 20);
    assert_eq!(board.dests.len(), 10);
    assert!(board.show_dests);
}

#[test]
fn file_names_keep_ascii_letters_digits_dashes_and_underscores() {
    assert_eq!(sanitize_filename("My Rep!"), "My_Rep_");
    assert_eq!(sanitize_filename("  caro  "), "caro");
    assert_eq!(sanitize_filename("Caro-Kann_2"), "Caro-Kann_2");
    assert_eq!(sanitize_filename("   "), "");
}

#[test]
fn import_needs_a_file_a_user_and_a_time_control() {
    let all = TimeControlFilter::all_enabled();
    assert_eq!(import_request(false, "bob", all), Err("Create or open a repertoire file first".to_string()));
    assert_eq!(import_request(true, "   ", all), Err("Enter a Lichess / Chess.com username".to_string()));
    let none = TimeControlFilter { bullet: false, blitz: false, rapid: false, classical: false };
    assert_eq!(
        import_request(true, "bob", none),
        Err("Select at least one time control below (Bullet, Blitz, …)".to_string())
    );
    assert_eq!(import_request(true, "  bob ", all), Ok("bob".to_string()));
    assert_eq!(
        import_loading_status("bob", PlayerColor::Black, LoadPeriod::All),
        "Loading bob as black at current position (all games)…"
    );
}

#[test]
fn a_whole_search_keeps_the_last_deepest_line_of_each_rank() {
    let ev = |d: Option<u32>, r: Option<usize>, moves: &[&str], s: Option<ScoreWithBound>| InfoEvent { depth: d, multi_pv: r, pv: pv(moves), score: s };
    let infos = vec![
        ev(Some(3), Some(1), &["e2e4"], Some(cp(10, None))),
        ev(Some(6), Some(2), &["d2d4"], Some(cp(5, None))),
        ev(Some(6), None, &["e2e4"], Some(cp(20, None))),
        ev(Some(5), Some(3), &["c2c4"], None),
        ev(Some(6), Some(2), &["g1f3"], Some(cp(7, None))),
        ev(Some(6), Some(3), &[], None),
    ];
    let result = analyze_infos(Color::White, &infos, 4).unwrap();
    assert_eq!(result.depth, 6);
    assert_eq!(result.lines.len(), 2);
    assert_eq!(result.lines[0].pv, pv(&["e2e4"]));
    assert_eq!(result.lines[1].pv, pv(&["g1f3"]));
    assert_eq!(result.lines[1].rank, 2);
    let none = vec![ev(Some(2), None, &[], None)];
    assert_eq!(analyze_infos(Color::White, &none, 4).err().as_deref(), Some("Engine returned no analysis lines"));
}
