use novelty::chess::{play_move_keys, play_san_at, uci_parses, uci_squares, start_fen, turn_color, Color, Key};
use novelty::engines::{display_path, insert_engine, LocalEngine};
use novelty::fetch::chesscom::{archive_in_period, chesscom_speed};
use novelty::fetch::lichess::next_lichess_until;
use novelty::fetch::{LoadedGame, PlayerColor, TimeControlFilter};
use novelty::graph::{level_for, GameMeta, GameResult, MoveNotation, MoveStat, OpeningGraph, PositionDetails};
use novelty::lichess::{token_for_username, LichessSession};
use novelty::move_tree::MoveTree;
use novelty::opening_book::{lookup_fen, lookup_fens, setup_after_pgn, setup_from_fen};
use novelty::opening_explorer::{aggregate_explorer_details, explorer_grand_total, explorer_move_share_label, ExplorerMove};
use novelty::pgn::parse_pgn;
use novelty::pgn_tree::{format_repertoire_pgn, notation_segments, parse_movetext_tree, tree_to_movetext};
use novelty::profiles::remember_profile;
use novelty::repertoire::sanitize_filename;
use novelty::repertoire_import::{
    classify_lines, extract_continuations, merge_continuations, ContinuationLine, ExtractOptions, MergeStatus,
};

fn key(name: &str) -> Key {
    Key::new(name).unwrap()
}

#[test]
fn archive_in_period_compares_year_month() {
    let since = Some((2025, 6));
    assert!(archive_in_period("https://api.chess.com/pub/player/x/games/2026/03", since));
    assert!(!archive_in_period("https://api.chess.com/pub/player/x/games/2024/01", since));
}

#[test]
fn archive_in_period_accepts_all_when_no_since() {
    assert!(archive_in_period("https://api.chess.com/pub/player/x/games/2010/01", None));
}

#[test]
fn chesscom_speed_from_event_tag() {
    assert_eq!(chesscom_speed("[Event \"Live Blitz\"]\n"), Some("blitz"));
    assert_eq!(chesscom_speed("[Event \"Live Rapid\"]\n"), Some("rapid"));
    assert_eq!(chesscom_speed("[Event \"Daily Chess\"]\n"), Some("classical"));
}

#[test]
fn next_lichess_until_stops_on_partial_chunk() {
    assert_eq!(next_lichess_until(50, Some(1000), None), None);
}

#[test]
fn lichess_ndjson_moves_are_san() {
    let sample = "d4 Nf6 c4 g6 Nc3 Bg7 e4 O-O";
    let mut graph = OpeningGraph::new();
    let mut meta = GameMeta::default();
    meta.result = GameResult::WhiteWin;
    meta.white_elo = Some(2800);
    meta.black_elo = Some(2700);
    graph
        .add_game(sample, MoveNotation::San, Some(&meta), PlayerColor::White)
        .expect("lichess SAN movetext");
    assert_eq!(graph.game_count(), 1);
    let moves = graph.moves_at(&start_fen());
    assert!(moves.iter().any(|m| m.san == "d4"));
}

#[test]
fn uci_notation_parses_lichess_style_uci() {
    let mut graph = OpeningGraph::new();
    graph
        .add_game("e2e4 e7e5", MoveNotation::Uci, None, PlayerColor::White)
        .expect("UCI movetext");
    let moves = graph.moves_at(&start_fen());
    assert!(moves.iter().any(|m| m.san == "e4"));
}

#[test]
fn time_control_filter_matches_speed() {
    let filter = TimeControlFilter { bullet: false, blitz: true, rapid: false, classical: false };
    assert!(!filter.matches_speed("bullet"));
    assert!(filter.matches_speed("blitz"));
}

#[test]
fn level_for_thresholds() {
    assert_eq!(level_for(80, 80), 3);
    assert_eq!(level_for(50, 80), 2);
    assert_eq!(level_for(10, 80), 1);
}

#[test]
fn dests_for_moves_groups_by_origin() {
    let moves = vec![
        MoveStat {
            san: "e4".into(),
            orig: key("e2"),
            dest: key("e4"),
            count: 1,
            level: 3,
            target_fen: String::new(),
            details: PositionDetails::default(),
        },
        MoveStat {
            san: "d4".into(),
            orig: key("d2"),
            dest: key("d4"),
            count: 1,
            level: 3,
            target_fen: String::new(),
            details: PositionDetails::default(),
        },
    ];
    let dests = OpeningGraph::dests_for_moves(&moves);
    assert_eq!(dests.len(), 2);
    let e2 = dests.iter().find(|(o, _)| *o == key("e2")).unwrap();
    assert_eq!(e2.1[0].name().as_str(), "e4");
}

#[test]
fn turn_color_reads_fen_side() {
    assert_eq!(turn_color("rnbqkbnr/pppppppp/8/8/8/8/PPPPPPPP/RNBQKBNR w KQkq"), Color::White);
    assert_eq!(turn_color("rnbqkbnr/pppppppp/8/8/4P3/8/PPPP1PPP/RNBQKBNR b KQkq"), Color::Black);
}

#[test]
fn aggregates_lichess_san_line() {
    let mut graph = OpeningGraph::new();
    graph.add_game_san("e4 e5 Nf3").unwrap();
    graph.add_game_san("e4 e5").unwrap();
    let moves = graph.moves_at(&start_fen());
    let e4 = moves.iter().find(|m| m.san == "e4").unwrap();
    assert_eq!(e4.count, 2);
    assert_eq!(e4.level, 3);
    assert!(!moves.is_empty());
}

#[test]
fn tracks_results_on_target_position() {
    let mut graph = OpeningGraph::new();
    let mut meta = GameMeta::default();
    meta.result = GameResult::WhiteWin;
    meta.white_elo = Some(1500);
    meta.black_elo = Some(1400);
    graph.add_game("e4", MoveNotation::San, Some(&meta), PlayerColor::White).unwrap();
    let moves = graph.moves_at(&start_fen());
    let e4 = moves.iter().find(|m| m.san == "e4").unwrap();
    assert_eq!(e4.details.white_wins, 1);
    assert_eq!(e4.details.average_opponent_elo(), Some(1400));
}

#[test]
fn token_for_username_is_case_insensitive() {
    let session = LichessSession { username: "DrNykterstein".into(), access_token: "lip_test".into() };
    assert!(token_for_username(&session, "drnykterstein").is_some());
    assert!(token_for_username(&session, "other").is_none());
}

fn step(tree: &mut MoveTree, orig: &str, dest: &str) {
    let (fen, san, o, d) = play_move_keys(tree.current().fen.as_str(), &key(orig), &key(dest)).unwrap();
    tree.make_step(fen, san, o, d);
}

#[test]
fn delete_line_removes_variation_and_moves_to_parent() {
    let mut tree = MoveTree::new();
    step(&mut tree, "e2", "e4");
    tree.go_to_position(Vec::new());
    step(&mut tree, "d2", "d4");
    tree.go_to_position(vec![0]);
    assert!(tree.delete_line_at(&[1]));
    assert_eq!(tree.root.children.len(), 1);
    assert_eq!(tree.position, vec![0]);
}

#[test]
fn promote_variation_at_makes_branch_mainline() {
    let mut tree = MoveTree::new();
    step(&mut tree, "e2", "e4");
    tree.go_to_position(Vec::new());
    step(&mut tree, "d2", "d4");
    assert!(tree.promote_variation_at(&[1]));
    assert_eq!(tree.root.children[0].san.as_deref(), Some("d4"));
    assert_eq!(tree.position, vec![0]);
}

#[test]
fn recognizes_named_opening() {
    let opening = lookup_fen("rnbqkbnr/pppp1ppp/8/4p3/4P3/8/PPPPKPPP/RNBQ1BNR b kq - 1 2").expect("bongcloud position");
    assert_eq!(opening.name, "Bongcloud Attack");
}

#[test]
fn novelty_fen_matches_book_after_e4_e5() {
    let (fen_e4, ..) = play_move_keys(&start_fen(), &key("e2"), &key("e4")).unwrap();
    let (fen_e5, ..) = play_move_keys(&fen_e4, &key("e7"), &key("e5")).unwrap();
    let book_setup = setup_after_pgn("1. e4 e5").expect("book line");
    let novelty_setup = setup_from_fen(&fen_e5).expect("novelty fen");
    assert_eq!(novelty_setup, book_setup, "fen after e5: {fen_e5}");
}

#[test]
fn recognizes_novelty_fen_line() {
    let mut fens = vec![start_fen()];
    let (fen, ..) = play_move_keys(&fens[0], &key("e2"), &key("e4")).unwrap();
    fens.push(fen.clone());
    assert_eq!(lookup_fen(&fen).unwrap().eco, "B00");
    let (fen, ..) = play_move_keys(&fen, &key("e7"), &key("e5")).unwrap();
    fens.push(fen.clone());
    assert_eq!(lookup_fens(&fens).unwrap().eco, "C20");
    let (fen, ..) = play_move_keys(&fen, &key("g1"), &key("f3")).unwrap();
    fens.push(fen);
    assert!(lookup_fens(&fens).unwrap().eco.starts_with('C'));
}

#[test]
fn walks_back_for_unknown_tail() {
    let fens: Vec<String> = vec![
        "rnbqkbnr/pppppppp/8/8/8/8/PPPPPPPP/RNBQKBNR w KQkq - 0 1".into(),
        "rnbqkbnr/pppppppp/8/8/4P3/8/PPPP1PPP/RNBQKBNR b KQkq - 0 1".into(),
        "rnbqkbnr/pppp1ppp/8/4p3/4P3/4N3/PPPP1PPP/RNBQKB1R b KQkq - 3 2".into(),
    ];
    let opening = lookup_fens(&fens).expect("king's pawn");
    assert_eq!(opening.eco, "B00");
    assert!(opening.name.contains("King's Pawn"));
}

#[test]
fn share_label_uses_percent_above_threshold() {
    assert_eq!(explorer_move_share_label(150, 1000), "15%");
    assert_eq!(explorer_move_share_label(100, 1000), "100");
    assert_eq!(explorer_move_share_label(50, 200), "50");
}

#[test]
fn aggregate_sums_all_moves() {
    let moves = vec![
        ExplorerMove { san: "e4".into(), white: 10, black: 5, draws: 2 },
        ExplorerMove { san: "d4".into(), white: 8, black: 4, draws: 1 },
    ];
    let details = aggregate_explorer_details(&moves);
    assert_eq!(details.white_wins, 18);
    assert_eq!(details.black_wins, 9);
    assert_eq!(details.draws, 3);
    assert_eq!(explorer_grand_total(&moves), 30);
}

#[test]
fn parses_simple_game() {
    let pgn = r#"[Event "Test"]
[White "Alice"]
[Black "Bob"]
[Result "1-0"]

1. e4 e5 2. Nf3 Nc6 1-0"#;
    let game = parse_pgn(pgn).unwrap();
    assert_eq!(game.label, "Alice vs Bob");
    assert_eq!(game.history.len(), 5);
    assert_eq!(game.history[1].san.as_deref(), Some("e4"));
}

#[test]
fn parses_movetext_only() {
    let game = parse_pgn("1. e4 e5 2. Nf3").unwrap();
    assert_eq!(game.history.len(), 4);
    assert_eq!(game.label, "Game Analysis");
}

#[test]
fn parses_simple_variation() {
    let pgn = "1. e4 e5 (1... c5) 2. Nf3 *";
    let tree = parse_movetext_tree(pgn, &start_fen()).unwrap();
    let e4 = &tree.root.children[0];
    assert_eq!(e4.san.as_deref(), Some("e4"));
    assert_eq!(e4.children.len(), 2);
    assert_eq!(e4.children[0].san.as_deref(), Some("e5"));
    assert_eq!(e4.children[1].san.as_deref(), Some("c5"));
}

#[test]
fn round_trips_variation() {
    let pgn = "1. e4 e5 (1... c5 2. Nf3) 2. Nf3 Nc6 *";
    let tree = parse_movetext_tree(pgn, &start_fen()).unwrap();
    let formatted = format_repertoire_pgn(&[], &tree);
    let reparsed = parse_movetext_tree(&formatted, &start_fen()).unwrap();
    assert_eq!(reparsed.root.children[0].children.len(), tree.root.children[0].children.len());
}

#[test]
fn formats_mainline_move_numbers() {
    let pgn = "1. e4 e5 2. Nf3 Nc6 *";
    let tree = parse_movetext_tree(pgn, &start_fen()).unwrap();
    let movetext = tree_to_movetext(&tree.root);
    assert!(movetext.contains("1. e4 e5"), "{movetext}");
    assert!(movetext.contains("2. Nf3"), "{movetext}");
    let segments = notation_segments(&tree.root, &[]);
    let text: String = segments.iter().map(|s| s.text.as_str()).collect();
    assert!(text.contains("1. e4 e5"), "{text}");
    assert!(text.contains("2. Nf3"), "{text}");
    assert!(!text.contains("1. Nf3"), "{text}");
}

#[test]
fn notation_segments_inline_variation() {
    let pgn = "1. e4 e5 (1... c5) 2. Nf3 *";
    let tree = parse_movetext_tree(pgn, &start_fen()).unwrap();
    let segments = notation_segments(&tree.root, &[0, 0]);
    let text: String = segments.iter().map(|s| s.text.as_str()).collect();
    assert!(text.contains("1. e4"), "{text}");
    assert!(text.contains("e5"), "{text}");
    assert!(text.contains("(1... c5)"), "{text}");
    assert!(text.contains("2. Nf3"), "{text}");
    assert!(segments.iter().any(|s| s.position.as_deref() == Some([0, 1].as_slice())));
}

#[test]
fn remember_profile_deduplicates_and_moves_to_front() {
    let mut profiles: Vec<String> = vec!["b".into(), "a".into()];
    remember_profile(&mut profiles, "c");
    assert_eq!(profiles, vec!["c", "b", "a"]);
    remember_profile(&mut profiles, "b");
    assert_eq!(profiles, vec!["b", "c", "a"]);
}

#[test]
fn sanitize_keeps_alphanumeric() {
    assert_eq!(sanitize_filename("Caro-Kann"), "Caro-Kann");
    assert_eq!(sanitize_filename("  caro  "), "caro");
}

fn sample_pgn(movetext: &str) -> LoadedGame {
    LoadedGame::Pgn {
        pgn: format!("[Event \"Test\"]\n[White \"A\"]\n[Black \"B\"]\n\n{movetext}"),
        meta: GameMeta::default(),
    }
}

#[test]
fn extracts_lines_after_e4_from_e4_e5_games() {
    let games = vec![sample_pgn("1. e4 e5 2. Nf3 Nc6 *"), sample_pgn("1. e4 e5 2. Bc4 Nf6 *")];
    let anchor = {
        let (fen, ..) = play_move_keys(&start_fen(), &key("e2"), &key("e4")).unwrap();
        fen
    };
    let lines = extract_continuations(
        &games,
        &ExtractOptions { anchor_fen: anchor, depth: 4, max_lines: 20, min_games: 1 },
    );
    assert_eq!(lines.len(), 2);
    assert!(lines.iter().any(|line| line.sans == vec!["e5", "Nf3", "Nc6"]));
    assert!(lines.iter().any(|line| line.sans == vec!["e5", "Bc4", "Nf6"]));
}

#[test]
fn merge_skips_existing_and_extends_partial() {
    let mut tree = MoveTree::new();
    tree.make_step(
        {
            let (fen, ..) = play_move_keys(&start_fen(), &key("e2"), &key("e4")).unwrap();
            fen
        },
        "e4".into(),
        key("e2"),
        key("e4"),
    );
    tree.make_step(
        {
            let (fen, ..) = play_move_keys(tree.current().fen.as_str(), &key("e7"), &key("e5")).unwrap();
            fen
        },
        "e5".into(),
        key("e7"),
        key("e5"),
    );
    let anchor_path = vec![0];
    let mut lines = vec![ContinuationLine {
        sans: vec!["e5".into(), "Nf3".into()],
        game_count: 2,
        status: MergeStatus::New,
    }];
    classify_lines(&tree, &anchor_path, &mut lines);
    assert_eq!(lines[0].status, MergeStatus::Partial { shared_plies: 1 });
    let report = merge_continuations(&mut tree, &anchor_path, &lines);
    assert_eq!(report.lines_added, 1);
    assert_eq!(report.plies_added, 1);
    assert_eq!(tree.mainline_steps().len(), 4);
}

#[test]
fn display_path_shortens_home() {
    assert_eq!(display_path("/Users/test/bin/stockfish", Some("/Users/test")), "~/bin/stockfish");
}

#[test]
fn insert_engine_deduplicates_by_path() {
    let mut engines: Vec<LocalEngine> = Vec::new();
    let file = String::from("/tmp/novelty-engines-test/stockfish");
    insert_engine(&mut engines, "Stockfish".into(), file.clone(), true).unwrap();
    assert_eq!(engines.len(), 1);
    assert!(insert_engine(&mut engines, "Stockfish".into(), file, true).is_err());
}

#[test]
fn play_san_at_names_its_errors() {
    let start = start_fen();
    let ok = play_san_at(&start, "e4").unwrap();
    assert_eq!(ok.1, "e4");
    assert_eq!(ok.0, "rnbqkbnr/pppppppp/8/8/4P3/8/PPPP1PPP/RNBQKBNR b KQkq");
    assert_eq!(play_san_at(&start, "e5"), Err("illegal SAN".to_string()));
    assert_eq!(play_san_at(&start, "zz9"), Err("invalid SAN".to_string()));
}

#[test]
fn uci_notation_is_read_as_shakmaty_reads_it() {
    assert!(uci_parses("e2e4"));
    assert!(uci_parses("e7e8q"));
    assert!(uci_parses("0000"));
    assert!(uci_parses("N@f3"));
    assert!(!uci_parses("e2e"));
    assert!(!uci_parses("e2e4x"));
    assert!(!uci_parses("i2e4"));
    assert!(!uci_parses("é2e4"));
    let (o, d) = uci_squares("g1f3").unwrap();
    assert_eq!((o.index, d.index), (6, 21));
    assert!(uci_squares("0000").is_none());
    assert!(uci_squares("N@f3").is_none());
}
