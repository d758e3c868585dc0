use novelty::fetch::lichess::{lichess_page, LichessGame, LichessRun, LichessSpeed, RunNext};
use novelty::fetch::{LoadPeriod, LoadedGame, StreamOutcome, TimeControlFilter};
use novelty::chess::start_fen;
use novelty::fetch::chesscom::{month_games, usable_archives, year_month_fits, ChessComGame, ChessComRun};
use novelty::graph::OpeningGraph;
use novelty::move_tree::TreeNode;
use novelty::pgn_tree::{parse_movetext_tree, tree_to_movetext};
use novelty::chess::{play_move_keys, Key};
use novelty::fetch::PlayerColor;
use novelty::graph::{GameMeta, GameResult, PositionDetails};
use novelty::opening_book::{format_opening, load_openings_from, lookup_key, ECO_BOOK};
use novelty::engines::{insert_engine, remove_engine, LocalEngine};
use novelty::history::append_step;
use novelty::move_tree::{toggle_variation_group, MoveTree};
use novelty::panel_tabs::SidePanelTab;
use novelty::pgn::HistoryStep;
use novelty::profiles::remember_profile;
use novelty::text::trim_str;

fn key(name: &str) -> Key {
    Key::new(name).unwrap()
}

fn step(tree: &mut MoveTree, orig: &str, dest: &str) {
    let (fen, san, o, d) = play_move_keys(tree.current().fen.as_str(), &key(orig), &key(dest)).unwrap();
    tree.make_step(fen, san, o, d);
}

fn current_san(tree: &MoveTree) -> Option<String> {
    tree.current().san.clone()
}

#[test]
fn step_then_back_returns_to_start() {
    let mut tree = MoveTree::new();
    step(&mut tree, "e2", "e4");
    let before = tree.position.clone();
    step(&mut tree, "e7", "e5");
    assert!(tree.go_back());
    assert_eq!(tree.position, before);
}

#[test]
fn repeated_step_is_stable() {
    let mut tree = MoveTree::new();
    step(&mut tree, "e2", "e4");
    let after_first = tree.position.clone();
    assert!(tree.go_back());
    step(&mut tree, "e2", "e4");
    assert_eq!(tree.position, after_first);
    assert_eq!(tree.root.children.len(), 1);
}

#[test]
fn next_then_previous_branch_comes_back() {
    let mut tree = MoveTree::new();
    step(&mut tree, "e2", "e4");
    tree.go_to_position(Vec::new());
    step(&mut tree, "d2", "d4");
    tree.go_to_position(Vec::new());
    step(&mut tree, "c2", "c4");
    let start = tree.position.clone();
    assert!(tree.next_branch());
    assert_ne!(tree.position, start);
    assert!(tree.previous_branch());
    assert_eq!(tree.position, start);
}

#[test]
fn promote_and_delete_keep_the_current_move() {
    let mut tree = MoveTree::new();
    step(&mut tree, "e2", "e4");
    step(&mut tree, "e7", "e5");
    tree.go_to_position(Vec::new());
    step(&mut tree, "d2", "d4");
    step(&mut tree, "d7", "d5");
    let san = current_san(&tree);
    assert!(tree.promote_variation_at(&[1]));
    assert_eq!(current_san(&tree), san);
    assert_eq!(tree.position, vec![0, 0]);
    assert!(tree.delete_line_at(&[1]));
    assert_eq!(current_san(&tree), san);
    assert_eq!(tree.root.children.len(), 1);
}

#[test]
fn panel_tab_index_round_trips() {
    for tabs in [SidePanelTab::opening_tree(), SidePanelTab::game_analysis(), SidePanelTab::repertoire()] {
        for tab in tabs.iter().copied() {
            assert_eq!(SidePanelTab::from_index(&tabs, tab.index_in(&tabs)), tab);
        }
    }
}

#[test]
fn remembered_profile_is_first_and_unique() {
    let mut profiles: Vec<String> = (0..30).map(|i| format!("user{i}")).collect();
    assert!(remember_profile(&mut profiles, "  USER7 "));
    assert_eq!(profiles[0], "USER7");
    assert_eq!(profiles.iter().filter(|p| p.eq_ignore_ascii_case("user7")).count(), 1);
    assert!(profiles.len() <= 24);
    assert!(!remember_profile(&mut profiles, "   "));
}

#[test]
fn appending_keeps_the_steps_before() {
    let mut h = vec![HistoryStep::start("a".into()), HistoryStep::start("b".into())];
    let i = append_step(&mut h, 1, HistoryStep::after_move("c".into(), "e4".into(), key("e2"), key("e4")));
    assert_eq!(i, 2);
    assert_eq!(h[0].fen, "a");
    assert_eq!(h[1].fen, "b");
    assert_eq!(h[2].san.as_deref(), Some("e4"));
}

#[test]
fn toggling_a_group_twice_restores_it() {
    let mut groups: Vec<String> = vec!["root".into()];
    toggle_variation_group(&mut groups, &[0, 1]);
    assert_eq!(groups, vec!["root".to_string(), "0-1".to_string()]);
    toggle_variation_group(&mut groups, &[0, 1]);
    assert_eq!(groups, vec!["root".to_string()]);
    toggle_variation_group(&mut groups, &[]);
    assert!(groups.is_empty());
}

#[test]
fn trimming_twice_is_trimming_once() {
    let once: String = trim_str("  \t e4 e5 \n").into_iter().collect();
    let twice: String = trim_str(&once).into_iter().collect();
    assert_eq!(once, "e4 e5");
    assert_eq!(twice, once);
}

#[test]
fn merging_a_line_twice_adds_nothing() {
    let mut tree = MoveTree::new();
    let line: Vec<String> = vec!["e4".into(), "e5".into(), "Nf3".into()];
    assert_eq!(tree.merge_line_from_path(&[], &line), 3);
    let fens = tree.mainline_fens();
    assert_eq!(tree.merge_line_from_path(&[], &line), 0);
    assert_eq!(tree.mainline_fens(), fens);
    let side: Vec<String> = vec!["e4".into(), "c5".into()];
    assert_eq!(tree.merge_line_from_path(&[], &side), 1);
    let count = tree.node_at(&[0]).unwrap().children.len();
    assert_eq!(tree.merge_line_from_path(&[], &side), 0);
    assert_eq!(tree.node_at(&[0]).unwrap().children.len(), count);
    assert_eq!(count, 2);
    assert_eq!(tree.mainline_fens(), fens);
}

#[test]
fn engine_paths_stay_unique() {
    let mut engines: Vec<LocalEngine> = Vec::new();
    insert_engine(&mut engines, "A".into(), "/e/a".into(), true).unwrap();
    insert_engine(&mut engines, "B".into(), "/e/b".into(), true).unwrap();
    assert!(insert_engine(&mut engines, "A2".into(), "/e/a".into(), true).is_err());
    assert_eq!(engines.len(), 2);
    remove_engine(&mut engines, "/e/a");
    assert_eq!(engines.len(), 1);
    insert_engine(&mut engines, "A".into(), "/e/a".into(), true).unwrap();
    let paths: Vec<&str> = engines.iter().map(|e| e.path.as_str()).collect();
    assert_eq!(paths, vec!["/e/b", "/e/a"]);
}

#[test]
fn variation_mode_adds_a_sibling_after_the_mainline() {
    let mut tree = MoveTree::new();
    step(&mut tree, "e2", "e4");
    assert!(tree.go_back());
    tree.variation_mode = true;
    step(&mut tree, "d2", "d4");
    assert_eq!(tree.position, vec![1]);
    assert!(!tree.variation_mode);
    assert_eq!(tree.root.children.len(), 2);
    assert_eq!(tree.root.children[0].san.as_deref(), Some("e4"));
    assert_eq!(tree.root.children[1].san.as_deref(), Some("d4"));
}

#[test]
fn chess960_positions_are_named_by_the_book() {
    let frc = "name\tfen\nChess960 start\tbbqnnrkr/pppppppp/8/8/8/8/PPPPPPPP/BBQNNRKR w HFhf - 0 1\nbroken\tnot a fen\nno tab here\n";
    let book = load_openings_from(ECO_BOOK, frc);
    let last = book.last().unwrap();
    assert_eq!(last.eco, "FRC");
    assert_eq!(last.name, "Chess960 start");
    assert_eq!(book.iter().filter(|e| e.eco == "FRC").count(), 1);
    let m = lookup_key(&book, &last.key).unwrap();
    assert_eq!(format_opening(&m), "Chess960 start");
    assert!(last.key.starts_with("bbqnnrkr/pppppppp/8/8/8/8/PPPPPPPP/BBQNNRKR w "));
}

#[test]
fn merging_a_game_needs_room_only_where_it_counts() {
    let mut d = PositionDetails {
        white_wins: u32::MAX,
        black_wins: 0,
        draws: 4,
        total_opponent_elo: 0,
        opponent_elo_games: 0,
        last_game: None,
    };
    let meta = GameMeta { result: GameResult::Draw, white_elo: Some(2000), black_elo: Some(1800), date: None, url: None, timestamp: Some(5) };
    d.merge_game(&meta, PlayerColor::White);
    assert_eq!(d.draws, 5);
    assert_eq!(d.white_wins, u32::MAX);
    assert_eq!(d.total_opponent_elo, 1800);
    assert_eq!(d.opponent_elo_games, 1);
}

fn same_tree(a: &TreeNode, b: &TreeNode) {
    assert_eq!(a.fen, b.fen);
    assert_eq!(a.san, b.san);
    assert_eq!(a.children.len(), b.children.len());
    for (x, y) in a.children.iter().zip(b.children.iter()) {
        same_tree(x, y);
    }
}

#[test]
fn a_written_tree_reads_back_node_for_node() {
    let pgn = "1. e4 e5 (1... c5 2. Nf3 (2. Nc3) d6) (1... e6) 2. Nf3 Nc6 3. Bb5 *";
    let tree = parse_movetext_tree(pgn, &start_fen()).unwrap();
    let text = tree_to_movetext(&tree.root);
    let again = parse_movetext_tree(&text, &start_fen()).unwrap();
    same_tree(&tree.root, &again.root);
}

#[test]
fn each_game_counts_its_moves_once_more() {
    let mut graph = OpeningGraph::new();
    graph.add_game_san("e4 e5 Nf3").unwrap();
    graph.add_game_san("e4 c5").unwrap();
    graph.add_game_san("d4").unwrap();
    let at_start = graph.moves_at(&start_fen());
    let count = |v: &Vec<novelty::graph::MoveStat>, san: &str| v.iter().find(|m| m.san == san).map(|m| m.count);
    assert_eq!(count(&at_start, "e4"), Some(2));
    assert_eq!(count(&at_start, "d4"), Some(1));
    let after_e4 = graph.moves_at(&graph_fen_after(&["e2e4"]));
    assert_eq!(count(&after_e4, "e5"), Some(1));
    assert_eq!(count(&after_e4, "c5"), Some(1));
    graph.add_game_san("e4 e5").unwrap();
    let after_e4 = graph.moves_at(&graph_fen_after(&["e2e4"]));
    assert_eq!(count(&after_e4, "e5"), Some(2));
    assert_eq!(count(&after_e4, "c5"), Some(1));
}

fn graph_fen_after(moves: &[&str]) -> String {
    let mut fen = start_fen();
    for m in moves {
        let (o, d) = m.split_at(2);
        let (f, ..) = play_move_keys(&fen, &key(o), &key(d)).unwrap();
        fen = f;
    }
    fen
}

#[test]
fn chess_com_archives_with_months_out_of_range_are_dropped() {
    let archives = vec![
        "https://api.chess.com/pub/player/x/games/2024/01".to_string(),
        "https://api.chess.com/pub/player/x/games/99999999/01".to_string(),
        "https://api.chess.com/pub/player/x/games/notes".to_string(),
    ];
    let kept = usable_archives(&archives, Some((2020, 1)));
    assert_eq!(usable_archives(&archives, None), archives);
    assert_eq!(kept, vec![archives[0].clone(), archives[2].clone()]);
    assert!(year_month_fits((2024, 1)));
    assert!(!year_month_fits((99_999_999, 1)));
    assert!(!year_month_fits((2024, u32::MAX)));
}

#[test]
fn a_lichess_page_keeps_exactly_the_playable_games_in_range() {
    let g = |id: &str, moves: Option<&str>, speed: Option<LichessSpeed>, ts: Option<i64>| LichessGame {
        id: id.to_string(),
        winner: None,
        white_rating: Some(1500),
        black_rating: None,
        last_move_at: ts,
        moves: moves.map(|m| m.to_string()),
        speed,
    };
    let page = vec![
        g("a", Some("e4 e5"), Some(LichessSpeed::Blitz), Some(500)),
        g("b", None, Some(LichessSpeed::Blitz), Some(400)),
        g("c", Some("d4"), Some(LichessSpeed::Blitz), Some(50)),
        g("d", Some(""), None, None),
        g("e", Some("c4"), None, Some(300)),
    ];
    let (state, loaded) = lichess_page(&page, Some(100), TimeControlFilter::all_enabled());
    assert_eq!(state.games_in_response, 5);
    assert_eq!(state.oldest_ts, Some(50));
    assert_eq!(state.ingested, 2);
    assert_eq!(loaded.len(), 2);
    match &loaded[1] {
        LoadedGame::Moves { moves, meta, .. } => {
            assert_eq!(moves, "c4");
            assert_eq!(meta.url.as_deref(), Some("https://lichess.org/e"));
            assert_eq!(meta.result, GameResult::Draw);
            assert_eq!(meta.date, None);
            assert_eq!(meta.white_elo, Some(1500));
        },
        _ => panic!("expected SAN moves"),
    }
}

fn count_nodes(n: &TreeNode) -> usize {
    n.children.iter().map(|c| 1 + count_nodes(c)).sum()
}

#[test]
fn the_notation_writes_each_move_once() {
    let tree = parse_movetext_tree("1. e4 e5 (1... c5 2. Nf3 (2. Nc3) d6) (1... e6) 2. Nf3 Nc6 *", &start_fen()).unwrap();
    let segs = novelty::pgn_tree::notation_segments(&tree.root, &[]);
    let paths: Vec<Vec<usize>> = segs.iter().filter_map(|s| s.position.clone()).collect();
    assert_eq!(paths.len(), count_nodes(&tree.root));
    for (i, p) in paths.iter().enumerate() {
        assert!(!paths[..i].contains(p));
        let node = tree.node_at(p).unwrap();
        let seg = segs.iter().find(|s| s.position.as_ref() == Some(p)).unwrap();
        assert_eq!(Some(seg.text.clone()), node.san.clone());
    }
    assert!(segs.iter().all(|s| !s.text.is_empty()));
    assert!(segs.windows(2).all(|w| w[0].position.is_some() || w[1].position.is_some()));
}

#[test]
fn loaded_games_carry_their_results() {
    let g = LichessGame {
        id: "w".to_string(),
        winner: Some(PlayerColor::Black),
        white_rating: None,
        black_rating: Some(1900),
        last_move_at: Some(9),
        moves: Some("f3 e5 g4 Qh4#".to_string()),
        speed: None,
    };
    let (_, loaded) = lichess_page(&vec![g], None, TimeControlFilter::all_enabled());
    match &loaded[0] {
        LoadedGame::Moves { meta, .. } => assert_eq!(meta.result, GameResult::BlackWin),
        _ => panic!("expected SAN moves"),
    }
    let pgn = "[White \"ann\"]\n[Black \"bob\"]\n[Result \"1-0\"]\n[WhiteElo \"2100\"]\n[BlackElo \"2000\"]\n[Date \"2024.01.02\"]\n[Link \"https://www.chess.com/game/live/1\"]\n[TimeControl \"180\"]\n\n1. e4 e5 1-0";
    let games = vec![ChessComGame { pgn: pgn.to_string(), white_username: "ann".to_string(), black_username: "bob".to_string() }];
    let loaded = month_games(&games, "ann", PlayerColor::White, TimeControlFilter::all_enabled());
    assert_eq!(loaded.len(), 1);
    match &loaded[0] {
        LoadedGame::Pgn { meta, .. } => {
            assert_eq!(meta.result, GameResult::WhiteWin);
            assert_eq!(meta.white_elo, Some(2100));
            assert_eq!(meta.black_elo, Some(2000));
            assert_eq!(meta.date.as_deref(), Some("2024.01.02"));
            assert_eq!(meta.url.as_deref(), Some("https://www.chess.com/game/live/1"));
            assert_eq!(meta.timestamp, None);
        },
        _ => panic!("expected a PGN"),
    }
}

fn lichess_game(id: usize, ts: i64, moves: Option<&str>) -> LichessGame {
    LichessGame {
        id: format!("g{id}"),
        winner: None,
        white_rating: None,
        black_rating: None,
        last_move_at: Some(ts),
        moves: moves.map(|m| m.to_string()),
        speed: None,
    }
}

#[test]
fn a_lichess_download_hands_on_every_kept_game_once() {
    let mut run = LichessRun::new(None, TimeControlFilter::all_enabled());
    assert_eq!(run.request_until(), None);
    let first: Vec<LichessGame> = (0..200).map(|i| lichess_game(i, 10_000 - i as i64, if i % 2 == 0 { Some("e4") } else { None })).collect();
    let (loaded, next) = run.on_page(&first, StreamOutcome::Completed, "bob", LoadPeriod::All);
    assert_eq!(loaded.len(), 100);
    match next {
        RunNext::Fetch(u) => assert_eq!(u, Some(10_000 - 199 - 1)),
        _ => panic!("a full page asks for the next"),
    }
    assert_eq!(run.request_until(), Some(9_800));
    let second = vec![lichess_game(500, 5, Some("d4"))];
    let (loaded, next) = run.on_page(&second, StreamOutcome::Completed, "bob", LoadPeriod::All);
    assert_eq!(loaded.len(), 1);
    match next {
        RunNext::Finished(r) => assert_eq!(r, Ok((StreamOutcome::Completed, 101))),
        _ => panic!("a short page ends the download"),
    }
    let mut empty = LichessRun::new(None, TimeControlFilter::all_enabled());
    match empty.on_page(&vec![lichess_game(1, 3, None)], StreamOutcome::Completed, "bob", LoadPeriod::All).1 {
        RunNext::Finished(r) => assert_eq!(r, Err("No games for bob on Lichess".to_string())),
        _ => panic!("expected the end"),
    }
    assert_eq!(empty.stop(), Ok((StreamOutcome::Cancelled, 0)));
}

#[test]
fn a_chess_com_download_hands_on_every_month_game_once() {
    let pgn = |r: &str| format!("[White \"ann\"]\n[Black \"bob\"]\n[Result \"{r}\"]\n\n1. e4 e5 {r}");
    let game = |r: &str| ChessComGame { pgn: pgn(r), white_username: "ann".into(), black_username: "bob".into() };
    let mut run = ChessComRun::new("ann".to_string(), PlayerColor::White, TimeControlFilter::all_enabled());
    run.on_month(&[game("1-0"), game("0-1")]);
    let mut results = Vec::new();
    while run.has_pending() {
        if let Some(LoadedGame::Pgn { meta, .. }) = run.next_game() {
            results.push(meta.result);
        }
    }
    run.on_month(&[game("1/2-1/2")]);
    while let Some(LoadedGame::Pgn { meta, .. }) = run.next_game() {
        results.push(meta.result);
    }
    assert_eq!(results.len(), 3);
    assert_eq!(run.finish(LoadPeriod::All), Ok((StreamOutcome::Completed, 3)));
    let none = ChessComRun::new("ann".to_string(), PlayerColor::White, TimeControlFilter::all_enabled());
    assert_eq!(none.finish(LoadPeriod::All), Err("No games for ann on Chess.com".to_string()));
}
