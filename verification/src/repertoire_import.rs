//! Continuation lines from a player's games, and merging them into a repertoire tree.
use vstd::prelude::*;
use crate::chess::{play_san, position_fen, san_parses, simplified, simplified_fen, spec_position_fen, start_fen, start_fen_text};
use crate::fetch::LoadedGame;
use crate::graph::MoveNotation;
use crate::move_tree::{child_index, merge_spec, nv_at, tree_wf, MoveTree, NodeV};
use crate::pgn::{build_history, header_value, history_from, history_of, movetext_from_pgn, movetext_moves, movetext_of, parse_headers, step_view, steps_view, tokenize_movetext, HistoryStep, StepV};
use crate::repertoire::start_of;
use crate::text::{seq_lt, str_eq, str_lt, trim, views};

verus! {

broadcast use vstd::string::group_string_axioms;

/// Whether a line is already in the repertoire.
#[derive(Clone, Copy, Debug, PartialEq, Eq, Structural)]
pub enum MergeStatus {
    New,
    Exists,
    Partial { shared_plies: usize },
}

/// A line of moves after the anchor position, with how many games played it.
#[derive(Debug)]
pub struct ContinuationLine {
    pub sans: Vec<String>,
    pub game_count: u32,
    pub status: MergeStatus,
}

/// What merging lines did.
#[derive(Clone, Copy, Debug, PartialEq, Eq, Structural)]
pub struct MergeReport {
    pub lines_added: u32,
    pub plies_added: u32,
    pub lines_skipped: u32,
}

impl Default for MergeReport {
    fn default() -> (r: Self)
        ensures
            r == (MergeReport { lines_added: 0, plies_added: 0, lines_skipped: 0 }),
    {
        MergeReport { lines_added: 0, plies_added: 0, lines_skipped: 0 }
    }
}

/// Which lines to extract: after which position, how many plies, how many lines at
/// most, and in how many games at least.
#[derive(Debug)]
pub struct ExtractOptions {
    pub anchor_fen: String,
    pub depth: usize,
    pub max_lines: usize,
    pub min_games: u32,
}

// ---------------------------------------------------------------- the games

/// The positions of a PGN game from the position of its `FEN` tag (the standard start
/// without one); `None` where it has no movetext, the start is no legal position, or a
/// move cannot be read or played.
pub open spec fn pgn_history(pgn: Seq<char>) -> Option<Seq<StepV>> {
    match movetext_of(pgn) {
        None => None,
        Some(m) => {
            let start = start_of(pgn);
            if spec_position_fen(start) is None {
                None
            } else {
                match history_from(start, movetext_moves(m), 0) {
                    Ok(rest) => Some(seq![StepV { fen: simplified(start), san: None, orig: None, dest: None }] + rest),
                    Err(_) => None,
                }
            }
        },
    }
}

/// The positions of a downloaded game; UCI games are left out.
pub open spec fn game_history(g: LoadedGame) -> Option<Seq<StepV>> {
    match g {
        LoadedGame::Pgn { pgn, .. } => pgn_history(pgn@),
        LoadedGame::Moves { moves, notation, .. } => match notation {
            MoveNotation::San => match history_of(moves@) {
                Ok(h) => Some(h),
                Err(_) => None,
            },
            MoveNotation::Uci => None,
        },
    }
}

pub fn history_from_pgn(pgn: &str) -> (r: Option<Vec<HistoryStep>>)
    ensures
        match r {
            Some(h) => pgn_history(pgn@) == Some(steps_view(h@)),
            None => pgn_history(pgn@) is None,
        },
{
    let headers = parse_headers(pgn);
    let movetext = match movetext_from_pgn(pgn) {
        Some(m) => m,
        None => return None,
    };
    let start = match header_value(&headers, "FEN") {
        Some(f) => f,
        None => start_fen(),
    };
    assert(start@ == start_of(pgn@));
    if position_fen(start.as_str()).is_none() {
        return None;
    }
    let mut history: Vec<HistoryStep> = Vec::new();
    history.push(HistoryStep::start(simplified_fen(start.as_str())));
    let toks = tokenize_movetext(movetext.as_str());
    let ghost tv = views(toks@);
    let ghost head = steps_view(history@);
    let mut pos = start;
    let mut k: usize = 0;
    while k < toks.len()
        invariant
            k <= toks@.len(),
            tv == views(toks@),
            tv == movetext_moves(movetext@),
            movetext_of(pgn@) == Some(movetext@),
            spec_position_fen(start_of(pgn@)) is Some,
            match history_from(pos@, tv, k as int) {
                Ok(rest) => pgn_history(pgn@) == Some(steps_view(history@) + rest),
                Err(_) => pgn_history(pgn@) is None,
            },
        decreases toks@.len() - k,
    {
        let token = toks[k].as_str();
        assert(tv[k as int] == token@);
        if !san_parses(token) {
            return None;
        }
        match play_san(pos.as_str(), token) {
            None => return None,
            Some((after, label, o, d)) => {
                let ghost before = steps_view(history@);
                history.push(HistoryStep::after_move(simplified_fen(after.as_str()), label, o, d));
                proof {
                    let st = StepV { fen: simplified(after@), san: Some(label@), orig: Some(o.index), dest: Some(d.index) };
                    assert(steps_view(history@) =~= before.push(st));
                    match history_from(after@, tv, k + 1) {
                        Ok(rest) => {
                            assert(before + (seq![st] + rest) =~= steps_view(history@) + rest);
                        },
                        Err(e) => {},
                    }
                }
                pos = after;
            },
        }
        k += 1;
    }
    assert(steps_view(history@) + Seq::<StepV>::empty() =~= steps_view(history@));
    Some(history)
}

fn game_mainline_history(game: &LoadedGame) -> (r: Option<Vec<HistoryStep>>)
    ensures
        match r {
            Some(h) => game_history(*game) == Some(steps_view(h@)),
            None => game_history(*game) is None,
        },
{
    match game {
        LoadedGame::Pgn { pgn, .. } => history_from_pgn(pgn.as_str()),
        LoadedGame::Moves { moves, notation, .. } => match notation {
            MoveNotation::San => match build_history(moves.as_str()) {
                Ok(h) => Some(h),
                Err(_) => None,
            },
            MoveNotation::Uci => None,
        },
    }
}

/// The first ply at or after `i` whose position, simplified, is `target`.
pub open spec fn ply_of(h: Seq<StepV>, target: Seq<char>, i: int) -> Option<int>
    decreases h.len() - i,
{
    if i < 0 || i >= h.len() {
        None
    } else if simplified(h[i].fen) == target {
        Some(i)
    } else {
        ply_of(h, target, i + 1)
    }
}

/// The moves of plies `ply + 1` onwards, at most `depth` of them.
pub open spec fn continuation(h: Seq<StepV>, ply: int, depth: nat) -> Seq<Seq<char>> {
    let end = if ply + 1 + depth < h.len() { ply + 1 + depth } else { h.len() as int };
    sans_of(h.subrange(ply + 1, end))
}

/// The moves of the steps that have one.
pub open spec fn sans_of(h: Seq<StepV>) -> Seq<Seq<char>>
    decreases h.len(),
{
    if h.len() == 0 {
        seq![]
    } else {
        match h.last().san {
            Some(s) => sans_of(h.drop_last()).push(s),
            None => sans_of(h.drop_last()),
        }
    }
}

/// The line a game plays after the anchor position, if it reaches it and goes on.
pub open spec fn line_of(g: LoadedGame, anchor: Seq<char>, depth: nat) -> Option<Seq<Seq<char>>> {
    match game_history(g) {
        None => None,
        Some(h) => match ply_of(h, anchor, 0) {
            None => None,
            Some(p) => {
                let l = continuation(h, p, depth);
                if l.len() == 0 {
                    None
                } else {
                    Some(l)
                }
            },
        },
    }
}

fn find_position_ply(history: &Vec<HistoryStep>, target_fen: &str) -> (r: Option<usize>)
    ensures
        match r {
            Some(i) => ply_of(steps_view(history@), target_fen@, 0) == Some(i as int),
            None => ply_of(steps_view(history@), target_fen@, 0) is None,
        },
{
    let ghost hv = steps_view(history@);
    let mut i: usize = 0;
    while i < history.len()
        invariant
            i <= history@.len(),
            hv == steps_view(history@),
            ply_of(hv, target_fen@, 0) == ply_of(hv, target_fen@, i as int),
        decreases history@.len() - i,
    {
        assert(hv[i as int] == step_view(history@[i as int]));
        let s = simplified_fen(history[i].fen.as_str());
        if str_eq(s.as_str(), target_fen) {
            return Some(i);
        }
        i += 1;
    }
    None
}

fn continuation_sans(history: &Vec<HistoryStep>, ply: usize, depth: usize) -> (r: Vec<String>)
    requires
        ply < history@.len(),
    ensures
        views(r@) == continuation(steps_view(history@), ply as int, depth as nat),
{
    let ghost hv = steps_view(history@);
    let n = history.len();
    assert(ply < n);
    let start = ply + 1;
    let end = if depth < n - start { start + depth } else { n };
    assert(end == (if ply + 1 + depth < hv.len() { ply + 1 + depth } else { hv.len() as int }));
    let mut out: Vec<String> = Vec::new();
    let mut i: usize = start;
    while i < end
        invariant
            start <= i <= end <= history@.len(),
            hv == steps_view(history@),
            views(out@) == sans_of(hv.subrange(start as int, i as int)),
        decreases end - i,
    {
        let ghost before = views(out@);
        assert(hv.subrange(start as int, i + 1).drop_last() =~= hv.subrange(start as int, i as int));
        assert(hv.subrange(start as int, i + 1).last() == step_view(history@[i as int]));
        match &history[i].san {
            Some(s) => {
                out.push(s.clone());
                assert(views(out@) =~= before.push(s@));
            },
            None => {},
        }
        i += 1;
    }
    out
}

// ---------------------------------------------------------------- counting lines

/// `acc` with one more game for `line`: counted where the line is there, else added with
/// one game.
pub open spec fn bumped(acc: Seq<(Seq<Seq<char>>, nat)>, line: Seq<Seq<char>>) -> Seq<(Seq<Seq<char>>, nat)> {
    let i = line_index(acc, line, 0);
    if i >= 0 {
        acc.update(i, (line, acc[i].1 + 1))
    } else {
        acc.push((line, 1))
    }
}

pub open spec fn line_index(acc: Seq<(Seq<Seq<char>>, nat)>, line: Seq<Seq<char>>, i: int) -> int
    decreases acc.len() - i,
{
    if i < 0 || i >= acc.len() {
        -1
    } else if acc[i].0 == line {
        i
    } else {
        line_index(acc, line, i + 1)
    }
}

/// Each distinct line of the games `gs[..n]` with its number of games, in order of first
/// appearance.
pub open spec fn line_counts(gs: Seq<LoadedGame>, anchor: Seq<char>, depth: nat, n: int) -> Seq<(Seq<Seq<char>>, nat)>
    decreases n,
{
    if n <= 0 || n > gs.len() {
        seq![]
    } else {
        match line_of(gs[n - 1], anchor, depth) {
            None => line_counts(gs, anchor, depth, n - 1),
            Some(l) => bumped(line_counts(gs, anchor, depth, n - 1), l),
        }
    }
}

/// The lines of `acc` played in at least `min` games.
pub open spec fn frequent(acc: Seq<(Seq<Seq<char>>, nat)>, min: nat) -> Seq<(Seq<Seq<char>>, nat)>
    decreases acc.len(),
{
    if acc.len() == 0 {
        seq![]
    } else if acc.last().1 >= min {
        frequent(acc.drop_last(), min).push(acc.last())
    } else {
        frequent(acc.drop_last(), min)
    }
}

/// Lexicographic order of lines, move by move.
pub open spec fn line_lt(a: Seq<Seq<char>>, b: Seq<Seq<char>>) -> bool
    decreases a.len(),
{
    if b.len() == 0 {
        false
    } else if a.len() == 0 {
        true
    } else if a[0] != b[0] {
        seq_lt(a[0], b[0])
    } else {
        line_lt(a.skip(1), b.skip(1))
    }
}

/// The order of the extracted lines: more games first, then by moves.
pub open spec fn line_before(a: (Seq<Seq<char>>, nat), b: (Seq<Seq<char>>, nat)) -> bool {
    a.1 > b.1 || (a.1 == b.1 && line_lt(a.0, b.0))
}

pub open spec fn insert_line(v: Seq<(Seq<Seq<char>>, nat)>, x: (Seq<Seq<char>>, nat)) -> Seq<(Seq<Seq<char>>, nat)>
    decreases v.len(),
{
    if v.len() == 0 {
        seq![x]
    } else if line_before(v[0], x) {
        seq![v[0]] + insert_line(v.skip(1), x)
    } else {
        seq![x] + v
    }
}

/// `v` sorted by `line_before`, by inserting each entry in turn.
pub open spec fn sort_lines(v: Seq<(Seq<Seq<char>>, nat)>) -> Seq<(Seq<Seq<char>>, nat)>
    decreases v.len(),
{
    if v.len() == 0 {
        seq![]
    } else {
        insert_line(sort_lines(v.drop_last()), v.last())
    }
}

/// The continuations extracted from games: the lines after the anchor, those in at least
/// `min_games` games, most played first (then by moves), at most `max_lines` of them.
pub open spec fn extracted(gs: Seq<LoadedGame>, o: ExtractOptions) -> Seq<(Seq<Seq<char>>, nat)> {
    let s = sort_lines(frequent(line_counts(gs, simplified(o.anchor_fen@), o.depth as nat, gs.len() as int), o.min_games as nat));
    if s.len() > o.max_lines {
        s.take(o.max_lines as int)
    } else {
        s
    }
}

pub open spec fn cline_view(c: ContinuationLine) -> (Seq<Seq<char>>, nat) {
    (views(c.sans@), c.game_count as nat)
}

fn same_line(a: &Vec<String>, b: &Vec<String>) -> (r: bool)
    ensures
        r == (views(a@) == views(b@)),
{
    if a.len() != b.len() {
        assert(views(a@).len() != views(b@).len());
        return false;
    }
    let mut i: usize = 0;
    while i < a.len()
        invariant
            i <= a@.len(),
            a@.len() == b@.len(),
            forall|k: int| 0 <= k < i ==> views(a@)[k] == views(b@)[k],
        decreases a@.len() - i,
    {
        if !str_eq(a[i].as_str(), b[i].as_str()) {
            assert(views(a@)[i as int] != views(b@)[i as int]);
            return false;
        }
        i += 1;
    }
    assert(views(a@) =~= views(b@));
    true
}

fn line_lt_exec(a: &Vec<String>, b: &Vec<String>) -> (r: bool)
    ensures
        r == line_lt(views(a@), views(b@)),
{
    let ghost av = views(a@);
    let ghost bv = views(b@);
    let mut i: usize = 0;
    assert(av.skip(0) =~= av);
    assert(bv.skip(0) =~= bv);
    while i < a.len() && i < b.len() && str_eq(a[i].as_str(), b[i].as_str())
        invariant
            i <= a@.len(),
            i <= b@.len(),
            av == views(a@),
            bv == views(b@),
            line_lt(av, bv) == line_lt(av.skip(i as int), bv.skip(i as int)),
        decreases a@.len() - i,
    {
        assert(av.skip(i as int).skip(1) =~= av.skip(i + 1));
        assert(bv.skip(i as int).skip(1) =~= bv.skip(i + 1));
        i += 1;
    }
    if i == b.len() {
        false
    } else if i == a.len() {
        true
    } else {
        assert(av.skip(i as int)[0] == a@[i as int]@);
        assert(bv.skip(i as int)[0] == b@[i as int]@);
        str_lt(a[i].as_str(), b[i].as_str())
    }
}

fn line_before_exec(a: &ContinuationLine, b: &ContinuationLine) -> (r: bool)
    ensures
        r == line_before(cline_view(*a), cline_view(*b)),
{
    a.game_count > b.game_count || (a.game_count == b.game_count && line_lt_exec(&a.sans, &b.sans))
}

proof fn lemma_insert_line_at(v: Seq<(Seq<Seq<char>>, nat)>, x: (Seq<Seq<char>>, nat), p: int)
    requires
        0 <= p <= v.len(),
        forall|a: int| 0 <= a < p ==> line_before(#[trigger] v[a], x),
        p < v.len() ==> !line_before(v[p], x),
    ensures
        insert_line(v, x) == v.insert(p, x),
    decreases p,
{
    if p == 0 {
        if v.len() > 0 {
            assert(seq![x] + v =~= v.insert(0, x));
        } else {
            assert(seq![x] =~= v.insert(0, x));
        }
    } else {
        assert(line_before(v[0], x));
        assert forall|a: int| 0 <= a < p - 1 implies line_before(#[trigger] v.skip(1)[a], x) by {
            assert(v.skip(1)[a] == v[a + 1]);
        }
        lemma_insert_line_at(v.skip(1), x, p - 1);
        assert(seq![v[0]] + v.skip(1).insert(p - 1, x) =~= v.insert(p, x));
    }
}

pub open spec fn clines_view(v: Seq<ContinuationLine>) -> Seq<(Seq<Seq<char>>, nat)> {
    v.map_values(|c: ContinuationLine| cline_view(c))
}


proof fn lemma_ply_of(h: Seq<StepV>, target: Seq<char>, i: int)
    requires
        0 <= i,
    ensures
        ply_of(h, target, i) matches Some(p) ==> i <= p < h.len(),
    decreases h.len() - i,
{
    if i < h.len() && simplified(h[i].fen) != target {
        lemma_ply_of(h, target, i + 1);
    }
}

/// The line a game plays after the anchor position.
fn line_for_game(game: &LoadedGame, anchor: &str, depth: usize) -> (r: Option<Vec<String>>)
    ensures
        match r {
            Some(l) => line_of(*game, anchor@, depth as nat) == Some(views(l@)),
            None => line_of(*game, anchor@, depth as nat) is None,
        },
{
    let history = match game_mainline_history(game) {
        None => return None,
        Some(h) => h,
    };
    let ply = match find_position_ply(&history, anchor) {
        None => return None,
        Some(p) => p,
    };
    proof {
        lemma_ply_of(steps_view(history@), anchor@, 0);
    }
    let sans = continuation_sans(&history, ply, depth);
    if sans.len() == 0 {
        return None;
    }
    Some(sans)
}

/// Counts one more game for a line.
fn bump_line(counts: &mut Vec<ContinuationLine>, sans: Vec<String>)
    requires
        forall|i: int| 0 <= i < old(counts)@.len() ==> (#[trigger] old(counts)@[i]).game_count < u32::MAX,
    ensures
        clines_view(final(counts)@) == bumped(clines_view(old(counts)@), views(sans@)),
        forall|i: int| 0 <= i < final(counts)@.len() ==> (#[trigger] final(counts)@[i]).game_count <= 1 + (if i < old(counts)@.len() { old(counts)@[i].game_count as int } else { 0int }),
        final(counts)@.len() >= old(counts)@.len(),
        forall|i: int| 0 <= i < old(counts)@.len() ==> (#[trigger] old(counts)@[i]).status == MergeStatus::New ==> final(counts)@[i].status == MergeStatus::New,
        forall|i: int| old(counts)@.len() <= i < final(counts)@.len() ==> (#[trigger] final(counts)@[i]).status == MergeStatus::New,
{
    let ghost before = clines_view(counts@);
    let ghost l = views(sans@);
    let mut j: usize = 0;
    while j < counts.len() && !same_line(&counts[j].sans, &sans)
        invariant
            j <= counts@.len(),
            before == clines_view(counts@),
            l == views(sans@),
            line_index(before, l, 0) == line_index(before, l, j as int),
        decreases counts@.len() - j,
    {
        j += 1;
    }
    if j < counts.len() {
        let c = counts[j].game_count + 1;
        let old_line = counts.remove(j);
        counts.insert(j, ContinuationLine { sans: old_line.sans, game_count: c, status: old_line.status });
        assert(clines_view(counts@) =~= bumped(before, l));
    } else {
        counts.push(ContinuationLine { sans, game_count: 1, status: MergeStatus::New });
        assert(clines_view(counts@) =~= bumped(before, l));
    }
}

/// Each distinct line of the games with its number of games.
fn count_lines(games: &[LoadedGame], anchor: &str, depth: usize) -> (r: Vec<ContinuationLine>)
    requires
        games@.len() <= u32::MAX,
    ensures
        clines_view(r@) == line_counts(games@, anchor@, depth as nat, games@.len() as int),
        forall|i: int| 0 <= i < r@.len() ==> (#[trigger] r@[i]).status == MergeStatus::New,
{
    let mut counts: Vec<ContinuationLine> = Vec::new();
    let mut g: usize = 0;
    while g < games.len()
        invariant
            g <= games@.len(),
            games@.len() <= u32::MAX,
            clines_view(counts@) == line_counts(games@, anchor@, depth as nat, g as int),
            forall|i: int| 0 <= i < counts@.len() ==> (#[trigger] counts@[i]).game_count <= g,
            forall|i: int| 0 <= i < counts@.len() ==> (#[trigger] counts@[i]).status == MergeStatus::New,
        decreases games@.len() - g,
    {
        match line_for_game(&games[g], anchor, depth) {
            None => {},
            Some(sans) => {
                bump_line(&mut counts, sans);
            },
        }
        g += 1;
    }
    counts
}

/// The lines played in at least `min` games, in the same order.
fn keep_frequent(counts: &Vec<ContinuationLine>, min: u32) -> (r: Vec<ContinuationLine>)
    ensures
        clines_view(r@) == frequent(clines_view(counts@), min as nat),
        forall|k: int| 0 <= k < r@.len() ==> (#[trigger] r@[k]).status == MergeStatus::New,
{
    let ghost all = clines_view(counts@);
    let mut kept: Vec<ContinuationLine> = Vec::new();
    let mut i: usize = 0;
    while i < counts.len()
        invariant
            i <= counts@.len(),
            all == clines_view(counts@),
            clines_view(kept@) == frequent(all.take(i as int), min as nat),
            forall|k: int| 0 <= k < kept@.len() ==> (#[trigger] kept@[k]).status == MergeStatus::New,
        decreases counts@.len() - i,
    {
        let ghost before = clines_view(kept@);
        assert(all.take(i + 1).drop_last() =~= all.take(i as int));
        assert(all.take(i + 1).last() == cline_view(counts@[i as int]));
        if counts[i].game_count >= min {
            let c = &counts[i];
            kept.push(ContinuationLine { sans: clone_line(&c.sans), game_count: c.game_count, status: MergeStatus::New });
            assert(clines_view(kept@) =~= before.push(cline_view(counts@[i as int])));
        }
        i += 1;
    }
    assert(all.take(i as int) =~= all);
    kept
}

/// The lines sorted most played first, then by moves.
fn sort_continuations(kept: &Vec<ContinuationLine>) -> (r: Vec<ContinuationLine>)
    ensures
        clines_view(r@) == sort_lines(clines_view(kept@)),
        forall|q: int| 0 <= q < r@.len() ==> (#[trigger] r@[q]).status == MergeStatus::New,
{
    let ghost fq = clines_view(kept@);
    let mut sorted: Vec<ContinuationLine> = Vec::new();
    let mut k: usize = 0;
    assert(clines_view(sorted@) =~= sort_lines(fq.take(0)));
    while k < kept.len()
        invariant
            k <= kept@.len(),
            fq == clines_view(kept@),
            clines_view(sorted@) == sort_lines(fq.take(k as int)),
            forall|q: int| 0 <= q < sorted@.len() ==> (#[trigger] sorted@[q]).status == MergeStatus::New,
        decreases kept@.len() - k,
    {
        let x = ContinuationLine { sans: clone_line(&kept[k].sans), game_count: kept[k].game_count, status: MergeStatus::New };
        let ghost xv = cline_view(x);
        assert(xv == fq[k as int]);
        let ghost old_v = clines_view(sorted@);
        let mut p: usize = 0;
        while p < sorted.len() && line_before_exec(&sorted[p], &x)
            invariant
                p <= sorted@.len(),
                old_v == clines_view(sorted@),
                xv == cline_view(x),
                forall|a: int| 0 <= a < p ==> line_before(#[trigger] old_v[a], xv),
            decreases sorted@.len() - p,
        {
            p += 1;
        }
        sorted.insert(p, x);
        proof {
            assert(clines_view(sorted@) =~= old_v.insert(p as int, xv));
            lemma_insert_line_at(old_v, xv, p as int);
            assert(fq.take(k + 1).drop_last() =~= fq.take(k as int));
        }
        k += 1;
    }
    assert(fq.take(k as int) =~= fq);
    sorted
}

/// The continuations of the games from the anchor position, most played first.
pub fn extract_continuations(games: &[LoadedGame], options: &ExtractOptions) -> (r: Vec<ContinuationLine>)
    requires
        games@.len() <= u32::MAX,
    ensures
        clines_view(r@) == extracted(games@, *options),
        forall|i: int| 0 <= i < r@.len() ==> (#[trigger] r@[i]).status == MergeStatus::New,
        forall|a: int, b: int| 0 <= a < b < r@.len() ==> (#[trigger] r@[a]).game_count >= (#[trigger] r@[b]).game_count,
{
    let anchor = simplified_fen(options.anchor_fen.as_str());
    let counts = count_lines(games, anchor.as_str(), options.depth);
    let kept = keep_frequent(&counts, options.min_games);
    let mut sorted = sort_continuations(&kept);
    if sorted.len() > options.max_lines {
        sorted.truncate(options.max_lines);
        assert(clines_view(sorted@) =~= sort_lines(clines_view(kept@)).take(options.max_lines as int));
    }
    proof {
        law_extracted_most_played_first(games@, *options);
        let e = extracted(games@, *options);
        assert forall|a: int, b: int| 0 <= a < b < sorted@.len() implies (#[trigger] sorted@[a]).game_count
            >= (#[trigger] sorted@[b]).game_count by {
            assert(e[a] == cline_view(sorted@[a]) && e[b] == cline_view(sorted@[b]));
        }
    }
    sorted
}

pub(crate) fn clone_line(v: &Vec<String>) -> (r: Vec<String>)
    ensures
        views(r@) == views(v@),
{
    let mut r: Vec<String> = Vec::new();
    let mut i: usize = 0;
    while i < v.len()
        invariant
            i <= v@.len(),
            views(r@) == views(v@).take(i as int),
        decreases v@.len() - i,
    {
        let ghost before = views(r@);
        let c = v[i].clone();
        r.push(c);
        assert(views(r@) =~= before.push(v@[i as int]@));
        assert(views(v@).take(i + 1) =~= views(v@).take(i as int).push(v@[i as int]@));
        i += 1;
    }
    assert(views(v@).take(i as int) =~= views(v@));
    r
}

// ---------------------------------------------------------------- against the tree

/// How much of line `sans[k..]` the tree already has below `path`, with `shared` plies
/// found so far.
pub open spec fn classify_from(root: NodeV, path: Seq<usize>, sans: Seq<Seq<char>>, k: int, shared: nat) -> MergeStatus
    decreases sans.len() - k,
{
    if k < 0 || k >= sans.len() {
        if shared == sans.len() {
            MergeStatus::Exists
        } else {
            MergeStatus::Partial { shared_plies: shared as usize }
        }
    } else {
        let stop = if shared == 0 { MergeStatus::New } else { MergeStatus::Partial { shared_plies: shared as usize } };
        match nv_at(root, path) {
            None => stop,
            Some(node) => match child_index(node.children, sans[k]) {
                None => stop,
                Some(i) => classify_from(root, path.push(i as usize), sans, k + 1, shared + 1),
            },
        }
    }
}

pub fn classify_line(tree: &MoveTree, anchor_path: &[usize], sans: &[String]) -> (r: MergeStatus)
    ensures
        r == classify_from(tree.root_view(), anchor_path@, sans@.map_values(|s: String| s@), 0, 0),
{
    let ghost sv = sans@.map_values(|s: String| s@);
    let mut path = crate::move_tree::path_prefix(anchor_path, anchor_path.len());
    assert(path@ =~= anchor_path@);
    let mut shared: usize = 0;
    let mut k: usize = 0;
    while k < sans.len()
        invariant
            k <= sans@.len(),
            shared == k,
            sv == sans@.map_values(|s: String| s@),
            classify_from(tree.root_view(), anchor_path@, sv, 0, 0) == classify_from(tree.root_view(), path@, sv, k as int, shared as nat),
        decreases sans@.len() - k,
    {
        let stop = if shared == 0 { MergeStatus::New } else { MergeStatus::Partial { shared_plies: shared } };
        match tree.node_at(path.as_slice()) {
            None => return stop,
            Some(node) => {
                match tree.child_with_san(path.as_slice(), &sans[k]) {
                    None => return stop,
                    Some(i) => {
                        path.push(i);
                    },
                }
            },
        }
        shared += 1;
        k += 1;
    }
    if shared == sans.len() {
        MergeStatus::Exists
    } else {
        MergeStatus::Partial { shared_plies: shared }
    }
}

/// Sets the status of each line against the tree.
pub fn classify_lines(tree: &MoveTree, anchor_path: &[usize], lines: &mut Vec<ContinuationLine>)
    ensures
        clines_view(final(lines)@) == clines_view(old(lines)@),
        forall|i: int| 0 <= i < final(lines)@.len() ==> (#[trigger] final(lines)@[i]).status == classify_from(
            tree.root_view(),
            anchor_path@,
            views(final(lines)@[i].sans@),
            0,
            0,
        ),
{
    let ghost orig = clines_view(lines@);
    let mut i: usize = 0;
    while i < lines.len()
        invariant
            i <= lines@.len(),
            clines_view(lines@) == orig,
            forall|q: int| 0 <= q < i ==> (#[trigger] lines@[q]).status == classify_from(tree.root_view(), anchor_path@, views(lines@[q].sans@), 0, 0),
        decreases lines@.len() - i,
    {
        let status = classify_line(tree, anchor_path, lines[i].sans.as_slice());
        let line = lines.remove(i);
        let ghost lv = cline_view(line);
        lines.insert(i, ContinuationLine { sans: line.sans, game_count: line.game_count, status });
        assert(clines_view(lines@) =~= orig);
        i += 1;
    }
}

/// Merging `ls[k..]` into the tree from the anchor: lines that exist are skipped, the
/// others are added as far as their moves can be played, counting a line as skipped when
/// it added nothing.
pub open spec fn merged_all(root: NodeV, anchor: Seq<usize>, ls: Seq<(Seq<Seq<char>>, MergeStatus)>, k: int, rep: MergeReport) -> (NodeV, MergeReport)
    decreases ls.len() - k,
{
    if k < 0 || k >= ls.len() {
        (root, rep)
    } else if ls[k].1 == MergeStatus::Exists {
        merged_all(root, anchor, ls, k + 1, MergeReport { lines_skipped: (rep.lines_skipped + 1) as u32, ..rep })
    } else {
        let m = merge_spec(root, anchor, ls[k].0, 0);
        if m.1 > 0 {
            merged_all(m.0, anchor, ls, k + 1, MergeReport {
                lines_added: (rep.lines_added + 1) as u32,
                plies_added: (rep.plies_added + m.1) as u32,
                ..rep
            })
        } else {
            merged_all(m.0, anchor, ls, k + 1, MergeReport { lines_skipped: (rep.lines_skipped + 1) as u32, ..rep })
        }
    }
}

pub open spec fn total_plies(ls: Seq<ContinuationLine>) -> nat
    decreases ls.len(),
{
    if ls.len() == 0 {
        0
    } else {
        total_plies(ls.drop_last()) + ls.last().sans@.len()
    }
}

pub open spec fn status_lines(ls: Seq<ContinuationLine>) -> Seq<(Seq<Seq<char>>, MergeStatus)> {
    ls.map_values(|c: ContinuationLine| (views(c.sans@), c.status))
}

proof fn lemma_merge_spec_bound(n: NodeV, path: Seq<usize>, sans: Seq<Seq<char>>, k: int)
    requires
        0 <= k <= sans.len(),
    ensures
        merge_spec(n, path, sans, k).1 <= sans.len() - k,
    decreases sans.len() - k,
{
    if k < sans.len() {
        match nv_at(n, path) {
            None => {},
            Some(node) => match child_index(node.children, sans[k]) {
                Some(i) => lemma_merge_spec_bound(n, path.push(i as usize), sans, k + 1),
                None => {
                    if crate::chess::spec_san_parses(sans[k]) && crate::chess::move_outcome(crate::chess::spec_play_san(node.fen, sans[k])) is Some {
                        let (f, _s, o, d) = crate::chess::move_outcome(crate::chess::spec_play_san(node.fen, sans[k]))->0;
                        let n2 = crate::move_tree::nv_edit(n, path, crate::move_tree::push_child(crate::move_tree::leaf(f, sans[k], o, d)));
                        lemma_merge_spec_bound(n2, path.push(node.children.len() as usize), sans, k + 1);
                    }
                },
            },
        }
    }
}

proof fn lemma_total_plies_prefix(ls: Seq<ContinuationLine>, k: int)
    requires
        0 <= k < ls.len(),
    ensures
        total_plies(ls.take(k)) + ls[k].sans@.len() <= total_plies(ls),
    decreases ls.len() - k,
{
    assert(ls.take(k + 1).drop_last() =~= ls.take(k));
    if k + 1 < ls.len() {
        lemma_total_plies_prefix(ls, k + 1);
    } else {
        assert(ls.take(k + 1) =~= ls);
    }
    lemma_total_plies_grow(ls, k + 1);
}

proof fn lemma_total_plies_grow(ls: Seq<ContinuationLine>, k: int)
    requires
        0 <= k <= ls.len(),
    ensures
        total_plies(ls.take(k)) <= total_plies(ls),
    decreases ls.len() - k,
{
    if k < ls.len() {
        lemma_total_plies_grow(ls, k + 1);
        assert(ls.take(k + 1).drop_last() =~= ls.take(k));
    } else {
        assert(ls.take(k) =~= ls);
    }
}

/// Merges the lines into the tree from the anchor; lines known to exist are skipped.
pub fn merge_continuations(tree: &mut MoveTree, anchor_path: &[usize], lines: &[ContinuationLine]) -> (r: MergeReport)
    requires
        lines@.len() <= u32::MAX,
        total_plies(lines@) <= u32::MAX,
    ensures
        (final(tree).root_view(), r) == merged_all(
            old(tree).root_view(),
            anchor_path@,
            status_lines(lines@),
            0,
            MergeReport { lines_added: 0, plies_added: 0, lines_skipped: 0 },
        ),
        final(tree).position == old(tree).position,
        final(tree).variation_mode == old(tree).variation_mode,
{
    let ghost ls = status_lines(lines@);
    let ghost goal = merged_all(tree.root_view(), anchor_path@, ls, 0, MergeReport { lines_added: 0, plies_added: 0, lines_skipped: 0 });
    let mut report = MergeReport::default();
    let mut k: usize = 0;
    while k < lines.len()
        invariant
            k <= lines@.len(),
            lines@.len() <= u32::MAX,
            total_plies(lines@) <= u32::MAX,
            ls == status_lines(lines@),
            goal == merged_all(tree.root_view(), anchor_path@, ls, k as int, report),
            report.lines_added + report.lines_skipped <= k,
            report.plies_added <= total_plies(lines@.take(k as int)),
            tree.position == old(tree).position,
            tree.variation_mode == old(tree).variation_mode,
        decreases lines@.len() - k,
    {
        let line = &lines[k];
        let ghost root_k = tree.root_view();
        let ghost rep_k = report;
        assert(ls[k as int] == (views(line.sans@), line.status));
        proof {
            lemma_total_plies_prefix(lines@, k as int);
            assert(lines@.take(k + 1).drop_last() =~= lines@.take(k as int));
        }
        match line.status {
            MergeStatus::Exists => {
                report.lines_skipped = report.lines_skipped + 1;
            },
            _ => {
                assert(line.sans@.map_values(|s: String| s@) == views(line.sans@));
                proof {
                    lemma_merge_spec_bound(tree.root_view(), anchor_path@, views(line.sans@), 0);
                }
                let added = tree.merge_line_from_path(anchor_path, line.sans.as_slice());
                if added > 0 {
                    report.lines_added = report.lines_added + 1;
                    report.plies_added = report.plies_added + added;
                } else {
                    report.lines_skipped = report.lines_skipped + 1;
                }
                proof {
                    let m = merge_spec(root_k, anchor_path@, ls[k as int].0, 0);
                    assert(m.0 == tree.root_view());
                    assert(m.1 == added);
                    assert(ls[k as int].1 != MergeStatus::Exists);
                    if added > 0 {
                        assert(report == MergeReport { lines_added: (rep_k.lines_added + 1) as u32, plies_added: (rep_k.plies_added + m.1) as u32, ..rep_k });
                    } else {
                        assert(report == MergeReport { lines_skipped: (rep_k.lines_skipped + 1) as u32, ..rep_k });
                    }
                }
                assert(merged_all(root_k, anchor_path@, ls, k as int, rep_k) == merged_all(tree.root_view(), anchor_path@, ls, k + 1, report));
            },
        }
        k += 1;
    }
    report
}

// ---------------------------------------------------------------- importing into a repertoire

/// Every line of `acc` has at most `d` moves.
pub open spec fn lines_within(acc: Seq<(Seq<Seq<char>>, nat)>, d: nat) -> bool {
    forall|i: int| 0 <= i < acc.len() ==> (#[trigger] acc[i]).0.len() <= d
}

proof fn lemma_sans_of_len(h: Seq<StepV>)
    ensures
        sans_of(h).len() <= h.len(),
    decreases h.len(),
{
    if h.len() > 0 {
        lemma_sans_of_len(h.drop_last());
    }
}

proof fn lemma_line_of_len(g: LoadedGame, anchor: Seq<char>, depth: nat)
    ensures
        line_of(g, anchor, depth) matches Some(l) ==> l.len() <= depth,
{
    match game_history(g) {
        None => {},
        Some(h) => match ply_of(h, anchor, 0) {
            None => {},
            Some(p) => {
                lemma_ply_of(h, anchor, 0);
                let end = if p + 1 + depth < h.len() { p + 1 + depth } else { h.len() as int };
                lemma_sans_of_len(h.subrange(p + 1, end));
            },
        },
    }
}

proof fn lemma_line_index_range(acc: Seq<(Seq<Seq<char>>, nat)>, line: Seq<Seq<char>>, i: int)
    requires
        0 <= i,
    ensures
        line_index(acc, line, i) >= 0 ==> i <= line_index(acc, line, i) < acc.len(),
    decreases acc.len() - i,
{
    if i < acc.len() && acc[i].0 != line {
        lemma_line_index_range(acc, line, i + 1);
    }
}

proof fn lemma_line_counts_within(gs: Seq<LoadedGame>, anchor: Seq<char>, depth: nat, n: int)
    ensures
        lines_within(line_counts(gs, anchor, depth, n), depth),
    decreases n,
{
    if n <= 0 || n > gs.len() {
    } else {
        lemma_line_counts_within(gs, anchor, depth, n - 1);
        lemma_line_of_len(gs[n - 1], anchor, depth);
        let acc = line_counts(gs, anchor, depth, n - 1);
        match line_of(gs[n - 1], anchor, depth) {
            None => {},
            Some(l) => {
                let b = bumped(acc, l);
                lemma_line_index_range(acc, l, 0);
                assert forall|i: int| 0 <= i < b.len() implies (#[trigger] b[i]).0.len() <= depth by {
                    let k = line_index(acc, l, 0);
                    if k >= 0 {
                        if i != k {
                            assert(b[i] == acc[i]);
                        }
                    } else if i < acc.len() {
                        assert(b[i] == acc[i]);
                    }
                }
            },
        }
    }
}

proof fn lemma_frequent_within(acc: Seq<(Seq<Seq<char>>, nat)>, min: nat, d: nat)
    requires
        lines_within(acc, d),
    ensures
        lines_within(frequent(acc, min), d),
    decreases acc.len(),
{
    if acc.len() > 0 {
        assert(lines_within(acc.drop_last(), d)) by {
            assert forall|i: int| 0 <= i < acc.drop_last().len() implies (#[trigger] acc.drop_last()[i]).0.len() <= d by {
                assert(acc.drop_last()[i] == acc[i]);
            }
        }
        lemma_frequent_within(acc.drop_last(), min, d);
        assert(acc[acc.len() - 1].0.len() <= d);
    }
}

proof fn lemma_insert_line_within(v: Seq<(Seq<Seq<char>>, nat)>, x: (Seq<Seq<char>>, nat), d: nat)
    requires
        lines_within(v, d),
        x.0.len() <= d,
    ensures
        lines_within(insert_line(v, x), d),
        insert_line(v, x).len() == v.len() + 1,
    decreases v.len(),
{
    if v.len() > 0 {
        assert(lines_within(v.skip(1), d)) by {
            assert forall|i: int| 0 <= i < v.skip(1).len() implies (#[trigger] v.skip(1)[i]).0.len() <= d by {
                assert(v.skip(1)[i] == v[i + 1]);
            }
        }
        lemma_insert_line_within(v.skip(1), x, d);
        assert(v[0].0.len() <= d);
    }
}

proof fn lemma_sort_lines_within(v: Seq<(Seq<Seq<char>>, nat)>, d: nat)
    requires
        lines_within(v, d),
    ensures
        lines_within(sort_lines(v), d),
    decreases v.len(),
{
    if v.len() > 0 {
        assert(lines_within(v.drop_last(), d)) by {
            assert forall|i: int| 0 <= i < v.drop_last().len() implies (#[trigger] v.drop_last()[i]).0.len() <= d by {
                assert(v.drop_last()[i] == v[i]);
            }
        }
        lemma_sort_lines_within(v.drop_last(), d);
        assert(v[v.len() - 1].0.len() <= d);
        lemma_insert_line_within(sort_lines(v.drop_last()), v.last(), d);
    }
}

/// The extracted lines are at most `max_lines`, each at most `depth` moves long.
proof fn lemma_extracted_bounds(gs: Seq<LoadedGame>, o: ExtractOptions)
    ensures
        extracted(gs, o).len() <= o.max_lines,
        lines_within(extracted(gs, o), o.depth as nat),
{
    let d = o.depth as nat;
    let counts = line_counts(gs, simplified(o.anchor_fen@), d, gs.len() as int);
    lemma_line_counts_within(gs, simplified(o.anchor_fen@), d, gs.len() as int);
    lemma_frequent_within(counts, o.min_games as nat, d);
    lemma_sort_lines_within(frequent(counts, o.min_games as nat), d);
    let s = sort_lines(frequent(counts, o.min_games as nat));
    if s.len() > o.max_lines {
        assert forall|i: int| 0 <= i < s.take(o.max_lines as int).len() implies (#[trigger] s.take(o.max_lines as int)[i]).0.len() <= d by {
            assert(s.take(o.max_lines as int)[i] == s[i]);
        }
    }
}

proof fn lemma_total_plies_bound(ls: Seq<ContinuationLine>, d: nat)
    requires
        forall|i: int| 0 <= i < ls.len() ==> (#[trigger] ls[i]).sans@.len() <= d,
    ensures
        total_plies(ls) <= ls.len() * d,
    decreases ls.len(),
{
    if ls.len() > 0 {
        assert forall|i: int| 0 <= i < ls.drop_last().len() implies (#[trigger] ls.drop_last()[i]).sans@.len() <= d by {
            assert(ls.drop_last()[i] == ls[i]);
        }
        lemma_total_plies_bound(ls.drop_last(), d);
        let n = ls.len();
        assert(ls[n - 1].sans@.len() <= d);
        assert((n - 1) * d + d == n * d) by (nonlinear_arith);
    }
}

/// What an import ends with: whether lines went into the tree, the tab's status, and how
/// many games were fetched.
#[derive(Debug)]
pub struct ImportOutcome {
    pub merged: bool,
    pub status: String,
    pub games_loaded: u32,
}

/// The opening label of a repertoire tree at its current position.
pub open spec fn tree_label(t: MoveTree) -> Seq<char> {
    crate::history::opening_label_of(seq![t.root_view().fen] + crate::move_tree::fens_along(t.root_view(), t.position@, 0))
}

/// The lines with their status against the tree.
pub open spec fn classified(root: NodeV, anchor: Seq<usize>, ex: Seq<(Seq<Seq<char>>, nat)>) -> Seq<(Seq<Seq<char>>, MergeStatus)> {
    ex.map_values(|l: (Seq<Seq<char>>, nat)| (l.0, classify_from(root, anchor, l.0, 0, 0)))
}

/// The status after merging: nothing new, a stopped download, or the lines imported.
pub open spec fn merged_text(rep: MergeReport, outcome: crate::fetch::StreamOutcome, games: nat, candidates: nat, label: Seq<char>) -> Seq<char> {
    if rep.lines_added == 0 && rep.plies_added == 0 {
        "Loaded "@ + crate::text::dec(games) + " games at "@ + label + " — all "@ + crate::text::dec(candidates)
            + " candidate lines already in repertoire"@
    } else if outcome == crate::fetch::StreamOutcome::Cancelled {
        "Stopped at "@ + label + " — added "@ + crate::text::dec(rep.lines_added as nat) + " lines ("@ + crate::text::dec(
            rep.plies_added as nat,
        ) + " plies) from "@ + crate::text::dec(games) + " games"@
    } else {
        "Imported "@ + crate::text::dec(rep.lines_added as nat) + " lines ("@ + crate::text::dec(rep.plies_added as nat)
            + " plies) from "@ + crate::text::dec(games) + " games at "@ + label
    }
}

fn tree_opening_label(tree: &MoveTree) -> (r: String)
    ensures
        r@ == tree_label(*tree),
{
    let fens = tree.path_fens();
    crate::history::opening_label_for(fens.as_slice())
}

/// Ends an import of the games fetched for the current position (`anchor_fen`, reached by
/// `anchor_path`): a failed download shows its error; without games, or without a game
/// that reaches the position, nothing changes; otherwise the lines played there (up to
/// `depth` moves, at most 50 of them) are merged into the tree.
pub fn finish_import(
    tree: &mut MoveTree,
    fetch_result: Result<(crate::fetch::StreamOutcome, u32), String>,
    games: &[LoadedGame],
    anchor_fen: String,
    anchor_path: &[usize],
    depth: u8,
    side: crate::fetch::PlayerColor,
) -> (r: ImportOutcome)
    requires
        games@.len() <= u32::MAX,
    ensures
        r.games_loaded == games@.len() as u32,
        match fetch_result {
            Err(e) => !r.merged && r.status == e && *final(tree) == *old(tree),
            Ok((outcome, _)) => if games@.len() == 0 {
                &&& !r.merged
                &&& r.status@ == "No games as "@ + crate::fetch::color_name(side)
                    + " in this period — try a longer period or check repertoire color"@
                &&& *final(tree) == *old(tree)
            } else {
                let ex = extracted(games@, ExtractOptions { anchor_fen, depth: depth as usize, max_lines: 50, min_games: 1 });
                if ex.len() == 0 {
                    &&& !r.merged
                    &&& r.status@ == "Loaded "@ + crate::text::dec(games@.len()) + " games at "@ + tree_label(*old(tree))
                        + " — no games contain this position"@
                    &&& *final(tree) == *old(tree)
                } else {
                    let m = merged_all(
                        old(tree).root_view(),
                        anchor_path@,
                        classified(old(tree).root_view(), anchor_path@, ex),
                        0,
                        MergeReport { lines_added: 0, plies_added: 0, lines_skipped: 0 },
                    );
                    &&& r.merged
                    &&& final(tree).root_view() == m.0
                    &&& final(tree).position == old(tree).position
                    &&& r.status@ == merged_text(m.1, outcome, games@.len(), ex.len(), tree_label(*final(tree)))
                }
            },
        },
{
    let games_loaded = games.len() as u32;
    let outcome = match fetch_result {
        Err(e) => {
            return ImportOutcome { merged: false, status: e, games_loaded };
        },
        Ok((o, _)) => o,
    };
    if games.len() == 0 {
        let mut v: Vec<char> = Vec::new();
        crate::text::append_str(&mut v, "No games as ");
        crate::text::append_str(&mut v, side.orientation_value());
        crate::text::append_str(&mut v, " in this period — try a longer period or check repertoire color");
        return ImportOutcome { merged: false, status: crate::text::string_of(v.as_slice()), games_loaded };
    }
    let options = ExtractOptions { anchor_fen, depth: depth as usize, max_lines: 50, min_games: 1 };
    let mut lines = extract_continuations(games, &options);
    let ghost ex = extracted(games@, options);
    if lines.len() == 0 {
        let label = tree_opening_label(tree);
        let mut v: Vec<char> = Vec::new();
        crate::text::append_str(&mut v, "Loaded ");
        crate::text::append_chars(&mut v, crate::text::decimal(games.len() as u64).as_slice());
        crate::text::append_str(&mut v, " games at ");
        crate::text::append_str(&mut v, label.as_str());
        crate::text::append_str(&mut v, " — no games contain this position");
        return ImportOutcome { merged: false, status: crate::text::string_of(v.as_slice()), games_loaded };
    }
    let ghost root0 = tree.root_view();
    classify_lines(tree, anchor_path, &mut lines);
    proof {
        lemma_extracted_bounds(games@, options);
        assert forall|i: int| 0 <= i < lines@.len() implies (#[trigger] lines@[i]).sans@.len() <= depth by {
            assert(clines_view(lines@)[i] == ex[i]);
            assert(views(lines@[i].sans@).len() == lines@[i].sans@.len());
        }
        lemma_total_plies_bound(lines@, depth as nat);
        assert(lines@.len() <= 50);
        assert(lines@.len() * (depth as nat) <= 50 * 255) by (nonlinear_arith)
            requires
                lines@.len() <= 50,
                depth <= 255,
        ;
        assert(status_lines(lines@) =~= classified(root0, anchor_path@, ex)) by {
            assert forall|i: int| 0 <= i < lines@.len() implies #[trigger] status_lines(lines@)[i] == classified(root0, anchor_path@, ex)[i] by {
                assert(clines_view(lines@)[i] == ex[i]);
            }
        }
    }
    let report = merge_continuations(tree, anchor_path, lines.as_slice());
    let label = tree_opening_label(tree);
    let mut v: Vec<char> = Vec::new();
    if report.lines_added == 0 && report.plies_added == 0 {
        crate::text::append_str(&mut v, "Loaded ");
        crate::text::append_chars(&mut v, crate::text::decimal(games.len() as u64).as_slice());
        crate::text::append_str(&mut v, " games at ");
        crate::text::append_str(&mut v, label.as_str());
        crate::text::append_str(&mut v, " — all ");
        crate::text::append_chars(&mut v, crate::text::decimal(lines.len() as u64).as_slice());
        crate::text::append_str(&mut v, " candidate lines already in repertoire");
    } else if outcome == crate::fetch::StreamOutcome::Cancelled {
        crate::text::append_str(&mut v, "Stopped at ");
        crate::text::append_str(&mut v, label.as_str());
        crate::text::append_str(&mut v, " — added ");
        crate::text::append_chars(&mut v, crate::text::decimal(report.lines_added as u64).as_slice());
        crate::text::append_str(&mut v, " lines (");
        crate::text::append_chars(&mut v, crate::text::decimal(report.plies_added as u64).as_slice());
        crate::text::append_str(&mut v, " plies) from ");
        crate::text::append_chars(&mut v, crate::text::decimal(games.len() as u64).as_slice());
        crate::text::append_str(&mut v, " games");
    } else {
        crate::text::append_str(&mut v, "Imported ");
        crate::text::append_chars(&mut v, crate::text::decimal(report.lines_added as u64).as_slice());
        crate::text::append_str(&mut v, " lines (");
        crate::text::append_chars(&mut v, crate::text::decimal(report.plies_added as u64).as_slice());
        crate::text::append_str(&mut v, " plies) from ");
        crate::text::append_chars(&mut v, crate::text::decimal(games.len() as u64).as_slice());
        crate::text::append_str(&mut v, " games at ");
        crate::text::append_str(&mut v, label.as_str());
    }
    ImportOutcome { merged: true, status: crate::text::string_of(v.as_slice()), games_loaded }
}

// ---------------------------------------------------------------- starting an import

/// Whether an import can start: the trimmed user name, or the status that says why not.
/// A repertoire file is needed first, then a user name, then a time control.
pub fn import_request(has_file: bool, username: &str, time_controls: crate::fetch::TimeControlFilter) -> (r: Result<String, String>)
    ensures
        match r {
            Ok(u) => has_file && trim(username@).len() > 0 && (time_controls.bullet || time_controls.blitz
                || time_controls.rapid || time_controls.classical) && u@ == trim(username@),
            Err(e) => if !has_file {
                e@ == "Create or open a repertoire file first"@
            } else if trim(username@).len() == 0 {
                e@ == "Enter a Lichess / Chess.com username"@
            } else {
                !(time_controls.bullet || time_controls.blitz || time_controls.rapid || time_controls.classical)
                    && e@ == "Select at least one time control below (Bullet, Blitz, …)"@
            },
        },
{
    if !has_file {
        return Err(String::from_str("Create or open a repertoire file first"));
    }
    let t = crate::text::trim_str(username);
    if t.len() == 0 {
        return Err(String::from_str("Enter a Lichess / Chess.com username"));
    }
    if !time_controls.any_selected() {
        return Err(String::from_str("Select at least one time control below (Bullet, Blitz, …)"));
    }
    Ok(crate::text::string_of(t.as_slice()))
}

/// `Loading <user> as <side> at current position (<period>)…`.
pub fn import_loading_status(username: &str, side: crate::fetch::PlayerColor, period: crate::fetch::LoadPeriod) -> (r: String)
    ensures
        r@ == "Loading "@ + username@ + " as "@ + crate::fetch::color_name(side) + " at current position ("@
            + crate::loading::loading_text(period) + ")…"@,
{
    let mut v: Vec<char> = Vec::new();
    crate::text::append_str(&mut v, "Loading ");
    crate::text::append_str(&mut v, username);
    crate::text::append_str(&mut v, " as ");
    crate::text::append_str(&mut v, side.orientation_value());
    crate::text::append_str(&mut v, " at current position (");
    let label = period.loading_label();
    crate::text::append_str(&mut v, label.as_str());
    crate::text::append_str(&mut v, ")…");
    crate::text::string_of(v.as_slice())
}

// ---------------------------------------------------------------- order of extracted lines

proof fn lemma_line_lt_total(a: Seq<Seq<char>>, b: Seq<Seq<char>>)
    requires
        a != b,
    ensures
        line_lt(a, b) || line_lt(b, a),
    decreases a.len(),
{
    if a.len() > 0 && b.len() > 0 {
        if a[0] != b[0] {
            crate::text::lemma_seq_lt_total(a[0], b[0]);
        } else {
            if a.skip(1) == b.skip(1) {
                assert(a =~= seq![a[0]] + a.skip(1));
                assert(b =~= seq![b[0]] + b.skip(1));
            }
            lemma_line_lt_total(a.skip(1), b.skip(1));
        }
    } else if a.len() == 0 && b.len() == 0 {
        assert(a =~= b);
    }
}

proof fn lemma_line_lt_trans(a: Seq<Seq<char>>, b: Seq<Seq<char>>, c: Seq<Seq<char>>)
    requires
        line_lt(a, b),
        line_lt(b, c),
    ensures
        line_lt(a, c),
    decreases a.len(),
{
    if a.len() > 0 {
        if a[0] != b[0] && b[0] != c[0] {
            crate::text::lemma_seq_lt_transitive(a[0], b[0], c[0]);
            crate::text::lemma_seq_lt_irreflexive(a[0]);
        } else if a[0] == b[0] && b[0] == c[0] {
            lemma_line_lt_trans(a.skip(1), b.skip(1), c.skip(1));
        }
    }
}

proof fn lemma_line_before_trans(a: (Seq<Seq<char>>, nat), b: (Seq<Seq<char>>, nat), c: (Seq<Seq<char>>, nat))
    requires
        line_before(a, b),
        line_before(b, c),
    ensures
        line_before(a, c),
{
    if a.1 == b.1 && b.1 == c.1 {
        lemma_line_lt_trans(a.0, b.0, c.0);
    }
}

/// Each entry comes before every later one.
pub open spec fn lines_sorted(v: Seq<(Seq<Seq<char>>, nat)>) -> bool {
    forall|a: int, b: int| 0 <= a < b < v.len() ==> line_before(#[trigger] v[a], #[trigger] v[b])
}

/// No line occurs twice.
pub open spec fn lines_distinct(v: Seq<(Seq<Seq<char>>, nat)>) -> bool {
    forall|a: int, b: int| 0 <= a < b < v.len() ==> (#[trigger] v[a]).0 != (#[trigger] v[b]).0
}

/// Every line is one to `d` moves long and was played in at least `min` games, and in one
/// at least.
pub open spec fn lines_fit(v: Seq<(Seq<Seq<char>>, nat)>, d: nat, min: nat) -> bool {
    forall|i: int| 0 <= i < v.len() ==> 1 <= (#[trigger] v[i]).0.len() <= d && v[i].1 >= min && v[i].1 >= 1
}

/// Every entry of `v` is an entry of `w`.
pub open spec fn lines_drawn_from(v: Seq<(Seq<Seq<char>>, nat)>, w: Seq<(Seq<Seq<char>>, nat)>) -> bool {
    forall|i: int| 0 <= i < v.len() ==> exists|j: int| 0 <= j < w.len() && #[trigger] v[i] == #[trigger] w[j]
}

proof fn lemma_line_of_nonempty(g: LoadedGame, anchor: Seq<char>, depth: nat)
    ensures
        line_of(g, anchor, depth) matches Some(l) ==> 1 <= l.len() <= depth,
{
    lemma_line_of_len(g, anchor, depth);
}

proof fn lemma_line_index_found(acc: Seq<(Seq<Seq<char>>, nat)>, line: Seq<Seq<char>>, i: int)
    requires
        0 <= i,
    ensures
        line_index(acc, line, i) >= 0 ==> acc[line_index(acc, line, i)].0 == line,
        line_index(acc, line, i) < 0 ==> forall|k: int| i <= k < acc.len() ==> (#[trigger] acc[k]).0 != line,
    decreases acc.len() - i,
{
    if i < acc.len() && acc[i].0 != line {
        lemma_line_index_found(acc, line, i + 1);
    }
}

proof fn lemma_line_counts_props(gs: Seq<LoadedGame>, anchor: Seq<char>, depth: nat, n: int)
    ensures
        lines_distinct(line_counts(gs, anchor, depth, n)),
        lines_fit(line_counts(gs, anchor, depth, n), depth, 0),
    decreases n,
{
    if 0 < n <= gs.len() {
        lemma_line_counts_props(gs, anchor, depth, n - 1);
        lemma_line_of_nonempty(gs[n - 1], anchor, depth);
        let acc = line_counts(gs, anchor, depth, n - 1);
        if let Some(l) = line_of(gs[n - 1], anchor, depth) {
            let b = bumped(acc, l);
            lemma_line_index_range(acc, l, 0);
            lemma_line_index_found(acc, l, 0);
            let k = line_index(acc, l, 0);
            assert forall|i: int| 0 <= i < b.len() implies 1 <= (#[trigger] b[i]).0.len() <= depth && b[i].1 >= 0
                && b[i].1 >= 1 by {
                if k >= 0 {
                    if i != k {
                        assert(b[i] == acc[i]);
                    }
                } else if i < acc.len() {
                    assert(b[i] == acc[i]);
                }
            }
            assert forall|x: int, y: int| 0 <= x < y < b.len() implies (#[trigger] b[x]).0 != (#[trigger] b[y]).0 by {
                if k >= 0 {
                    assert(b[x].0 == acc[x].0 && b[y].0 == acc[y].0);
                } else if y < acc.len() {
                    assert(b[x] == acc[x] && b[y] == acc[y]);
                } else {
                    assert(b[x] == acc[x]);
                }
            }
        }
    }
}

proof fn lemma_frequent_props(acc: Seq<(Seq<Seq<char>>, nat)>, min: nat, d: nat)
    requires
        lines_distinct(acc),
        lines_fit(acc, d, 0),
    ensures
        lines_distinct(frequent(acc, min)),
        lines_fit(frequent(acc, min), d, min),
        lines_drawn_from(frequent(acc, min), acc),
    decreases acc.len(),
{
    if acc.len() > 0 {
        let dl = acc.drop_last();
        assert(lines_distinct(dl) && lines_fit(dl, d, 0)) by {
            assert forall|i: int| 0 <= i < dl.len() implies dl[i] == acc[i] by {}
        }
        lemma_frequent_props(dl, min, d);
        let f = frequent(dl, min);
        let x = acc.last();
        assert forall|i: int| 0 <= i < f.len() implies exists|j: int| 0 <= j < acc.len() && #[trigger] f[i] == #[trigger] acc[j] by {
            let j = choose|j: int| 0 <= j < dl.len() && f[i] == dl[j];
            assert(dl[j] == acc[j]);
        }
        if x.1 >= min {
            let g = f.push(x);
            assert forall|a: int, b: int| 0 <= a < b < g.len() implies (#[trigger] g[a]).0 != (#[trigger] g[b]).0 by {
                if b == f.len() {
                    let j = choose|j: int| 0 <= j < dl.len() && f[a] == dl[j];
                    assert(dl[j] == acc[j]);
                    assert(g[a] == f[a]);
                } else {
                    assert(g[a] == f[a] && g[b] == f[b]);
                }
            }
            assert forall|i: int| 0 <= i < g.len() implies 1 <= (#[trigger] g[i]).0.len() <= d && g[i].1 >= min && g[i].1 >= 1 by {
                if i < f.len() {
                    assert(g[i] == f[i]);
                }
            }
            assert forall|i: int| 0 <= i < g.len() implies exists|j: int| 0 <= j < acc.len() && #[trigger] g[i] == #[trigger] acc[j] by {
                if i < f.len() {
                    assert(g[i] == f[i]);
                    let j = choose|j: int| 0 <= j < acc.len() && f[i] == acc[j];
                } else {
                    assert(g[i] == acc[acc.len() - 1]);
                }
            }
        }
    }
}

/// The first index at or after `i` whose entry does not come before `x`.
pub open spec fn first_line_not_before(v: Seq<(Seq<Seq<char>>, nat)>, x: (Seq<Seq<char>>, nat), i: int) -> int
    decreases v.len() - i,
{
    if i < 0 || i >= v.len() {
        v.len() as int
    } else if !line_before(v[i], x) {
        i
    } else {
        first_line_not_before(v, x, i + 1)
    }
}

proof fn lemma_first_line_not_before(v: Seq<(Seq<Seq<char>>, nat)>, x: (Seq<Seq<char>>, nat), i: int)
    requires
        0 <= i <= v.len(),
        forall|a: int| 0 <= a < i ==> line_before(#[trigger] v[a], x),
    ensures
        i <= first_line_not_before(v, x, i) <= v.len(),
        forall|a: int| 0 <= a < first_line_not_before(v, x, i) ==> line_before(#[trigger] v[a], x),
        first_line_not_before(v, x, i) < v.len() ==> !line_before(v[first_line_not_before(v, x, i)], x),
    decreases v.len() - i,
{
    if i < v.len() && line_before(v[i], x) {
        lemma_first_line_not_before(v, x, i + 1);
    }
}

proof fn lemma_insert_line_sorted(v: Seq<(Seq<Seq<char>>, nat)>, x: (Seq<Seq<char>>, nat), p: int)
    requires
        0 <= p <= v.len(),
        lines_sorted(v),
        forall|j: int| 0 <= j < v.len() ==> (#[trigger] v[j]).0 != x.0,
        forall|a: int| 0 <= a < p ==> line_before(#[trigger] v[a], x),
        p < v.len() ==> !line_before(v[p], x),
    ensures
        lines_sorted(v.insert(p, x)),
{
    let r = v.insert(p, x);
    if p < v.len() {
        assert(v[p].0 != x.0);
        lemma_line_lt_total(v[p].0, x.0);
        assert(line_before(x, v[p]));
    }
    assert forall|a: int, b: int| 0 <= a < b < r.len() implies line_before(#[trigger] r[a], #[trigger] r[b]) by {
        if b < p {
            assert(r[a] == v[a] && r[b] == v[b]);
        } else if b == p {
            assert(r[a] == v[a]);
        } else if a < p {
            assert(r[a] == v[a] && r[b] == v[b - 1]);
            assert(line_before(v[a], v[b - 1]));
        } else if a == p {
            assert(r[b] == v[b - 1]);
            if b - 1 > p {
                assert(line_before(v[p], v[b - 1]));
                lemma_line_before_trans(x, v[p], v[b - 1]);
            }
        } else {
            assert(r[a] == v[a - 1] && r[b] == v[b - 1]);
            assert(line_before(v[a - 1], v[b - 1]));
        }
    }
}

proof fn lemma_insert_line_distinct(v: Seq<(Seq<Seq<char>>, nat)>, x: (Seq<Seq<char>>, nat), p: int)
    requires
        0 <= p <= v.len(),
        lines_distinct(v),
        forall|j: int| 0 <= j < v.len() ==> (#[trigger] v[j]).0 != x.0,
    ensures
        lines_distinct(v.insert(p, x)),
        forall|i: int| 0 <= i < v.insert(p, x).len() ==> #[trigger] v.insert(p, x)[i] == x || exists|j: int|
            0 <= j < v.len() && v.insert(p, x)[i] == #[trigger] v[j],
{
    let r = v.insert(p, x);
    assert forall|a: int, b: int| 0 <= a < b < r.len() implies (#[trigger] r[a]).0 != (#[trigger] r[b]).0 by {
        if b < p {
            assert(r[a] == v[a] && r[b] == v[b]);
        } else if b == p {
            assert(r[a] == v[a]);
        } else if a < p {
            assert(r[a] == v[a] && r[b] == v[b - 1]);
        } else if a == p {
            assert(r[b] == v[b - 1]);
        } else {
            assert(r[a] == v[a - 1] && r[b] == v[b - 1]);
        }
    }
    assert forall|i: int| 0 <= i < r.len() implies #[trigger] r[i] == x || exists|j: int| 0 <= j < v.len() && r[i] == #[trigger] v[j] by {
        if i < p {
            assert(r[i] == v[i]);
        } else if i > p {
            assert(r[i] == v[i - 1]);
        }
    }
}

proof fn lemma_sort_lines_props(v: Seq<(Seq<Seq<char>>, nat)>)
    requires
        lines_distinct(v),
    ensures
        sort_lines(v).len() == v.len(),
        lines_sorted(sort_lines(v)),
        lines_distinct(sort_lines(v)),
        lines_drawn_from(sort_lines(v), v),
    decreases v.len(),
{
    if v.len() > 0 {
        let d = v.drop_last();
        assert(lines_distinct(d)) by {
            assert forall|a: int, b: int| 0 <= a < b < d.len() implies (#[trigger] d[a]).0 != (#[trigger] d[b]).0 by {
                assert(d[a] == v[a] && d[b] == v[b]);
            }
        }
        lemma_sort_lines_props(d);
        let w = sort_lines(d);
        let x = v.last();
        assert forall|j: int| 0 <= j < w.len() implies (#[trigger] w[j]).0 != x.0 by {
            let k = choose|k: int| 0 <= k < d.len() && w[j] == d[k];
            assert(d[k] == v[k]);
        }
        lemma_first_line_not_before(w, x, 0);
        let p = first_line_not_before(w, x, 0);
        lemma_insert_line_at(w, x, p);
        lemma_insert_line_sorted(w, x, p);
        lemma_insert_line_distinct(w, x, p);
        let r = w.insert(p, x);
        assert forall|i: int| 0 <= i < r.len() implies exists|j: int| 0 <= j < v.len() && #[trigger] r[i] == #[trigger] v[j] by {
            if r[i] == x {
                assert(r[i] == v[v.len() - 1]);
            } else {
                let j = choose|j: int| 0 <= j < w.len() && r[i] == w[j];
                let k = choose|k: int| 0 <= k < d.len() && w[j] == d[k];
                assert(d[k] == v[k]);
            }
        }
    }
}

/// The extracted continuations come most played first, then in order of their moves; no
/// line occurs twice; each is one to `depth` moves long and was played in at least
/// `min_games` games (and in one at least); there are at most `max_lines` of them, and
/// each is one of the lines counted from the games.
pub proof fn law_extracted_lines(gs: Seq<LoadedGame>, o: ExtractOptions)
    ensures
        lines_sorted(extracted(gs, o)),
        lines_distinct(extracted(gs, o)),
        lines_fit(extracted(gs, o), o.depth as nat, o.min_games as nat),
        extracted(gs, o).len() <= o.max_lines,
        lines_drawn_from(
            extracted(gs, o),
            line_counts(gs, simplified(o.anchor_fen@), o.depth as nat, gs.len() as int),
        ),
{
    let d = o.depth as nat;
    let counts = line_counts(gs, simplified(o.anchor_fen@), d, gs.len() as int);
    lemma_line_counts_props(gs, simplified(o.anchor_fen@), d, gs.len() as int);
    lemma_frequent_props(counts, o.min_games as nat, d);
    let f = frequent(counts, o.min_games as nat);
    lemma_sort_lines_props(f);
    let s = sort_lines(f);
    assert forall|i: int| 0 <= i < s.len() implies 1 <= (#[trigger] s[i]).0.len() <= d && s[i].1 >= o.min_games && s[i].1 >= 1 by {
        let j = choose|j: int| 0 <= j < f.len() && s[i] == f[j];
    }
    assert forall|i: int| 0 <= i < s.len() implies exists|j: int| 0 <= j < counts.len() && #[trigger] s[i] == #[trigger] counts[j] by {
        let j = choose|j: int| 0 <= j < f.len() && s[i] == f[j];
        let k = choose|k: int| 0 <= k < counts.len() && f[j] == counts[k];
    }
    lemma_extracted_bounds(gs, o);
    if s.len() > o.max_lines {
        let t = s.take(o.max_lines as int);
        assert forall|i: int| 0 <= i < t.len() implies t[i] == s[i] by {}
        assert(lines_sorted(t)) by {
            assert forall|a: int, b: int| 0 <= a < b < t.len() implies line_before(#[trigger] t[a], #[trigger] t[b]) by {
                assert(t[a] == s[a] && t[b] == s[b]);
            }
        }
        assert(lines_distinct(t)) by {
            assert forall|a: int, b: int| 0 <= a < b < t.len() implies (#[trigger] t[a]).0 != (#[trigger] t[b]).0 by {
                assert(t[a] == s[a] && t[b] == s[b]);
            }
        }
        assert forall|i: int| 0 <= i < t.len() implies exists|j: int| 0 <= j < counts.len() && #[trigger] t[i] == #[trigger] counts[j] by {
            assert(t[i] == s[i]);
        }
    }
}

proof fn lemma_frequent_covers(acc: Seq<(Seq<Seq<char>>, nat)>, min: nat)
    ensures
        forall|j: int| 0 <= j < acc.len() && (#[trigger] acc[j]).1 >= min ==> exists|i: int|
            0 <= i < frequent(acc, min).len() && #[trigger] frequent(acc, min)[i] == acc[j],
    decreases acc.len(),
{
    if acc.len() > 0 {
        let dl = acc.drop_last();
        lemma_frequent_covers(dl, min);
        let f = frequent(dl, min);
        let x = acc.last();
        let r = frequent(acc, min);
        assert forall|j: int| 0 <= j < acc.len() && (#[trigger] acc[j]).1 >= min implies exists|i: int|
            0 <= i < r.len() && #[trigger] r[i] == acc[j] by {
            if j == acc.len() - 1 {
                assert(r[f.len() as int] == acc[j]);
            } else {
                assert(dl[j] == acc[j]);
                let i = choose|i: int| 0 <= i < f.len() && #[trigger] f[i] == dl[j];
                if x.1 >= min {
                    assert(r[i] == f[i]);
                }
            }
        }
    }
}

proof fn lemma_sort_lines_covers(v: Seq<(Seq<Seq<char>>, nat)>)
    ensures
        forall|j: int| 0 <= j < v.len() ==> exists|i: int| 0 <= i < sort_lines(v).len() && #[trigger] sort_lines(v)[i]
            == #[trigger] v[j],
    decreases v.len(),
{
    if v.len() > 0 {
        let d = v.drop_last();
        lemma_sort_lines_covers(d);
        let w = sort_lines(d);
        let x = v.last();
        lemma_first_line_not_before(w, x, 0);
        let p = first_line_not_before(w, x, 0);
        lemma_insert_line_at(w, x, p);
        let r = w.insert(p, x);
        assert(sort_lines(v) == r);
        assert forall|j: int| 0 <= j < v.len() implies exists|i: int| 0 <= i < r.len() && #[trigger] r[i] == #[trigger] v[j] by {
            if j == v.len() - 1 {
                assert(r[p] == v[j]);
            } else {
                assert(d[j] == v[j]);
                let i = choose|i: int| 0 <= i < w.len() && #[trigger] w[i] == #[trigger] d[j];
                if i < p {
                    assert(r[i] == w[i]);
                } else {
                    assert(r[i + 1] == w[i]);
                }
            }
        }
    }
}

/// The extracted continuations come most played first: each was played in at least as
/// many games as every one after it. A line of the games played in at least `min_games`
/// games that is not among them was left out for `max_lines` (they are `max_lines` long),
/// and it was played in no more games than any line kept.
pub proof fn law_extracted_most_played_first(gs: Seq<LoadedGame>, o: ExtractOptions)
    ensures
        forall|a: int, b: int| 0 <= a < b < extracted(gs, o).len() ==> (#[trigger] extracted(gs, o)[a]).1
            >= (#[trigger] extracted(gs, o)[b]).1,
        forall|j: int| 0 <= j < line_counts(gs, simplified(o.anchor_fen@), o.depth as nat, gs.len() as int).len()
            && (#[trigger] line_counts(gs, simplified(o.anchor_fen@), o.depth as nat, gs.len() as int)[j]).1 >= o.min_games
            && !extracted(gs, o).contains(line_counts(gs, simplified(o.anchor_fen@), o.depth as nat, gs.len() as int)[j])
            ==> extracted(gs, o).len() == o.max_lines,
        forall|j: int, i: int| 0 <= j < line_counts(gs, simplified(o.anchor_fen@), o.depth as nat, gs.len() as int).len()
            && (#[trigger] line_counts(gs, simplified(o.anchor_fen@), o.depth as nat, gs.len() as int)[j]).1 >= o.min_games
            && !extracted(gs, o).contains(line_counts(gs, simplified(o.anchor_fen@), o.depth as nat, gs.len() as int)[j])
            && 0 <= i < extracted(gs, o).len() ==> line_counts(gs, simplified(o.anchor_fen@), o.depth as nat, gs.len() as int)[j].1
            <= (#[trigger] extracted(gs, o)[i]).1,
{
    let d = o.depth as nat;
    let min = o.min_games as nat;
    let counts = line_counts(gs, simplified(o.anchor_fen@), d, gs.len() as int);
    let e = extracted(gs, o);
    assert forall|a: int, b: int| 0 <= a < b < e.len() implies (#[trigger] e[a]).1 >= (#[trigger] e[b]).1 by {
        law_extracted_lines(gs, o);
        assert(line_before(e[a], e[b]));
    }
    let f = frequent(counts, min);
    let s = sort_lines(f);
    assert(lines_sorted(s)) by {
        lemma_line_counts_props(gs, simplified(o.anchor_fen@), d, gs.len() as int);
        lemma_frequent_props(counts, min, d);
        lemma_sort_lines_props(f);
    }
    lemma_frequent_sorted_covers(counts, min);
    lemma_left_out_lines(counts, min, s, o.max_lines as int, e);
}

proof fn lemma_frequent_sorted_covers(counts: Seq<(Seq<Seq<char>>, nat)>, min: nat)
    ensures
        forall|j: int| 0 <= j < counts.len() && (#[trigger] counts[j]).1 >= min ==> exists|i: int|
            0 <= i < sort_lines(frequent(counts, min)).len() && sort_lines(frequent(counts, min))[i] == counts[j],
{
    let f = frequent(counts, min);
    let s = sort_lines(f);
    lemma_frequent_covers(counts, min);
    lemma_sort_lines_covers(f);
    assert forall|j: int| 0 <= j < counts.len() && (#[trigger] counts[j]).1 >= min implies exists|i: int| 0 <= i < s.len() && s[i]
        == counts[j] by {
        let fi = choose|fi: int| 0 <= fi < f.len() && #[trigger] f[fi] == counts[j];
        let si = choose|si: int| 0 <= si < s.len() && #[trigger] s[si] == #[trigger] f[fi];
        assert(s[si] == counts[j]);
    }
}

/// Where the sorted lines `s` hold every line of `counts` played in `min` games or more,
/// the first `max` of them leave out such a line only when there are `max` of them, each
/// played in at least as many games.
proof fn lemma_left_out_lines(
    counts: Seq<(Seq<Seq<char>>, nat)>,
    min: nat,
    s: Seq<(Seq<Seq<char>>, nat)>,
    max: int,
    e: Seq<(Seq<Seq<char>>, nat)>,
)
    requires
        0 <= max,
        lines_sorted(s),
        forall|j: int| 0 <= j < counts.len() && (#[trigger] counts[j]).1 >= min ==> exists|i: int| 0 <= i < s.len() && s[i]
            == counts[j],
        e == (if s.len() > max { s.take(max) } else { s }),
    ensures
        forall|j: int| 0 <= j < counts.len() && (#[trigger] counts[j]).1 >= min && !e.contains(counts[j]) ==> e.len() == max
            && forall|i: int| 0 <= i < e.len() ==> counts[j].1 <= (#[trigger] e[i]).1,
{
    assert forall|j: int| 0 <= j < counts.len() && (#[trigger] counts[j]).1 >= min && !e.contains(counts[j]) implies e.len()
        == max && forall|i: int| 0 <= i < e.len() ==> counts[j].1 <= #[trigger] e[i].1 by {
        let si = choose|si: int| 0 <= si < s.len() && s[si] == counts[j];
        if s.len() <= max {
            assert(e[si] == counts[j]);
        } else {
            if si < max {
                assert(e[si] == s[si]);
            }
            assert forall|i: int| 0 <= i < e.len() implies counts[j].1 <= #[trigger] e[i].1 by {
                assert(e[i] == s[i]);
                assert(line_before(s[i], s[si]));
            }
        }
    }
}

// ---------------------------------------------------------------- counting lines

/// How many of the games `gs[..n]` continue from the anchor with exactly line `l`.
pub open spec fn games_with(gs: Seq<LoadedGame>, anchor: Seq<char>, depth: nat, n: int, l: Seq<Seq<char>>) -> nat
    decreases n,
{
    if n <= 0 || n > gs.len() {
        0
    } else {
        games_with(gs, anchor, depth, n - 1, l) + (if line_of(gs[n - 1], anchor, depth) == Some(l) { 1nat } else { 0nat })
    }
}

proof fn lemma_line_counts_found(gs: Seq<LoadedGame>, anchor: Seq<char>, depth: nat, n: int, l: Seq<Seq<char>>)
    requires
        0 <= n <= gs.len(),
        games_with(gs, anchor, depth, n, l) > 0,
    ensures
        line_index(line_counts(gs, anchor, depth, n), l, 0) >= 0,
    decreases n,
{
    let acc = line_counts(gs, anchor, depth, n - 1);
    match line_of(gs[n - 1], anchor, depth) {
        None => {
            lemma_line_counts_found(gs, anchor, depth, n - 1, l);
        },
        Some(m) => {
            lemma_line_index_range(acc, m, 0);
            lemma_line_index_found(acc, m, 0);
            let k = line_index(acc, m, 0);
            if l != m {
                lemma_line_counts_found(gs, anchor, depth, n - 1, l);
            }
            if l == m || line_index(acc, l, 0) >= 0 {
                if k >= 0 {
                    if l == m {
                        lemma_line_index_keep(acc, l, k, (m, acc[k].1 + 1));
                    } else {
                        lemma_line_index_keep(acc, l, k, (m, acc[k].1 + 1));
                    }
                } else {
                    lemma_line_index_push(acc, l, (m, 1nat));
                }
            }
        },
    }
}

#[verifier::rlimit(30)]
proof fn lemma_line_counts_exact(gs: Seq<LoadedGame>, anchor: Seq<char>, depth: nat, n: int)
    requires
        0 <= n <= gs.len(),
    ensures
        forall|i: int| 0 <= i < line_counts(gs, anchor, depth, n).len() ==> (#[trigger] line_counts(gs, anchor, depth, n)[i]).1
            == games_with(gs, anchor, depth, n, line_counts(gs, anchor, depth, n)[i].0),
    decreases n,
{
    if n > 0 {
        lemma_line_counts_exact(gs, anchor, depth, n - 1);
        lemma_line_counts_props(gs, anchor, depth, n - 1);
        let acc = line_counts(gs, anchor, depth, n - 1);
        let r = line_counts(gs, anchor, depth, n);
        match line_of(gs[n - 1], anchor, depth) {
            None => {
                assert forall|i: int| 0 <= i < r.len() implies (#[trigger] r[i]).1 == games_with(gs, anchor, depth, n, r[i].0) by {
                    assert(r[i] == acc[i]);
                }
            },
            Some(m) => {
                lemma_line_index_range(acc, m, 0);
                lemma_line_index_found(acc, m, 0);
                let k = line_index(acc, m, 0);
                assert forall|i: int| 0 <= i < r.len() implies (#[trigger] r[i]).1 == games_with(gs, anchor, depth, n, r[i].0) by {
                    if k >= 0 {
                        if i != k {
                            assert(r[i] == acc[i]);
                            assert(acc[i].0 != acc[k].0);
                        }
                    } else if i < acc.len() {
                        assert(r[i] == acc[i]);
                        assert(acc[i].0 != m);
                    } else {
                        assert(r[i] == (m, 1nat));
                        if games_with(gs, anchor, depth, n - 1, m) > 0 {
                            lemma_line_counts_found(gs, anchor, depth, n - 1, m);
                        }
                    }
                }
            },
        }
    }
}

/// Replacing an entry by one with the same line keeps where each line is found, or
/// another entry keeps it found.
proof fn lemma_line_index_keep(acc: Seq<(Seq<Seq<char>>, nat)>, l: Seq<Seq<char>>, k: int, e: (Seq<Seq<char>>, nat))
    requires
        0 <= k < acc.len(),
        e.0 == acc[k].0,
        line_index(acc, l, 0) >= 0,
    ensures
        line_index(acc.update(k, e), l, 0) >= 0,
{
    lemma_line_index_range(acc, l, 0);
    lemma_line_index_found(acc, l, 0);
    let q = line_index(acc, l, 0);
    let u = acc.update(k, e);
    assert(u[q].0 == l);
    lemma_line_index_found(u, l, 0);
}

proof fn lemma_line_index_push(acc: Seq<(Seq<Seq<char>>, nat)>, l: Seq<Seq<char>>, e: (Seq<Seq<char>>, nat))
    requires
        line_index(acc, l, 0) >= 0 || e.0 == l,
    ensures
        line_index(acc.push(e), l, 0) >= 0,
{
    let u = acc.push(e);
    if line_index(acc, l, 0) >= 0 {
        lemma_line_index_range(acc, l, 0);
        lemma_line_index_found(acc, l, 0);
        let q = line_index(acc, l, 0);
        assert(u[q].0 == l);
    } else {
        assert(u[acc.len() as int].0 == l);
    }
    lemma_line_index_found(u, l, 0);
}

/// The game count of each extracted continuation is the number of games that reach the
/// anchor position and continue there with exactly its moves.
pub proof fn law_extracted_counts(gs: Seq<LoadedGame>, o: ExtractOptions)
    ensures
        forall|i: int| 0 <= i < extracted(gs, o).len() ==> (#[trigger] extracted(gs, o)[i]).1 == games_with(
            gs,
            simplified(o.anchor_fen@),
            o.depth as nat,
            gs.len() as int,
            extracted(gs, o)[i].0,
        ),
{
    let anchor = simplified(o.anchor_fen@);
    let d = o.depth as nat;
    let counts = line_counts(gs, anchor, d, gs.len() as int);
    lemma_line_counts_exact(gs, anchor, d, gs.len() as int);
    law_extracted_lines(gs, o);
    let r = extracted(gs, o);
    assert forall|i: int| 0 <= i < r.len() implies (#[trigger] r[i]).1 == games_with(gs, anchor, d, gs.len() as int, r[i].0) by {
        let j = choose|j: int| 0 <= j < counts.len() && r[i] == counts[j];
        assert(counts[j].1 == games_with(gs, anchor, d, gs.len() as int, counts[j].0));
    }
}

} // verus!
