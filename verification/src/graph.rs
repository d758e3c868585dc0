//! Opening repertoire graph: the moves played from each position, with counts and results.
use vstd::prelude::*;
use crate::chess::{
    group_by_origin, group_moves, groups_view, pairs_view, play_san, play_uci, san_parses, simplified, simplified_fen,
    spec_play_san, spec_play_uci, spec_san_parses, spec_uci_parses, uci_parses, initial_fen, initial_fen_text, Key,
};
use crate::board::{Arrow, ArrowStyle};
use crate::fetch::PlayerColor;
use crate::pgn::{movetext_from_pgn, movetext_moves, movetext_of, tokenize_movetext};
use crate::text::{append_str, chars_of, cviews, seq_lt, split_ws, str_eq, str_lt, string_of, views, ws_tokens};

verus! {

broadcast use vstd::string::group_string_axioms;

#[derive(Clone, Copy, Debug, PartialEq, Eq, Structural)]
pub enum GameResult {
    WhiteWin,
    BlackWin,
    Draw,
}

impl Default for GameResult {
    fn default() -> (r: Self)
        ensures
            r == GameResult::Draw,
    {
        GameResult::Draw
    }
}

/// How the moves of a game are written.
#[derive(Clone, Copy, Debug, PartialEq, Eq, Structural)]
pub enum MoveNotation {
    San,
    Uci,
}

/// What is known of a game besides its moves.
#[derive(Debug)]
pub struct GameMeta {
    pub result: GameResult,
    pub white_elo: Option<u32>,
    pub black_elo: Option<u32>,
    pub date: Option<String>,
    pub url: Option<String>,
    pub timestamp: Option<i64>,
}

pub open spec fn opt_view(o: Option<String>) -> Option<Seq<char>> {
    match o {
        Some(s) => Some(s@),
        None => None,
    }
}

/// A copy of an optional string.
pub fn clone_opt(o: &Option<String>) -> (r: Option<String>)
    ensures
        opt_view(r) == opt_view(*o),
{
    match o {
        Some(s) => Some(s.clone()),
        None => None,
    }
}

pub open spec fn opponent_elo_of(m: GameMeta, c: PlayerColor) -> Option<u32> {
    match c {
        PlayerColor::White => m.black_elo,
        PlayerColor::Black => m.white_elo,
    }
}

impl GameMeta {
    /// The rating of the player on the other side from `player_color`.
    pub fn opponent_elo(&self, player_color: PlayerColor) -> (r: Option<u32>)
        ensures
            r == opponent_elo_of(*self, player_color),
            player_color == PlayerColor::White ==> r == self.black_elo,
            player_color == PlayerColor::Black ==> r == self.white_elo,
    {
        match player_color {
            PlayerColor::White => self.black_elo,
            PlayerColor::Black => self.white_elo,
        }
    }

    /// A copy with the same fields.
    pub fn duplicate(&self) -> (r: GameMeta)
        ensures
            r.result == self.result,
            r.white_elo == self.white_elo,
            r.black_elo == self.black_elo,
            opt_view(r.date) == opt_view(self.date),
            opt_view(r.url) == opt_view(self.url),
            r.timestamp == self.timestamp,
    {
        GameMeta {
            result: self.result,
            white_elo: self.white_elo,
            black_elo: self.black_elo,
            date: clone_opt(&self.date),
            url: clone_opt(&self.url),
            timestamp: self.timestamp,
        }
    }
}

impl Default for GameMeta {
    fn default() -> (r: Self)
        ensures
            r.result == GameResult::Draw,
            r.white_elo is None,
            r.black_elo is None,
            r.date is None,
            r.url is None,
            r.timestamp is None,
    {
        GameMeta { result: GameResult::Draw, white_elo: None, black_elo: None, date: None, url: None, timestamp: None }
    }
}

/// The most recent game that reached a position.
#[derive(Debug)]
pub struct LastGame {
    pub url: Option<String>,
    pub date: Option<String>,
    pub timestamp: Option<i64>,
}

impl Default for LastGame {
    fn default() -> (r: Self)
        ensures
            r.url is None,
            r.date is None,
            r.timestamp is None,
    {
        LastGame { url: None, date: None, timestamp: None }
    }
}

/// Results and ratings of the games that reached a position.
#[derive(Debug)]
pub struct PositionDetails {
    pub white_wins: u32,
    pub black_wins: u32,
    pub draws: u32,
    pub total_opponent_elo: u64,
    pub opponent_elo_games: u32,
    pub last_game: Option<LastGame>,
}

pub struct LastGameV {
    pub url: Option<Seq<char>>,
    pub date: Option<Seq<char>>,
    pub timestamp: Option<i64>,
}

pub struct DetailsV {
    pub white_wins: u32,
    pub black_wins: u32,
    pub draws: u32,
    pub total_opponent_elo: u64,
    pub opponent_elo_games: u32,
    pub last_game: Option<LastGameV>,
}

pub open spec fn last_view(o: Option<LastGame>) -> Option<LastGameV> {
    match o {
        Some(g) => Some(LastGameV { url: opt_view(g.url), date: opt_view(g.date), timestamp: g.timestamp }),
        None => None,
    }
}

pub open spec fn details_view(d: PositionDetails) -> DetailsV {
    DetailsV {
        white_wins: d.white_wins,
        black_wins: d.black_wins,
        draws: d.draws,
        total_opponent_elo: d.total_opponent_elo,
        opponent_elo_games: d.opponent_elo_games,
        last_game: last_view(d.last_game),
    }
}

pub open spec fn empty_details() -> DetailsV {
    DetailsV { white_wins: 0, black_wins: 0, draws: 0, total_opponent_elo: 0, opponent_elo_games: 0, last_game: None }
}

/// What is known of a game, as `merge_game` reads it.
pub struct MetaV {
    pub result: GameResult,
    pub opponent_elo: Option<u32>,
    pub date: Option<Seq<char>>,
    pub url: Option<Seq<char>>,
    pub timestamp: Option<i64>,
}

pub open spec fn meta_view(m: GameMeta, c: PlayerColor) -> MetaV {
    MetaV { result: m.result, opponent_elo: opponent_elo_of(m, c), date: opt_view(m.date), url: opt_view(m.url), timestamp: m.timestamp }
}

/// Whether a game with this time stamp and date is more recent than the last one kept:
/// by time stamp where the new game has one (a missing old one counts as 0), else by date
/// (a missing old date comes first).
pub open spec fn replaces_last(prev: Option<LastGameV>, m: MetaV) -> bool {
    match prev {
        None => true,
        Some(p) => match m.timestamp {
            Some(ts) => ts > (match p.timestamp { Some(t) => t, None => 0 }),
            None => match m.date {
                Some(d) => match p.date {
                    None => true,
                    Some(pd) => seq_lt(pd, d),
                },
                None => false,
            },
        },
    }
}

/// `d` after one more game.
pub open spec fn merged(d: DetailsV, m: MetaV) -> DetailsV {
    DetailsV {
        white_wins: if m.result == GameResult::WhiteWin { (d.white_wins + 1) as u32 } else { d.white_wins },
        black_wins: if m.result == GameResult::BlackWin { (d.black_wins + 1) as u32 } else { d.black_wins },
        draws: if m.result == GameResult::Draw { (d.draws + 1) as u32 } else { d.draws },
        total_opponent_elo: match m.opponent_elo {
            Some(e) => (d.total_opponent_elo + e) as u64,
            None => d.total_opponent_elo,
        },
        opponent_elo_games: match m.opponent_elo {
            Some(e) => (d.opponent_elo_games + 1) as u32,
            None => d.opponent_elo_games,
        },
        last_game: if replaces_last(d.last_game, m) {
            Some(LastGameV { url: m.url, date: m.date, timestamp: m.timestamp })
        } else {
            d.last_game
        },
    }
}

/// Room for game `m` in the counters it moves: the count of its result, and, when the
/// opponent's rating is known, the rating total and the rated-game count.
pub open spec fn can_merge(d: DetailsV, m: MetaV) -> bool {
    &&& match m.result {
        GameResult::WhiteWin => d.white_wins < u32::MAX,
        GameResult::BlackWin => d.black_wins < u32::MAX,
        GameResult::Draw => d.draws < u32::MAX,
    }
    &&& match m.opponent_elo {
        Some(e) => d.opponent_elo_games < u32::MAX && d.total_opponent_elo + e <= u64::MAX,
        None => true,
    }
}

/// A game counts the rating of the player's opponent, the other side: Black's rating for a
/// profile that plays White, White's for one that plays Black. Where that rating is known
/// it is added to the rating total and the game to the rated games; where it is not, both
/// stay as they were. The player's own rating is never counted.
pub proof fn law_game_counts_opponent_rating(d: DetailsV, m: GameMeta, c: PlayerColor)
    requires
        can_merge(d, meta_view(m, c)),
    ensures
        meta_view(m, PlayerColor::White).opponent_elo == m.black_elo,
        meta_view(m, PlayerColor::Black).opponent_elo == m.white_elo,
        c == PlayerColor::White && m.black_elo is Some ==> merged(d, meta_view(m, c)).total_opponent_elo
            == d.total_opponent_elo + m.black_elo.unwrap() && merged(d, meta_view(m, c)).opponent_elo_games
            == d.opponent_elo_games + 1,
        c == PlayerColor::Black && m.white_elo is Some ==> merged(d, meta_view(m, c)).total_opponent_elo
            == d.total_opponent_elo + m.white_elo.unwrap() && merged(d, meta_view(m, c)).opponent_elo_games
            == d.opponent_elo_games + 1,
        (c == PlayerColor::White && m.black_elo is None) || (c == PlayerColor::Black && m.white_elo is None)
            ==> merged(d, meta_view(m, c)).total_opponent_elo == d.total_opponent_elo && merged(
            d,
            meta_view(m, c),
        ).opponent_elo_games == d.opponent_elo_games,
{
}

impl Default for PositionDetails {
    fn default() -> (r: Self)
        ensures
            details_view(r) == empty_details(),
    {
        PositionDetails {
            white_wins: 0,
            black_wins: 0,
            draws: 0,
            total_opponent_elo: 0,
            opponent_elo_games: 0,
            last_game: None,
        }
    }
}

impl PositionDetails {
    pub fn total(&self) -> (r: u32)
        requires
            self.white_wins + self.black_wins + self.draws <= u32::MAX,
        ensures
            r == self.white_wins + self.black_wins + self.draws,
    {
        self.white_wins + self.black_wins + self.draws
    }

    /// Mean rating of the opponents whose rating is known, rounded down.
    pub fn average_opponent_elo(&self) -> (r: Option<u32>)
        ensures
            r == (if self.opponent_elo_games == 0 {
                None
            } else {
                Some((self.total_opponent_elo / (self.opponent_elo_games as u64)) as u32)
            }),
    {
        if self.opponent_elo_games == 0 {
            None
        } else {
            Some((self.total_opponent_elo / (self.opponent_elo_games as u64)) as u32)
        }
    }

    /// Counts one more game that reached the position.
    pub fn merge_game(&mut self, meta: &GameMeta, player_color: PlayerColor)
        requires
            can_merge(details_view(*old(self)), meta_view(*meta, player_color)),
        ensures
            details_view(*final(self)) == merged(details_view(*old(self)), meta_view(*meta, player_color)),
    {
        match meta.result {
            GameResult::WhiteWin => self.white_wins = self.white_wins + 1,
            GameResult::BlackWin => self.black_wins = self.black_wins + 1,
            GameResult::Draw => self.draws = self.draws + 1,
        }
        match meta.opponent_elo(player_color) {
            Some(elo) => {
                self.total_opponent_elo = self.total_opponent_elo + elo as u64;
                self.opponent_elo_games = self.opponent_elo_games + 1;
            },
            None => {},
        }
        let replace_last = match &self.last_game {
            None => true,
            Some(prev) => match meta.timestamp {
                Some(new_ts) => new_ts > (match prev.timestamp {
                    Some(t) => t,
                    None => 0,
                }),
                None => match &meta.date {
                    Some(date) => match &prev.date {
                        None => true,
                        Some(pd) => str_lt(pd.as_str(), date.as_str()),
                    },
                    None => false,
                },
            },
        };
        if replace_last {
            self.last_game = Some(LastGame { url: clone_opt(&meta.url), date: clone_opt(&meta.date), timestamp: meta.timestamp });
        }
    }

    /// A copy with the same counts and last game.
    pub fn duplicate(&self) -> (r: PositionDetails)
        ensures
            details_view(r) == details_view(*self),
    {
        PositionDetails {
            white_wins: self.white_wins,
            black_wins: self.black_wins,
            draws: self.draws,
            total_opponent_elo: self.total_opponent_elo,
            opponent_elo_games: self.opponent_elo_games,
            last_game: match &self.last_game {
                Some(g) => Some(LastGame { url: clone_opt(&g.url), date: clone_opt(&g.date), timestamp: g.timestamp }),
                None => None,
            },
        }
    }
}

/// Frequency tier for arrow width: 3 where the move is played more than 80% as often as
/// the most played move (or nothing has been counted), 2 above 30%, 1 otherwise.
///
/// The shares are compared exactly, in integers. The same test on `f32` quotients can
/// answer otherwise where a share lies within an `f32` rounding step of 80% or 30%, which
/// needs counts in the millions (13421773 of 16777216 is tier 3 here, 2 in `f32`).
pub open spec fn level_of(count: u32, max: u32) -> u8 {
    if max == 0 || 5 * count > 4 * max {
        3
    } else if 10 * count > 3 * max {
        2
    } else {
        1
    }
}

pub fn level_for(count: u32, max: u32) -> (r: u8)
    ensures
        r == level_of(count, max),
{
    let c = count as u64;
    let m = max as u64;
    if max == 0 || 5 * c > 4 * m {
        3
    } else if 10 * c > 3 * m {
        2
    } else {
        1
    }
}


// ---------------------------------------------------------------- the graph

/// One move played from a position, with how often and where it leads.
#[derive(Debug)]
pub struct MoveStat {
    pub san: String,
    pub orig: Key,
    pub dest: Key,
    pub count: u32,
    pub level: u8,
    pub target_fen: String,
    pub details: PositionDetails,
}

/// The moves seen from one position.
#[derive(Debug)]
pub struct EdgeAgg {
    pub san: String,
    pub orig: Key,
    pub dest: Key,
    pub count: u32,
    pub target_fen: String,
}

/// A position (by simplified FEN) with its moves and the results of games that reached it.
#[derive(Debug)]
pub struct Node {
    pub fen: String,
    pub edges: Vec<EdgeAgg>,
    pub max_count: u32,
    pub details: PositionDetails,
}

/// Every position of the loaded games, keyed by simplified FEN.
#[derive(Debug)]
pub struct OpeningGraph {
    pub nodes: Vec<Node>,
    pub games: u32,
}

pub struct EdgeV {
    pub san: Seq<char>,
    pub orig: u8,
    pub dest: u8,
    pub count: u32,
    pub target: Seq<char>,
}

pub struct NodeGV {
    pub fen: Seq<char>,
    pub edges: Seq<EdgeV>,
    pub max_count: u32,
    pub details: DetailsV,
}

pub struct MoveStatV {
    pub san: Seq<char>,
    pub orig: u8,
    pub dest: u8,
    pub count: u32,
    pub level: u8,
    pub target: Seq<char>,
    pub details: DetailsV,
}

pub open spec fn edge_view(e: EdgeAgg) -> EdgeV {
    EdgeV { san: e.san@, orig: e.orig.index, dest: e.dest.index, count: e.count, target: e.target_fen@ }
}

pub open spec fn node_gv(n: Node) -> NodeGV {
    NodeGV {
        fen: n.fen@,
        edges: n.edges@.map_values(|e: EdgeAgg| edge_view(e)),
        max_count: n.max_count,
        details: details_view(n.details),
    }
}

pub open spec fn stat_view(m: MoveStat) -> MoveStatV {
    MoveStatV {
        san: m.san@,
        orig: m.orig.index,
        dest: m.dest.index,
        count: m.count,
        level: m.level,
        target: m.target_fen@,
        details: details_view(m.details),
    }
}

/// Index of the first node at or after `i` with key `key`, or -1.
pub open spec fn find_node_from(ns: Seq<NodeGV>, key: Seq<char>, i: int) -> int
    decreases ns.len() - i,
{
    if i < 0 || i >= ns.len() {
        -1
    } else if ns[i].fen == key {
        i
    } else {
        find_node_from(ns, key, i + 1)
    }
}

pub open spec fn find_node(ns: Seq<NodeGV>, key: Seq<char>) -> int {
    find_node_from(ns, key, 0)
}

/// Index of the first move at or after `i` written `san`, or -1.
pub open spec fn find_edge_from(es: Seq<EdgeV>, san: Seq<char>, i: int) -> int
    decreases es.len() - i,
{
    if i < 0 || i >= es.len() {
        -1
    } else if es[i].san == san {
        i
    } else {
        find_edge_from(es, san, i + 1)
    }
}

pub open spec fn find_edge(es: Seq<EdgeV>, san: Seq<char>) -> int {
    find_edge_from(es, san, 0)
}

pub open spec fn empty_node(key: Seq<char>) -> NodeGV {
    NodeGV { fen: key, edges: seq![], max_count: 0, details: empty_details() }
}

/// `ns` with a node for `key`, and that node's index.
pub open spec fn with_node(ns: Seq<NodeGV>, key: Seq<char>) -> (Seq<NodeGV>, int) {
    let i = find_node(ns, key);
    if i >= 0 {
        (ns, i)
    } else {
        (ns.push(empty_node(key)), ns.len() as int)
    }
}

/// The graph after one more move `san` (squares `o`, `d`) from position `sk` to `tk`
/// (simplified FENs); where the game's data is known, the target position also counts it.
pub open spec fn recorded(
    ns: Seq<NodeGV>,
    sk: Seq<char>,
    tk: Seq<char>,
    san: Seq<char>,
    o: u8,
    d: u8,
    meta: Option<MetaV>,
) -> Seq<NodeGV> {
    let (ns1, i) = with_node(ns, sk);
    let node = ns1[i];
    let j = find_edge(node.edges, san);
    let e0 = if j >= 0 { node.edges[j] } else { EdgeV { san, orig: o, dest: d, count: 0, target: tk } };
    let e1 = EdgeV { count: (e0.count + 1) as u32, target: tk, ..e0 };
    let es1 = if j >= 0 { node.edges.update(j, e1) } else { node.edges.push(e1) };
    let mc = if node.max_count >= e1.count { node.max_count } else { e1.count };
    let ns2 = ns1.update(i, NodeGV { edges: es1, max_count: mc, ..node });
    match meta {
        None => ns2,
        Some(m) => {
            let (ns3, t) = with_node(ns2, tk);
            ns3.update(t, NodeGV { details: merged(ns3[t].details, m), ..ns3[t] })
        },
    }
}

/// Keys of nodes are distinct, and so are the moves of each node.
pub open spec fn graph_wf(ns: Seq<NodeGV>) -> bool {
    &&& forall|a: int, b: int| 0 <= a < b < ns.len() ==> ns[a].fen != ns[b].fen
    &&& forall|i: int| 0 <= i < ns.len() ==> edges_distinct(#[trigger] ns[i].edges)
    &&& forall|i: int| 0 <= i < ns.len() ==> (#[trigger] ns[i]).max_count == max_edge_count(ns[i].edges)
}

/// The largest count among the moves `es`, 0 for none.
pub open spec fn max_edge_count(es: Seq<EdgeV>) -> u32
    decreases es.len(),
{
    if es.len() == 0 {
        0
    } else {
        let m = max_edge_count(es.drop_last());
        if m >= es.last().count {
            m
        } else {
            es.last().count
        }
    }
}

proof fn lemma_max_edge_push(es: Seq<EdgeV>, e: EdgeV)
    ensures
        max_edge_count(es.push(e)) == (if max_edge_count(es) >= e.count { max_edge_count(es) } else { e.count }),
{
    assert(es.push(e).drop_last() =~= es);
}

/// Raising one count: the largest is the old largest or the raised count.
proof fn lemma_max_edge_raise(es: Seq<EdgeV>, j: int, e: EdgeV)
    requires
        0 <= j < es.len(),
        e.count >= es[j].count,
    ensures
        max_edge_count(es.update(j, e)) == (if max_edge_count(es) >= e.count { max_edge_count(es) } else { e.count }),
    decreases es.len(),
{
    let u = es.update(j, e);
    if j == es.len() - 1 {
        assert(u.drop_last() =~= es.drop_last());
        lemma_max_edge_bound(es.drop_last());
        lemma_max_edge_ge(es);
    } else {
        lemma_max_edge_raise(es.drop_last(), j, e);
        assert(u.drop_last() =~= es.drop_last().update(j, e));
        assert(u.last() == es.last());
    }
}

proof fn lemma_max_edge_bound(es: Seq<EdgeV>)
    ensures
        forall|k: int| 0 <= k < es.len() ==> (#[trigger] es[k]).count <= max_edge_count(es),
        es.len() > 0 ==> exists|k: int| 0 <= k < es.len() && (#[trigger] es[k]).count == max_edge_count(es),
        es.len() == 0 ==> max_edge_count(es) == 0,
    decreases es.len(),
{
    if es.len() > 0 {
        let d = es.drop_last();
        lemma_max_edge_bound(d);
        assert forall|k: int| 0 <= k < es.len() implies (#[trigger] es[k]).count <= max_edge_count(es) by {
            if k < d.len() {
                assert(es[k] == d[k]);
            }
        }
        if max_edge_count(d) >= es.last().count && d.len() > 0 {
            let k = choose|k: int| 0 <= k < d.len() && (#[trigger] d[k]).count == max_edge_count(d);
            assert(es[k] == d[k]);
        } else {
            assert(es[es.len() - 1].count == max_edge_count(es));
        }
    }
}

proof fn lemma_max_edge_ge(es: Seq<EdgeV>)
    ensures
        es.len() > 0 ==> max_edge_count(es) >= es.last().count,
{
}

pub open spec fn edges_distinct(es: Seq<EdgeV>) -> bool {
    forall|a: int, b: int| 0 <= a < b < es.len() ==> es[a].san != es[b].san
}

pub open spec fn details_room(d: DetailsV, n: nat) -> bool {
    &&& d.white_wins + n <= u32::MAX
    &&& d.black_wins + n <= u32::MAX
    &&& d.draws + n <= u32::MAX
    &&& d.opponent_elo_games + n <= u32::MAX
    &&& d.total_opponent_elo + n * 0xffff_ffff <= u64::MAX
}

pub open spec fn node_room(nd: NodeGV, n: nat) -> bool {
    &&& nd.max_count + n <= u32::MAX
    &&& forall|j: int| 0 <= j < nd.edges.len() ==> #[trigger] nd.edges[j].count + n <= u32::MAX
    &&& details_room(nd.details, n)
}

/// Every counter of the graph can grow by `n` more.
pub open spec fn room(ns: Seq<NodeGV>, n: nat) -> bool {
    &&& n <= u32::MAX
    &&& forall|i: int| 0 <= i < ns.len() ==> node_room(#[trigger] ns[i], n)
}

proof fn lemma_find_node_from(ns: Seq<NodeGV>, key: Seq<char>, i: int)
    requires
        0 <= i <= ns.len(),
    ensures
        find_node_from(ns, key, i) == -1 || (i <= find_node_from(ns, key, i) < ns.len() && ns[find_node_from(ns, key, i)].fen == key),
        find_node_from(ns, key, i) == -1 ==> forall|k: int| i <= k < ns.len() ==> ns[k].fen != key,
    decreases ns.len() - i,
{
    if i < ns.len() && ns[i].fen != key {
        lemma_find_node_from(ns, key, i + 1);
    }
}

proof fn lemma_find_edge_from(es: Seq<EdgeV>, san: Seq<char>, i: int)
    requires
        0 <= i <= es.len(),
    ensures
        find_edge_from(es, san, i) == -1 || (i <= find_edge_from(es, san, i) < es.len() && es[find_edge_from(es, san, i)].san == san),
        find_edge_from(es, san, i) == -1 ==> forall|k: int| i <= k < es.len() ==> es[k].san != san,
    decreases es.len() - i,
{
    if i < es.len() && es[i].san != san {
        lemma_find_edge_from(es, san, i + 1);
    }
}

proof fn lemma_with_node(ns: Seq<NodeGV>, key: Seq<char>, n: nat)
    requires
        graph_wf(ns),
        room(ns, n),
    ensures
        graph_wf(with_node(ns, key).0),
        room(with_node(ns, key).0, n),
        0 <= with_node(ns, key).1 < with_node(ns, key).0.len(),
        with_node(ns, key).0[with_node(ns, key).1].fen == key,
        with_node(ns, key).0.len() >= ns.len(),
        forall|k: int| 0 <= k < ns.len() ==> with_node(ns, key).0[k] == ns[k],
        find_node(ns, key) >= 0 ==> with_node(ns, key).0 == ns,
        find_node(ns, key) < 0 ==> with_node(ns, key).1 == ns.len(),
{
    lemma_find_node_from(ns, key, 0);
    let r = with_node(ns, key);
    if find_node(ns, key) < 0 {
        assert forall|i: int| 0 <= i < r.0.len() implies edges_distinct(#[trigger] r.0[i].edges) by {
            if i < ns.len() {
                assert(r.0[i] == ns[i]);
            }
        }
        assert forall|i: int| 0 <= i < r.0.len() implies node_room(#[trigger] r.0[i], n) by {
            if i < ns.len() {
                assert(r.0[i] == ns[i]);
            }
        }
    }
}

proof fn lemma_with_node_basic(ns: Seq<NodeGV>, key: Seq<char>)
    ensures
        0 <= with_node(ns, key).1 < with_node(ns, key).0.len(),
        with_node(ns, key).0.len() >= ns.len(),
        forall|k: int| 0 <= k < ns.len() ==> with_node(ns, key).0[k] == ns[k],
        with_node(ns, key).1 >= ns.len() ==> with_node(ns, key).0[with_node(ns, key).1] == empty_node(key),
{
    lemma_find_node_from(ns, key, 0);
}

proof fn lemma_recorded(
    ns: Seq<NodeGV>,
    sk: Seq<char>,
    tk: Seq<char>,
    san: Seq<char>,
    o: u8,
    d: u8,
    meta: Option<MetaV>,
    n: nat,
)
    requires
        graph_wf(ns),
        room(ns, n + 1),
    ensures
        graph_wf(recorded(ns, sk, tk, san, o, d, meta)),
        room(recorded(ns, sk, tk, san, o, d, meta), n),
{
    assert(room(ns, n)) by {
        assert forall|i: int| 0 <= i < ns.len() implies node_room(#[trigger] ns[i], n) by {
            assert(node_room(ns[i], n + 1));
        }
    }
    lemma_with_node(ns, sk, n + 1);
    let (ns1, i) = with_node(ns, sk);
    let node = ns1[i];
    assert(node_room(node, n + 1));
    lemma_find_edge_from(node.edges, san, 0);
    let j = find_edge(node.edges, san);
    let e0 = if j >= 0 { node.edges[j] } else { EdgeV { san, orig: o, dest: d, count: 0, target: tk } };
    let e1 = EdgeV { count: (e0.count + 1) as u32, target: tk, ..e0 };
    let es1 = if j >= 0 { node.edges.update(j, e1) } else { node.edges.push(e1) };
    let mc = if node.max_count >= e1.count { node.max_count } else { e1.count };
    let nd2 = NodeGV { edges: es1, max_count: mc, ..node };
    let ns2 = ns1.update(i, nd2);
    assert(edges_distinct(es1)) by {
        assert(edges_distinct(node.edges));
        assert forall|a: int, b: int| 0 <= a < b < es1.len() implies es1[a].san != es1[b].san by {
            if j < 0 && b == node.edges.len() {
                assert(es1[a] == node.edges[a]);
            }
        }
    }
    assert(node_room(nd2, n)) by {
        assert forall|k: int| 0 <= k < es1.len() implies #[trigger] es1[k].count + n <= u32::MAX by {
            if k < node.edges.len() {
                assert(node.edges[k].count + n + 1 <= u32::MAX);
            }
        }
    }
    assert(nd2.max_count == max_edge_count(es1)) by {
        assert(node.max_count == max_edge_count(node.edges));
        if j >= 0 {
            lemma_max_edge_raise(node.edges, j, e1);
        } else {
            lemma_max_edge_push(node.edges, e1);
        }
    }
    assert(graph_wf(ns2)) by {
        assert forall|k: int| 0 <= k < ns2.len() implies edges_distinct(#[trigger] ns2[k].edges) by {
            if k != i {
                assert(ns2[k] == ns1[k]);
            }
        }
        assert forall|k: int| 0 <= k < ns2.len() implies (#[trigger] ns2[k]).max_count == max_edge_count(ns2[k].edges) by {
            if k != i {
                assert(ns2[k] == ns1[k]);
            }
        }
    }
    assert(room(ns2, n)) by {
        assert forall|k: int| 0 <= k < ns2.len() implies node_room(#[trigger] ns2[k], n) by {
            if k != i {
                assert(ns2[k] == ns1[k]);
                assert(node_room(ns1[k], n + 1));
            }
        }
    }
    match meta {
        None => {},
        Some(m) => {
            assert(room(ns2, n + 1) || true);
            lemma_with_node(ns2, tk, n);
            let (ns3, t) = with_node(ns2, tk);
            let nd3 = NodeGV { details: merged(ns3[t].details, m), ..ns3[t] };
            let ns4 = ns3.update(t, nd3);
            assert(node_room(ns3[t], n));
            assert(node_room(nd3, n)) by {
                if t < ns2.len() {
                    assert(ns3[t] == ns2[t]);
                    if t != i {
                        assert(ns2[t] == ns1[t]);
                        assert(node_room(ns1[t], n + 1));
                    } else {
                        assert(details_room(node.details, n + 1));
                    }
                }
            }
            assert(graph_wf(ns4)) by {
                assert forall|k: int| 0 <= k < ns4.len() implies edges_distinct(#[trigger] ns4[k].edges) by {
                    if k != t {
                        assert(ns4[k] == ns3[k]);
                    }
                }
            }
            assert(room(ns4, n)) by {
                assert forall|k: int| 0 <= k < ns4.len() implies node_room(#[trigger] ns4[k], n) by {
                    if k != t {
                        assert(ns4[k] == ns3[k]);
                    }
                }
            }
        },
    }
}


/// The data of a game that counts at a position, when the game has any.
pub open spec fn meta_opt(m: Option<&GameMeta>, c: PlayerColor) -> Option<MetaV> {
    match m {
        Some(x) => Some(meta_view(*x, c)),
        None => None,
    }
}

/// Playing one move token in notation `notation` at position `fen`: the FEN after it, the
/// SAN it is recorded under, and its squares; or the error message.
pub open spec fn step_spec(fen: Seq<char>, tok: Seq<char>, notation: MoveNotation) -> Result<
    (Seq<char>, Seq<char>, u8, u8),
    Seq<char>,
> {
    match notation {
        MoveNotation::San => if !spec_san_parses(tok) {
            Err("invalid SAN: "@ + tok)
        } else {
            match spec_play_san(fen, tok) {
                None => Err("illegal SAN in position: "@ + tok),
                Some(x) => Ok(x),
            }
        },
        MoveNotation::Uci => if !spec_uci_parses(tok) {
            Err("invalid UCI: "@ + tok)
        } else {
            match spec_play_uci(fen, tok) {
                None => Err("illegal UCI in position: "@ + tok),
                Some(x) => Ok(x),
            }
        },
    }
}

/// The graph after the moves `toks[k..]` from position `fen`, and the error that stopped
/// them, if any; the moves before the error stay recorded.
pub open spec fn played(
    ns: Seq<NodeGV>,
    fen: Seq<char>,
    toks: Seq<Seq<char>>,
    k: int,
    notation: MoveNotation,
    meta: Option<MetaV>,
) -> (Seq<NodeGV>, Option<Seq<char>>)
    decreases toks.len() - k,
{
    if k < 0 || k >= toks.len() {
        (ns, None)
    } else {
        match step_spec(fen, toks[k], notation) {
            Err(e) => (ns, Some(e)),
            Ok((after, label, o, d)) => played(
                recorded(ns, simplified(fen), simplified(after), label, o, d, meta),
                after,
                toks,
                k + 1,
                notation,
                meta,
            ),
        }
    }
}

/// One move token played in the position of `fen`.
fn play_token(fen: &str, token: &str, notation: MoveNotation) -> (r: Result<(String, String, Key, Key), String>)
    ensures
        match r {
            Ok((f, s, o, d)) => step_spec(fen@, token@, notation) == Ok::<(Seq<char>, Seq<char>, u8, u8), Seq<char>>(
                (f@, s@, o.index, d.index),
            ),
            Err(e) => step_spec(fen@, token@, notation) == Err::<(Seq<char>, Seq<char>, u8, u8), Seq<char>>(e@),
        },
{
    match notation {
        MoveNotation::San => {
            if !san_parses(token) {
                return Err(prefixed("invalid SAN: ", token));
            }
            match play_san(fen, token) {
                Some(x) => Ok(x),
                None => Err(prefixed("illegal SAN in position: ", token)),
            }
        },
        MoveNotation::Uci => {
            if !uci_parses(token) {
                return Err(prefixed("invalid UCI: ", token));
            }
            match play_uci(fen, token) {
                Some(x) => Ok(x),
                None => Err(prefixed("illegal UCI in position: ", token)),
            }
        },
    }
}

/// `a` followed by `b`.
pub fn prefixed(a: &str, b: &str) -> (r: String)
    ensures
        r@ == a@ + b@,
{
    let mut v: Vec<char> = Vec::new();
    append_str(&mut v, a);
    append_str(&mut v, b);
    string_of(v.as_slice())
}

impl OpeningGraph {
    pub open spec fn nodes_view(&self) -> Seq<NodeGV> {
        self.nodes@.map_values(|n: Node| node_gv(n))
    }

    /// An empty graph.
    pub fn new() -> (g: Self)
        ensures
            g.nodes_view() == Seq::<NodeGV>::empty(),
            g.games == 0,
    {
        OpeningGraph { nodes: Vec::new(), games: 0 }
    }

    pub fn clear(&mut self)
        ensures
            final(self).nodes_view() == Seq::<NodeGV>::empty(),
            final(self).games == 0,
    {
        self.nodes = Vec::new();
        self.games = 0;
    }

    pub fn game_count(&self) -> (r: u32)
        ensures
            r == self.games,
    {
        self.games
    }

    fn node_index(&self, key: &str) -> (r: Option<usize>)
        ensures
            match r {
                Some(i) => find_node(self.nodes_view(), key@) == i && i < self.nodes@.len(),
                None => find_node(self.nodes_view(), key@) == -1,
            },
    {
        let ghost ns = self.nodes_view();
        let mut i: usize = 0;
        while i < self.nodes.len()
            invariant
                i <= self.nodes@.len(),
                ns == self.nodes_view(),
                find_node(ns, key@) == find_node_from(ns, key@, i as int),
            decreases self.nodes@.len() - i,
        {
            assert(ns[i as int] == node_gv(self.nodes@[i as int]));
            if str_eq(self.nodes[i].fen.as_str(), key) {
                return Some(i);
            }
            i += 1;
        }
        None
    }

    fn node_index_or_insert(&mut self, key: String) -> (i: usize)
        ensures
            final(self).nodes_view() == with_node(old(self).nodes_view(), key@).0,
            i == with_node(old(self).nodes_view(), key@).1,
            final(self).games == old(self).games,
    {
        match self.node_index(key.as_str()) {
            Some(i) => i,
            None => {
                let n = self.nodes.len();
                let ghost before = self.nodes_view();
                self.nodes.push(Node { fen: key, edges: Vec::new(), max_count: 0, details: PositionDetails::default() });
                proof {
                    let e: Seq<EdgeV> = self.nodes@[n as int].edges@.map_values(|e: EdgeAgg| edge_view(e));
                    assert(e =~= Seq::<EdgeV>::empty());
                    assert(self.nodes_view() =~= before.push(empty_node(key@)));
                }
                n
            },
        }
    }

    fn record_move(
        &mut self,
        source_fen: &str,
        target_fen: &str,
        san: &str,
        orig: Key,
        dest: Key,
        meta: Option<&GameMeta>,
        player_color: PlayerColor,
    )
        requires
            graph_wf(old(self).nodes_view()),
            room(old(self).nodes_view(), 1),
        ensures
            final(self).nodes_view() == recorded(
                old(self).nodes_view(),
                simplified(source_fen@),
                simplified(target_fen@),
                san@,
                orig.index,
                dest.index,
                meta_opt(meta, player_color),
            ),
            final(self).games == old(self).games,
    {
        let ghost ns = self.nodes_view();
        proof {
            lemma_with_node(ns, simplified(source_fen@), 1);
        }
        let source_key = simplified_fen(source_fen);
        let target_key = simplified_fen(target_fen);
        let i = self.node_index_or_insert(source_key);
        let ghost ns1 = self.nodes_view();
        let ghost node = ns1[i as int];
        assert(node == node_gv(self.nodes@[i as int]));
        proof {
            lemma_find_edge_from(node.edges, san@, 0);
        }
        let mut j: usize = 0;
        let mut found = false;
        while j < self.nodes[i].edges.len() && !found
            invariant
                i < self.nodes@.len(),
                ns1 == self.nodes_view(),
                node == ns1[i as int],
                node.edges == self.nodes@[i as int].edges@.map_values(|e: EdgeAgg| edge_view(e)),
                j <= node.edges.len(),
                !found ==> find_edge(node.edges, san@) == find_edge_from(node.edges, san@, j as int),
                found ==> find_edge(node.edges, san@) == j && j < node.edges.len(),
            decreases node.edges.len() - j + (if found { 0int } else { 1int }),
        {
            assert(node.edges[j as int] == edge_view(self.nodes@[i as int].edges@[j as int]));
            if str_eq(self.nodes[i].edges[j].san.as_str(), san) {
                found = true;
            } else {
                j += 1;
            }
        }
        let e1_count: u32;
        if found {
            assert(node_room(node, 1));
            assert(node.edges[j as int] == edge_view(self.nodes@[i as int].edges@[j as int]));
            assert(node.edges[j as int].count + 1 <= u32::MAX);
            let c = self.nodes[i].edges[j].count + 1;
            self.nodes[i].edges[j].count = c;
            self.nodes[i].edges[j].target_fen = target_key.clone();
            e1_count = c;
        } else {
            self.nodes[i].edges.push(EdgeAgg {
                san: String::from_str(san),
                orig,
                dest,
                count: 1,
                target_fen: target_key.clone(),
            });
            e1_count = 1;
        }
        if self.nodes[i].max_count < e1_count {
            self.nodes[i].max_count = e1_count;
        }
        proof {
            let nd = self.nodes@[i as int];
            assert(nd.edges@.map_values(|e: EdgeAgg| edge_view(e)) =~= (if found {
                node.edges.update(j as int, EdgeV { count: e1_count, target: target_key@, ..node.edges[j as int] })
            } else {
                node.edges.push(EdgeV { san: san@, orig: orig.index, dest: dest.index, count: 1, target: target_key@ })
            }));
            assert(self.nodes_view() =~= ns1.update(i as int, node_gv(nd)));
        }
        match meta {
            None => {},
            Some(m) => {
                let ghost ns2 = self.nodes_view();
                proof {
                    assert forall|k: int| 0 <= k < ns2.len() implies details_room(#[trigger] ns2[k].details, 1) by {
                        if k != i {
                            assert(ns2[k] == ns1[k]);
                        }
                        if k < ns.len() {
                            assert(ns1[k] == ns[k]);
                            assert(node_room(ns[k], 1));
                        }
                    }
                    lemma_with_node_basic(ns2, target_key@);
                }
                let t = self.node_index_or_insert(target_key);
                let ghost ns3 = self.nodes_view();
                assert(ns3[t as int] == node_gv(self.nodes@[t as int]));
                assert(details_room(ns3[t as int].details, 1));
                self.nodes[t].details.merge_game(m, player_color);
                proof {
                    assert(self.nodes_view() =~= ns3.update(t as int, NodeGV { details: merged(ns3[t as int].details, meta_view(*m, player_color)), ..ns3[t as int] }));
                }
            },
        }
    }
}


/// The statistics shown for move `e` of a node whose most played move was played `max`
/// times: the details are those of the position the move leads to.
/// The moves played from the position of `fen`, as `moves_at` lists them.
pub open spec fn moves_view(ns: Seq<NodeGV>, fen: Seq<char>) -> Seq<MoveStatV> {
    let i = find_node(ns, simplified(fen));
    if i < 0 {
        Seq::empty()
    } else {
        sort_stats(stats_of(ns, ns[i].max_count, ns[i].edges))
    }
}

pub open spec fn stat_of(ns: Seq<NodeGV>, max: u32, e: EdgeV) -> MoveStatV {
    MoveStatV {
        san: e.san,
        orig: e.orig,
        dest: e.dest,
        count: e.count,
        level: level_of(e.count, max),
        target: e.target,
        details: if find_node(ns, e.target) >= 0 {
            ns[find_node(ns, e.target)].details
        } else {
            empty_details()
        },
    }
}

/// The order of `moves_at`: more played first, then by SAN.
pub open spec fn stat_before(a: MoveStatV, b: MoveStatV) -> bool {
    a.count > b.count || (a.count == b.count && seq_lt(a.san, b.san))
}

/// `v` with `x` put before the first entry that does not come before it.
pub open spec fn insert_sorted(v: Seq<MoveStatV>, x: MoveStatV) -> Seq<MoveStatV>
    decreases v.len(),
{
    if v.len() == 0 {
        seq![x]
    } else if stat_before(v[0], x) {
        seq![v[0]] + insert_sorted(v.skip(1), x)
    } else {
        seq![x] + v
    }
}

/// `imgs` sorted by `stat_before`, by inserting each entry in turn.
pub open spec fn sort_stats(imgs: Seq<MoveStatV>) -> Seq<MoveStatV>
    decreases imgs.len(),
{
    if imgs.len() == 0 {
        seq![]
    } else {
        insert_sorted(sort_stats(imgs.drop_last()), imgs.last())
    }
}

/// The statistics of the moves `es` of a node whose most played move has count `max`.
pub open spec fn stats_of(ns: Seq<NodeGV>, max: u32, es: Seq<EdgeV>) -> Seq<MoveStatV> {
    es.map_values(|e: EdgeV| stat_of(ns, max, e))
}

pub open spec fn sans_distinct(v: Seq<MoveStatV>) -> bool {
    forall|a: int, b: int| 0 <= a < b < v.len() ==> v[a].san != v[b].san
}

proof fn lemma_stat_before_trans(a: MoveStatV, b: MoveStatV, c: MoveStatV)
    requires
        stat_before(a, b),
        stat_before(b, c),
    ensures
        stat_before(a, c),
{
    if a.count == b.count && b.count == c.count {
        crate::text::lemma_seq_lt_transitive(a.san, b.san, c.san);
    }
}

proof fn lemma_stat_before_total(a: MoveStatV, b: MoveStatV)
    requires
        a.san != b.san,
    ensures
        stat_before(a, b) || stat_before(b, a),
{
    crate::text::lemma_seq_lt_total(a.san, b.san);
}


proof fn lemma_insert_sorted_at(v: Seq<MoveStatV>, x: MoveStatV, p: int)
    requires
        0 <= p <= v.len(),
        forall|a: int| 0 <= a < p ==> stat_before(#[trigger] v[a], x),
        p < v.len() ==> !stat_before(v[p], x),
    ensures
        insert_sorted(v, x) == v.insert(p, x),
    decreases p,
{
    if p == 0 {
        if v.len() > 0 {
            assert(seq![x] + v =~= v.insert(0, x));
        } else {
            assert(seq![x] =~= v.insert(0, x));
        }
    } else {
        assert(stat_before(v[0], x));
        assert forall|a: int| 0 <= a < p - 1 implies stat_before(#[trigger] v.skip(1)[a], x) by {
            assert(v.skip(1)[a] == v[a + 1]);
        }
        lemma_insert_sorted_at(v.skip(1), x, p - 1);
        assert(seq![v[0]] + v.skip(1).insert(p - 1, x) =~= v.insert(p, x));
    }
}

/// Each entry comes before every later one.
pub open spec fn sorted_stats(v: Seq<MoveStatV>) -> bool {
    forall|a: int, b: int| 0 <= a < b < v.len() ==> stat_before(#[trigger] v[a], #[trigger] v[b])
}

/// Every entry of `v` is an entry of `w`.
pub open spec fn drawn_from(v: Seq<MoveStatV>, w: Seq<MoveStatV>) -> bool {
    forall|i: int| 0 <= i < v.len() ==> exists|j: int| 0 <= j < w.len() && #[trigger] v[i] == #[trigger] w[j]
}

/// The first index at or after `i` whose entry does not come before `x`.
pub open spec fn first_not_before(v: Seq<MoveStatV>, x: MoveStatV, i: int) -> int
    decreases v.len() - i,
{
    if i < 0 || i >= v.len() {
        v.len() as int
    } else if !stat_before(v[i], x) {
        i
    } else {
        first_not_before(v, x, i + 1)
    }
}

proof fn lemma_first_not_before(v: Seq<MoveStatV>, x: MoveStatV, i: int)
    requires
        0 <= i <= v.len(),
        forall|a: int| 0 <= a < i ==> stat_before(#[trigger] v[a], x),
    ensures
        i <= first_not_before(v, x, i) <= v.len(),
        forall|a: int| 0 <= a < first_not_before(v, x, i) ==> stat_before(#[trigger] v[a], x),
        first_not_before(v, x, i) < v.len() ==> !stat_before(v[first_not_before(v, x, i)], x),
    decreases v.len() - i,
{
    if i < v.len() && stat_before(v[i], x) {
        lemma_first_not_before(v, x, i + 1);
    }
}

proof fn lemma_insert_at_sorted(v: Seq<MoveStatV>, x: MoveStatV, p: int)
    requires
        0 <= p <= v.len(),
        sorted_stats(v),
        forall|j: int| 0 <= j < v.len() ==> (#[trigger] v[j]).san != x.san,
        forall|a: int| 0 <= a < p ==> stat_before(#[trigger] v[a], x),
        p < v.len() ==> !stat_before(v[p], x),
    ensures
        sorted_stats(v.insert(p, x)),
{
    let r = v.insert(p, x);
    if p < v.len() {
        lemma_stat_before_total(v[p], x);
    }
    assert forall|a: int, b: int| 0 <= a < b < r.len() implies stat_before(#[trigger] r[a], #[trigger] r[b]) by {
        if b < p {
            assert(r[a] == v[a] && r[b] == v[b]);
        } else if b == p {
            assert(r[a] == v[a]);
        } else if a < p {
            assert(r[a] == v[a] && r[b] == v[b - 1]);
            assert(stat_before(v[a], v[b - 1]));
        } else if a == p {
            assert(r[b] == v[b - 1]);
            if b - 1 > p {
                assert(stat_before(v[p], v[b - 1]));
                lemma_stat_before_trans(x, v[p], v[b - 1]);
            }
        } else {
            assert(r[a] == v[a - 1] && r[b] == v[b - 1]);
            assert(stat_before(v[a - 1], v[b - 1]));
        }
    }
}

proof fn lemma_insert_at_distinct(v: Seq<MoveStatV>, x: MoveStatV, p: int)
    requires
        0 <= p <= v.len(),
        sans_distinct(v),
        forall|j: int| 0 <= j < v.len() ==> (#[trigger] v[j]).san != x.san,
    ensures
        sans_distinct(v.insert(p, x)),
        forall|i: int| 0 <= i < v.insert(p, x).len() ==> #[trigger] v.insert(p, x)[i] == x || exists|j: int|
            0 <= j < v.len() && v.insert(p, x)[i] == #[trigger] v[j],
        v.insert(p, x)[p] == x,
        forall|j: int| 0 <= j < v.len() ==> exists|i: int| 0 <= i < v.insert(p, x).len() && #[trigger] v.insert(p, x)[i] == #[trigger] v[j],
{
    let r = v.insert(p, x);
    assert forall|j: int| 0 <= j < v.len() implies exists|i: int| 0 <= i < r.len() && #[trigger] r[i] == #[trigger] v[j] by {
        if j < p {
            assert(r[j] == v[j]);
        } else {
            assert(r[j + 1] == v[j]);
        }
    }
    assert forall|a: int, b: int| 0 <= a < b < r.len() implies r[a].san != r[b].san by {
        if b < p {
            assert(r[a] == v[a] && r[b] == v[b]);
        } else if b == p {
            assert(r[a] == v[a]);
        } else if a < p {
            assert(r[a] == v[a] && r[b] == v[b - 1]);
        } else if a == p {
            assert(r[b] == v[b - 1]);
        } else {
            assert(r[a] == v[a - 1] && r[b] == v[b - 1]);
        }
    }
    assert forall|i: int| 0 <= i < r.len() implies #[trigger] r[i] == x || exists|j: int| 0 <= j < v.len() && r[i] == #[trigger] v[j] by {
        if i < p {
            assert(r[i] == v[i]);
        } else if i > p {
            assert(r[i] == v[i - 1]);
        }
    }
}

proof fn lemma_insert_sorted_props(v: Seq<MoveStatV>, x: MoveStatV)
    requires
        sorted_stats(v),
        sans_distinct(v),
        forall|j: int| 0 <= j < v.len() ==> (#[trigger] v[j]).san != x.san,
    ensures
        insert_sorted(v, x).len() == v.len() + 1,
        sorted_stats(insert_sorted(v, x)),
        sans_distinct(insert_sorted(v, x)),
        forall|i: int| 0 <= i < insert_sorted(v, x).len() ==> #[trigger] insert_sorted(v, x)[i] == x || exists|j: int|
            0 <= j < v.len() && insert_sorted(v, x)[i] == #[trigger] v[j],
        exists|i: int| 0 <= i < insert_sorted(v, x).len() && insert_sorted(v, x)[i] == x,
        drawn_from(v, insert_sorted(v, x)),
{
    lemma_first_not_before(v, x, 0);
    let p = first_not_before(v, x, 0);
    lemma_insert_sorted_at(v, x, p);
    lemma_insert_at_sorted(v, x, p);
    lemma_insert_at_distinct(v, x, p);
    assert(insert_sorted(v, x)[p] == x);
}

proof fn lemma_sort_stats_props(imgs: Seq<MoveStatV>)
    requires
        sans_distinct(imgs),
    ensures
        sort_stats(imgs).len() == imgs.len(),
        sorted_stats(sort_stats(imgs)),
        sans_distinct(sort_stats(imgs)),
        drawn_from(sort_stats(imgs), imgs),
    decreases imgs.len(),
{
    if imgs.len() > 0 {
        let d = imgs.drop_last();
        assert(sans_distinct(d)) by {
            assert forall|a: int, b: int| 0 <= a < b < d.len() implies d[a].san != d[b].san by {
                assert(d[a] == imgs[a] && d[b] == imgs[b]);
            }
        }
        lemma_sort_stats_props(d);
        let v = sort_stats(d);
        let x = imgs.last();
        assert forall|j: int| 0 <= j < v.len() implies (#[trigger] v[j]).san != x.san by {
            let k = choose|k: int| 0 <= k < d.len() && v[j] == d[k];
            assert(d[k] == imgs[k]);
        }
        lemma_insert_sorted_props(v, x);
        let r = insert_sorted(v, x);
        assert forall|i: int| 0 <= i < r.len() implies exists|j: int| 0 <= j < imgs.len() && #[trigger] r[i] == #[trigger] imgs[j] by {
            if r[i] == x {
                assert(r[i] == imgs[imgs.len() - 1]);
            } else {
                let j = choose|j: int| 0 <= j < v.len() && r[i] == v[j];
                let k = choose|k: int| 0 <= k < d.len() && v[j] == d[k];
                assert(d[k] == imgs[k]);
            }
        }
    }
}

/// Every entry of `imgs` is in its sorted form.
proof fn lemma_sort_stats_covers(imgs: Seq<MoveStatV>)
    requires
        sans_distinct(imgs),
    ensures
        drawn_from(imgs, sort_stats(imgs)),
    decreases imgs.len(),
{
    if imgs.len() > 0 {
        let d = imgs.drop_last();
        assert(sans_distinct(d)) by {
            assert forall|a: int, b: int| 0 <= a < b < d.len() implies d[a].san != d[b].san by {
                assert(d[a] == imgs[a] && d[b] == imgs[b]);
            }
        }
        lemma_sort_stats_props(d);
        lemma_sort_stats_covers(d);
        let v = sort_stats(d);
        let x = imgs.last();
        assert forall|j: int| 0 <= j < v.len() implies (#[trigger] v[j]).san != x.san by {
            let k = choose|k: int| 0 <= k < d.len() && v[j] == d[k];
            assert(d[k] == imgs[k]);
        }
        lemma_insert_sorted_props(v, x);
        let r = insert_sorted(v, x);
        assert forall|j: int| 0 <= j < imgs.len() implies exists|i: int| 0 <= i < r.len() && #[trigger] imgs[j] == #[trigger] r[i] by {
            if j == imgs.len() - 1 {
                let i = choose|i: int| 0 <= i < r.len() && r[i] == x;
                assert(imgs[j] == r[i]);
            } else {
                assert(imgs[j] == d[j]);
                let m = choose|m: int| 0 <= m < v.len() && d[j] == v[m];
                let i = choose|i: int| 0 <= i < r.len() && v[m] == r[i];
                assert(imgs[j] == r[i]);
            }
        }
    }
}

/// The largest count among the moves shown, 0 for none.
pub open spec fn max_shown(v: Seq<MoveStatV>) -> u32
    decreases v.len(),
{
    if v.len() == 0 {
        0
    } else {
        let m = max_shown(v.drop_last());
        if m >= v.last().count {
            m
        } else {
            v.last().count
        }
    }
}

proof fn lemma_max_shown_bound(v: Seq<MoveStatV>)
    ensures
        forall|k: int| 0 <= k < v.len() ==> (#[trigger] v[k]).count <= max_shown(v),
        v.len() > 0 ==> exists|k: int| 0 <= k < v.len() && (#[trigger] v[k]).count == max_shown(v),
        v.len() == 0 ==> max_shown(v) == 0,
    decreases v.len(),
{
    if v.len() > 0 {
        let d = v.drop_last();
        lemma_max_shown_bound(d);
        assert forall|k: int| 0 <= k < v.len() implies (#[trigger] v[k]).count <= max_shown(v) by {
            if k < d.len() {
                assert(v[k] == d[k]);
            }
        }
        if max_shown(d) >= v.last().count && d.len() > 0 {
            let k = choose|k: int| 0 <= k < d.len() && (#[trigger] d[k]).count == max_shown(d);
            assert(v[k] == d[k]);
        } else {
            assert(v[v.len() - 1].count == max_shown(v));
        }
    }
}

/// Each move shown has its level taken against the largest count shown.
#[verifier::rlimit(30)]
pub proof fn law_moves_at_levels(ns: Seq<NodeGV>, fen: Seq<char>)
    requires
        graph_wf(ns),
    ensures
        forall|i: int| 0 <= i < moves_view(ns, fen).len() ==> (#[trigger] moves_view(ns, fen)[i]).level == level_of(
            moves_view(ns, fen)[i].count,
            max_shown(moves_view(ns, fen)),
        ),
{
    let key = simplified(fen);
    let m = find_node(ns, key);
    if m >= 0 {
        lemma_find_node_from(ns, key, 0);
        let nd = ns[m];
        let imgs = stats_of(ns, nd.max_count, nd.edges);
        assert(edges_distinct(nd.edges));
        assert(sans_distinct(imgs)) by {
            assert forall|a: int, b: int| 0 <= a < b < imgs.len() implies imgs[a].san != imgs[b].san by {
                assert(imgs[a].san == nd.edges[a].san && imgs[b].san == nd.edges[b].san);
            }
        }
        lemma_sort_stats_props(imgs);
        lemma_sort_stats_covers(imgs);
        let v = sort_stats(imgs);
        assert(v == moves_view(ns, fen));
        lemma_max_edge_bound(nd.edges);
        lemma_max_shown_bound(v);
        let big = nd.max_count;
        assert(big == max_edge_count(nd.edges));
        assert forall|i: int| 0 <= i < v.len() implies (#[trigger] v[i]).count <= big && v[i].level == level_of(v[i].count, big) by {
            let j = choose|j: int| 0 <= j < imgs.len() && v[i] == imgs[j];
            assert(imgs[j] == stat_of(ns, nd.max_count, nd.edges[j]));
        }
        if v.len() > 0 {
            let q = choose|q: int| 0 <= q < nd.edges.len() && (#[trigger] nd.edges[q]).count == max_edge_count(nd.edges);
            assert(imgs[q] == stat_of(ns, nd.max_count, nd.edges[q]));
            let i = choose|i: int| 0 <= i < v.len() && imgs[q] == v[i];
            assert(v[i].count == big);
            let t = choose|t: int| 0 <= t < v.len() && (#[trigger] v[t]).count == max_shown(v);
            assert(v[t].count <= big);
            assert(max_shown(v) == big);
        } else {
            assert(nd.edges.len() == 0);
        }
    }
}

/// The moves shown at a position come most played first, then by SAN; no SAN is shown
/// twice; each is the statistics of a move recorded at the position, with its level
/// taken against the position's most played move; and a FEN shows what its simplified
/// form shows.
/// The moves shown at a position are exactly the moves recorded there, each with the
/// number of times it was recorded.
pub proof fn law_moves_at_counts(ns: Seq<NodeGV>, fen: Seq<char>, san: Seq<char>)
    requires
        graph_wf(ns),
    ensures
        forall|i: int| 0 <= i < moves_view(ns, fen).len() ==> (#[trigger] moves_view(ns, fen)[i]).count
            == move_count(ns, simplified(fen), moves_view(ns, fen)[i].san),
        move_count(ns, simplified(fen), san) > 0 ==> exists|i: int| 0 <= i < moves_view(ns, fen).len()
            && (#[trigger] moves_view(ns, fen)[i]).san == san,
{
    let key = simplified(fen);
    let m = find_node(ns, key);
    if m >= 0 {
        lemma_find_node_from(ns, key, 0);
        let nd = ns[m];
        let imgs = stats_of(ns, nd.max_count, nd.edges);
        assert(edges_distinct(nd.edges));
        assert(sans_distinct(imgs)) by {
            assert forall|a: int, b: int| 0 <= a < b < imgs.len() implies imgs[a].san != imgs[b].san by {
                assert(imgs[a].san == nd.edges[a].san && imgs[b].san == nd.edges[b].san);
            }
        }
        lemma_sort_stats_props(imgs);
        lemma_sort_stats_covers(imgs);
        let v = sort_stats(imgs);
        assert(v == moves_view(ns, fen));
        assert forall|i: int| 0 <= i < v.len() implies (#[trigger] v[i]).count == move_count(ns, key, v[i].san) by {
            let j = choose|j: int| 0 <= j < imgs.len() && v[i] == imgs[j];
            assert(imgs[j] == stat_of(ns, nd.max_count, nd.edges[j]));
            lemma_find_edge_at(nd.edges, nd.edges[j].san, j);
        }
        if move_count(ns, key, san) > 0 {
            let j = find_edge(nd.edges, san);
            lemma_find_edge_from(nd.edges, san, 0);
            assert(imgs[j] == stat_of(ns, nd.max_count, nd.edges[j]));
            let i = choose|i: int| 0 <= i < v.len() && imgs[j] == v[i];
            assert(v[i].san == san);
        }
    }
}

pub proof fn law_moves_at_sorted(ns: Seq<NodeGV>, fen: Seq<char>)
    requires
        graph_wf(ns),
    ensures
        sorted_stats(moves_view(ns, fen)),
        sans_distinct(moves_view(ns, fen)),
        find_node(ns, simplified(fen)) >= 0 ==> {
            let nd = ns[find_node(ns, simplified(fen))];
            &&& moves_view(ns, fen).len() == nd.edges.len()
            &&& forall|i: int| 0 <= i < moves_view(ns, fen).len() ==> exists|j: int| 0 <= j < nd.edges.len()
                && #[trigger] moves_view(ns, fen)[i] == stat_of(ns, nd.max_count, #[trigger] nd.edges[j])
        },
        find_node(ns, simplified(fen)) < 0 ==> moves_view(ns, fen).len() == 0,
        moves_view(ns, simplified(fen)) == moves_view(ns, fen),
{
    crate::chess::law_simplified_is_idempotent(fen);
    let i = find_node(ns, simplified(fen));
    if i >= 0 {
        lemma_find_node_from(ns, simplified(fen), 0);
        let nd = ns[i];
        let imgs = stats_of(ns, nd.max_count, nd.edges);
        assert(edges_distinct(nd.edges));
        assert(sans_distinct(imgs)) by {
            assert forall|a: int, b: int| 0 <= a < b < imgs.len() implies imgs[a].san != imgs[b].san by {
                assert(imgs[a].san == nd.edges[a].san && imgs[b].san == nd.edges[b].san);
            }
        }
        lemma_sort_stats_props(imgs);
        let v = sort_stats(imgs);
        assert forall|k: int| 0 <= k < v.len() implies exists|j: int| 0 <= j < nd.edges.len()
            && #[trigger] v[k] == stat_of(ns, nd.max_count, #[trigger] nd.edges[j]) by {
            let j = choose|j: int| 0 <= j < imgs.len() && v[k] == imgs[j];
            assert(imgs[j] == stat_of(ns, nd.max_count, nd.edges[j]));
        }
    }
}

// ---------------------------------------------------------------- counting games

/// How often move `san` was recorded at the position with key `key`.
pub open spec fn move_count(ns: Seq<NodeGV>, key: Seq<char>, san: Seq<char>) -> nat {
    let i = find_node(ns, key);
    if i < 0 {
        0
    } else {
        let j = find_edge(ns[i].edges, san);
        if j < 0 {
            0
        } else {
            ns[i].edges[j].count as nat
        }
    }
}

/// How often the game `toks[k..]`, played from `fen`, stands at position `key` and plays
/// there a move that shakmaty writes `san`; counted up to its first unreadable move.
pub open spec fn times_played(
    fen: Seq<char>,
    toks: Seq<Seq<char>>,
    k: int,
    notation: MoveNotation,
    key: Seq<char>,
    san: Seq<char>,
) -> nat
    decreases toks.len() - k,
{
    if k < 0 || k >= toks.len() {
        0
    } else {
        match step_spec(fen, toks[k], notation) {
            Err(_) => 0,
            Ok((after, label, _o, _d)) => (if simplified(fen) == key && label == san {
                1nat
            } else {
                0nat
            }) + times_played(after, toks, k + 1, notation, key, san),
        }
    }
}

proof fn lemma_find_node_at(ns: Seq<NodeGV>, key: Seq<char>, i: int)
    requires
        graph_wf(ns),
        0 <= i < ns.len(),
        ns[i].fen == key,
    ensures
        find_node(ns, key) == i,
{
    lemma_find_node_from(ns, key, 0);
}

proof fn lemma_find_edge_at(es: Seq<EdgeV>, san: Seq<char>, j: int)
    requires
        edges_distinct(es),
        0 <= j < es.len(),
        es[j].san == san,
    ensures
        find_edge(es, san) == j,
{
    lemma_find_edge_from(es, san, 0);
}

proof fn lemma_find_edge_none(es: Seq<EdgeV>, san: Seq<char>)
    requires
        forall|k: int| 0 <= k < es.len() ==> (#[trigger] es[k]).san != san,
    ensures
        find_edge(es, san) < 0,
{
    lemma_find_edge_from(es, san, 0);
}

/// Recording one move at a position counts it once more there, and changes no other
/// count, at that position or any other.
pub proof fn law_recorded_counts_the_move(
    ns: Seq<NodeGV>,
    sk: Seq<char>,
    tk: Seq<char>,
    san: Seq<char>,
    o: u8,
    d: u8,
    meta: Option<MetaV>,
    key: Seq<char>,
    s: Seq<char>,
)
    requires
        graph_wf(ns),
        room(ns, 1),
    ensures
        move_count(recorded(ns, sk, tk, san, o, d, meta), key, s) == move_count(ns, key, s) + (if key == sk && s
            == san {
            1nat
        } else {
            0nat
        }),
{
    lemma_recorded(ns, sk, tk, san, o, d, meta, 0);
    let r = recorded(ns, sk, tk, san, o, d, meta);
    lemma_with_node(ns, sk, 1);
    let (ns1, i) = with_node(ns, sk);
    let node = ns1[i];
    lemma_find_edge_from(node.edges, san, 0);
    let j = find_edge(node.edges, san);
    let e0 = if j >= 0 { node.edges[j] } else { EdgeV { san, orig: o, dest: d, count: 0, target: tk } };
    let e1 = EdgeV { count: (e0.count + 1) as u32, target: tk, ..e0 };
    let es1 = if j >= 0 { node.edges.update(j, e1) } else { node.edges.push(e1) };
    let mc = if node.max_count >= e1.count { node.max_count } else { e1.count };
    let ns2 = ns1.update(i, NodeGV { edges: es1, max_count: mc, ..node });
    assert(node_room(node, 1));
    if j >= 0 {
        assert(node.edges[j].count + 1 <= u32::MAX);
    }
    // r keeps the fens and edges of ns2, with perhaps one node added for tk
    lemma_with_node_basic(ns2, tk);
    lemma_find_node_from(ns2, tk, 0);
    assert(r.len() >= ns2.len() && r.len() <= ns2.len() + 1) by {
        match meta {
            None => {},
            Some(m) => {
                let (ns3, t) = with_node(ns2, tk);
                assert(ns3.len() <= ns2.len() + 1);
            },
        }
    }
    assert(forall|k: int| 0 <= k < ns2.len() ==> (#[trigger] r[k]).fen == ns2[k].fen && r[k].edges == ns2[k].edges) by {
        match meta {
            None => {},
            Some(m) => {
                lemma_with_node_basic(ns2, tk);
            },
        }
    }
    assert(forall|k: int| ns2.len() <= k < r.len() ==> (#[trigger] r[k]).edges.len() == 0 && r[k].fen == tk) by {
        match meta {
            None => {},
            Some(m) => {
                lemma_with_node_basic(ns2, tk);
                lemma_find_node_from(ns2, tk, 0);
            },
        }
    }
    assert(ns2.len() == ns1.len());
    // key == sk: the node at i
    if key == sk {
        lemma_find_node_at(r, sk, i);
        assert(r[i].edges == es1);
        if find_node(ns, sk) >= 0 {
            assert(ns1 == ns);
        } else {
            lemma_find_node_from(ns, sk, 0);
            assert(node == empty_node(sk));
        }
        if s == san {
            if j >= 0 {
                lemma_find_edge_at(es1, san, j);
            } else {
                lemma_find_edge_at(es1, san, node.edges.len() as int);
            }
        } else {
            if j >= 0 {
                assert forall|k: int| 0 <= k < node.edges.len() implies (#[trigger] node.edges[k]).san == es1[k].san
                    && node.edges[k].count == es1[k].count || k == j by {}
                lemma_find_edge_from(node.edges, s, 0);
                lemma_find_edge_from(es1, s, 0);
                let q = find_edge(node.edges, s);
                if q >= 0 {
                    lemma_find_edge_at(es1, s, q);
                } else {
                    assert forall|k: int| 0 <= k < es1.len() implies (#[trigger] es1[k]).san != s by {
                        if k != j {
                            assert(es1[k] == node.edges[k]);
                        }
                    }
                    lemma_find_edge_none(es1, s);
                }
            } else {
                lemma_find_edge_from(node.edges, s, 0);
                let q = find_edge(node.edges, s);
                if q >= 0 {
                    lemma_find_edge_at(es1, s, q);
                } else {
                    assert forall|k: int| 0 <= k < es1.len() implies (#[trigger] es1[k]).san != s by {
                        if k < node.edges.len() {
                            assert(es1[k] == node.edges[k]);
                        }
                    }
                    lemma_find_edge_none(es1, s);
                }
            }
        }
    } else {
        lemma_find_node_from(ns, key, 0);
        let m = find_node(ns, key);
        if m >= 0 {
            assert(ns1[m] == ns[m]);
            assert(m != i);
            assert(ns2[m] == ns[m]);
            lemma_find_node_at(r, key, m);
            assert(r[m].edges == ns[m].edges);
        } else {
            lemma_find_node_from(r, key, 0);
            let q = find_node(r, key);
            if q >= 0 {
                if q < ns2.len() {
                    if q < ns.len() {
                        assert(ns1[q] == ns[q]);
                        assert(ns[q].fen != key);
                    } else {
                        assert(ns1[q].fen == sk);
                    }
                } else {
                    assert(r[q].edges.len() == 0);
                    lemma_find_edge_from(r[q].edges, s, 0);
                }
            }
        }
    }
}

/// Playing a game adds to the count of each move at each position exactly the number of
/// times the game stands at that position and plays that move (up to its first move
/// that cannot be read or played); in particular a move played once from a position is
/// counted once more there.
pub proof fn law_game_counts_its_moves(
    ns: Seq<NodeGV>,
    fen: Seq<char>,
    toks: Seq<Seq<char>>,
    k: int,
    notation: MoveNotation,
    meta: Option<MetaV>,
    key: Seq<char>,
    s: Seq<char>,
)
    requires
        graph_wf(ns),
        0 <= k <= toks.len(),
        room(ns, (toks.len() - k) as nat),
    ensures
        move_count(played(ns, fen, toks, k, notation, meta).0, key, s) == move_count(ns, key, s) + times_played(
            fen,
            toks,
            k,
            notation,
            key,
            s,
        ),
    decreases toks.len() - k,
{
    if k < toks.len() {
        match step_spec(fen, toks[k], notation) {
            Err(_) => {},
            Ok((after, label, o, d)) => {
                let n = (toks.len() - k - 1) as nat;
                lemma_recorded(ns, simplified(fen), simplified(after), label, o, d, meta, n);
                assert(room(ns, 1)) by {
                    assert forall|i: int| 0 <= i < ns.len() implies node_room(#[trigger] ns[i], 1) by {
                        assert(node_room(ns[i], n + 1));
                    }
                }
                law_recorded_counts_the_move(ns, simplified(fen), simplified(after), label, o, d, meta, key, s);
                let r = recorded(ns, simplified(fen), simplified(after), label, o, d, meta);
                law_game_counts_its_moves(r, after, toks, k + 1, notation, meta, key, s);
            },
        }
    }
}

fn stat_before_exec(a: &MoveStat, b: &MoveStat) -> (r: bool)
    ensures
        r == stat_before(stat_view(*a), stat_view(*b)),
{
    a.count > b.count || (a.count == b.count && str_lt(a.san.as_str(), b.san.as_str()))
}

impl OpeningGraph {
    fn stat_for(&self, e: &EdgeAgg, max: u32) -> (r: MoveStat)
        ensures
            stat_view(r) == stat_of(self.nodes_view(), max, edge_view(*e)),
    {
        let ghost ns = self.nodes_view();
        let details = match self.node_index(e.target_fen.as_str()) {
            Some(t) => {
                assert(ns[t as int] == node_gv(self.nodes@[t as int]));
                self.nodes[t].details.duplicate()
            },
            None => PositionDetails::default(),
        };
        MoveStat {
            san: e.san.clone(),
            orig: e.orig,
            dest: e.dest,
            count: e.count,
            level: level_for(e.count, max),
            target_fen: e.target_fen.clone(),
            details,
        }
    }

    /// The moves played from the position of `fen`, most played first (then by SAN).
    pub fn moves_at(&self, fen: &str) -> (r: Vec<MoveStat>)
        requires
            graph_wf(self.nodes_view()),
        ensures
            r@.map_values(|m: MoveStat| stat_view(m)) == moves_view(self.nodes_view(), fen@),
            find_node(self.nodes_view(), simplified(fen@)) < 0 ==> r@.len() == 0,
            find_node(self.nodes_view(), simplified(fen@)) >= 0 ==> r@.map_values(|m: MoveStat| stat_view(m)) == sort_stats(
                stats_of(
                    self.nodes_view(),
                    self.nodes_view()[find_node(self.nodes_view(), simplified(fen@))].max_count,
                    self.nodes_view()[find_node(self.nodes_view(), simplified(fen@))].edges,
                ),
            ),
    {
        let key = simplified_fen(fen);
        let i = match self.node_index(key.as_str()) {
            None => return Vec::new(),
            Some(i) => i,
        };
        let ghost ns = self.nodes_view();
        let ghost es = ns[i as int].edges;
        let node = &self.nodes[i];
        let max = node.max_count;
        assert(ns[i as int] == node_gv(self.nodes@[i as int]));
        assert(edges_distinct(es));
        let ghost imgs = stats_of(ns, max, es);
        let mut out: Vec<MoveStat> = Vec::new();
        let mut j: usize = 0;
        assert(out@.map_values(|m: MoveStat| stat_view(m)) =~= sort_stats(imgs.take(0)));
        while j < node.edges.len()
            invariant
                ns == self.nodes_view(),
                graph_wf(ns),
                node == self.nodes@[i as int],
                es == node.edges@.map_values(|e: EdgeAgg| edge_view(e)),
                imgs == stats_of(ns, max, es),
                max == node.max_count,
                j <= es.len(),
                out@.map_values(|m: MoveStat| stat_view(m)) == sort_stats(imgs.take(j as int)),
            decreases es.len() - j,
        {
            let e = &node.edges[j];
            assert(es[j as int] == edge_view(*e));
            let stat = self.stat_for(e, max);
            let ghost x = stat_view(stat);
            assert(x == imgs[j as int]);
            let ghost old_v = out@.map_values(|m: MoveStat| stat_view(m));
            let mut p: usize = 0;
            while p < out.len() && stat_before_exec(&out[p], &stat)
                invariant
                    p <= out@.len(),
                    old_v == out@.map_values(|m: MoveStat| stat_view(m)),
                    x == stat_view(stat),
                    forall|a: int| 0 <= a < p ==> stat_before(#[trigger] old_v[a], x),
                decreases out@.len() - p,
            {
                p += 1;
            }
            out.insert(p, stat);
            proof {
                let nv = out@.map_values(|m: MoveStat| stat_view(m));
                assert(nv =~= old_v.insert(p as int, x));
                lemma_insert_sorted_at(old_v, x, p as int);
                assert(imgs.take(j + 1).drop_last() =~= imgs.take(j as int));
            }
            j += 1;
        }
        assert(imgs.take(j as int) =~= imgs);
        out
    }

    /// Adds one game, given by its moves; stops at the first move that cannot be played,
    /// keeping the moves before it, and counts the game only when all moves were played.
    pub fn add_game(&mut self, moves: &str, notation: MoveNotation, meta: Option<&GameMeta>, player_color: PlayerColor) -> (r: Result<(), String>)
        requires
            graph_wf(old(self).nodes_view()),
            room(old(self).nodes_view(), ws_tokens(moves@).len()),
            old(self).games < u32::MAX,
        ensures
            graph_wf(final(self).nodes_view()),
            final(self).nodes_view() == played(
                old(self).nodes_view(),
                initial_fen_text(),
                ws_tokens(moves@),
                0,
                notation,
                meta_opt(meta, player_color),
            ).0,
            match r {
                Ok(()) => played(
                    old(self).nodes_view(),
                    initial_fen_text(),
                    ws_tokens(moves@),
                    0,
                    notation,
                    meta_opt(meta, player_color),
                ).1 is None && final(self).games == old(self).games + 1,
                Err(e) => played(
                    old(self).nodes_view(),
                    initial_fen_text(),
                    ws_tokens(moves@),
                    0,
                    notation,
                    meta_opt(meta, player_color),
                ).1 == Some(e@) && final(self).games == old(self).games,
            },
    {
        let chars = chars_of(moves);
        let toks = split_ws(chars.as_slice());
        let ghost t = ws_tokens(moves@);
        assert(cviews(toks@) == t);
        let ghost m = meta_opt(meta, player_color);
        let ghost goal = played(self.nodes_view(), initial_fen_text(), t, 0, notation, m);
        let mut pos = initial_fen();
        let mut k: usize = 0;
        while k < toks.len()
            invariant
                k <= toks@.len(),
                cviews(toks@) == t,
                t == ws_tokens(moves@),
                m == meta_opt(meta, player_color),
                goal == played(old(self).nodes_view(), initial_fen_text(), t, 0, notation, m),
                graph_wf(self.nodes_view()),
                room(self.nodes_view(), (t.len() - k) as nat),
                self.games == old(self).games,
                goal == played(self.nodes_view(), pos@, t, k as int, notation, m),
            decreases toks@.len() - k,
        {
            assert(t[k as int] == toks@[k as int]@);
            let token = string_of(toks[k].as_slice());
            match play_token(pos.as_str(), token.as_str(), notation) {
                Err(e) => {
                    assert(played(self.nodes_view(), pos@, t, k as int, notation, m) == (self.nodes_view(), Some(e@)));
                    return Err(e);
                },
                Ok((after, label, o, d)) => {
                    proof {
                        assert(played(self.nodes_view(), pos@, t, k as int, notation, m) == played(
                            recorded(self.nodes_view(), simplified(pos@), simplified(after@), label@, o.index, d.index, m),
                            after@,
                            t,
                            k + 1,
                            notation,
                            m,
                        ));
                        lemma_recorded(self.nodes_view(), simplified(pos@), simplified(after@), label@, o.index, d.index, m, (t.len() - k - 1) as nat);
                    }
                    self.record_move(pos.as_str(), after.as_str(), label.as_str(), o, d, meta, player_color);
                    pos = after;
                },
            }
            k += 1;
        }
        assert(played(self.nodes_view(), pos@, t, k as int, notation, m) == (self.nodes_view(), None::<Seq<char>>));
        self.games = self.games + 1;
        Ok(())
    }

    /// Adds a game given by its SAN moves, with no result or ratings.
    pub fn add_game_san(&mut self, san_moves: &str) -> (r: Result<(), String>)
        requires
            graph_wf(old(self).nodes_view()),
            room(old(self).nodes_view(), ws_tokens(san_moves@).len()),
            old(self).games < u32::MAX,
        ensures
            graph_wf(final(self).nodes_view()),
            final(self).nodes_view() == played(
                old(self).nodes_view(),
                initial_fen_text(),
                ws_tokens(san_moves@),
                0,
                MoveNotation::San,
                None,
            ).0,
            match r {
                Ok(()) => played(
                    old(self).nodes_view(),
                    initial_fen_text(),
                    ws_tokens(san_moves@),
                    0,
                    MoveNotation::San,
                    None,
                ).1 is None && final(self).games == old(self).games + 1,
                Err(e) => played(
                    old(self).nodes_view(),
                    initial_fen_text(),
                    ws_tokens(san_moves@),
                    0,
                    MoveNotation::San,
                    None,
                ).1 == Some(e@) && final(self).games == old(self).games,
            },
    {
        self.add_game(san_moves, MoveNotation::San, None, PlayerColor::White)
    }

    /// Targets of the given moves grouped by origin square, origins in order of first
    /// appearance.
    pub fn dests_for_moves(moves: &[MoveStat]) -> (r: Vec<(Key, Vec<Key>)>)
        ensures
            groups_view(r@) == group_moves(moves@.map_values(|m: MoveStat| (m.orig.index, m.dest.index))),
    {
        let mut pairs: Vec<(Key, Key)> = Vec::new();
        let mut i: usize = 0;
        while i < moves.len()
            invariant
                i <= moves@.len(),
                pairs_view(pairs@) == moves@.take(i as int).map_values(|m: MoveStat| (m.orig.index, m.dest.index)),
            decreases moves@.len() - i,
        {
            let ghost before = pairs_view(pairs@);
            pairs.push((moves[i].orig, moves[i].dest));
            assert(pairs_view(pairs@) =~= before.push((moves@[i as int].orig.index, moves@[i as int].dest.index)));
            assert(moves@.take(i + 1).map_values(|m: MoveStat| (m.orig.index, m.dest.index)) =~= moves@.take(i as int).map_values(
                |m: MoveStat| (m.orig.index, m.dest.index),
            ).push((moves@[i as int].orig.index, moves@[i as int].dest.index)));
            i += 1;
        }
        assert(moves@.take(moves@.len() as int) =~= moves@);
        group_by_origin(pairs.as_slice())
    }
}


/// The arrow of a played move, drawn by its frequency level.
pub open spec fn stat_arrow(m: MoveStatV) -> Arrow {
    Arrow { orig: Key { index: m.orig }, dest: Key { index: m.dest }, style: ArrowStyle::Frequency(m.level) }
}

pub fn move_to_shape(mv: MoveStat) -> (r: Arrow)
    ensures
        r == stat_arrow(stat_view(mv)),
{
    Arrow { orig: mv.orig, dest: mv.dest, style: ArrowStyle::Frequency(mv.level) }
}

impl OpeningGraph {
    /// An arrow for each move played from the position of `fen`, in the order of `moves_at`.
    pub fn auto_shapes(fen: &str, graph: &Self) -> (r: Vec<Arrow>)
        requires
            graph_wf(graph.nodes_view()),
        ensures
            r@ == moves_view(graph.nodes_view(), fen@).map_values(|m: MoveStatV| stat_arrow(m)),
    {
        let mut moves = graph.moves_at(fen);
        let ghost mv = moves_view(graph.nodes_view(), fen@);
        let mut out: Vec<Arrow> = Vec::new();
        let mut i: usize = 0;
        let n = moves.len();
        while moves.len() > 0
            invariant
                moves@.len() + i == n,
                n == mv.len(),
                moves@.map_values(|m: MoveStat| stat_view(m)) == mv.skip(i as int),
                out@ == mv.take(i as int).map_values(|m: MoveStatV| stat_arrow(m)),
            decreases moves@.len(),
        {
            let ghost before = moves@;
            let m = moves.remove(0);
            assert(stat_view(m) == mv[i as int]) by {
                assert(before.map_values(|m: MoveStat| stat_view(m))[0] == stat_view(before[0]));
            }
            out.push(move_to_shape(m));
            let ghost after = moves@.map_values(|m: MoveStat| stat_view(m));
            let ghost bv = before.map_values(|m: MoveStat| stat_view(m));
            assert(after =~= mv.skip(i + 1)) by {
                assert forall|k: int| 0 <= k < after.len() implies #[trigger] after[k] == mv.skip(i + 1)[k] by {
                    assert(moves@[k] == before[k + 1]);
                    assert(bv[k + 1] == stat_view(before[k + 1]));
                }
            }
            assert(mv.take(i + 1).map_values(|m: MoveStatV| stat_arrow(m)) =~= mv.take(i as int).map_values(
                |m: MoveStatV| stat_arrow(m),
            ).push(stat_arrow(mv[i as int])));
            i += 1;
        }
        assert(mv.take(i as int) =~= mv);
        out
    }
}

impl OpeningGraph {
    /// Adds one game given as PGN: its SAN movetext is played from the start position,
    /// and the game's data counts at each position reached.
    pub fn add_game_pgn(&mut self, pgn: &str, meta: &GameMeta, player_color: PlayerColor) -> (r: Result<(), String>)
        requires
            graph_wf(old(self).nodes_view()),
            movetext_of(pgn@) matches Some(m) ==> room(old(self).nodes_view(), movetext_moves(m).len()),
            old(self).games < u32::MAX,
        ensures
            graph_wf(final(self).nodes_view()),
            match movetext_of(pgn@) {
                None => r is Err && r->Err_0@ == "PGN has no movetext"@ && *final(self) == *old(self),
                Some(m) => {
                    let p = played(
                        old(self).nodes_view(),
                        initial_fen_text(),
                        movetext_moves(m),
                        0,
                        MoveNotation::San,
                        Some(meta_view(*meta, player_color)),
                    );
                    &&& final(self).nodes_view() == p.0
                    &&& match r {
                        Ok(()) => p.1 is None && final(self).games == old(self).games + 1,
                        Err(e) => p.1 == Some(e@) && final(self).games == old(self).games,
                    }
                },
            },
    {
        let movetext = match movetext_from_pgn(pgn) {
            Some(m) => m,
            None => return Err(String::from_str("PGN has no movetext")),
        };
        let toks = tokenize_movetext(movetext.as_str());
        let ghost t = views(toks@);
        let ghost m = Some(meta_view(*meta, player_color));
        let ghost goal = played(self.nodes_view(), initial_fen_text(), t, 0, MoveNotation::San, m);
        let mut pos = initial_fen();
        let mut k: usize = 0;
        while k < toks.len()
            invariant
                k <= toks@.len(),
                t == views(toks@),
                t == movetext_moves(movetext@),
                movetext_of(pgn@) == Some(movetext@),
                m == Some(meta_view(*meta, player_color)),
                goal == played(old(self).nodes_view(), initial_fen_text(), t, 0, MoveNotation::San, m),
                graph_wf(self.nodes_view()),
                room(self.nodes_view(), (t.len() - k) as nat),
                self.games == old(self).games,
                goal == played(self.nodes_view(), pos@, t, k as int, MoveNotation::San, m),
            decreases toks@.len() - k,
        {
            assert(t[k as int] == toks@[k as int]@);
            match play_token(pos.as_str(), toks[k].as_str(), MoveNotation::San) {
                Err(e) => {
                    assert(played(self.nodes_view(), pos@, t, k as int, MoveNotation::San, m) == (self.nodes_view(), Some(e@)));
                    return Err(e);
                },
                Ok((after, label, o, d)) => {
                    proof {
                        assert(played(self.nodes_view(), pos@, t, k as int, MoveNotation::San, m) == played(
                            recorded(self.nodes_view(), simplified(pos@), simplified(after@), label@, o.index, d.index, m),
                            after@,
                            t,
                            k + 1,
                            MoveNotation::San,
                            m,
                        ));
                        lemma_recorded(self.nodes_view(), simplified(pos@), simplified(after@), label@, o.index, d.index, m, (t.len() - k - 1) as nat);
                    }
                    self.record_move(pos.as_str(), after.as_str(), label.as_str(), o, d, Some(meta), player_color);
                    pos = after;
                },
            }
            k += 1;
        }
        assert(played(self.nodes_view(), pos@, t, k as int, MoveNotation::San, m) == (self.nodes_view(), None::<Seq<char>>));
        self.games = self.games + 1;
        Ok(())
    }

    /// Whether every counter can still count `n` more moves.
    pub fn has_room(&self, n: usize) -> (r: bool)
        ensures
            r == room(self.nodes_view(), n as nat),
    {
        if n as u64 > 0xffff_ffffu64 {
            return false;
        }
        let ghost ns = self.nodes_view();
        let mut i: usize = 0;
        while i < self.nodes.len()
            invariant
                i <= self.nodes@.len(),
                ns == self.nodes_view(),
                n <= u32::MAX,
                forall|k: int| 0 <= k < i ==> node_room(#[trigger] ns[k], n as nat),
            decreases self.nodes@.len() - i,
        {
            let node = &self.nodes[i];
            assert(ns[i as int] == node_gv(*node));
            let d = &node.details;
            let n64 = n as u64;
            if node.max_count as u64 + n64 > 0xffff_ffffu64 || d.white_wins as u64 + n64 > 0xffff_ffffu64
                || d.black_wins as u64 + n64 > 0xffff_ffffu64 || d.draws as u64 + n64 > 0xffff_ffffu64
                || d.opponent_elo_games as u64 + n64 > 0xffff_ffffu64 {
                assert(!node_room(ns[i as int], n as nat));
                return false;
            }
            let room_elo = 0xffff_ffff_ffff_ffffu64 - d.total_opponent_elo;
            if room_elo / 0xffff_ffffu64 < n64 {
                assert(d.total_opponent_elo + n * 0xffff_ffff > u64::MAX) by (nonlinear_arith)
                    requires
                        room_elo == u64::MAX - d.total_opponent_elo,
                        room_elo / 0xffff_ffffu64 < n64,
                        n64 == n,
                ;
                assert(!node_room(ns[i as int], n as nat));
                return false;
            }
            assert(d.total_opponent_elo + n * 0xffff_ffff <= u64::MAX) by (nonlinear_arith)
                requires
                    room_elo == u64::MAX - d.total_opponent_elo,
                    room_elo / 0xffff_ffffu64 >= n64,
                    n64 == n,
            ;
            let ghost es = ns[i as int].edges;
            let mut j: usize = 0;
            while j < node.edges.len()
                invariant
                    j <= node.edges@.len(),
                    n <= u32::MAX,
                    ns == self.nodes_view(),
                    i < self.nodes@.len(),
                    *node == self.nodes@[i as int],
                    es == ns[i as int].edges,
                    ns[i as int] == node_gv(*node),
                    es == node.edges@.map_values(|e: EdgeAgg| edge_view(e)),
                    forall|k: int| 0 <= k < j ==> #[trigger] es[k].count + n <= u32::MAX,
                decreases node.edges@.len() - j,
            {
                assert(es[j as int] == edge_view(node.edges@[j as int]));
                if node.edges[j].count as u64 + n as u64 > 0xffff_ffffu64 {
                    assert(es[j as int].count + n > u32::MAX);
                    assert(!node_room(ns[i as int], n as nat));
                    return false;
                }
                j += 1;
            }
            assert(node_room(ns[i as int], n as nat));
            i += 1;
        }
        true
    }
}
} // verus!
