//! Lichess game export: which streamed games to keep, and where the next page starts.
use vstd::prelude::*;
use crate::fetch::{end_view, finish_stream, stream_end, LoadPeriod, LoadedGame, PlayerColor, StreamOutcome, TimeControlFilter, speed_matches};
use crate::graph::{opt_view, GameMeta, GameResult, MoveNotation};
use crate::text::{append_str, string_of};

verus! {

broadcast use vstd::string::group_string_axioms;

/// Games per Lichess request (paginate with `until`).
pub const LICHESS_CHUNK_SIZE: u32 = 200;

/// The `until` cursor of the next page: one millisecond before the oldest game of a full
/// page, unless that game is already older than the period.
pub open spec fn next_until(chunk_count: u32, oldest: Option<i64>, since: Option<i64>) -> Option<i64> {
    if chunk_count < LICHESS_CHUNK_SIZE {
        None
    } else {
        match oldest {
            None => None,
            Some(o) => match since {
                Some(s) => if o <= s {
                    None
                } else {
                    Some((o - 1) as i64)
                },
                None => Some((o - 1) as i64),
            },
        }
    }
}

pub fn next_lichess_until(chunk_count: u32, oldest_last_move_at: Option<i64>, since: Option<i64>) -> (r: Option<i64>)
    requires
        oldest_last_move_at matches Some(o) ==> o > i64::MIN,
    ensures
        r == next_until(chunk_count, oldest_last_move_at, since),
{
    if chunk_count < LICHESS_CHUNK_SIZE {
        return None;
    }
    let oldest = match oldest_last_move_at {
        Some(o) => o,
        None => return None,
    };
    match since {
        Some(s) => if oldest <= s {
            return None;
        },
        None => {},
    }
    Some(oldest - 1)
}

/// The speed classes of Lichess games.
#[derive(Clone, Copy, Debug, PartialEq, Eq, Structural)]
pub enum LichessSpeed {
    UltraBullet,
    Bullet,
    Blitz,
    Rapid,
    Classical,
    Correspondence,
    Unknown,
}

pub open spec fn speed_text(s: LichessSpeed) -> Seq<char> {
    match s {
        LichessSpeed::UltraBullet => "ultraBullet"@,
        LichessSpeed::Bullet => "bullet"@,
        LichessSpeed::Blitz => "blitz"@,
        LichessSpeed::Rapid => "rapid"@,
        LichessSpeed::Classical => "classical"@,
        LichessSpeed::Correspondence => "correspondence"@,
        LichessSpeed::Unknown => "unknown"@,
    }
}

pub fn speed_name(speed: LichessSpeed) -> (r: &'static str)
    ensures
        r@ == speed_text(speed),
{
    match speed {
        LichessSpeed::UltraBullet => "ultraBullet",
        LichessSpeed::Bullet => "bullet",
        LichessSpeed::Blitz => "blitz",
        LichessSpeed::Rapid => "rapid",
        LichessSpeed::Classical => "classical",
        LichessSpeed::Correspondence => "correspondence",
        LichessSpeed::Unknown => "unknown",
    }
}

/// What the export says of one game.
#[derive(Debug)]
pub struct LichessGame {
    pub id: String,
    pub winner: Option<PlayerColor>,
    pub white_rating: Option<u32>,
    pub black_rating: Option<u32>,
    pub last_move_at: Option<i64>,
    pub moves: Option<String>,
    pub speed: Option<LichessSpeed>,
}

/// The game data of a Lichess game: result from the winner, both ratings, its link and
/// the time of its last move.
pub fn lichess_meta(game: &LichessGame) -> (r: GameMeta)
    ensures
        r.result == (match game.winner {
            Some(PlayerColor::White) => GameResult::WhiteWin,
            Some(PlayerColor::Black) => GameResult::BlackWin,
            None => GameResult::Draw,
        }),
        r.white_elo == game.white_rating,
        r.black_elo == game.black_rating,
        r.date is None,
        opt_view(r.url) == Some("https://lichess.org/"@ + game.id@),
        r.timestamp == game.last_move_at,
{
    let result = match game.winner {
        Some(PlayerColor::White) => GameResult::WhiteWin,
        Some(PlayerColor::Black) => GameResult::BlackWin,
        None => GameResult::Draw,
    };
    let mut url: Vec<char> = Vec::new();
    append_str(&mut url, "https://lichess.org/");
    append_str(&mut url, game.id.as_str());
    GameMeta {
        result,
        white_elo: game.white_rating,
        black_elo: game.black_rating,
        date: None,
        url: Some(string_of(url.as_slice())),
        timestamp: game.last_move_at,
    }
}

/// What one page of the export has given so far.
#[derive(Clone, Copy, Debug, PartialEq, Eq, Structural)]
pub struct ChunkState {
    pub ingested: u32,
    pub games_in_response: u32,
    pub oldest_ts: Option<i64>,
}

impl ChunkState {
    pub fn new() -> (r: Self)
        ensures
            r == (ChunkState { ingested: 0, games_in_response: 0, oldest_ts: None }),
    {
        ChunkState { ingested: 0, games_in_response: 0, oldest_ts: None }
    }
}

/// Whether a streamed game is loaded: it has moves, its speed passes the filter, and it
/// was not played before the period.
pub open spec fn keeps_game(
    moves: Option<Seq<char>>,
    speed: Option<LichessSpeed>,
    last_move_at: Option<i64>,
    since: Option<i64>,
    tc: TimeControlFilter,
) -> bool {
    &&& moves matches Some(m) && m.len() > 0
    &&& speed matches Some(s) ==> speed_matches(tc, speed_text(s))
    &&& !(since matches Some(si) && last_move_at matches Some(ts) && ts < si)
}

/// Counts one streamed game into the page and gives the game to load, if it is kept.
pub fn on_lichess_game(state: &mut ChunkState, game: &LichessGame, since: Option<i64>, time_controls: TimeControlFilter) -> (r: Option<LoadedGame>)
    requires
        old(state).games_in_response < u32::MAX,
        old(state).ingested < u32::MAX,
    ensures
        final(state).games_in_response == old(state).games_in_response + 1,
        final(state).oldest_ts == (match game.last_move_at {
            Some(ts) => match old(state).oldest_ts {
                Some(cur) => Some(if ts < cur { ts } else { cur }),
                None => Some(ts),
            },
            None => old(state).oldest_ts,
        }),
        keeps_game(opt_view(game.moves), game.speed, game.last_move_at, since, time_controls) == (r is Some),
        final(state).ingested == old(state).ingested + (if r is Some { 1int } else { 0int }),
        r matches Some(l) ==> loaded_from(l, *game),
        !(r matches Some(LoadedGame::Pgn { .. })),
{
    state.games_in_response = state.games_in_response + 1;
    match game.last_move_at {
        Some(ts) => {
            state.oldest_ts = match state.oldest_ts {
                Some(cur) => Some(if ts < cur { ts } else { cur }),
                None => Some(ts),
            };
        },
        None => {},
    }
    let moves = match &game.moves {
        Some(m) => m,
        None => return None,
    };
    if crate::text::chars_of(moves.as_str()).len() == 0 {
        return None;
    }
    match game.speed {
        Some(speed) => {
            if !time_controls.matches_speed(speed_name(speed)) {
                return None;
            }
        },
        None => {},
    }
    match (since, game.last_move_at) {
        (Some(si), Some(ts)) => {
            if ts < si {
                return None;
            }
        },
        _ => {},
    }
    let meta = lichess_meta(game);
    state.ingested = state.ingested + 1;
    Some(LoadedGame::Moves { moves: moves.clone(), notation: MoveNotation::San, meta })
}

/// What to do after a page: stop when cancelled or when there is no next page, else ask
/// for the page before `until`.
#[derive(Clone, Copy, Debug, PartialEq, Eq, Structural)]
pub enum ChunkNext {
    Cancelled,
    Done,
    Next(i64),
}

pub fn after_lichess_chunk(outcome: StreamOutcome, chunk: ChunkState, since: Option<i64>) -> (r: ChunkNext)
    requires
        chunk.oldest_ts matches Some(o) ==> o > i64::MIN,
    ensures
        outcome == StreamOutcome::Cancelled ==> r == ChunkNext::Cancelled,
        outcome == StreamOutcome::Completed ==> r == (match next_until(chunk.games_in_response, chunk.oldest_ts, since) {
            Some(u) => ChunkNext::Next(u),
            None => ChunkNext::Done,
        }),
{
    if outcome == StreamOutcome::Cancelled {
        return ChunkNext::Cancelled;
    }
    match next_lichess_until(chunk.games_in_response, chunk.oldest_ts, since) {
        Some(u) => ChunkNext::Next(u),
        None => ChunkNext::Done,
    }
}

// ---------------------------------------------------------------- a whole page

/// The oldest time of a last move among the games.
pub open spec fn oldest_of(gs: Seq<LichessGame>) -> Option<i64>
    decreases gs.len(),
{
    if gs.len() == 0 {
        None
    } else {
        let o = oldest_of(gs.drop_last());
        match gs.last().last_move_at {
            Some(ts) => Some(match o {
                Some(c) => if ts < c {
                    ts
                } else {
                    c
                },
                None => ts,
            }),
            None => o,
        }
    }
}

/// The games of a page that are loaded, in order.
pub open spec fn kept_games(gs: Seq<LichessGame>, since: Option<i64>, tc: TimeControlFilter) -> Seq<LichessGame>
    decreases gs.len(),
{
    if gs.len() == 0 {
        seq![]
    } else {
        let rest = kept_games(gs.drop_last(), since, tc);
        let g = gs.last();
        if keeps_game(opt_view(g.moves), g.speed, g.last_move_at, since, tc) {
            rest.push(g)
        } else {
            rest
        }
    }
}

/// `l` is game `g` as it is loaded: its SAN moves, its time, link and ratings.
pub open spec fn loaded_from(l: LoadedGame, g: LichessGame) -> bool {
    l matches LoadedGame::Moves { moves, notation, meta } && Some(moves@) == opt_view(g.moves) && notation
        == MoveNotation::San && meta.timestamp == g.last_move_at && opt_view(meta.url) == Some(
        "https://lichess.org/"@ + g.id@,
    ) && meta.white_elo == g.white_rating && meta.black_elo == g.black_rating && meta.result == (match g.winner {
        Some(PlayerColor::White) => GameResult::WhiteWin,
        Some(PlayerColor::Black) => GameResult::BlackWin,
        None => GameResult::Draw,
    }) && meta.date is None
}

/// A whole page of streamed games: every game is counted, the oldest time is kept, and
/// exactly the games with moves, a speed that passes the filter and a last move not
/// before the period are loaded, in order, as SAN games.
pub fn lichess_page(games: &Vec<LichessGame>, since: Option<i64>, time_controls: TimeControlFilter) -> (r: (ChunkState, Vec<LoadedGame>))
    requires
        games@.len() < u32::MAX,
    ensures
        r.0.games_in_response == games@.len(),
        r.0.oldest_ts == oldest_of(games@),
        r.0.ingested == kept_games(games@, since, time_controls).len(),
        r.1@.len() == kept_games(games@, since, time_controls).len(),
        forall|j: int| 0 <= j < r.1@.len() ==> loaded_from(#[trigger] r.1@[j], kept_games(games@, since, time_controls)[j]),
{
    let mut state = ChunkState::new();
    let mut out: Vec<LoadedGame> = Vec::new();
    let mut i: usize = 0;
    while i < games.len()
        invariant
            i <= games@.len(),
            games@.len() < u32::MAX,
            state.games_in_response == i,
            state.oldest_ts == oldest_of(games@.take(i as int)),
            state.ingested == kept_games(games@.take(i as int), since, time_controls).len(),
            out@.len() == kept_games(games@.take(i as int), since, time_controls).len(),
            forall|j: int| 0 <= j < out@.len() ==> loaded_from(#[trigger] out@[j], kept_games(games@.take(i as int), since, time_controls)[j]),
        decreases games@.len() - i,
    {
        let ghost pre = games@.take(i as int);
        assert(games@.take(i + 1).drop_last() =~= pre);
        assert(games@.take(i + 1).last() == games@[i as int]);
        proof {
            lemma_kept_len(pre, since, time_controls);
        }
        match on_lichess_game(&mut state, &games[i], since, time_controls) {
            Some(l) => {
                let ghost before = out@;
                out.push(l);
                assert forall|j: int| 0 <= j < out@.len() implies loaded_from(#[trigger] out@[j], kept_games(games@.take(i + 1), since, time_controls)[j]) by {
                    if j < before.len() {
                        assert(out@[j] == before[j]);
                    }
                }
            },
            None => {},
        }
        i += 1;
    }
    assert(games@.take(i as int) =~= games@);
    (state, out)
}

proof fn lemma_kept_len(gs: Seq<LichessGame>, since: Option<i64>, tc: TimeControlFilter)
    ensures
        kept_games(gs, since, tc).len() <= gs.len(),
    decreases gs.len(),
{
    if gs.len() > 0 {
        lemma_kept_len(gs.drop_last(), since, tc);
    }
}

// ---------------------------------------------------------------- a whole download

/// The games of all pages that are loaded, page after page.
pub open spec fn all_kept(pages: Seq<Seq<LichessGame>>, since: Option<i64>, tc: TimeControlFilter) -> Seq<LichessGame>
    decreases pages.len(),
{
    if pages.len() == 0 {
        seq![]
    } else {
        all_kept(pages.drop_last(), since, tc) + kept_games(pages.last(), since, tc)
    }
}

/// The `until` of the request after the pages read so far: none for the first.
pub open spec fn until_after(pages: Seq<Seq<LichessGame>>, since: Option<i64>) -> Option<i64> {
    if pages.len() == 0 {
        None
    } else {
        next_until(pages.last().len() as u32, oldest_of(pages.last()), since)
    }
}

/// What to do after a page: ask for the next one (with its `until`), or stop with the
/// download's result.
pub enum RunNext {
    Fetch(Option<i64>),
    Finished(Result<(StreamOutcome, u32), String>),
}

/// A download of a player's Lichess games, page by page.
pub struct LichessRun {
    since: Option<i64>,
    time_controls: TimeControlFilter,
    ingested: u32,
    until: Option<i64>,
    pages: Ghost<Seq<Seq<LichessGame>>>,
    handed: Ghost<Seq<LoadedGame>>,
}

impl LichessRun {
    /// The start of the period.
    pub closed spec fn since(&self) -> Option<i64> {
        self.since
    }

    pub closed spec fn filter(&self) -> TimeControlFilter {
        self.time_controls
    }

    /// The games handed on so far, in order.
    pub closed spec fn handed(&self) -> Seq<LoadedGame> {
        self.handed@
    }

    /// The pages read so far.
    pub closed spec fn pages(&self) -> Seq<Seq<LichessGame>> {
        self.pages@
    }

    pub closed spec fn count(&self) -> u32 {
        self.ingested
    }

    pub closed spec fn next_until(&self) -> Option<i64> {
        self.until
    }

    /// The games handed on are exactly the loaded games of the pages read, each once and in
    /// order, and the count is their number.
    pub open spec fn wf(&self) -> bool {
        &&& self.count() == self.handed().len()
        &&& self.handed().len() == all_kept(self.pages(), self.since(), self.filter()).len()
        &&& forall|j: int| 0 <= j < self.handed().len() ==> loaded_from(
            #[trigger] self.handed()[j],
            all_kept(self.pages(), self.since(), self.filter())[j],
        )
    }

    pub fn new(since: Option<i64>, time_controls: TimeControlFilter) -> (r: Self)
        ensures
            r.wf(),
            r.since() == since,
            r.filter() == time_controls,
            r.pages().len() == 0,
            r.handed().len() == 0,
            r.next_until() is None,
    {
        let pages: Ghost<Seq<Seq<LichessGame>>> = Ghost(Seq::empty());
        let handed: Ghost<Seq<LoadedGame>> = Ghost(Seq::empty());
        LichessRun { since, time_controls, ingested: 0, until: None, pages, handed }
    }

    /// How many games were handed on so far.
    pub fn games_handed(&self) -> (r: u32)
        ensures
            r == self.count(),
    {
        self.ingested
    }

    /// The `until` of the next request.
    pub fn request_until(&self) -> (r: Option<i64>)
        ensures
            r == self.next_until(),
    {
        self.until
    }

    /// The result when the download is stopped before a request.
    pub fn stop(&self) -> (r: Result<(StreamOutcome, u32), String>)
        ensures
            r == Ok::<(StreamOutcome, u32), String>((StreamOutcome::Cancelled, self.count())),
    {
        Ok((StreamOutcome::Cancelled, self.ingested))
    }

    /// Takes the page the last request answered (read whole, or up to a cancel): gives the
    /// games to hand on, in order, and what to do next. A stopped page ends the download; a
    /// page after which no page follows ends it as `finish_stream` says; otherwise the next
    /// request asks for the games before the page's oldest.
    pub fn on_page(&mut self, page: &Vec<LichessGame>, outcome: StreamOutcome, user: &str, period: LoadPeriod) -> (r: (Vec<LoadedGame>, RunNext))
        requires
            old(self).wf(),
            page@.len() < u32::MAX,
            old(self).count() + page@.len() <= u32::MAX,
            oldest_of(page@) != Some(i64::MIN),
        ensures
            final(self).wf(),
            final(self).since() == old(self).since(),
            final(self).filter() == old(self).filter(),
            final(self).pages() == old(self).pages().push(page@),
            final(self).handed() == old(self).handed() + r.0@,
            r.0@.len() == kept_games(page@, old(self).since(), old(self).filter()).len(),
            forall|j: int| 0 <= j < r.0@.len() ==> loaded_from(#[trigger] r.0@[j], kept_games(page@, old(self).since(), old(self).filter())[j]),
            outcome == StreamOutcome::Cancelled ==> (r.1 matches RunNext::Finished(x) && x == Ok::<(StreamOutcome, u32), String>((StreamOutcome::Cancelled, final(self).count()))),
            outcome == StreamOutcome::Completed ==> match next_until(page@.len() as u32, oldest_of(page@), old(self).since()) {
                Some(u) => r.1 == RunNext::Fetch(Some(u)) && final(self).next_until() == Some(u),
                None => (r.1 matches RunNext::Finished(x) && end_view(x) == stream_end(
                    StreamOutcome::Completed,
                    final(self).count(),
                    "Lichess"@,
                    user@,
                    period,
                )),
            },
            match r.1 {
                RunNext::Finished(Ok((o, n))) => n == final(self).handed().len() && (o == StreamOutcome::Completed ==> n >= 1),
                _ => true,
            },
    {
        let (state, loaded) = lichess_page(page, self.since, self.time_controls);
        let ghost old_pages = self.pages@;
        let ghost old_handed = self.handed@;
        let ghost kept = kept_games(page@, self.since, self.time_controls);
        proof {
            assert(old_pages.push(page@).drop_last() =~= old_pages);
            assert(all_kept(old_pages.push(page@), self.since, self.time_controls) == all_kept(old_pages, self.since, self.time_controls) + kept);
        }
        let new_pages: Ghost<Seq<Seq<LichessGame>>> = Ghost(old_pages.push(page@));
        let new_handed: Ghost<Seq<LoadedGame>> = Ghost(old_handed + loaded@);
        self.pages = new_pages;
        self.handed = new_handed;
        proof {
            lemma_kept_len(page@, self.since, self.time_controls);
        }
        self.ingested = self.ingested + state.ingested;
        proof {
            let ak = all_kept(old_pages, self.since, self.time_controls);
            let nk = all_kept(self.pages@, self.since, self.time_controls);
            assert forall|j: int| 0 <= j < self.handed@.len() implies loaded_from(#[trigger] self.handed@[j], nk[j]) by {
                if j < old_handed.len() {
                    assert(self.handed@[j] == old_handed[j]);
                    assert(nk[j] == ak[j]);
                } else {
                    assert(self.handed@[j] == loaded@[j - old_handed.len()]);
                    assert(nk[j] == kept[j - ak.len()]);
                }
            }
        }
        if outcome == StreamOutcome::Cancelled {
            return (loaded, RunNext::Finished(Ok((StreamOutcome::Cancelled, self.ingested))));
        }
        match after_lichess_chunk(outcome, state, self.since) {
            ChunkNext::Next(u) => {
                self.until = Some(u);
                (loaded, RunNext::Fetch(Some(u)))
            },
            _ => {
                let end = finish_stream(StreamOutcome::Completed, self.ingested, "Lichess", user, period);
                (loaded, RunNext::Finished(end))
            },
        }
    }
}

} // verus!
