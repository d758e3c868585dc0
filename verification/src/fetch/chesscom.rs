//! Chess.com monthly archives: which months and games to load, and what their PGN says.
use vstd::prelude::*;
use crate::fetch::{end_view, finish_stream, stream_end, LoadPeriod, LoadedGame, PlayerColor, StreamOutcome, TimeControlFilter, speed_matches};
use crate::graph::{clone_opt, opt_view, GameMeta, GameResult};
use crate::text::{
    append_str, chars_of, contains_chars, contains_seq, cviews, eq_ignore_ascii_case, eq_ignore_case, has_prefix,
    has_suffix, lines, lower_chars, lower_seq, parse_i32, parse_signed, parse_u32, parse_unsigned, slice_to_vec,
    split_lines, starts_with, ends_with, str_eq, string_of, trim, trim_chars,
};

verus! {

broadcast use vstd::string::group_string_axioms;

/// A game of a monthly archive: its PGN and the names of both players.
#[derive(Debug)]
pub struct ChessComGame {
    pub pgn: String,
    pub white_username: String,
    pub black_username: String,
}

/// `s` without its trailing `/`s, as `trim_end_matches('/')`.
pub open spec fn strip_slashes(s: Seq<char>) -> Seq<char>
    decreases s.len(),
{
    if s.len() > 0 && s.last() == '/' {
        strip_slashes(s.drop_last())
    } else {
        s
    }
}

/// Index of the last `/` in `s`, or -1.
pub open spec fn last_slash(s: Seq<char>) -> int
    decreases s.len(),
{
    if s.len() == 0 {
        -1
    } else if s.last() == '/' {
        s.len() - 1
    } else {
        last_slash(s.drop_last())
    }
}

/// Year and month of an archive URL ending in `/YYYY/MM`.
pub open spec fn archive_year_month(url: Seq<char>) -> Option<(i32, u32)> {
    let t = strip_slashes(url);
    let i = last_slash(t);
    let month = parse_unsigned(t.skip(i + 1), u32::MAX as nat);
    if month is None || i < 0 {
        None
    } else {
        let head = t.take(i);
        let year = parse_signed(head.skip(last_slash(head) + 1), i32::MAX as nat);
        match (month, year) {
            (Some(m), Some(y)) => Some((y as i32, m as u32)),
            _ => None,
        }
    }
}

proof fn lemma_last_slash(s: Seq<char>)
    ensures
        -1 <= last_slash(s) < s.len(),
        last_slash(s) >= 0 ==> s[last_slash(s)] == '/',
        forall|k: int| last_slash(s) < k < s.len() ==> s[k] != '/',
    decreases s.len(),
{
    if s.len() > 0 && s.last() != '/' {
        lemma_last_slash(s.drop_last());
        assert forall|k: int| last_slash(s) < k < s.len() implies s[k] != '/' by {
            if k < s.len() - 1 {
                assert(s[k] == s.drop_last()[k]);
            }
        }
    }
}

fn last_slash_index(s: &[char]) -> (r: Option<usize>)
    ensures
        match r {
            Some(i) => last_slash(s@) == i,
            None => last_slash(s@) == -1,
        },
{
    let mut j: usize = s.len();
    assert(s@.take(j as int) =~= s@);
    while j > 0 && s[j - 1] != '/'
        invariant
            j <= s@.len(),
            last_slash(s@) == last_slash(s@.take(j as int)),
        decreases j,
    {
        assert(s@.take(j - 1) =~= s@.take(j as int).drop_last());
        j -= 1;
    }
    if j == 0 {
        assert(s@.take(0) =~= Seq::<char>::empty());
        None
    } else {
        Some(j - 1)
    }
}

pub fn parse_archive_year_month(url: &str) -> (r: Option<(i32, u32)>)
    ensures
        r == archive_year_month(url@),
{
    let mut t = chars_of(url);
    while t.len() > 0 && t[t.len() - 1] == '/'
        invariant
            strip_slashes(url@) == strip_slashes(t@),
        decreases t@.len(),
    {
        t.pop();
    }
    let i = last_slash_index(t.as_slice());
    proof {
        lemma_last_slash(t@);
    }
    let start = match i {
        Some(i) => i + 1,
        None => 0,
    };
    proof {
        lemma_last_slash(t@);
    }
    let last = slice_to_vec(t.as_slice(), start, t.len());
    assert(last@ =~= t@.skip(last_slash(t@) + 1));
    let month = match parse_u32(last.as_slice()) {
        Some(m) => m,
        None => return None,
    };
    let i = match i {
        Some(i) => i,
        None => return None,
    };
    let head = slice_to_vec(t.as_slice(), 0, i);
    assert(head@ =~= t@.take(i as int));
    let j = last_slash_index(head.as_slice());
    proof {
        lemma_last_slash(head@);
    }
    let hs = match j {
        Some(j) => j + 1,
        None => 0,
    };
    let seg = slice_to_vec(head.as_slice(), hs, head.len());
    assert(seg@ =~= head@.skip(last_slash(head@) + 1));
    match parse_i32(seg.as_slice()) {
        Some(y) => Some((y, month)),
        None => None,
    }
}

/// Year and month fit the comparison `year * 100 + month` of `i32`.
pub open spec fn ym_fits(ym: (i32, u32)) -> bool {
    &&& i32::MIN <= ym.0 * 100 <= i32::MAX
    &&& i32::MIN <= ym.0 * 100 + ym.1 <= i32::MAX
    &&& ym.1 <= i32::MAX
}

/// Whether an archive's month is in the period that starts at `since`.
pub open spec fn in_period(url: Seq<char>, since: Option<(i32, u32)>) -> bool {
    match since {
        None => true,
        Some(s) => match archive_year_month(url) {
            None => false,
            Some(ym) => ym.0 * 100 + ym.1 >= s.0 * 100 + s.1,
        },
    }
}

/// Whether `year * 100 + month` fits in an `i32`.
pub fn year_month_fits(ym: (i32, u32)) -> (r: bool)
    ensures
        r == ym_fits(ym),
{
    if ym.1 > 0x7fff_ffff {
        return false;
    }
    let y: i64 = ym.0 as i64 * 100;
    if y < -0x8000_0000 || y > 0x7fff_ffff {
        return false;
    }
    let t: i64 = y + ym.1 as i64;
    t <= 0x7fff_ffff
}

/// The archives whose month can be compared with a period start: all of them when there is
/// none; else those without a readable month, and those whose month fits.
pub open spec fn usable(archives: Seq<Seq<char>>, since: Option<(i32, u32)>) -> Seq<Seq<char>>
    decreases archives.len(),
{
    if archives.len() == 0 {
        seq![]
    } else {
        let rest = usable(archives.drop_last(), since);
        match archive_year_month(archives.last()) {
            Some(ym) => if since is None || ym_fits(ym) {
                rest.push(archives.last())
            } else {
                rest
            },
            None => rest.push(archives.last()),
        }
    }
}

/// Keeps the archives whose month can be compared with the period start, in order.
pub fn usable_archives(archives: &[String], since: Option<(i32, u32)>) -> (r: Vec<String>)
    ensures
        r@.map_values(|s: String| s@) == usable(archives@.map_values(|s: String| s@), since),
        since is Some ==> forall|i: int| 0 <= i < r@.len() ==> (archive_year_month(#[trigger] r@[i]@) matches Some(ym) ==> ym_fits(ym)),
{
    let ghost av = archives@.map_values(|s: String| s@);
    let mut out: Vec<String> = Vec::new();
    let mut i: usize = 0;
    while i < archives.len()
        invariant
            i <= archives@.len(),
            av == archives@.map_values(|s: String| s@),
            out@.map_values(|s: String| s@) == usable(av.take(i as int), since),
            since is Some ==> forall|j: int| 0 <= j < out@.len() ==> (archive_year_month(#[trigger] out@[j]@) matches Some(ym) ==> ym_fits(ym)),
        decreases archives@.len() - i,
    {
        assert(av.take(i + 1).drop_last() =~= av.take(i as int));
        assert(av.take(i + 1).last() == archives@[i as int]@);
        let keep = match parse_archive_year_month(archives[i].as_str()) {
            Some(ym) => since.is_none() || year_month_fits(ym),
            None => true,
        };
        if keep {
            let ghost before = out@.map_values(|s: String| s@);
            out.push(archives[i].clone());
            assert(out@.map_values(|s: String| s@) =~= before.push(archives@[i as int]@));
        }
        i += 1;
    }
    assert(av.take(i as int) =~= av);
    out
}

pub fn archive_in_period(url: &str, since: Option<(i32, u32)>) -> (r: bool)
    requires
        since matches Some(s) ==> ym_fits(s),
        since is Some ==> (archive_year_month(url@) matches Some(ym) ==> ym_fits(ym)),
    ensures
        r == in_period(url@, since),
{
    let s = match since {
        None => return true,
        Some(s) => s,
    };
    let (year, month) = match parse_archive_year_month(url) {
        None => return false,
        Some(ym) => ym,
    };
    year * 100 + month as i32 >= s.0 * 100 + s.1 as i32
}

/// Whether the profile's player had the given side in the game.
pub fn color_matches(game: &ChessComGame, user: &str, color: PlayerColor) -> (r: bool)
    ensures
        r == (match color {
            PlayerColor::White => eq_ignore_case(game.white_username@, user@),
            PlayerColor::Black => eq_ignore_case(game.black_username@, user@),
        }),
{
    match color {
        PlayerColor::White => eq_ignore_ascii_case(game.white_username.as_str(), user),
        PlayerColor::Black => eq_ignore_ascii_case(game.black_username.as_str(), user),
    }
}

/// The value of the first line `[tag "value"]` of a PGN, its lines trimmed.
pub open spec fn header_from(ls: Seq<Seq<char>>, needle: Seq<char>, k: int) -> Option<Seq<char>>
    decreases ls.len() - k,
{
    if k < 0 || k >= ls.len() {
        None
    } else {
        let l = trim(ls[k]);
        if has_prefix(l, needle) && has_suffix(l.skip(needle.len() as int), "\"]"@) {
            let rest = l.skip(needle.len() as int);
            Some(rest.take(rest.len() - 2))
        } else {
            header_from(ls, needle, k + 1)
        }
    }
}

pub open spec fn pgn_tag(pgn: Seq<char>, tag: Seq<char>) -> Option<Seq<char>> {
    header_from(lines(pgn), "["@ + tag + " \""@, 0)
}

pub fn pgn_header(pgn: &str, tag: &str) -> (r: Option<String>)
    ensures
        opt_view(r) == pgn_tag(pgn@, tag@),
{
    let mut needle: Vec<char> = Vec::new();
    append_str(&mut needle, "[");
    append_str(&mut needle, tag);
    append_str(&mut needle, " \"");
    let ghost nv = needle@;
    let mut close: Vec<char> = Vec::new();
    close.push('"');
    close.push(']');
    assert(close@ =~= "\"]"@) by {
        reveal_strlit("\"]");
    }
    let chars = chars_of(pgn);
    let ls = split_lines(chars.as_slice());
    let ghost lv = cviews(ls@);
    let mut k: usize = 0;
    while k < ls.len()
        invariant
            k <= ls@.len(),
            lv == cviews(ls@),
            lv == lines(pgn@),
            nv == needle@,
            nv == "["@ + tag@ + " \""@,
            close@ == "\"]"@,
            close@.len() == 2,
            pgn_tag(pgn@, tag@) == header_from(lv, nv, k as int),
        decreases ls@.len() - k,
    {
        assert(lv[k as int] == ls@[k as int]@);
        let line = trim_chars(ls[k].as_slice());
        if starts_with(line.as_slice(), needle.as_slice()) {
            let rest = slice_to_vec(line.as_slice(), needle.len(), line.len());
            assert(rest@ =~= line@.skip(nv.len() as int));
            if ends_with(rest.as_slice(), close.as_slice()) {
                assert(close@.len() == 2);
                let rl = rest.len();
                assert(rl >= 2);
                let value = slice_to_vec(rest.as_slice(), 0, rl - 2);
                assert(value@ =~= rest@.take(rest@.len() - 2));
                return Some(string_of(value.as_slice()));
            }
        }
        k += 1;
    }
    None
}

pub open spec fn elo_of(value: Option<Seq<char>>) -> Option<u32> {
    match value {
        Some(v) => match parse_unsigned(v, u32::MAX as nat) {
            Some(n) => Some(n as u32),
            None => None,
        },
        None => None,
    }
}

pub fn parse_elo(value: Option<String>) -> (r: Option<u32>)
    ensures
        r == elo_of(opt_view(value)),
{
    match value {
        Some(v) => {
            let c = chars_of(v.as_str());
            parse_u32(c.as_slice())
        },
        None => None,
    }
}

/// The result a PGN's `Result` tag names; anything but a win is a draw.
pub open spec fn result_of(tag: Option<Seq<char>>) -> GameResult {
    if tag == Some("1-0"@) {
        GameResult::WhiteWin
    } else if tag == Some("0-1"@) {
        GameResult::BlackWin
    } else {
        GameResult::Draw
    }
}

/// A `Result` tag of `1-0` is a win for White and one of `0-1` a win for Black; a game
/// with any other result, or none, counts as a draw.
pub proof fn law_result_tag(tag: Option<Seq<char>>)
    ensures
        tag == Some("1-0"@) ==> result_of(tag) == GameResult::WhiteWin,
        tag == Some("0-1"@) ==> result_of(tag) == GameResult::BlackWin,
        tag != Some("1-0"@) && tag != Some("0-1"@) ==> result_of(tag) == GameResult::Draw,
        result_of(tag) == GameResult::BlackWin <==> tag == Some("0-1"@),
        result_of(tag) == GameResult::WhiteWin <==> tag == Some("1-0"@),
{
    lemma_results_differ();
}

proof fn lemma_results_differ()
    ensures
        "1-0"@ != "0-1"@,
{
    reveal_strlit("1-0");
    reveal_strlit("0-1");
    assert("1-0"@[0] != "0-1"@[0]);
}

/// The game data a Chess.com PGN gives: result, ratings, date and link.
pub fn chesscom_meta(pgn: &str) -> (r: GameMeta)
    ensures
        r.result == result_of(pgn_tag(pgn@, "Result"@)),
        pgn_tag(pgn@, "Result"@) == Some("1-0"@) ==> r.result == GameResult::WhiteWin,
        pgn_tag(pgn@, "Result"@) == Some("0-1"@) ==> r.result == GameResult::BlackWin,
        pgn_tag(pgn@, "Result"@) != Some("1-0"@) && pgn_tag(pgn@, "Result"@) != Some("0-1"@) ==> r.result
            == GameResult::Draw,
        r.white_elo == elo_of(pgn_tag(pgn@, "WhiteElo"@)),
        r.black_elo == elo_of(pgn_tag(pgn@, "BlackElo"@)),
        opt_view(r.date) == pgn_tag(pgn@, "Date"@),
        opt_view(r.url) == pgn_tag(pgn@, "Link"@),
        r.timestamp is None,
{
    proof {
        lemma_results_differ();
    }
    let result = match pgn_header(pgn, "Result") {
        Some(v) => {
            if str_eq(v.as_str(), "1-0") {
                GameResult::WhiteWin
            } else if str_eq(v.as_str(), "0-1") {
                GameResult::BlackWin
            } else {
                GameResult::Draw
            }
        },
        None => GameResult::Draw,
    };
    GameMeta {
        result,
        white_elo: parse_elo(pgn_header(pgn, "WhiteElo")),
        black_elo: parse_elo(pgn_header(pgn, "BlackElo")),
        date: pgn_header(pgn, "Date"),
        url: pgn_header(pgn, "Link"),
        timestamp: None,
    }
}

/// The speed named by the first `[Event ...]` line that names one (in any ASCII case):
/// bullet, blitz, rapid, or classical for daily and classical games.
pub open spec fn speed_from(ls: Seq<Seq<char>>, k: int) -> Option<Seq<char>>
    decreases ls.len() - k,
{
    if k < 0 || k >= ls.len() {
        None
    } else {
        let l = trim(ls[k]);
        let e = lower_seq(l);
        if !has_prefix(l, "[Event "@) {
            speed_from(ls, k + 1)
        } else if contains_seq(e, "bullet"@) {
            Some("bullet"@)
        } else if contains_seq(e, "blitz"@) {
            Some("blitz"@)
        } else if contains_seq(e, "rapid"@) {
            Some("rapid"@)
        } else if contains_seq(e, "daily"@) || contains_seq(e, "classical"@) {
            Some("classical"@)
        } else {
            speed_from(ls, k + 1)
        }
    }
}

pub open spec fn pgn_speed(pgn: Seq<char>) -> Option<Seq<char>> {
    speed_from(lines(pgn), 0)
}

pub fn chesscom_speed(pgn: &str) -> (r: Option<&'static str>)
    ensures
        match r {
            Some(s) => pgn_speed(pgn@) == Some(s@),
            None => pgn_speed(pgn@) is None,
        },
{
    let chars = chars_of(pgn);
    let ls = split_lines(chars.as_slice());
    let ghost lv = cviews(ls@);
    let event = chars_of("[Event ");
    let bullet = chars_of("bullet");
    let blitz = chars_of("blitz");
    let rapid = chars_of("rapid");
    let daily = chars_of("daily");
    let classical = chars_of("classical");
    let mut k: usize = 0;
    while k < ls.len()
        invariant
            k <= ls@.len(),
            lv == cviews(ls@),
            lv == lines(pgn@),
            event@ == "[Event "@,
            bullet@ == "bullet"@,
            blitz@ == "blitz"@,
            rapid@ == "rapid"@,
            daily@ == "daily"@,
            classical@ == "classical"@,
            pgn_speed(pgn@) == speed_from(lv, k as int),
        decreases ls@.len() - k,
    {
        assert(lv[k as int] == ls@[k as int]@);
        let line = trim_chars(ls[k].as_slice());
        if starts_with(line.as_slice(), event.as_slice()) {
            let e = lower_chars(line.as_slice());
            if contains_chars(e.as_slice(), bullet.as_slice()) {
                return Some("bullet");
            }
            if contains_chars(e.as_slice(), blitz.as_slice()) {
                return Some("blitz");
            }
            if contains_chars(e.as_slice(), rapid.as_slice()) {
                return Some("rapid");
            }
            if contains_chars(e.as_slice(), daily.as_slice()) || contains_chars(e.as_slice(), classical.as_slice()) {
                return Some("classical");
            }
        }
        k += 1;
    }
    None
}

/// Whether a game of the archive is loaded: the player had the asked side, it is
/// standard chess, and its speed passes the filter.
pub open spec fn accepts(pgn: Seq<char>, white: Seq<char>, black: Seq<char>, user: Seq<char>, color: PlayerColor, tc: TimeControlFilter) -> bool {
    &&& (match color {
        PlayerColor::White => eq_ignore_case(white, user),
        PlayerColor::Black => eq_ignore_case(black, user),
    })
    &&& !(contains_seq(pgn, "Variant \""@) && !contains_seq(pgn, "Variant \"Standard\""@))
    &&& (pgn_speed(pgn) matches Some(sp) ==> speed_matches(tc, sp))
}

pub fn chesscom_accepts(game: &ChessComGame, user: &str, color: PlayerColor, time_controls: TimeControlFilter) -> (r: bool)
    ensures
        r == accepts(game.pgn@, game.white_username@, game.black_username@, user@, color, time_controls),
{
    if !color_matches(game, user, color) {
        return false;
    }
    let p = chars_of(game.pgn.as_str());
    let variant = chars_of("Variant \"");
    let standard = chars_of("Variant \"Standard\"");
    if contains_chars(p.as_slice(), variant.as_slice()) && !contains_chars(p.as_slice(), standard.as_slice()) {
        return false;
    }
    match chesscom_speed(game.pgn.as_str()) {
        Some(speed) => time_controls.matches_speed(speed),
        None => true,
    }
}

/// The archives to read, newest first: those of the period.
pub open spec fn archives_in(urls: Seq<Seq<char>>, since: Option<(i32, u32)>) -> Seq<Seq<char>>
    decreases urls.len(),
{
    if urls.len() == 0 {
        seq![]
    } else if in_period(urls.last(), since) {
        seq![urls.last()] + archives_in(urls.drop_last(), since)
    } else {
        archives_in(urls.drop_last(), since)
    }
}

pub fn archives_to_fetch(archives: &[String], since: Option<(i32, u32)>) -> (r: Vec<String>)
    requires
        since matches Some(s) ==> ym_fits(s),
        since is Some ==> forall|i: int| 0 <= i < archives@.len() ==> (archive_year_month(#[trigger] archives@[i]@) matches Some(ym) ==> ym_fits(ym)),
    ensures
        r@.map_values(|s: String| s@) == archives_in(archives@.map_values(|s: String| s@), since),
{
    let ghost av = archives@.map_values(|s: String| s@);
    let mut out: Vec<String> = Vec::new();
    let mut n: usize = archives.len();
    assert(av.take(n as int) =~= av);
    assert(out@.map_values(|s: String| s@) =~= Seq::<Seq<char>>::empty());
    while n > 0
        invariant
            n <= archives@.len(),
            av == archives@.map_values(|s: String| s@),
            since matches Some(s) ==> ym_fits(s),
            since is Some ==> forall|i: int| 0 <= i < archives@.len() ==> (archive_year_month(#[trigger] archives@[i]@) matches Some(ym) ==> ym_fits(ym)),
            out@.map_values(|s: String| s@) + archives_in(av.take(n as int), since) == archives_in(av, since),
        decreases n,
    {
        let ghost before = out@.map_values(|s: String| s@);
        assert(av.take(n as int).drop_last() =~= av.take(n - 1));
        assert(av.take(n as int).last() == archives@[n - 1]@);
        if archive_in_period(archives[n - 1].as_str(), since) {
            out.push(archives[n - 1].clone());
            assert(out@.map_values(|s: String| s@) =~= before.push(archives@[n - 1]@));
            assert(before + archives_in(av.take(n as int), since) =~= out@.map_values(|s: String| s@) + archives_in(
                av.take(n - 1),
                since,
            ));
        }
        n -= 1;
    }
    assert(archives_in(av.take(0), since) =~= Seq::<Seq<char>>::empty());
    assert(out@.map_values(|s: String| s@) + Seq::<Seq<char>>::empty() =~= out@.map_values(|s: String| s@));
    out
}

/// The PGNs of the games to load from one month, newest first.
pub open spec fn month_pgns(
    games: Seq<(Seq<char>, Seq<char>, Seq<char>)>,
    user: Seq<char>,
    color: PlayerColor,
    tc: TimeControlFilter,
) -> Seq<Seq<char>>
    decreases games.len(),
{
    if games.len() == 0 {
        seq![]
    } else {
        let g = games.last();
        if accepts(g.0, g.1, g.2, user, color, tc) {
            seq![g.0] + month_pgns(games.drop_last(), user, color, tc)
        } else {
            month_pgns(games.drop_last(), user, color, tc)
        }
    }
}

pub open spec fn games_view(v: Seq<ChessComGame>) -> Seq<(Seq<char>, Seq<char>, Seq<char>)> {
    v.map_values(|g: ChessComGame| (g.pgn@, g.white_username@, g.black_username@))
}

pub open spec fn loaded_pgn(g: LoadedGame) -> Seq<char> {
    match g {
        LoadedGame::Pgn { pgn, meta: _ } => pgn@,
        LoadedGame::Moves { moves, .. } => moves@,
    }
}

/// A loaded game that carries its PGN and the data that PGN gives: result, ratings, date
/// and link.
pub open spec fn pgn_meta_ok(g: LoadedGame) -> bool {
    g matches LoadedGame::Pgn { pgn, meta } && meta.result == result_of(pgn_tag(pgn@, "Result"@)) && meta.white_elo
        == elo_of(pgn_tag(pgn@, "WhiteElo"@)) && meta.black_elo == elo_of(pgn_tag(pgn@, "BlackElo"@)) && opt_view(
        meta.date,
    ) == pgn_tag(pgn@, "Date"@) && opt_view(meta.url) == pgn_tag(pgn@, "Link"@) && meta.timestamp is None
}

/// The games to load from one month of the archive, newest first, each with the data its
/// PGN gives.
pub fn month_games(games: &[ChessComGame], user: &str, color: PlayerColor, time_controls: TimeControlFilter) -> (r: Vec<LoadedGame>)
    ensures
        r@.map_values(|g: LoadedGame| loaded_pgn(g)) == month_pgns(games_view(games@), user@, color, time_controls),
        forall|i: int| 0 <= i < r@.len() ==> (#[trigger] r@[i]) is Pgn,
        forall|i: int| 0 <= i < r@.len() ==> pgn_meta_ok(#[trigger] r@[i]),
{
    let ghost gv = games_view(games@);
    let mut out: Vec<LoadedGame> = Vec::new();
    let mut n: usize = games.len();
    assert(gv.take(n as int) =~= gv);
    assert(out@.map_values(|g: LoadedGame| loaded_pgn(g)) =~= Seq::<Seq<char>>::empty());
    while n > 0
        invariant
            n <= games@.len(),
            gv == games_view(games@),
            out@.map_values(|g: LoadedGame| loaded_pgn(g)) + month_pgns(gv.take(n as int), user@, color, time_controls)
                == month_pgns(gv, user@, color, time_controls),
            forall|i: int| 0 <= i < out@.len() ==> (#[trigger] out@[i]) is Pgn,
            forall|i: int| 0 <= i < out@.len() ==> pgn_meta_ok(#[trigger] out@[i]),
        decreases n,
    {
        let ghost before = out@.map_values(|g: LoadedGame| loaded_pgn(g));
        assert(gv.take(n as int).drop_last() =~= gv.take(n - 1));
        let g = &games[n - 1];
        assert(gv.take(n as int).last() == (g.pgn@, g.white_username@, g.black_username@));
        if chesscom_accepts(g, user, color, time_controls) {
            let meta = chesscom_meta(g.pgn.as_str());
            let pgn = g.pgn.clone();
            assert(pgn@ == g.pgn@);
            let ghost before_out = out@;
            out.push(LoadedGame::Pgn { pgn, meta });
            assert forall|i: int| 0 <= i < out@.len() implies pgn_meta_ok(#[trigger] out@[i]) by {
                if i < before_out.len() {
                    assert(out@[i] == before_out[i]);
                }
            }
            assert(out@.map_values(|g: LoadedGame| loaded_pgn(g)) =~= before.push(g.pgn@));
            assert(before + month_pgns(gv.take(n as int), user@, color, time_controls) =~= out@.map_values(
                |g: LoadedGame| loaded_pgn(g),
            ) + month_pgns(gv.take(n - 1), user@, color, time_controls));
        }
        n -= 1;
    }
    assert(month_pgns(gv.take(0), user@, color, time_controls) =~= Seq::<Seq<char>>::empty());
    assert(out@.map_values(|g: LoadedGame| loaded_pgn(g)) + Seq::<Seq<char>>::empty() =~= out@.map_values(
        |g: LoadedGame| loaded_pgn(g),
    ));
    out
}

/// What `str::to_lowercase` gives for the text (Unicode lowercase mapping).
pub uninterp spec fn spec_to_lowercase(s: Seq<char>) -> Seq<char>;

/// `str::to_lowercase`.
#[verifier::external_body]
fn to_lowercase(s: &[char]) -> (r: String)
    ensures
        r@ == spec_to_lowercase(s@),
{
    let text: String = s.iter().collect();
    text.to_lowercase()
}

/// The Chess.com name of a user: trimmed and lowercased.
pub fn chesscom_user(username: &str) -> (r: String)
    ensures
        r@ == spec_to_lowercase(trim(username@)),
{
    let t = trim_chars(chars_of(username).as_slice());
    to_lowercase(t.as_slice())
}

/// The URL of the list of a user's monthly archives.
pub fn archives_url(user: &str) -> (r: String)
    ensures
        r@ == "https://api.chess.com/pub/player/"@ + user@ + "/games/archives"@,
{
    let mut v: Vec<char> = Vec::new();
    append_str(&mut v, "https://api.chess.com/pub/player/");
    append_str(&mut v, user);
    append_str(&mut v, "/games/archives");
    string_of(v.as_slice())
}

// ---------------------------------------------------------------- a whole download

/// The PGNs to load from the months read, month after month.
pub open spec fn all_month_pgns(
    months: Seq<Seq<(Seq<char>, Seq<char>, Seq<char>)>>,
    user: Seq<char>,
    color: PlayerColor,
    tc: TimeControlFilter,
) -> Seq<Seq<char>>
    decreases months.len(),
{
    if months.len() == 0 {
        seq![]
    } else {
        all_month_pgns(months.drop_last(), user, color, tc) + month_pgns(months.last(), user, color, tc)
    }
}

pub open spec fn pgns_of(v: Seq<LoadedGame>) -> Seq<Seq<char>> {
    v.map_values(|g: LoadedGame| loaded_pgn(g))
}

/// A download of a player's Chess.com games, month by month, handing the games on one by
/// one.
pub struct ChessComRun {
    user: String,
    color: PlayerColor,
    time_controls: TimeControlFilter,
    ingested: u32,
    pending: Vec<LoadedGame>,
    months: Ghost<Seq<Seq<(Seq<char>, Seq<char>, Seq<char>)>>>,
    handed: Ghost<Seq<LoadedGame>>,
}

impl ChessComRun {
    pub closed spec fn user(&self) -> Seq<char> {
        self.user@
    }

    pub closed spec fn color(&self) -> PlayerColor {
        self.color
    }

    pub closed spec fn filter(&self) -> TimeControlFilter {
        self.time_controls
    }

    pub closed spec fn count(&self) -> u32 {
        self.ingested
    }

    /// The games handed on so far, in order.
    pub closed spec fn handed(&self) -> Seq<LoadedGame> {
        self.handed@
    }

    /// The games of the months read that are not handed on yet.
    pub closed spec fn pending(&self) -> Seq<LoadedGame> {
        self.pending@
    }

    /// The months read so far.
    pub closed spec fn months(&self) -> Seq<Seq<(Seq<char>, Seq<char>, Seq<char>)>> {
        self.months@
    }

    /// The games handed on, then those pending, are the games to load of the months read,
    /// in order, each with the data its PGN gives; the count is the number handed on.
    pub open spec fn wf(&self) -> bool {
        &&& self.count() == self.handed().len()
        &&& pgns_of(self.handed() + self.pending()) == all_month_pgns(self.months(), self.user(), self.color(), self.filter())
        &&& forall|i: int| 0 <= i < (self.handed() + self.pending()).len() ==> pgn_meta_ok(
            #[trigger] (self.handed() + self.pending())[i],
        )
    }

    pub fn new(user: String, color: PlayerColor, time_controls: TimeControlFilter) -> (r: Self)
        ensures
            r.wf(),
            r.user() == user@,
            r.color() == color,
            r.filter() == time_controls,
            r.months().len() == 0,
            r.handed().len() == 0,
            r.pending().len() == 0,
    {
        let months: Ghost<Seq<Seq<(Seq<char>, Seq<char>, Seq<char>)>>> = Ghost(Seq::empty());
        let handed: Ghost<Seq<LoadedGame>> = Ghost(Seq::empty());
        let r = ChessComRun { user, color, time_controls, ingested: 0, pending: Vec::new(), months, handed };
        assert(pgns_of(r.handed@ + r.pending@) =~= Seq::<Seq<char>>::empty());
        r
    }

    /// Takes the games of the next month; its games to load wait to be handed on.
    pub fn on_month(&mut self, games: &[ChessComGame])
        requires
            old(self).wf(),
            old(self).pending().len() == 0,
        ensures
            final(self).wf(),
            final(self).user() == old(self).user(),
            final(self).color() == old(self).color(),
            final(self).filter() == old(self).filter(),
            final(self).count() == old(self).count(),
            final(self).handed() == old(self).handed(),
            final(self).months() == old(self).months().push(games_view(games@)),
            pgns_of(final(self).pending()) == month_pgns(games_view(games@), old(self).user(), old(self).color(), old(self).filter()),
    {
        let loaded = month_games(games, self.user.as_str(), self.color, self.time_controls);
        let ghost old_months = self.months@;
        let ghost h = self.handed@;
        let new_months: Ghost<Seq<Seq<(Seq<char>, Seq<char>, Seq<char>)>>> = Ghost(old_months.push(games_view(games@)));
        self.months = new_months;
        self.pending = loaded;
        proof {
            assert(old_months.push(games_view(games@)).drop_last() =~= old_months);
            assert(old(self).pending@ =~= Seq::<LoadedGame>::empty());
            assert(h + Seq::<LoadedGame>::empty() =~= h);
            assert(pgns_of(h + self.pending@) =~= pgns_of(h) + pgns_of(self.pending@));
            assert forall|i: int| 0 <= i < (h + self.pending@).len() implies pgn_meta_ok(#[trigger] (h + self.pending@)[i]) by {
                if i < h.len() {
                    assert((h + self.pending@)[i] == (h + Seq::<LoadedGame>::empty())[i]);
                } else {
                    assert((h + self.pending@)[i] == self.pending@[i - h.len()]);
                }
            }
        }
    }

    /// Whether a game waits to be handed on.
    pub fn has_pending(&self) -> (r: bool)
        ensures
            r == (self.pending().len() > 0),
    {
        self.pending.len() > 0
    }

    /// Hands on the next game waiting, if any.
    pub fn next_game(&mut self) -> (r: Option<LoadedGame>)
        requires
            old(self).wf(),
            old(self).count() < u32::MAX,
        ensures
            final(self).wf(),
            final(self).user() == old(self).user(),
            final(self).color() == old(self).color(),
            final(self).filter() == old(self).filter(),
            final(self).months() == old(self).months(),
            final(self).handed() + final(self).pending() == old(self).handed() + old(self).pending(),
            match r {
                Some(g) => old(self).pending().len() > 0 && g == old(self).pending()[0] && final(self).handed() == old(
                    self,
                ).handed().push(g),
                None => old(self).pending().len() == 0 && final(self).handed() == old(self).handed(),
            },
    {
        if self.pending.len() == 0 {
            return None;
        }
        let ghost h = self.handed@;
        let ghost p = self.pending@;
        let g = self.pending.remove(0);
        let new_handed: Ghost<Seq<LoadedGame>> = Ghost(h.push(g));
        self.handed = new_handed;
        self.ingested = self.ingested + 1;
        assert(h.push(g) + self.pending@ =~= h + p);
        Some(g)
    }

    /// The result when the download is stopped.
    pub fn stop(&self) -> (r: Result<(StreamOutcome, u32), String>)
        ensures
            r == Ok::<(StreamOutcome, u32), String>((StreamOutcome::Cancelled, self.count())),
    {
        Ok((StreamOutcome::Cancelled, self.ingested))
    }

    /// The result when every month was read and every game handed on: the games handed on
    /// are then all the games to load of those months, and a completed download that found
    /// none is an error.
    pub fn finish(&self, period: LoadPeriod) -> (r: Result<(StreamOutcome, u32), String>)
        requires
            self.wf(),
            self.pending().len() == 0,
        ensures
            end_view(r) == stream_end(StreamOutcome::Completed, self.count(), "Chess.com"@, self.user(), period),
            pgns_of(self.handed()) == all_month_pgns(self.months(), self.user(), self.color(), self.filter()),
            match r {
                Ok((o, n)) => o == StreamOutcome::Completed && n == self.handed().len() && n >= 1,
                Err(_) => self.handed().len() == 0,
            },
    {
        assert(self.handed@ + self.pending@ =~= self.handed@);
        finish_stream(StreamOutcome::Completed, self.ingested, "Chess.com", self.user.as_str(), period)
    }
}

} // verus!
