//! Which games to load from Lichess and Chess.com, and how to read what the sites send.
pub mod chesscom;
pub mod lichess;


use vstd::prelude::*;
use chrono::Datelike;
use crate::graph::{GameMeta, MoveNotation};
use crate::text::{append_str, eq_ignore_ascii_case, eq_ignore_case, str_eq, string_of};

verus! {

broadcast use vstd::string::group_string_axioms;

/// The time controls a user asked for.
#[derive(Clone, Copy, Debug, PartialEq, Eq, Structural)]
pub struct TimeControlFilter {
    pub bullet: bool,
    pub blitz: bool,
    pub rapid: bool,
    pub classical: bool,
}

/// `items` joined by `sep`.
pub open spec fn join(items: Seq<Seq<char>>, sep: Seq<char>) -> Seq<char>
    decreases items.len(),
{
    if items.len() == 0 {
        seq![]
    } else if items.len() == 1 {
        items[0]
    } else {
        join(items.drop_last(), sep) + sep + items.last()
    }
}

/// The Lichess names of the selected time controls, in the order bullet, blitz, rapid,
/// classical.
pub open spec fn selected_speeds(f: TimeControlFilter) -> Seq<Seq<char>> {
    (if f.bullet { seq!["bullet"@] } else { seq![] }) + (if f.blitz { seq!["blitz"@] } else { seq![] })
        + (if f.rapid { seq!["rapid"@] } else { seq![] }) + (if f.classical {
        seq!["classical"@]
    } else {
        seq![]
    })
}

/// Whether a game of the given speed passes the filter; speeds it does not name pass.
pub open spec fn speed_matches(f: TimeControlFilter, speed: Seq<char>) -> bool {
    if speed == "bullet"@ {
        f.bullet
    } else if speed == "blitz"@ {
        f.blitz
    } else if speed == "rapid"@ {
        f.rapid
    } else if speed == "classical"@ || speed == "correspondence"@ {
        f.classical
    } else {
        true
    }
}

impl TimeControlFilter {
    pub fn all_enabled() -> (r: Self)
        ensures
            r.bullet && r.blitz && r.rapid && r.classical,
    {
        TimeControlFilter { bullet: true, blitz: true, rapid: true, classical: true }
    }

    pub fn any_selected(self) -> (r: bool)
        ensures
            r == (self.bullet || self.blitz || self.rapid || self.classical),
    {
        self.bullet || self.blitz || self.rapid || self.classical
    }

    /// The `perfType` parameter for Lichess: the selected speeds joined by commas, or
    /// `None` when none or all of them are selected.
    pub fn lichess_perf_types(self) -> (r: Option<String>)
        ensures
            match r {
                Some(s) => selected_speeds(self).len() > 0 && selected_speeds(self).len() < 4 && s@
                    == join(selected_speeds(self), ","@),
                None => selected_speeds(self).len() == 0 || selected_speeds(self).len() == 4,
            },
    {
        if !self.any_selected() {
            return None;
        }
        let mut out: Vec<char> = Vec::new();
        let mut n: usize = 0;
        let ghost mut items: Seq<Seq<char>> = seq![];
        assert(out@ =~= join(items, ","@));
        if self.bullet {
            append_str(&mut out, "bullet");
            n += 1;
            proof {
                items = items.push("bullet"@);
            }
        }
        assert(items =~= (if self.bullet { seq!["bullet"@] } else { seq![] }));
        assert(out@ == join(items, ","@));
        assert(n == items.len());
        if self.blitz {
            let ghost before = out@;
            if n > 0 {
                append_str(&mut out, ",");
            }
            append_str(&mut out, "blitz");
            n += 1;
            proof {
                assert(items.push("blitz"@).drop_last() =~= items);
                if items.len() > 0 {
                    assert(out@ =~= before + ","@ + "blitz"@);
                } else {
                    assert(out@ =~= "blitz"@);
                }
                items = items.push("blitz"@);
            }
        }
        assert(out@ == join(items, ","@));
        assert(n == items.len());
        if self.rapid {
            let ghost before = out@;
            if n > 0 {
                append_str(&mut out, ",");
            }
            append_str(&mut out, "rapid");
            n += 1;
            proof {
                assert(items.push("rapid"@).drop_last() =~= items);
                if items.len() > 0 {
                    assert(out@ =~= before + ","@ + "rapid"@);
                } else {
                    assert(out@ =~= "rapid"@);
                }
                items = items.push("rapid"@);
            }
        }
        assert(out@ == join(items, ","@));
        assert(n == items.len());
        if self.classical {
            let ghost before = out@;
            if n > 0 {
                append_str(&mut out, ",");
            }
            append_str(&mut out, "classical");
            n += 1;
            proof {
                assert(items.push("classical"@).drop_last() =~= items);
                if items.len() > 0 {
                    assert(out@ =~= before + ","@ + "classical"@);
                } else {
                    assert(out@ =~= "classical"@);
                }
                items = items.push("classical"@);
            }
        }
        assert(items =~= selected_speeds(self));
        if n == 4 {
            None
        } else {
            Some(string_of(out.as_slice()))
        }
    }

    pub fn matches_speed(self, speed: &str) -> (r: bool)
        ensures
            r == speed_matches(self, speed@),
    {
        if str_eq(speed, "bullet") {
            self.bullet
        } else if str_eq(speed, "blitz") {
            self.blitz
        } else if str_eq(speed, "rapid") {
            self.rapid
        } else if str_eq(speed, "classical") || str_eq(speed, "correspondence") {
            self.classical
        } else {
            true
        }
    }
}

impl Default for TimeControlFilter {
    fn default() -> (r: Self)
        ensures
            r.bullet && r.blitz && r.rapid && r.classical,
    {
        Self::all_enabled()
    }
}

/// How far back to load games.
#[derive(Clone, Copy, Debug, PartialEq, Eq, Structural)]
pub enum LoadPeriod {
    OneMonth,
    ThreeMonths,
    SixMonths,
    OneYear,
    TwoYears,
    All,
}

pub open spec fn period_label(p: LoadPeriod) -> Seq<char> {
    match p {
        LoadPeriod::OneMonth => "1 mo"@,
        LoadPeriod::ThreeMonths => "3 mo"@,
        LoadPeriod::SixMonths => "6 mo"@,
        LoadPeriod::OneYear => "1 yr"@,
        LoadPeriod::TwoYears => "2 yr"@,
        LoadPeriod::All => "all"@,
    }
}

pub open spec fn period_months(p: LoadPeriod) -> u32 {
    match p {
        LoadPeriod::OneMonth => 1,
        LoadPeriod::ThreeMonths => 3,
        LoadPeriod::SixMonths => 6,
        LoadPeriod::OneYear => 12,
        LoadPeriod::TwoYears => 24,
        LoadPeriod::All => 0,
    }
}

/// The UTC time `months` calendar months before the instant `now_ms` (milliseconds since
/// the epoch), in milliseconds since the epoch, as `chrono` computes it; `now_ms` itself
/// where that date does not exist.
pub uninterp spec fn spec_months_before(now_ms: i64, months: u32) -> i64;

/// Year and month (1 to 12) of the UTC date of an instant in milliseconds since the epoch.
pub uninterp spec fn spec_year_month(ms: i64) -> (i32, u32);

/// `chrono::Utc::now()` in milliseconds since the epoch.
#[verifier::external_body]
fn now_millis() -> (r: i64) {
    chrono::Utc::now().timestamp_millis()
}

/// `DateTime::<Utc>::from_timestamp_millis`, `checked_sub_months` by `months`, and
/// `timestamp_millis`; the instant itself where the subtraction gives no date.
#[verifier::external_body]
fn months_before(now_ms: i64, months: u32) -> (r: i64)
    ensures
        r == spec_months_before(now_ms, months),
{
    match chrono::DateTime::<chrono::Utc>::from_timestamp_millis(now_ms) {
        Some(now) => now.checked_sub_months(chrono::Months::new(months)).unwrap_or(now).timestamp_millis(),
        None => now_ms,
    }
}

/// `DateTime::<Utc>::from_timestamp_millis`, then `year()` and `month()`.
#[verifier::external_body]
fn year_month(ms: i64) -> (r: (i32, u32))
    ensures
        r == spec_year_month(ms),
{
    let t = chrono::DateTime::<chrono::Utc>::from_timestamp_millis(ms).unwrap_or_default();
    (t.year(), t.month())
}

impl LoadPeriod {
    pub fn label(self) -> (r: &'static str)
        ensures
            r@ == period_label(self),
    {
        match self {
            LoadPeriod::OneMonth => "1 mo",
            LoadPeriod::ThreeMonths => "3 mo",
            LoadPeriod::SixMonths => "6 mo",
            LoadPeriod::OneYear => "1 yr",
            LoadPeriod::TwoYears => "2 yr",
            LoadPeriod::All => "all",
        }
    }

    /// `all games`, or `last` and the label.
    pub fn loading_label(self) -> (r: String)
        ensures
            r@ == (if self == LoadPeriod::All {
                "all games"@
            } else {
                "last "@ + period_label(self)
            }),
    {
        match self {
            LoadPeriod::All => String::from_str("all games"),
            other => {
                let mut v: Vec<char> = Vec::new();
                append_str(&mut v, "last ");
                append_str(&mut v, other.label());
                string_of(v.as_slice())
            },
        }
    }

    pub fn months(self) -> (r: u32)
        ensures
            r == period_months(self),
    {
        match self {
            LoadPeriod::OneMonth => 1,
            LoadPeriod::ThreeMonths => 3,
            LoadPeriod::SixMonths => 6,
            LoadPeriod::OneYear => 12,
            LoadPeriod::TwoYears => 24,
            LoadPeriod::All => 0,
        }
    }

    /// The start of the period that ends at `now_ms`, or `None` for all games.
    pub fn since_millis_at(self, now_ms: i64) -> (r: Option<i64>)
        ensures
            r == (if self == LoadPeriod::All {
                None
            } else {
                Some(spec_months_before(now_ms, period_months(self)))
            }),
    {
        if self == LoadPeriod::All {
            return None;
        }
        Some(months_before(now_ms, self.months()))
    }

    /// The start of the period that ends now, or `None` for all games.
    pub fn since_millis(self) -> (r: Option<i64>)
        ensures
            (self == LoadPeriod::All) == (r is None),
            r matches Some(ms) ==> exists|now: i64| ms == spec_months_before(now, period_months(self)),
    {
        let now = now_millis();
        let r = self.since_millis_at(now);
        assert(r matches Some(ms) ==> ms == spec_months_before(now, period_months(self)));
        r
    }

    /// Year and month of the start of the period that ends at `now_ms`.
    pub fn since_year_month_at(self, now_ms: i64) -> (r: Option<(i32, u32)>)
        ensures
            r == (if self == LoadPeriod::All {
                None
            } else {
                Some(spec_year_month(spec_months_before(now_ms, period_months(self))))
            }),
    {
        match self.since_millis_at(now_ms) {
            None => None,
            Some(ms) => Some(year_month(ms)),
        }
    }

    /// Year and month of the start of the period that ends now.
    pub fn since_year_month(self) -> (r: Option<(i32, u32)>)
        ensures
            (self == LoadPeriod::All) == (r is None),
            r matches Some(ym) ==> exists|now: i64| ym == spec_year_month(spec_months_before(now, period_months(self))),
    {
        let now = now_millis();
        let r = self.since_year_month_at(now);
        assert(r matches Some(ym) ==> ym == spec_year_month(spec_months_before(now, period_months(self))));
        r
    }
}

impl Default for LoadPeriod {
    fn default() -> (r: Self)
        ensures
            r == LoadPeriod::OneMonth,
    {
        LoadPeriod::OneMonth
    }
}

/// How a download ended.
#[derive(Clone, Copy, Debug, PartialEq, Eq, Structural)]
pub enum StreamOutcome {
    Completed,
    Cancelled,
}

#[derive(Clone, Copy, Debug, PartialEq, Eq, Structural)]
pub enum Site {
    Lichess,
    ChessCom,
}

/// The side the profile's player had.
#[derive(Clone, Copy, Debug, PartialEq, Eq, Structural)]
pub enum PlayerColor {
    White,
    Black,
}

pub open spec fn color_name(c: PlayerColor) -> Seq<char> {
    match c {
        PlayerColor::White => "white"@,
        PlayerColor::Black => "black"@,
    }
}

impl PlayerColor {
    /// The `color` parameter of the Lichess export.
    pub fn lichess_param(self) -> (r: &'static str)
        ensures
            r@ == color_name(self),
    {
        self.orientation_value()
    }

    /// The board orientation this side looks from.
    pub fn orientation_value(self) -> (r: &'static str)
        ensures
            r@ == color_name(self),
    {
        match self {
            PlayerColor::White => "white",
            PlayerColor::Black => "black",
        }
    }

    /// `Black` for `black` in any ASCII case, `White` otherwise.
    pub fn from_orientation(value: &str) -> (r: Self)
        ensures
            r == (if eq_ignore_case(value@, "black"@) {
                PlayerColor::Black
            } else {
                PlayerColor::White
            }),
    {
        if eq_ignore_ascii_case(value, "black") {
            PlayerColor::Black
        } else {
            PlayerColor::White
        }
    }
}

/// A downloaded game: its moves with their notation, or a whole PGN.
pub enum LoadedGame {
    Moves { moves: String, notation: MoveNotation, meta: GameMeta },
    Pgn { pgn: String, meta: GameMeta },
}

/// The message when a download finds no game.
pub fn no_games_message(site: &str, user: &str, period: LoadPeriod) -> (r: String)
    ensures
        r@ == "No games for "@ + user@ + " on "@ + site@ + (if period == LoadPeriod::All {
            seq![]
        } else {
            " in the last "@ + period_label(period)
        }),
{
    let mut v: Vec<char> = Vec::new();
    append_str(&mut v, "No games for ");
    append_str(&mut v, user);
    append_str(&mut v, " on ");
    append_str(&mut v, site);
    if period != LoadPeriod::All {
        append_str(&mut v, " in the last ");
        append_str(&mut v, period.label());
    }
    proof {
        if period == LoadPeriod::All {
            assert(v@ =~= "No games for "@ + user@ + " on "@ + site@ + Seq::<char>::empty());
        } else {
            assert(v@ =~= "No games for "@ + user@ + " on "@ + site@ + (" in the last "@ + period_label(period)));
        }
    }
    string_of(v.as_slice())
}

/// The message when a download finds no game.
pub open spec fn no_games_text(site: Seq<char>, user: Seq<char>, period: LoadPeriod) -> Seq<char> {
    "No games for "@ + user + " on "@ + site + (if period == LoadPeriod::All {
        seq![]
    } else {
        " in the last "@ + period_label(period)
    })
}

/// How a download ends: with its outcome and count, or, when it completed without a game,
/// with the message that says so.
pub open spec fn stream_end(outcome: StreamOutcome, n: u32, site: Seq<char>, user: Seq<char>, period: LoadPeriod) -> Result<
    (StreamOutcome, u32),
    Seq<char>,
> {
    if outcome == StreamOutcome::Completed && n == 0 {
        Err(no_games_text(site, user, period))
    } else {
        Ok((outcome, n))
    }
}

pub open spec fn end_view(r: Result<(StreamOutcome, u32), String>) -> Result<(StreamOutcome, u32), Seq<char>> {
    match r {
        Ok(x) => Ok(x),
        Err(e) => Err(e@),
    }
}

/// The result of a download that ingested `ingested` games and ended with `outcome`: a
/// completed download that found nothing is an error.
pub fn finish_stream(outcome: StreamOutcome, ingested: u32, site: &str, user: &str, period: LoadPeriod) -> (r: Result<(StreamOutcome, u32), String>)
    ensures
        match r {
            Ok((o, n)) => o == outcome && n == ingested && !(outcome == StreamOutcome::Completed && ingested == 0),
            Err(e) => outcome == StreamOutcome::Completed && ingested == 0 && e@ == "No games for "@ + user@ + " on "@ + site@ + (if period == LoadPeriod::All {
                seq![]
            } else {
                " in the last "@ + period_label(period)
            }),
        },
        end_view(r) == stream_end(outcome, ingested, site@, user@, period),
{
    if outcome == StreamOutcome::Completed && ingested == 0 {
        return Err(no_games_message(site, user, period));
    }
    Ok((outcome, ingested))
}

} // verus!
