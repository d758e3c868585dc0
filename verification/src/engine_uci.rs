//! What a UCI engine reports, and how the reports of one search become an analysis.
//!
//! The engine process and its protocol run outside the library; here are the scores, the
//! lines of a search and the handshake, as plain values.
use vstd::prelude::*;
use crate::chess::Color;
use crate::text::{
    append_chars, append_str, chars_of, dec, dec_signed, decimal, decimal_signed, has_prefix, slice_to_vec,
    starts_with, str_eq, string_of, trim, trim_str,
};

verus! {

broadcast use vstd::string::group_string_axioms;

/// A score as the engine gives it, from the side to move.
#[derive(Clone, Copy, Debug, PartialEq, Eq, Structural)]
pub enum Score {
    Centipawns(isize),
    MateIn(isize),
}

/// Whether a score is only a bound.
#[derive(Clone, Copy, Debug, PartialEq, Eq, Structural)]
pub enum ScoreBound {
    LowerBound,
    UpperBound,
}

#[derive(Clone, Copy, Debug, PartialEq, Eq, Structural)]
pub struct ScoreWithBound {
    pub kind: Score,
    pub bound: Option<ScoreBound>,
}

/// What the evaluation bar shows, from White's side.
#[derive(Clone, Copy, Debug, PartialEq, Eq, Structural)]
pub enum EvalDisplay {
    Cp(i32),
    Mate(i8),
}

/// A score can be turned to White's side without overflow.
pub open spec fn score_fits(score: ScoreWithBound, side_to_move: Color) -> bool {
    side_to_move == Color::Black ==> match score.kind {
        Score::Centipawns(cp) => cp != isize::MIN,
        Score::MateIn(m) => m != isize::MIN,
    }
}

pub open spec fn clamp_mate(m: int) -> int {
    if m < -127 {
        -127
    } else if m > 127 {
        127
    } else {
        m
    }
}

/// The bar value of a score: from White's side, centipawns cut to 32 bits, mates limited
/// to 127 moves either way.
pub open spec fn eval_of(score: ScoreWithBound, side_to_move: Color) -> EvalDisplay {
    match score.kind {
        Score::Centipawns(cp) => EvalDisplay::Cp(
            (if side_to_move == Color::Black {
                -cp
            } else {
                cp as int
            }) as i32,
        ),
        Score::MateIn(m) => EvalDisplay::Mate(
            clamp_mate(
                if side_to_move == Color::Black {
                    -m
                } else {
                    m as int
                },
            ) as i8,
        ),
    }
}

pub fn eval_from_score(score: &ScoreWithBound, side_to_move: Color) -> (r: EvalDisplay)
    requires
        score_fits(*score, side_to_move),
    ensures
        r == eval_of(*score, side_to_move),
{
    match score.kind {
        Score::Centipawns(cp) => {
            let cp2: isize = match side_to_move {
                Color::Black => -cp,
                Color::White => cp,
            };
            EvalDisplay::Cp(cp2 as i32)
        },
        Score::MateIn(m) => {
            let m2: isize = match side_to_move {
                Color::Black => -m,
                Color::White => m,
            };
            let c: isize = if m2 < -127 {
                -127
            } else if m2 > 127 {
                127
            } else {
                m2
            };
            EvalDisplay::Mate(c as i8)
        },
    }
}

pub open spec fn bound_text(bound: Option<ScoreBound>) -> Seq<char> {
    match bound {
        Some(ScoreBound::LowerBound) => " ≥"@,
        Some(ScoreBound::UpperBound) => " ≤"@,
        None => ""@,
    }
}

/// A number with its sign always written, as `{:+}`.
pub open spec fn signed_text(n: int) -> Seq<char> {
    if n >= 0 {
        "+"@ + dec(n as nat)
    } else {
        dec_signed(n)
    }
}

/// A score as the analysis lists it: `+34 cp`, `-5 cp ≤`, `M3`, `M-2 ≥`.
pub open spec fn score_text(score: ScoreWithBound) -> Seq<char> {
    match score.kind {
        Score::Centipawns(cp) => signed_text(cp as int) + " cp"@ + bound_text(score.bound),
        Score::MateIn(m) => "M"@ + dec_signed(m as int) + bound_text(score.bound),
    }
}

pub fn format_score(score: &ScoreWithBound) -> (r: String)
    ensures
        r@ == score_text(*score),
{
    let mut v: Vec<char> = Vec::new();
    match score.kind {
        Score::Centipawns(cp) => {
            if cp >= 0 {
                append_str(&mut v, "+");
            }
            let d = decimal_signed(cp as i64);
            append_chars(&mut v, d.as_slice());
            append_str(&mut v, " cp");
            assert(v@ == signed_text(cp as int) + " cp"@);
        },
        Score::MateIn(m) => {
            append_str(&mut v, "M");
            let d = decimal_signed(m as i64);
            append_chars(&mut v, d.as_slice());
            assert(v@ == "M"@ + dec_signed(m as int));
        },
    }
    let ghost head = v@;
    match score.bound {
        Some(ScoreBound::LowerBound) => append_str(&mut v, " ≥"),
        Some(ScoreBound::UpperBound) => append_str(&mut v, " ≤"),
        None => {
            proof {
                reveal_strlit("");
            }
            assert(head + bound_text(score.bound) =~= head);
        },
    }
    assert(v@ == head + bound_text(score.bound));
    string_of(v.as_slice())
}

/// One principal variation of a search, in UCI notation.
#[derive(Clone, Debug)]
pub struct EngineLine {
    pub rank: u32,
    pub pv: Vec<String>,
    pub score: Option<String>,
    pub eval: Option<EvalDisplay>,
}

pub struct LineV {
    pub rank: u32,
    pub pv: Seq<Seq<char>>,
    pub score: Option<Seq<char>>,
    pub eval: Option<EvalDisplay>,
}

pub open spec fn line_view(l: EngineLine) -> LineV {
    LineV {
        rank: l.rank,
        pv: l.pv@.map_values(|s: String| s@),
        score: match l.score {
            Some(s) => Some(s@),
            None => None,
        },
        eval: l.eval,
    }
}

/// The lines of a finished search, best first, and the depth reached.
#[derive(Clone, Debug)]
pub struct AnalysisResult {
    pub lines: Vec<EngineLine>,
    pub depth: u32,
}

pub open spec fn lines_view(lines: Seq<EngineLine>) -> Seq<LineV> {
    lines.map_values(|l: EngineLine| line_view(l))
}

/// The first move of a line, or nothing.
pub open spec fn first_move(pv: Seq<Seq<char>>) -> Seq<char> {
    if pv.len() > 0 {
        pv[0]
    } else {
        Seq::empty()
    }
}

/// `#rank move · score · depth d`, without the score when there is none.
pub open spec fn summary_text(lines: Seq<LineV>, depth: u32) -> Seq<char> {
    if lines.len() == 0 {
        "No analysis"@
    } else {
        let l = lines[0];
        let head = "#"@ + dec(l.rank as nat) + " "@ + first_move(l.pv);
        let scored = match l.score {
            Some(s) => head + " · "@ + s,
            None => head,
        };
        scored + " · "@ + "depth "@ + dec(depth as nat)
    }
}

impl AnalysisResult {
    /// The bar value of the best line.
    pub fn best_eval(&self) -> (r: Option<EvalDisplay>)
        ensures
            r == (if self.lines@.len() == 0 {
                None
            } else {
                self.lines@[0].eval
            }),
    {
        if self.lines.len() == 0 {
            None
        } else {
            self.lines[0].eval
        }
    }

    pub fn summary(&self) -> (r: String)
        ensures
            r@ == summary_text(lines_view(self.lines@), self.depth),
    {
        if self.lines.len() == 0 {
            let mut v: Vec<char> = Vec::new();
            append_str(&mut v, "No analysis");
            return string_of(v.as_slice());
        }
        let line = &self.lines[0];
        assert(lines_view(self.lines@)[0] == line_view(*line));
        let mut v: Vec<char> = Vec::new();
        append_str(&mut v, "#");
        let r = decimal(line.rank as u64);
        append_chars(&mut v, r.as_slice());
        append_str(&mut v, " ");
        if line.pv.len() > 0 {
            assert(line_view(*line).pv[0] == line.pv@[0]@);
            append_str(&mut v, line.pv[0].as_str());
        }
        match &line.score {
            Some(s) => {
                append_str(&mut v, " · ");
                append_str(&mut v, s.as_str());
            },
            None => {},
        }
        append_str(&mut v, " · ");
        append_str(&mut v, "depth ");
        let d = decimal(self.depth as u64);
        append_chars(&mut v, d.as_slice());
        string_of(v.as_slice())
    }
}

/// What to analyse: a position, the depth to search to and how many lines to report.
#[derive(Clone, Debug)]
pub struct AnalysisRequest {
    pub fen: String,
    pub depth: u32,
    pub line_count: u32,
}

pub open spec fn multipv_of(line_count: u32) -> nat {
    if line_count < 1 {
        1
    } else if line_count > 10 {
        10
    } else {
        line_count as nat
    }
}

/// The `MultiPV` option value for a requested number of lines: between 1 and 10.
pub fn multipv_value(line_count: u32) -> (r: String)
    ensures
        r@ == dec(multipv_of(line_count)),
{
    let n: u32 = if line_count < 1 {
        1
    } else if line_count > 10 {
        10
    } else {
        line_count
    };
    let d = decimal(n as u64);
    string_of(d.as_slice())
}

/// The `position` command for a FEN.
pub fn position_command(fen: &str) -> (r: String)
    ensures
        r@ == "position fen "@ + fen@,
{
    let mut v: Vec<char> = Vec::new();
    append_str(&mut v, "position fen ");
    append_str(&mut v, fen);
    string_of(v.as_slice())
}

/// The line reported for `rank`, if any.
pub open spec fn rank_line(es: Seq<(usize, LineV)>, rank: usize) -> Option<LineV> {
    if exists|i: int| 0 <= i < es.len() && es[i].0 == rank {
        Some(es[choose|i: int| 0 <= i < es.len() && es[i].0 == rank].1)
    } else {
        None
    }
}

/// Each rank appears once, in increasing order.
pub open spec fn ranks_increasing(es: Seq<(usize, LineV)>) -> bool {
    forall|i: int, j: int| 0 <= i < j < es.len() ==> es[i].0 < es[j].0
}

/// The line that an info report makes.
pub open spec fn made_line(rank: usize, pv: Seq<Seq<char>>, score: Option<ScoreWithBound>, side_to_move: Color) -> LineV {
    LineV {
        rank: rank as u32,
        pv,
        score: match score {
            Some(s) => Some(score_text(s)),
            None => None,
        },
        eval: match score {
            Some(s) => Some(eval_of(s, side_to_move)),
            None => None,
        },
    }
}

pub proof fn lemma_rank_line_at(es: Seq<(usize, LineV)>, i: int)
    requires
        ranks_increasing(es),
        0 <= i < es.len(),
    ensures
        rank_line(es, es[i].0) == Some(es[i].1),
{
    let k = es[i].0;
    let j = choose|j: int| 0 <= j < es.len() && es[j].0 == k;
    assert(0 <= j < es.len() && es[j].0 == k);
    if j < i {
        assert(es[j].0 < es[i].0);
    } else if j > i {
        assert(es[i].0 < es[j].0);
    }
}

/// The reports of one search: it keeps the lines of the deepest depth reported, one per
/// rank, the last report of a rank replacing the earlier.
pub struct InfoCollector {
    side_to_move: Color,
    best_depth: u32,
    entries: Vec<(usize, EngineLine)>,
}

impl InfoCollector {
    pub closed spec fn side(&self) -> Color {
        self.side_to_move
    }

    pub closed spec fn depth_reached(&self) -> u32 {
        self.best_depth
    }

    /// The lines kept, with their ranks, in the order of the ranks.
    pub closed spec fn lines_by_rank(&self) -> Seq<(usize, LineV)> {
        self.entries@.map_values(|e: (usize, EngineLine)| (e.0, line_view(e.1)))
    }

    pub closed spec fn wf(&self) -> bool {
        ranks_increasing(self.lines_by_rank())
    }

    /// A search of the position whose side to move is `side_to_move`.
    pub fn new(side_to_move: Color) -> (r: Self)
        ensures
            r.wf(),
            r.side() == side_to_move,
            r.depth_reached() == 0,
            r.lines_by_rank().len() == 0,
    {
        let r = InfoCollector { side_to_move, best_depth: 0, entries: Vec::new() };
        assert(r.lines_by_rank() =~= Seq::empty());
        r
    }

    /// One info report: its depth, its `multipv` rank and its principal variation and score.
    /// A report without depth, or shallower than the deepest so far, is ignored; a deeper
    /// one drops the lines kept; a report without moves keeps no line.
    pub fn on_info(&mut self, depth: Option<u32>, multi_pv: Option<usize>, pv: Vec<String>, score: Option<ScoreWithBound>)
        requires
            old(self).wf(),
            score matches Some(s) ==> score_fits(s, old(self).side()),
        ensures
            final(self).wf(),
            final(self).side() == old(self).side(),
            match depth {
                Some(d) if d >= old(self).depth_reached() => {
                    &&& final(self).depth_reached() == d
                    &&& forall|k: usize|
                        #[trigger] rank_line(final(self).lines_by_rank(), k) == (if pv@.len() > 0 && k == (
                        match multi_pv {
                            Some(r) => r,
                            None => 1usize,
                        }) {
                            Some(made_line(k, pv@.map_values(|s: String| s@), score, old(self).side()))
                        } else if d > old(self).depth_reached() {
                            None
                        } else {
                            rank_line(old(self).lines_by_rank(), k)
                        })
                },
                _ => final(self).depth_reached() == old(self).depth_reached() && final(self).lines_by_rank()
                    == old(self).lines_by_rank(),
            },
    {
        let d = match depth {
            Some(d) => d,
            None => {
                return;
            },
        };
        if d < self.best_depth {
            return;
        }
        let ghost old_es = self.lines_by_rank();
        if d > self.best_depth {
            self.best_depth = d;
            self.entries = Vec::new();
            assert(self.lines_by_rank() =~= Seq::empty());
        } else {
            self.best_depth = d;
        }
        let ghost base = self.lines_by_rank();
        assert(forall|k: usize| #[trigger] rank_line(base, k) == (if d > old(self).depth_reached() {
            None
        } else {
            rank_line(old_es, k)
        }));
        let rank: usize = match multi_pv {
            Some(r) => r,
            None => 1,
        };
        if pv.len() == 0 {
            return;
        }
        let ghost pv_view = pv@.map_values(|s: String| s@);
        let line = EngineLine {
            rank: rank as u32,
            pv,
            score: match score {
                Some(s) => Some(format_score(&s)),
                None => None,
            },
            eval: match score {
                Some(s) => Some(eval_from_score(&s, self.side_to_move)),
                None => None,
            },
        };
        assert(line_view(line) == made_line(rank, pv_view, score, self.side_to_move));
        let mut p: usize = 0;
        while p < self.entries.len() && self.entries[p].0 < rank
            invariant
                p <= self.entries@.len(),
                base == self.lines_by_rank(),
                forall|i: int| 0 <= i < p ==> self.entries@[i].0 < rank,
            decreases self.entries@.len() - p,
        {
            p += 1;
        }
        let ghost es = base;
        assert(es.len() == self.entries@.len());
        assert(forall|i: int| 0 <= i < p ==> #[trigger] es[i].0 < rank);
        assert(p < es.len() ==> es[p as int].0 >= rank);
        if p < self.entries.len() && self.entries[p].0 == rank {
            self.entries.set(p, (rank, line));
            let ghost es2 = self.lines_by_rank();
            assert(es2 =~= es.update(p as int, (rank, line_view(line))));
            assert(forall|i: int| 0 <= i < es2.len() ==> #[trigger] es2[i].0 == es[i].0);
            assert forall|k: usize| #[trigger] rank_line(es2, k) == (if k == rank {
                Some(line_view(line))
            } else {
                rank_line(es, k)
            }) by {
                if k == rank {
                    lemma_rank_line_at(es2, p as int);
                } else if exists|i: int| 0 <= i < es.len() && es[i].0 == k {
                    let i = choose|i: int| 0 <= i < es.len() && es[i].0 == k;
                    lemma_rank_line_at(es, i);
                    lemma_rank_line_at(es2, i);
                } else {
                    assert(!exists|i: int| 0 <= i < es2.len() && es2[i].0 == k);
                }
            }
        } else {
            self.entries.insert(p, (rank, line));
            let ghost es2 = self.lines_by_rank();
            assert(es2 =~= es.insert(p as int, (rank, line_view(line))));
            assert(ranks_increasing(es2)) by {
                assert forall|m: int| p <= m < es.len() implies #[trigger] es[m].0 > rank by {
                    if m > p {
                        assert(es[p as int].0 < es[m].0);
                    }
                }
                assert forall|i: int, j: int| 0 <= i < j < es2.len() implies es2[i].0 < es2[j].0 by {
                    if j < p {
                        assert(es2[i] == es[i] && es2[j] == es[j]);
                    } else if j == p {
                        assert(es2[i] == es[i]);
                    } else if i < p {
                        assert(es2[i] == es[i] && es2[j] == es[j - 1]);
                    } else if i == p {
                        assert(es2[j] == es[j - 1]);
                    } else {
                        assert(es2[i] == es[i - 1] && es2[j] == es[j - 1]);
                    }
                }
            }
            assert forall|k: usize| #[trigger] rank_line(es2, k) == (if k == rank {
                Some(line_view(line))
            } else {
                rank_line(es, k)
            }) by {
                if k == rank {
                    lemma_rank_line_at(es2, p as int);
                } else if exists|i: int| 0 <= i < es.len() && es[i].0 == k {
                    let i = choose|i: int| 0 <= i < es.len() && es[i].0 == k;
                    lemma_rank_line_at(es, i);
                    if i < p {
                        lemma_rank_line_at(es2, i);
                    } else {
                        lemma_rank_line_at(es2, i + 1);
                    }
                } else {
                    assert forall|i: int| 0 <= i < es2.len() implies es2[i].0 != k by {
                        if i < p {
                            assert(es2[i] == es[i]);
                        } else if i > p {
                            assert(es2[i] == es[i - 1]);
                        }
                    }
                }
            }
        }
    }

    /// The lines of the search in the order of their ranks, at the deeper of the depth
    /// reached and the depth asked for; an error when no line was kept.
    pub fn finish(self, requested_depth: u32) -> (r: Result<AnalysisResult, String>)
        requires
            self.wf(),
        ensures
            match r {
                Ok(a) => self.lines_by_rank().len() > 0 && lines_view(a.lines@) == self.lines_by_rank().map_values(
                    |e: (usize, LineV)| e.1,
                ) && a.depth == (if self.depth_reached() >= requested_depth {
                    self.depth_reached()
                } else {
                    requested_depth
                }),
                Err(e) => self.lines_by_rank().len() == 0 && e@ == "Engine returned no analysis lines"@,
            },
    {
        if self.entries.len() == 0 {
            let mut v: Vec<char> = Vec::new();
            append_str(&mut v, "Engine returned no analysis lines");
            return Err(string_of(v.as_slice()));
        }
        let ghost es = self.lines_by_rank();
        let depth = if self.best_depth >= requested_depth {
            self.best_depth
        } else {
            requested_depth
        };
        let mut entries = self.entries;
        let mut lines: Vec<EngineLine> = Vec::new();
        assert(es.map_values(|e: (usize, LineV)| e.1) =~= entries@.map_values(|e: (usize, EngineLine)| line_view(e.1)));
        while entries.len() > 0
            invariant
                lines_view(lines@) + entries@.map_values(|e: (usize, EngineLine)| line_view(e.1)) == es.map_values(
                    |e: (usize, LineV)| e.1,
                ),
            decreases entries@.len(),
        {
            let ghost before = entries@;
            let (_, line) = entries.remove(0);
            assert(before.map_values(|e: (usize, EngineLine)| line_view(e.1)) =~= seq![line_view(line)]
                + entries@.map_values(|e: (usize, EngineLine)| line_view(e.1)));
            lines.push(line);
            assert(lines_view(lines@) =~= lines_view(lines@.drop_last()).push(line_view(line)));
        }
        assert(entries@.map_values(|e: (usize, EngineLine)| line_view(e.1)) =~= Seq::<LineV>::empty());
        assert(lines_view(lines@) =~= es.map_values(|e: (usize, LineV)| e.1));
        Ok(AnalysisResult { lines, depth })
    }
}

/// Where the `uci` handshake stands after a line from the engine.
#[derive(Debug)]
pub enum HandshakeStep {
    /// Keep reading, with the engine name known so far.
    Continue(Option<String>),
    /// `uciok` came: the engine's name.
    Done(String),
}

/// The name an `id name` line gives, if it is one.
pub open spec fn id_name(line: Seq<char>) -> Option<Seq<char>> {
    let t = trim(line);
    if has_prefix(t, "id name "@) {
        Some(t.skip(8))
    } else {
        None
    }
}

/// One step of the handshake: `line` is what the engine wrote next, or `None` when it closed
/// its output. `uciok` ends it with the last name given (or `UCI engine`); an `id name`
/// line gives the name; other lines change nothing.
pub fn handshake_line(name: Option<String>, line: Option<&str>) -> (r: Result<HandshakeStep, String>)
    ensures
        match line {
            None => r matches Err(e) && e@ == "Engine closed connection during UCI handshake"@,
            Some(l) => if trim(l@) == "uciok"@ {
                r matches Ok(HandshakeStep::Done(n)) && n@ == (match name {
                    Some(x) => x@,
                    None => "UCI engine"@,
                })
            } else {
                match id_name(l@) {
                    Some(given) => r matches Ok(HandshakeStep::Continue(Some(n))) && n@ == given,
                    None => r matches Ok(HandshakeStep::Continue(m)) && m == name,
                }
            },
        },
{
    let line = match line {
        None => {
            let mut v: Vec<char> = Vec::new();
            append_str(&mut v, "Engine closed connection during UCI handshake");
            return Err(string_of(v.as_slice()));
        },
        Some(l) => l,
    };
    let t = trim_str(line);
    let uciok = chars_of("uciok");
    if crate::text::seq_eq(t.as_slice(), uciok.as_slice()) {
        return Ok(
            HandshakeStep::Done(
                match name {
                    Some(n) => n,
                    None => {
                        let mut v: Vec<char> = Vec::new();
                        append_str(&mut v, "UCI engine");
                        string_of(v.as_slice())
                    },
                },
            ),
        );
    }
    let prefix = chars_of("id name ");
    proof {
        reveal_strlit("id name ");
    }
    if starts_with(t.as_slice(), prefix.as_slice()) {
        let rest = slice_to_vec(t.as_slice(), 8, t.len());
        assert(rest@ =~= trim(line@).skip(8));
        return Ok(HandshakeStep::Continue(Some(string_of(rest.as_slice()))));
    }
    Ok(HandshakeStep::Continue(name))
}

// ---------------------------------------------------------------- a whole search

/// One info report of a search: its depth, its rank (`multipv`), its moves and its score.
pub struct InfoEvent {
    pub depth: Option<u32>,
    pub multi_pv: Option<usize>,
    pub pv: Vec<String>,
    pub score: Option<ScoreWithBound>,
}

pub struct InfoV {
    pub depth: Option<u32>,
    pub rank: usize,
    pub pv: Seq<Seq<char>>,
    pub score: Option<ScoreWithBound>,
}

pub open spec fn info_view(e: InfoEvent) -> InfoV {
    InfoV {
        depth: e.depth,
        rank: match e.multi_pv {
            Some(r) => r,
            None => 1usize,
        },
        pv: e.pv@.map_values(|s: String| s@),
        score: e.score,
    }
}

pub open spec fn infos_view(v: Seq<InfoEvent>) -> Seq<InfoV> {
    v.map_values(|e: InfoEvent| info_view(e))
}

/// The greatest depth reported, 0 for none.
pub open spec fn max_depth(infos: Seq<InfoV>) -> u32
    decreases infos.len(),
{
    if infos.len() == 0 {
        0
    } else {
        let m = max_depth(infos.drop_last());
        match infos.last().depth {
            Some(d) if d > m => d,
            _ => m,
        }
    }
}

/// The last report at depth `d` for rank `k` with moves, as the line it makes.
pub open spec fn last_line(infos: Seq<InfoV>, d: u32, k: usize, side: Color) -> Option<LineV>
    decreases infos.len(),
{
    if infos.len() == 0 {
        None
    } else {
        let x = infos.last();
        if x.depth == Some(d) && x.rank == k && x.pv.len() > 0 {
            Some(made_line(k, x.pv, x.score, side))
        } else {
            last_line(infos.drop_last(), d, k, side)
        }
    }
}

proof fn lemma_max_depth_bound(infos: Seq<InfoV>)
    ensures
        forall|i: int| 0 <= i < infos.len() ==> ((#[trigger] infos[i]).depth matches Some(d) ==> d <= max_depth(infos)),
    decreases infos.len(),
{
    if infos.len() > 0 {
        lemma_max_depth_bound(infos.drop_last());
        assert forall|i: int| 0 <= i < infos.len() implies ((#[trigger] infos[i]).depth matches Some(d) ==> d <= max_depth(infos)) by {
            if i < infos.len() - 1 {
                assert(infos[i] == infos.drop_last()[i]);
            }
        }
    }
}

proof fn lemma_last_line_none(infos: Seq<InfoV>, d: u32, k: usize, side: Color)
    requires
        d > max_depth(infos),
    ensures
        last_line(infos, d, k, side) is None,
    decreases infos.len(),
{
    if infos.len() > 0 {
        lemma_max_depth_bound(infos);
        assert(infos.last() == infos[infos.len() - 1]);
        lemma_last_line_none(infos.drop_last(), d, k, side);
    }
}

/// Runs a whole search's reports through a collector: the depth reached is the greatest
/// reported, and for each rank the line kept is the last report of that rank, with moves,
/// at that depth.
pub fn collect_infos(side: Color, infos: &Vec<InfoEvent>) -> (c: InfoCollector)
    requires
        forall|i: int| 0 <= i < infos@.len() ==> ((#[trigger] infos@[i]).score matches Some(s) ==> score_fits(s, side)),
    ensures
        c.wf(),
        c.side() == side,
        c.depth_reached() == max_depth(infos_view(infos@)),
        forall|k: usize| #[trigger] rank_line(c.lines_by_rank(), k) == last_line(
            infos_view(infos@),
            max_depth(infos_view(infos@)),
            k,
            side,
        ),
{
    let ghost iv = infos_view(infos@);
    let mut c = InfoCollector::new(side);
    let mut i: usize = 0;
    while i < infos.len()
        invariant
            i <= infos@.len(),
            iv == infos_view(infos@),
            forall|j: int| 0 <= j < infos@.len() ==> ((#[trigger] infos@[j]).score matches Some(s) ==> score_fits(s, side)),
            c.wf(),
            c.side() == side,
            c.depth_reached() == max_depth(iv.take(i as int)),
            forall|k: usize| #[trigger] rank_line(c.lines_by_rank(), k) == last_line(
                iv.take(i as int),
                max_depth(iv.take(i as int)),
                k,
                side,
            ),
        decreases infos@.len() - i,
    {
        let ghost pre = iv.take(i as int);
        let ghost x = iv[i as int];
        assert(iv.take(i + 1) =~= pre.push(x));
        assert(pre.push(x).drop_last() =~= pre);
        assert(x == info_view(infos@[i as int]));
        let ghost old_c = c;
        let e = &infos[i];
        let pv = crate::repertoire_import::clone_line(&e.pv);
        c.on_info(e.depth, e.multi_pv, pv, e.score);
        proof {
            let post = pre.push(x);
            assert(post.last() == x);
            let dm = max_depth(pre);
            match e.depth {
                Some(d) if d >= dm => {
                    if d > dm {
                        assert(max_depth(post) == d);
                        assert forall|k: usize| #[trigger] rank_line(c.lines_by_rank(), k) == last_line(post, d, k, side) by {
                            lemma_last_line_none(pre, d, k, side);
                        }
                    } else {
                        assert(max_depth(post) == dm);
                        assert forall|k: usize| #[trigger] rank_line(c.lines_by_rank(), k) == last_line(post, dm, k, side) by {
                            assert(rank_line(old_c.lines_by_rank(), k) == last_line(pre, dm, k, side));
                        }
                    }
                },
                _ => {
                    assert(max_depth(post) == dm);
                    assert forall|k: usize| #[trigger] rank_line(c.lines_by_rank(), k) == last_line(post, dm, k, side) by {
                        assert(rank_line(old_c.lines_by_rank(), k) == last_line(pre, dm, k, side));
                    }
                },
            }
        }
        i += 1;
    }
    assert(iv.take(i as int) =~= iv);
    c
}

/// The analysis of a whole search: the lines of the greatest depth reported, one per
/// rank in increasing rank, each the last report of its rank with moves at that depth;
/// the depth is the greater of that and the depth asked for. Without such a line, the
/// search failed.
pub fn analyze_infos(side: Color, infos: &Vec<InfoEvent>, requested_depth: u32) -> (r: Result<AnalysisResult, String>)
    requires
        forall|i: int| 0 <= i < infos@.len() ==> ((#[trigger] infos@[i]).score matches Some(s) ==> score_fits(s, side)),
    ensures
        match r {
            Ok(a) => exists|es: Seq<(usize, LineV)>|
                ranks_increasing(es) && es.len() > 0 && lines_view(a.lines@) == es.map_values(|e: (usize, LineV)| e.1)
                    && forall|k: usize| #[trigger] rank_line(es, k) == last_line(
                    infos_view(infos@),
                    max_depth(infos_view(infos@)),
                    k,
                    side,
                ),
            Err(e) => e@ == "Engine returned no analysis lines"@ && forall|k: usize| #[trigger] last_line(
                infos_view(infos@),
                max_depth(infos_view(infos@)),
                k,
                side,
            ) is None,
        },
        r matches Ok(a) ==> a.depth == (if max_depth(infos_view(infos@)) >= requested_depth {
            max_depth(infos_view(infos@))
        } else {
            requested_depth
        }),
{
    let c = collect_infos(side, infos);
    let ghost es = c.lines_by_rank();
    proof {
        if es.len() > 0 {
            lemma_rank_line_at(es, 0);
        }
        if es.len() == 0 {
            assert forall|k: usize| #[trigger] rank_line(es, k) is None by {}
        }
    }
    let r = c.finish(requested_depth);
    proof {
        if es.len() == 0 {
            assert forall|k: usize| #[trigger] last_line(
                infos_view(infos@),
                max_depth(infos_view(infos@)),
                k,
                side,
            ) is None by {
                assert(rank_line(es, k) is None);
            }
        }
    }
    r
}

} // verus!
