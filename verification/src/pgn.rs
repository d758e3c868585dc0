//! PGN games: tag pairs, movetext and the positions of a game.
use vstd::prelude::*;
use crate::chess::{initial_fen, initial_fen_text, play_san, san_parses, simplified, simplified_fen, spec_play_san, spec_san_parses, Key};
use crate::graph::prefixed;
use crate::text::{
    append_chars, append_str, char_is_digit, chars_of, contains_seq, cviews, find_seq, is_digit, lines, occurs_at, slice_to_vec, split_lines,
    split_ws, str_eq, string_of, trim, trim_chars, trim_str, views, ws_tokens,
};

verus! {

broadcast use vstd::string::group_string_axioms;

/// One position of a game: the first has no move, each other one the move that led to it.
#[derive(Debug)]
pub struct HistoryStep {
    pub fen: String,
    pub san: Option<String>,
    pub orig: Option<Key>,
    pub dest: Option<Key>,
}

pub struct StepV {
    pub fen: Seq<char>,
    pub san: Option<Seq<char>>,
    pub orig: Option<u8>,
    pub dest: Option<u8>,
}

pub open spec fn step_view(h: HistoryStep) -> StepV {
    StepV {
        fen: h.fen@,
        san: match h.san {
            Some(s) => Some(s@),
            None => None,
        },
        orig: match h.orig {
            Some(k) => Some(k.index),
            None => None,
        },
        dest: match h.dest {
            Some(k) => Some(k.index),
            None => None,
        },
    }
}

impl HistoryStep {
    pub fn start(fen: String) -> (r: Self)
        ensures
            step_view(r) == (StepV { fen: fen@, san: None, orig: None, dest: None }),
    {
        HistoryStep { fen, san: None, orig: None, dest: None }
    }

    pub fn after_move(fen: String, san: String, orig: Key, dest: Key) -> (r: Self)
        ensures
            step_view(r) == (StepV { fen: fen@, san: Some(san@), orig: Some(orig.index), dest: Some(dest.index) }),
    {
        HistoryStep { fen, san: Some(san), orig: Some(orig), dest: Some(dest) }
    }
}

/// A game read from PGN.
#[derive(Debug)]
pub struct ParsedGame {
    pub label: String,
    pub headers: Vec<(String, String)>,
    pub history: Vec<HistoryStep>,
}

// ---------------------------------------------------------------- tag pairs

/// First index at or after `i` that holds no `"`.
pub open spec fn quote_lead(s: Seq<char>, i: int) -> int
    decreases s.len() - i,
{
    if 0 <= i < s.len() && s[i] == '"' {
        quote_lead(s, i + 1)
    } else {
        i
    }
}

/// Smallest end at or below `j` with only `"` from it to `j`.
pub open spec fn quote_trail(s: Seq<char>, j: int) -> int
    decreases j,
{
    if 0 < j <= s.len() && s[j - 1] == '"' {
        quote_trail(s, j - 1)
    } else {
        j
    }
}

/// `s` without leading and trailing `"`, as `trim_matches('"')`.
pub open spec fn trim_quotes(s: Seq<char>) -> Seq<char> {
    let a = quote_lead(s, 0);
    let b = quote_trail(s, s.len() as int);
    if a < b {
        s.subrange(a, b)
    } else {
        seq![]
    }
}

/// Index of the first space at or after `i`, or -1.
pub open spec fn space_from(s: Seq<char>, i: int) -> int
    decreases s.len() - i,
{
    if i < 0 || i >= s.len() {
        -1
    } else if s[i] == ' ' {
        i
    } else {
        space_from(s, i + 1)
    }
}

/// A trimmed tag-pair line `[Tag "value"]`: the tag up to the first space, and the rest
/// without its quotes.
pub open spec fn header_line(l: Seq<char>) -> Option<(Seq<char>, Seq<char>)> {
    if l.len() >= 2 && l[0] == '[' && l.last() == ']' {
        let inner = l.subrange(1, l.len() - 1);
        let sp = space_from(inner, 0);
        if sp >= 0 {
            Some((inner.take(sp), trim_quotes(inner.skip(sp + 1))))
        } else {
            None
        }
    } else {
        None
    }
}

/// `hs` with `tag` set to `value`: in place where the tag is there, else at the end.
pub open spec fn set_header(hs: Seq<(Seq<char>, Seq<char>)>, tag: Seq<char>, value: Seq<char>) -> Seq<(Seq<char>, Seq<char>)> {
    let i = header_index_from(hs, tag, 0);
    if i >= 0 {
        hs.update(i, (tag, value))
    } else {
        hs.push((tag, value))
    }
}

pub open spec fn header_index_from(hs: Seq<(Seq<char>, Seq<char>)>, tag: Seq<char>, i: int) -> int
    decreases hs.len() - i,
{
    if i < 0 || i >= hs.len() {
        -1
    } else if hs[i].0 == tag {
        i
    } else {
        header_index_from(hs, tag, i + 1)
    }
}

/// The tag pairs of the lines `ls[k..]` added to `hs`: reading stops at the first line
/// that does not start with `[`; lines that are no tag pair are passed over.
pub open spec fn headers_from(ls: Seq<Seq<char>>, k: int, hs: Seq<(Seq<char>, Seq<char>)>) -> Seq<(Seq<char>, Seq<char>)>
    decreases ls.len() - k,
{
    if k < 0 || k >= ls.len() {
        hs
    } else {
        let l = trim(ls[k]);
        if l.len() == 0 || l[0] != '[' {
            hs
        } else {
            match header_line(l) {
                None => headers_from(ls, k + 1, hs),
                Some((t, v)) => headers_from(ls, k + 1, set_header(hs, t, v)),
            }
        }
    }
}

/// The tag pairs at the head of a PGN, each tag once with its last value.
pub open spec fn headers_of(pgn: Seq<char>) -> Seq<(Seq<char>, Seq<char>)> {
    headers_from(lines(pgn), 0, seq![])
}

pub open spec fn pairs_of(v: Seq<(String, String)>) -> Seq<(Seq<char>, Seq<char>)> {
    v.map_values(|p: (String, String)| (p.0@, p.1@))
}

proof fn lemma_quote_bounds(s: Seq<char>, i: int, j: int)
    requires
        0 <= i <= s.len(),
        0 <= j <= s.len(),
    ensures
        i <= quote_lead(s, i) <= s.len(),
        0 <= quote_trail(s, j) <= j,
    decreases s.len() - i + j,
{
    if i < s.len() && s[i] == '"' {
        lemma_quote_bounds(s, i + 1, j);
    } else if 0 < j && s[j - 1] == '"' {
        lemma_quote_bounds(s, i, j - 1);
    }
}

fn trim_quote_chars(s: &[char]) -> (r: Vec<char>)
    ensures
        r@ == trim_quotes(s@),
{
    let mut a: usize = 0;
    while a < s.len() && s[a] == '"'
        invariant
            a <= s@.len(),
            quote_lead(s@, 0) == quote_lead(s@, a as int),
        decreases s@.len() - a,
    {
        a += 1;
    }
    let mut b: usize = s.len();
    while b > 0 && s[b - 1] == '"'
        invariant
            b <= s@.len(),
            quote_trail(s@, s@.len() as int) == quote_trail(s@, b as int),
        decreases b,
    {
        b -= 1;
    }
    if a < b {
        slice_to_vec(s, a, b)
    } else {
        Vec::new()
    }
}

fn parse_header_line(line: &[char]) -> (r: Option<(String, String)>)
    ensures
        match r {
            Some((t, v)) => header_line(line@) == Some((t@, v@)),
            None => header_line(line@) is None,
        },
{
    let n = line.len();
    if n < 2 || line[0] != '[' || line[n - 1] != ']' {
        return None;
    }
    let inner = slice_to_vec(line, 1, n - 1);
    let mut i: usize = 0;
    while i < inner.len() && inner[i] != ' '
        invariant
            i <= inner@.len(),
            space_from(inner@, 0) == space_from(inner@, i as int),
        decreases inner@.len() - i,
    {
        i += 1;
    }
    if i == inner.len() {
        return None;
    }
    let tag = slice_to_vec(inner.as_slice(), 0, i);
    let rest = slice_to_vec(inner.as_slice(), i + 1, inner.len());
    let value = trim_quote_chars(rest.as_slice());
    assert(tag@ =~= inner@.take(i as int));
    assert(rest@ =~= inner@.skip(i + 1));
    Some((string_of(tag.as_slice()), string_of(value.as_slice())))
}

fn header_index(hs: &Vec<(String, String)>, tag: &str) -> (r: Option<usize>)
    ensures
        match r {
            Some(i) => header_index_from(pairs_of(hs@), tag@, 0) == i && i < hs@.len(),
            None => header_index_from(pairs_of(hs@), tag@, 0) == -1,
        },
{
    let mut i: usize = 0;
    while i < hs.len()
        invariant
            i <= hs@.len(),
            header_index_from(pairs_of(hs@), tag@, 0) == header_index_from(pairs_of(hs@), tag@, i as int),
        decreases hs@.len() - i,
    {
        if str_eq(hs[i].0.as_str(), tag) {
            return Some(i);
        }
        i += 1;
    }
    None
}

/// The value of tag `tag`, if the tag is there.
pub fn header_value(hs: &Vec<(String, String)>, tag: &str) -> (r: Option<String>)
    ensures
        match r {
            Some(v) => header_index_from(pairs_of(hs@), tag@, 0) >= 0 && v@ == pairs_of(hs@)[header_index_from(pairs_of(hs@), tag@, 0)].1,
            None => header_index_from(pairs_of(hs@), tag@, 0) == -1,
        },
{
    match header_index(hs, tag) {
        Some(i) => Some(hs[i].1.clone()),
        None => None,
    }
}

/// The tag pairs at the head of `pgn`, each tag once with its last value.
pub fn parse_headers(pgn: &str) -> (r: Vec<(String, String)>)
    ensures
        pairs_of(r@) == headers_of(pgn@),
{
    let chars = chars_of(pgn);
    let ls = split_lines(chars.as_slice());
    let ghost lv = lines(pgn@);
    let mut hs: Vec<(String, String)> = Vec::new();
    let mut k: usize = 0;
    assert(pairs_of(hs@) =~= Seq::<(Seq<char>, Seq<char>)>::empty());
    while k < ls.len()
        invariant
            k <= ls@.len(),
            cviews(ls@) == lv,
            lv == lines(pgn@),
            headers_of(pgn@) == headers_from(lv, k as int, pairs_of(hs@)),
        decreases ls@.len() - k,
    {
        assert(lv[k as int] == ls@[k as int]@);
        let line = trim_chars(ls[k].as_slice());
        if line.len() == 0 || line[0] != '[' {
            return hs;
        }
        match parse_header_line(line.as_slice()) {
            None => {},
            Some((tag, value)) => {
                let ghost before = pairs_of(hs@);
                let ghost tv = tag@;
                let ghost vv = value@;
                match header_index(&hs, tag.as_str()) {
                    Some(i) => {
                        hs.set(i, (tag, value));
                    },
                    None => {
                        hs.push((tag, value));
                    },
                }
                assert(pairs_of(hs@) =~= set_header(before, tv, vv));
            },
        }
        k += 1;
    }
    hs
}

/// `White vs Black`, one of the two names, or `Game Analysis`.
pub open spec fn label_of(hs: Seq<(Seq<char>, Seq<char>)>) -> Seq<char> {
    let w = header_index_from(hs, "White"@, 0);
    let b = header_index_from(hs, "Black"@, 0);
    if w >= 0 && b >= 0 {
        hs[w].1 + " vs "@ + hs[b].1
    } else if w >= 0 {
        hs[w].1
    } else if b >= 0 {
        hs[b].1
    } else {
        "Game Analysis"@
    }
}

pub fn game_label(headers: &Vec<(String, String)>) -> (r: String)
    ensures
        r@ == label_of(pairs_of(headers@)),
{
    match (header_value(headers, "White"), header_value(headers, "Black")) {
        (Some(white), Some(black)) => {
            let mut v: Vec<char> = Vec::new();
            append_str(&mut v, white.as_str());
            append_str(&mut v, " vs ");
            append_str(&mut v, black.as_str());
            string_of(v.as_slice())
        },
        (Some(white), None) => white,
        (None, Some(black)) => black,
        _ => String::from_str("Game Analysis"),
    }
}


// ---------------------------------------------------------------- movetext

/// What follows the first occurrence of `p` in `s`; empty where `p` does not occur.
pub open spec fn after_first(s: Seq<char>, p: Seq<char>) -> Seq<char> {
    if contains_seq(s, p) {
        let i = choose|i: int| occurs_at(s, p, i) && forall|j: int| 0 <= j < i ==> !occurs_at(s, p, j);
        s.skip(i + p.len())
    } else {
        seq![]
    }
}

/// The movetext of a PGN: the text after the first blank line when the PGN starts with
/// tag pairs, else the whole text; trimmed, and `None` where that is empty.
pub open spec fn movetext_of(pgn: Seq<char>) -> Option<Seq<char>> {
    let t = trim(pgn);
    if t.len() == 0 {
        None
    } else if t[0] == '[' {
        let m = trim(after_first(pgn, "\n\n"@));
        if m.len() == 0 {
            None
        } else {
            Some(m)
        }
    } else {
        Some(t)
    }
}

pub fn movetext_from_pgn(pgn: &str) -> (r: Option<String>)
    ensures
        match r {
            Some(m) => movetext_of(pgn@) == Some(m@),
            None => movetext_of(pgn@) is None,
        },
{
    let trimmed = trim_str(pgn);
    if trimmed.len() == 0 {
        return None;
    }
    if trimmed[0] == '[' {
        let chars = chars_of(pgn);
        let mut sep: Vec<char> = Vec::new();
        sep.push('\n');
        sep.push('\n');
        assert(sep@ =~= "\n\n"@) by {
            reveal_strlit("\n\n");
        }
        let rest = match find_seq(chars.as_slice(), sep.as_slice()) {
            Some(i) => {
                assert(sep@.len() == 2);
                let n = chars.len();
                assert(i + 2 <= n);
                let start = i + 2;
                proof {
                    let c = choose|c: int| occurs_at(pgn@, "\n\n"@, c) && forall|j: int| 0 <= j < c ==> !occurs_at(pgn@, "\n\n"@, j);
                    if c < i {
                    } else if c > i {
                        assert(!occurs_at(pgn@, "\n\n"@, i as int));
                    }
                }
                slice_to_vec(chars.as_slice(), start, chars.len())
            },
            None => Vec::new(),
        };
        proof {
            reveal_strlit("\n\n");
        }
        let movetext = trim_chars(rest.as_slice());
        if movetext.len() == 0 {
            None
        } else {
            Some(string_of(movetext.as_slice()))
        }
    } else {
        Some(string_of(trimmed.as_slice()))
    }
}

/// `s[i..]` without `{...}` comments; `in_comment` says whether `i` lies inside one. A
/// comment with no `}` runs to the end.
pub open spec fn uncommented(s: Seq<char>, i: int, in_comment: bool) -> Seq<char>
    decreases s.len() - i,
{
    if i < 0 || i >= s.len() {
        seq![]
    } else if in_comment {
        uncommented(s, i + 1, s[i] != '}')
    } else if s[i] == '{' {
        uncommented(s, i + 1, true)
    } else {
        seq![s[i]] + uncommented(s, i + 1, false)
    }
}

/// Index of the first `.` at or after `i`, or -1.
pub open spec fn dot_from(s: Seq<char>, i: int) -> int
    decreases s.len() - i,
{
    if i < 0 || i >= s.len() {
        -1
    } else if s[i] == '.' {
        i
    } else {
        dot_from(s, i + 1)
    }
}

pub open spec fn is_result(t: Seq<char>) -> bool {
    t == "1-0"@ || t == "0-1"@ || t == "1/2-1/2"@ || t == "*"@
}

/// The moves among the tokens `toks[k..]`: a result ends them; a token with a `.` gives
/// what follows its first `.` (nothing when that is empty); other tokens that start with a
/// digit are move numbers.
pub open spec fn move_tokens(toks: Seq<Seq<char>>, k: int) -> Seq<Seq<char>>
    decreases toks.len() - k,
{
    if k < 0 || k >= toks.len() {
        seq![]
    } else {
        let t = toks[k];
        let d = dot_from(t, 0);
        if is_result(t) {
            seq![]
        } else if d >= 0 {
            if t.skip(d + 1).len() == 0 {
                move_tokens(toks, k + 1)
            } else {
                seq![t.skip(d + 1)] + move_tokens(toks, k + 1)
            }
        } else if t.len() > 0 && is_digit(t[0]) {
            move_tokens(toks, k + 1)
        } else {
            seq![t] + move_tokens(toks, k + 1)
        }
    }
}

/// The SAN moves of a movetext.
pub open spec fn movetext_moves(text: Seq<char>) -> Seq<Seq<char>> {
    move_tokens(ws_tokens(uncommented(text, 0, false)), 0)
}

fn is_result_chars(t: &[char]) -> (r: bool)
    ensures
        r == is_result(t@),
{
    let s = string_of(t);
    str_eq(s.as_str(), "1-0") || str_eq(s.as_str(), "0-1") || str_eq(s.as_str(), "1/2-1/2") || str_eq(s.as_str(), "*")
}

/// The SAN moves of a movetext, without comments, move numbers and the result.
pub fn tokenize_movetext(text: &str) -> (r: Vec<String>)
    ensures
        views(r@) == movetext_moves(text@),
{
    let chars = chars_of(text);
    let mut cleaned: Vec<char> = Vec::new();
    let mut in_comment = false;
    let mut i: usize = 0;
    while i < chars.len()
        invariant
            i <= chars@.len(),
            chars@ == text@,
            cleaned@ + uncommented(chars@, i as int, in_comment) == uncommented(chars@, 0, false),
        decreases chars@.len() - i,
    {
        let c = chars[i];
        let ghost before = cleaned@;
        if in_comment {
            in_comment = c != '}';
        } else if c == '{' {
            in_comment = true;
        } else {
            cleaned.push(c);
            assert(before + (seq![c] + uncommented(chars@, i + 1, false)) =~= cleaned@ + uncommented(chars@, i + 1, false));
        }
        i += 1;
    }
    assert(cleaned@ + uncommented(chars@, i as int, in_comment) =~= cleaned@);
    let toks = split_ws(cleaned.as_slice());
    let ghost tv = cviews(toks@);
    let mut out: Vec<String> = Vec::new();
    let mut k: usize = 0;
    while k < toks.len()
        invariant
            k <= toks@.len(),
            tv == cviews(toks@),
            tv == ws_tokens(uncommented(text@, 0, false)),
            views(out@) + move_tokens(tv, k as int) == move_tokens(tv, 0),
        decreases toks@.len() - k,
    {
        let t = toks[k].as_slice();
        assert(tv[k as int] == t@);
        let ghost before = views(out@);
        if is_result_chars(t) {
            assert(views(out@) + move_tokens(tv, k as int) =~= views(out@));
            assert(views(out@) + move_tokens(tv, toks@.len() as int) =~= views(out@));
            k = toks.len();
        } else {
            let mut d: usize = 0;
            while d < t.len() && t[d] != '.'
                invariant
                    d <= t@.len(),
                    dot_from(t@, 0) == dot_from(t@, d as int),
                decreases t@.len() - d,
            {
                d += 1;
            }
            if d < t.len() {
                if d + 1 < t.len() {
                    let san = slice_to_vec(t, d + 1, t.len());
                    assert(san@ =~= t@.skip(d + 1));
                    out.push(string_of(san.as_slice()));
                    assert(views(out@) =~= before.push(san@));
                    assert(before + move_tokens(tv, k as int) =~= views(out@) + move_tokens(tv, k + 1));
                } else {
                    assert(t@.skip(d + 1).len() == 0);
                }
            } else if t.len() > 0 && char_is_digit(t[0]) {
            } else {
                out.push(string_of(t));
                assert(views(out@) =~= before.push(t@));
                assert(before + move_tokens(tv, k as int) =~= views(out@) + move_tokens(tv, k + 1));
            }
            k += 1;
        }
    }
    assert(views(out@) + move_tokens(tv, k as int) =~= views(out@));
    out
}

// ---------------------------------------------------------------- positions of a game

/// The positions after the SAN moves `toks[k..]` from the position of FEN `fen`, or the
/// message for the first move that cannot be read or played.
pub open spec fn history_from(fen: Seq<char>, toks: Seq<Seq<char>>, k: int) -> Result<Seq<StepV>, Seq<char>>
    decreases toks.len() - k,
{
    if k < 0 || k >= toks.len() {
        Ok(seq![])
    } else if !spec_san_parses(toks[k]) {
        Err("invalid SAN: "@ + toks[k])
    } else {
        match spec_play_san(fen, toks[k]) {
            None => Err("illegal move in position: "@ + toks[k]),
            Some((after, label, o, d)) => match history_from(after, toks, k + 1) {
                Ok(rest) => Ok(seq![StepV { fen: simplified(after), san: Some(label), orig: Some(o), dest: Some(d) }] + rest),
                Err(e) => Err(e),
            },
        }
    }
}

/// The positions of a game with the given movetext, the start position first.
pub open spec fn history_of(movetext: Seq<char>) -> Result<Seq<StepV>, Seq<char>> {
    match history_from(initial_fen_text(), movetext_moves(movetext), 0) {
        Ok(rest) => Ok(seq![StepV { fen: simplified(initial_fen_text()), san: None, orig: None, dest: None }] + rest),
        Err(e) => Err(e),
    }
}

pub open spec fn steps_view(v: Seq<HistoryStep>) -> Seq<StepV> {
    v.map_values(|h: HistoryStep| step_view(h))
}

pub fn build_history(movetext: &str) -> (r: Result<Vec<HistoryStep>, String>)
    ensures
        match r {
            Ok(h) => history_of(movetext@) == Ok::<Seq<StepV>, Seq<char>>(steps_view(h@)),
            Err(e) => history_of(movetext@) == Err::<Seq<StepV>, Seq<char>>(e@),
        },
{
    let start = initial_fen();
    let mut history: Vec<HistoryStep> = Vec::new();
    history.push(HistoryStep::start(simplified_fen(start.as_str())));
    let toks = tokenize_movetext(movetext);
    let ghost tv = views(toks@);
    let ghost head = steps_view(history@);
    let mut pos = start;
    let mut k: usize = 0;
    while k < toks.len()
        invariant
            k <= toks@.len(),
            tv == views(toks@),
            tv == movetext_moves(movetext@),
            history@.len() == k + 1,
            head == seq![StepV { fen: simplified(initial_fen_text()), san: None, orig: None, dest: None }],
            match history_from(pos@, tv, k as int) {
                Ok(rest) => history_of(movetext@) == Ok::<Seq<StepV>, Seq<char>>(steps_view(history@) + rest),
                Err(e) => history_of(movetext@) == Err::<Seq<StepV>, Seq<char>>(e),
            },
        decreases toks@.len() - k,
    {
        let token = toks[k].as_str();
        assert(tv[k as int] == token@);
        if !san_parses(token) {
            return Err(prefixed("invalid SAN: ", token));
        }
        match play_san(pos.as_str(), token) {
            None => {
                return Err(prefixed("illegal move in position: ", token));
            },
            Some((after, label, o, d)) => {
                let ghost before = steps_view(history@);
                history.push(HistoryStep::after_move(simplified_fen(after.as_str()), label, o, d));
                proof {
                    let st = StepV { fen: simplified(after@), san: Some(label@), orig: Some(o.index), dest: Some(d.index) };
                    assert(steps_view(history@) =~= before.push(st));
                    match history_from(after@, tv, k + 1) {
                        Ok(rest) => {
                            assert(before + (seq![st] + rest) =~= steps_view(history@) + rest);
                        },
                        Err(e) => {},
                    }
                }
                pos = after;
            },
        }
        k += 1;
    }
    assert(steps_view(history@) + Seq::<StepV>::empty() =~= steps_view(history@));
    Ok(history)
}

/// The game of a PGN: its label, tag pairs and positions.
pub fn parse_pgn(pgn: &str) -> (r: Result<ParsedGame, String>)
    ensures
        match r {
            Ok(g) => movetext_of(pgn@) matches Some(m) && history_of(m) == Ok::<Seq<StepV>, Seq<char>>(
                steps_view(g.history@),
            ) && pairs_of(g.headers@) == headers_of(pgn@) && g.label@ == label_of(headers_of(pgn@)),
            Err(e) => (movetext_of(pgn@) is None && e@ == "PGN has no movetext"@) || (movetext_of(
                pgn@,
            ) matches Some(m) && history_of(m) == Err::<Seq<StepV>, Seq<char>>(e@)),
        },
{
    let headers = parse_headers(pgn);
    let movetext = match movetext_from_pgn(pgn) {
        Some(m) => m,
        None => return Err(String::from_str("PGN has no movetext")),
    };
    let history = match build_history(movetext.as_str()) {
        Ok(h) => h,
        Err(e) => return Err(e),
    };
    let label = game_label(&headers);
    Ok(ParsedGame { label, headers, history })
}

} // verus!
