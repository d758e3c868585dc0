//! Local opening book: named lines, each known by the position it reaches, and named
//! Chess960 (FRC) start positions.
//!
//! The book that ships here is small. The full ECO tables (`a.tsv` to `e.tsv`, some
//! thousands of lines) and the Chess960 table (`frc.tsv`) are not part of this source
//! tree, so `ECO_BOOK` holds a short selection of common openings and `FRC_BOOK` only
//! its header; most positions past the first moves are therefore not named. Both
//! tables can be read in the same format with `load_openings_from`.
use vstd::prelude::*;
use crate::chess::{initial_fen, initial_fen_text, play_san, position_fen, san_parses, setup_fen, spec_play_san, spec_position_fen, spec_san_parses, spec_setup_fen};
use crate::text::{
    append_chars, char_is_digit, chars_of, cviews, is_digit, lines, seq_eq, slice_to_vec, split_lines, split_ws, str_eq,
    string_of, trim, trim_chars, ws_tokens,
};

verus! {

broadcast use vstd::string::group_string_axioms;

/// The opening book: a header line, then one line per opening with its ECO code, name and
/// moves, separated by tabs.
pub const ECO_BOOK: &'static str = "eco\tname\tpgn
A04\tZukertort Opening\t1. Nf3
A10\tEnglish Opening\t1. c4
A40\tQueen's Pawn Game\t1. d4
A45\tIndian Defense\t1. d4 Nf6
B00\tKing's Pawn Game\t1. e4
B01\tScandinavian Defense\t1. e4 d5
B07\tPirc Defense\t1. e4 d6
B10\tCaro-Kann Defense\t1. e4 c6
B20\tSicilian Defense\t1. e4 c5
C00\tFrench Defense\t1. e4 e6
C20\tKing's Pawn Game\t1. e4 e5
C20\tBongcloud Attack\t1. e4 e5 2. Ke2
C23\tBishop's Opening\t1. e4 e5 2. Bc4
C25\tVienna Game\t1. e4 e5 2. Nc3
C30\tKing's Gambit\t1. e4 e5 2. f4
C40\tKing's Knight Opening\t1. e4 e5 2. Nf3
C42\tRussian Game\t1. e4 e5 2. Nf3 Nf6
C44\tKing's Knight Opening: Normal Variation\t1. e4 e5 2. Nf3 Nc6
C50\tItalian Game\t1. e4 e5 2. Nf3 Nc6 3. Bc4
C60\tRuy Lopez\t1. e4 e5 2. Nf3 Nc6 3. Bb5
D00\tQueen's Pawn Game\t1. d4 d5
D06\tQueen's Gambit\t1. d4 d5 2. c4
";

/// The Chess960 table: a header line, then one line per start position with its name and
/// FEN, separated by a tab. Its rows are not part of this source tree.
pub const FRC_BOOK: &'static str = "name\tfen
";

/// A named opening.
#[derive(Clone, Debug, PartialEq, Eq)]
pub struct OpeningMatch {
    pub eco: String,
    pub name: String,
}

/// An opening with the key of the position it reaches.
pub struct OpeningEntry {
    pub eco: String,
    pub name: String,
    pub key: String,
}

pub struct EntryV {
    pub eco: Seq<char>,
    pub name: Seq<char>,
    pub key: Seq<char>,
}

pub open spec fn entry_view(e: OpeningEntry) -> EntryV {
    EntryV { eco: e.eco@, name: e.name@, key: e.key@ }
}

/// The first four fields of a FEN (placement, side to move, castling, en passant): the
/// position without its move counters.
pub open spec fn setup_key(fen: Seq<char>) -> Seq<char> {
    let t = ws_tokens(fen);
    if t.len() >= 4 {
        t[0] + seq![' '] + t[1] + seq![' '] + t[2] + seq![' '] + t[3]
    } else {
        fen
    }
}

fn setup_key_of(fen: &str) -> (r: String)
    ensures
        r@ == setup_key(fen@),
{
    let v = chars_of(fen);
    let t = split_ws(v.as_slice());
    if t.len() >= 4 {
        let mut r: Vec<char> = Vec::new();
        append_chars(&mut r, t[0].as_slice());
        r.push(' ');
        append_chars(&mut r, t[1].as_slice());
        r.push(' ');
        append_chars(&mut r, t[2].as_slice());
        r.push(' ');
        append_chars(&mut r, t[3].as_slice());
        assert(cviews(t@)[0] == t@[0]@);
        assert(cviews(t@)[1] == t@[1]@);
        assert(cviews(t@)[2] == t@[2]@);
        assert(cviews(t@)[3] == t@[3]@);
        assert(r@ =~= setup_key(fen@));
        string_of(r.as_slice())
    } else {
        string_of(v.as_slice())
    }
}

/// The key of the legal position a FEN describes.
pub open spec fn fen_key(fen: Seq<char>) -> Option<Seq<char>> {
    match spec_position_fen(fen) {
        Some(f) => Some(setup_key(f)),
        None => None,
    }
}

/// The key of the position after the SAN moves `toks[k..]` from FEN `fen`; tokens that
/// start with a digit are move numbers; `None` where a move cannot be read or played.
pub open spec fn key_after(fen: Seq<char>, toks: Seq<Seq<char>>, k: int) -> Option<Seq<char>>
    decreases toks.len() - k,
{
    if k < 0 || k >= toks.len() {
        Some(setup_key(fen))
    } else if toks[k].len() > 0 && is_digit(toks[k][0]) {
        key_after(fen, toks, k + 1)
    } else if !spec_san_parses(toks[k]) {
        None
    } else {
        match spec_play_san(fen, toks[k]) {
            None => None,
            Some((after, _s, _o, _d)) => key_after(after, toks, k + 1),
        }
    }
}

/// Index of the first tab at or after `i`, or -1.
pub open spec fn tab_from(s: Seq<char>, i: int) -> int
    decreases s.len() - i,
{
    if i < 0 || i >= s.len() {
        -1
    } else if s[i] == '\t' {
        i
    } else {
        tab_from(s, i + 1)
    }
}

/// A book line: code, name and moves, each trimmed and none empty.
pub open spec fn eco_line(l: Seq<char>) -> Option<(Seq<char>, Seq<char>, Seq<char>)> {
    let a = tab_from(l, 0);
    let b = tab_from(l, a + 1);
    if a >= 0 && b >= 0 {
        let eco = trim(l.take(a));
        let name = trim(l.subrange(a + 1, b));
        let pgn = trim(l.skip(b + 1));
        if eco.len() > 0 && name.len() > 0 && pgn.len() > 0 {
            Some((eco, name, pgn))
        } else {
            None
        }
    } else {
        None
    }
}

/// The entries read from book lines `ls[k..]`; lines that are no opening, or whose moves
/// cannot be played, are passed over.
pub open spec fn book_from(ls: Seq<Seq<char>>, k: int) -> Seq<EntryV>
    decreases ls.len() - k,
{
    if k < 0 || k >= ls.len() {
        seq![]
    } else {
        match eco_line(ls[k]) {
            None => book_from(ls, k + 1),
            Some((eco, name, pgn)) => match key_after(initial_fen_text(), ws_tokens(pgn), 0) {
                None => book_from(ls, k + 1),
                Some(key) => seq![EntryV { eco, name, key }] + book_from(ls, k + 1),
            },
        }
    }
}

/// The whole book: the starting position, then the lines of `text` after its header.
pub open spec fn book_of(text: Seq<char>) -> Seq<EntryV> {
    seq![EntryV { eco: "—"@, name: "Starting Position"@, key: setup_key(initial_fen_text()) }] + book_from(lines(text), 1)
}

/// A Chess960 line: its name, the text before the first tab, and its FEN, the text after
/// it up to the next tab.
pub open spec fn frc_line(l: Seq<char>) -> Option<(Seq<char>, Seq<char>)> {
    let a = tab_from(l, 0);
    if a < 0 {
        None
    } else {
        let b = tab_from(l, a + 1);
        let fen = if b >= 0 { l.subrange(a + 1, b) } else { l.skip(a + 1) };
        Some((l.take(a), fen))
    }
}

/// The entries read from Chess960 lines `ls[k..]`, under code `FRC`; lines without a
/// tab or with a FEN that does not parse are passed over.
pub open spec fn frc_from(ls: Seq<Seq<char>>, k: int) -> Seq<EntryV>
    decreases ls.len() - k,
{
    if k < 0 || k >= ls.len() {
        seq![]
    } else {
        match frc_line(ls[k]) {
            None => frc_from(ls, k + 1),
            Some((name, fen)) => match spec_setup_fen(fen) {
                None => frc_from(ls, k + 1),
                Some(f) => seq![EntryV { eco: "FRC"@, name, key: setup_key(f) }] + frc_from(ls, k + 1),
            },
        }
    }
}

/// The book read from an ECO table and a Chess960 table, each after its header line.
pub open spec fn full_book(eco: Seq<char>, frc: Seq<char>) -> Seq<EntryV> {
    book_of(eco) + frc_from(lines(frc), 1)
}

/// The first entry at or after `i` with key `key`.
pub open spec fn find_entry(b: Seq<EntryV>, key: Seq<char>, i: int) -> Option<EntryV>
    decreases b.len() - i,
{
    if i < 0 || i >= b.len() {
        None
    } else if b[i].key == key {
        Some(b[i])
    } else {
        find_entry(b, key, i + 1)
    }
}

pub open spec fn match_view(m: OpeningMatch) -> (Seq<char>, Seq<char>) {
    (m.eco@, m.name@)
}

/// What the book says of the position of `fen`.
pub open spec fn book_lookup(fen: Seq<char>) -> Option<(Seq<char>, Seq<char>)> {
    match fen_key(fen) {
        None => None,
        Some(k) => match find_entry(full_book(ECO_BOOK@, FRC_BOOK@), k, 0) {
            Some(e) => Some((e.eco, e.name)),
            None => None,
        },
    }
}

/// The key of the position after the moves of a book line.
fn setup_after_chars(pgn: &[char]) -> (r: Option<String>)
    ensures
        match r {
            Some(k) => key_after(initial_fen_text(), ws_tokens(pgn@), 0) == Some(k@),
            None => key_after(initial_fen_text(), ws_tokens(pgn@), 0) is None,
        },
{
    let toks = split_ws(pgn);
    let ghost tv = cviews(toks@);
    let mut pos = initial_fen();
    let mut k: usize = 0;
    while k < toks.len()
        invariant
            k <= toks@.len(),
            tv == cviews(toks@),
            tv == ws_tokens(pgn@),
            key_after(initial_fen_text(), tv, 0) == key_after(pos@, tv, k as int),
        decreases toks@.len() - k,
    {
        assert(tv[k as int] == toks@[k as int]@);
        let t = toks[k].as_slice();
        if t.len() > 0 && char_is_digit(t[0]) {
        } else {
            let token = string_of(t);
            if !san_parses(token.as_str()) {
                return None;
            }
            match play_san(pos.as_str(), token.as_str()) {
                None => return None,
                Some((after, _label, _o, _d)) => {
                    pos = after;
                },
            }
        }
        k += 1;
    }
    Some(setup_key_of(pos.as_str()))
}

/// The key of the position after the moves of a book line (move numbers are skipped).
pub fn setup_after_pgn(pgn: &str) -> (r: Option<String>)
    ensures
        match r {
            Some(k) => key_after(initial_fen_text(), ws_tokens(pgn@), 0) == Some(k@),
            None => key_after(initial_fen_text(), ws_tokens(pgn@), 0) is None,
        },
{
    let v = chars_of(pgn);
    setup_after_chars(v.as_slice())
}

/// The key of the legal position of a FEN.
pub fn setup_from_fen(fen: &str) -> (r: Option<String>)
    ensures
        match r {
            Some(k) => fen_key(fen@) == Some(k@),
            None => fen_key(fen@) is None,
        },
{
    match position_fen(fen) {
        Some(f) => Some(setup_key_of(f.as_str())),
        None => None,
    }
}

/// A book line split into code, name and moves.
fn parse_eco_line(line: &[char]) -> (r: Option<(Vec<char>, Vec<char>, Vec<char>)>)
    ensures
        match r {
            Some((e, n, p)) => eco_line(line@) == Some((e@, n@, p@)),
            None => eco_line(line@) is None,
        },
{
    let mut a: usize = 0;
    while a < line.len() && line[a] != '\t'
        invariant
            a <= line@.len(),
            tab_from(line@, 0) == tab_from(line@, a as int),
        decreases line@.len() - a,
    {
        a += 1;
    }
    if a == line.len() {
        return None;
    }
    let mut b: usize = a + 1;
    while b < line.len() && line[b] != '\t'
        invariant
            a < b <= line@.len(),
            tab_from(line@, a + 1) == tab_from(line@, b as int),
        decreases line@.len() - b,
    {
        b += 1;
    }
    if b == line.len() {
        return None;
    }
    let eco = trim_chars(slice_to_vec(line, 0, a).as_slice());
    let name = trim_chars(slice_to_vec(line, a + 1, b).as_slice());
    let pgn = trim_chars(slice_to_vec(line, b + 1, line.len()).as_slice());
    assert(line@.subrange(0, a as int) =~= line@.take(a as int));
    assert(line@.subrange(b + 1, line@.len() as int) =~= line@.skip(b + 1));
    if eco.len() == 0 || name.len() == 0 || pgn.len() == 0 {
        return None;
    }
    Some((eco, name, pgn))
}

/// Adds the Chess960 start positions of table `text` (after its header line).
fn load_frc_lines(text: &str, entries: &mut Vec<OpeningEntry>)
    ensures
        final(entries)@.map_values(|e: OpeningEntry| entry_view(e)) == old(entries)@.map_values(
            |e: OpeningEntry| entry_view(e),
        ) + frc_from(lines(text@), 1),
{
    let chars = chars_of(text);
    let ls = split_lines(chars.as_slice());
    let ghost lv = cviews(ls@);
    let ghost head = entries@.map_values(|e: OpeningEntry| entry_view(e));
    let mut k: usize = 1;
    while k < ls.len()
        invariant
            1 <= k,
            k <= ls@.len() || ls@.len() == 0,
            lv == cviews(ls@),
            lv == lines(text@),
            entries@.map_values(|e: OpeningEntry| entry_view(e)) + frc_from(lv, k as int) == head + frc_from(lv, 1),
        decreases ls@.len() - k,
    {
        assert(lv[k as int] == ls@[k as int]@);
        let ghost before = entries@.map_values(|e: OpeningEntry| entry_view(e));
        let line = ls[k].as_slice();
        let mut a: usize = 0;
        while a < line.len() && line[a] != '\t'
            invariant
                a <= line@.len(),
                tab_from(line@, 0) == tab_from(line@, a as int),
            decreases line@.len() - a,
        {
            a += 1;
        }
        if a < line.len() {
            let mut b: usize = a + 1;
            while b < line.len() && line[b] != '\t'
                invariant
                    a < b <= line@.len(),
                    tab_from(line@, a + 1) == tab_from(line@, b as int),
                decreases line@.len() - b,
            {
                b += 1;
            }
            let name = slice_to_vec(line, 0, a);
            let fen = slice_to_vec(line, a + 1, b);
            assert(line@.subrange(0, a as int) =~= line@.take(a as int));
            if b == line.len() {
                assert(line@.subrange(a + 1, b as int) =~= line@.skip(a + 1));
            }
            let fen_text = string_of(fen.as_slice());
            match setup_fen(fen_text.as_str()) {
                None => {},
                Some(f) => {
                    let key = setup_key_of(f.as_str());
                    let ghost ev = EntryV { eco: "FRC"@, name: name@, key: key@ };
                    entries.push(OpeningEntry { eco: String::from_str("FRC"), name: string_of(name.as_slice()), key });
                    assert(entries@.map_values(|e: OpeningEntry| entry_view(e)) =~= before.push(ev));
                    assert(before + (seq![ev] + frc_from(lv, k + 1)) =~= before.push(ev) + frc_from(lv, k + 1));
                },
            }
        }
        k += 1;
    }
    proof {
        if ls@.len() == 0 {
            assert(frc_from(lv, 1) =~= Seq::<EntryV>::empty());
        }
    }
    assert(entries@.map_values(|e: OpeningEntry| entry_view(e)) + frc_from(lv, k as int) =~= entries@.map_values(
        |e: OpeningEntry| entry_view(e),
    ));
}

/// The book of this crate: `ECO_BOOK` and `FRC_BOOK`.
pub fn load_openings() -> (r: Vec<OpeningEntry>)
    ensures
        r@.map_values(|e: OpeningEntry| entry_view(e)) == full_book(ECO_BOOK@, FRC_BOOK@),
{
    load_openings_from(ECO_BOOK, FRC_BOOK)
}

/// The book read from ECO table `eco` and Chess960 table `frc`: the starting position,
/// every playable line of `eco`, then every start position of `frc`.
pub fn load_openings_from(eco_text: &str, frc_text: &str) -> (r: Vec<OpeningEntry>)
    ensures
        r@.map_values(|e: OpeningEntry| entry_view(e)) == full_book(eco_text@, frc_text@),
{
    let mut entries: Vec<OpeningEntry> = Vec::new();
    let start = initial_fen();
    entries.push(OpeningEntry {
        eco: String::from_str("—"),
        name: String::from_str("Starting Position"),
        key: setup_key_of(start.as_str()),
    });
    let chars = chars_of(eco_text);
    let ls = split_lines(chars.as_slice());
    let ghost lv = cviews(ls@);
    let ghost head = entries@.map_values(|e: OpeningEntry| entry_view(e));
    let mut k: usize = 1;
    while k < ls.len()
        invariant
            1 <= k,
            k <= ls@.len() || ls@.len() == 0,
            lv == cviews(ls@),
            lv == lines(eco_text@),
            head == seq![EntryV { eco: "—"@, name: "Starting Position"@, key: setup_key(initial_fen_text()) }],
            entries@.map_values(|e: OpeningEntry| entry_view(e)) + book_from(lv, k as int) == head + book_from(lv, 1),
        decreases ls@.len() - k,
    {
        assert(lv[k as int] == ls@[k as int]@);
        let ghost before = entries@.map_values(|e: OpeningEntry| entry_view(e));
        match parse_eco_line(ls[k].as_slice()) {
            None => {},
            Some((eco, name, pgn)) => {
                match setup_after_chars(pgn.as_slice()) {
                    None => {},
                    Some(key) => {
                        let ghost ev = EntryV { eco: eco@, name: name@, key: key@ };
                        entries.push(OpeningEntry { eco: string_of(eco.as_slice()), name: string_of(name.as_slice()), key });
                        assert(entries@.map_values(|e: OpeningEntry| entry_view(e)) =~= before.push(ev));
                        assert(before + (seq![ev] + book_from(lv, k + 1)) =~= before.push(ev) + book_from(lv, k + 1));
                    },
                }
            },
        }
        k += 1;
    }
    proof {
        if ls@.len() == 0 {
            assert(book_from(lv, 1) =~= Seq::<EntryV>::empty());
        }
    }
    assert(entries@.map_values(|e: OpeningEntry| entry_view(e)) + book_from(lv, k as int) =~= entries@.map_values(
        |e: OpeningEntry| entry_view(e),
    ));
    load_frc_lines(frc_text, &mut entries);
    entries
}

/// The opening of the first book entry whose position has key `key`.
pub fn lookup_key(book: &Vec<OpeningEntry>, key: &str) -> (r: Option<OpeningMatch>)
    ensures
        match r {
            Some(m) => find_entry(book@.map_values(|e: OpeningEntry| entry_view(e)), key@, 0) matches Some(e)
                && match_view(m) == (e.eco, e.name),
            None => find_entry(book@.map_values(|e: OpeningEntry| entry_view(e)), key@, 0) is None,
        },
{
    let ghost bv = book@.map_values(|e: OpeningEntry| entry_view(e));
    let mut i: usize = 0;
    while i < book.len()
        invariant
            i <= book@.len(),
            bv == book@.map_values(|e: OpeningEntry| entry_view(e)),
            find_entry(bv, key@, 0) == find_entry(bv, key@, i as int),
        decreases book@.len() - i,
    {
        assert(bv[i as int] == entry_view(book@[i as int]));
        if str_eq(book[i].key.as_str(), key) {
            return Some(OpeningMatch { eco: book[i].eco.clone(), name: book[i].name.clone() });
        }
        i += 1;
    }
    None
}

/// The book opening of the position of `fen`, if the book knows it.
pub fn lookup_fen(fen: &str) -> (r: Option<OpeningMatch>)
    ensures
        match r {
            Some(m) => book_lookup(fen@) == Some(match_view(m)),
            None => book_lookup(fen@) is None,
        },
{
    let full = match position_fen(fen) {
        Some(f) => f,
        None => return None,
    };
    let key = setup_key_of(full.as_str());
    let book = load_openings();
    lookup_key(&book, key.as_str())
}

/// The last of `fens[..n]` that the book knows.
pub open spec fn deepest_known(fens: Seq<Seq<char>>, n: int) -> Option<(Seq<char>, Seq<char>)>
    decreases n,
{
    if n <= 0 || n > fens.len() {
        None
    } else {
        match book_lookup(fens[n - 1]) {
            Some(m) => Some(m),
            None => deepest_known(fens, n - 1),
        }
    }
}

/// Deepest known opening on the line: walks FENs from the current one back to the start.
pub fn lookup_fens(fens: &[String]) -> (r: Option<OpeningMatch>)
    ensures
        match r {
            Some(m) => deepest_known(fens@.map_values(|s: String| s@), fens@.len() as int) == Some(match_view(m)),
            None => deepest_known(fens@.map_values(|s: String| s@), fens@.len() as int) is None,
        },
{
    let ghost fv = fens@.map_values(|s: String| s@);
    let mut n: usize = fens.len();
    while n > 0
        invariant
            n <= fens@.len(),
            fv == fens@.map_values(|s: String| s@),
            deepest_known(fv, fens@.len() as int) == deepest_known(fv, n as int),
        decreases n,
    {
        assert(fv[n - 1] == fens@[n - 1]@);
        match lookup_fen(fens[n - 1].as_str()) {
            Some(m) => return Some(m),
            None => {},
        }
        n -= 1;
    }
    None
}

/// The name alone for the starting position and Chess960 entries, else `ECO · name`.
pub open spec fn opening_text(eco: Seq<char>, name: Seq<char>) -> Seq<char> {
    if eco == "—"@ || eco == "FRC"@ {
        name
    } else {
        eco + " · "@ + name
    }
}

pub fn format_opening(opening: &OpeningMatch) -> (r: String)
    ensures
        r@ == opening_text(opening.eco@, opening.name@),
{
    if str_eq(opening.eco.as_str(), "—") || str_eq(opening.eco.as_str(), "FRC") {
        opening.name.clone()
    } else {
        let mut v: Vec<char> = Vec::new();
        crate::text::append_str(&mut v, opening.eco.as_str());
        crate::text::append_str(&mut v, " · ");
        crate::text::append_str(&mut v, opening.name.as_str());
        string_of(v.as_slice())
    }
}

} // verus!
