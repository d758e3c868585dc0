//! Squares, sides and positions; the rules of chess come from `shakmaty`.
use vstd::prelude::*;
use crate::text::{
    append_chars, append_str, char_from_ascii, chars_of, cviews, seq_eq, slice_to_vec, split_ws, string_of,
    ws_tokens,
};
use shakmaty::fen::Fen;
use shakmaty::san::San;
use shakmaty::uci::UciMove;
use shakmaty::{CastlingMode, Chess, EnPassantMode, Position};

verus! {

broadcast use vstd::string::group_string_axioms;

/// A board square: `index` is `file + 8 * rank`, with `a1` = 0 and `h8` = 63.
#[derive(Clone, Copy, Debug, PartialEq, Eq, Structural)]
pub struct Key {
    pub index: u8,
}

/// Side of the board.
#[derive(Clone, Copy, Debug, PartialEq, Eq, Structural)]
pub enum Color {
    White,
    Black,
}

pub open spec fn key_wf(k: Key) -> bool {
    k.index < 64
}

/// The name of square `index`, such as `e4`.
pub open spec fn square_name(index: u8) -> Seq<char> {
    seq![((index % 8) as int + 97) as char, ((index / 8) as int + 49) as char]
}

/// The square a two-character name denotes, as `Key::new`: a file `a`..`h`, then a rank `1`..`8`.
pub open spec fn square_of_name(s: Seq<char>) -> Option<u8> {
    if s.len() == 2 && 'a' <= s[0] && s[0] <= 'h' && '1' <= s[1] && s[1] <= '8' {
        Some((((s[0] as int) - 97) + 8 * ((s[1] as int) - 49)) as u8)
    } else {
        None
    }
}

impl Key {
    pub fn new(name: &str) -> (r: Option<Key>)
        ensures
            match r {
                Some(k) => square_of_name(name@) == Some(k.index) && key_wf(k),
                None => square_of_name(name@) is None,
            },
    {
        let v = chars_of(name);
        if v.len() != 2 {
            return None;
        }
        let f = v[0];
        let r = v[1];
        if 'a' <= f && f <= 'h' && '1' <= r && r <= '8' {
            let index: u32 = (f as u32 - 97) + 8 * (r as u32 - 49);
            Some(Key { index: index as u8 })
        } else {
            None
        }
    }

    pub fn name(&self) -> (r: String)
        requires
            key_wf(*self),
        ensures
            r@ == square_name(self.index),
    {
        let mut v: Vec<char> = Vec::new();
        v.push(char_from_ascii((self.index % 8) as u32 + 97));
        v.push(char_from_ascii((self.index / 8) as u32 + 49));
        let s = string_of(v.as_slice());
        assert(v@ =~= square_name(self.index));
        s
    }
}

// ---------------------------------------------------------------- FEN fields

/// `fen` cut to its first three fields (placement, side to move, castling), when it has them.
pub open spec fn simplified(fen: Seq<char>) -> Seq<char> {
    let t = ws_tokens(fen);
    if t.len() >= 3 {
        t[0] + seq![' '] + t[1] + seq![' '] + t[2]
    } else {
        fen
    }
}

/// Simplifying a FEN a second time changes nothing.
pub proof fn law_simplified_is_idempotent(fen: Seq<char>)
    ensures
        simplified(simplified(fen)) == simplified(fen),
{
    let t = ws_tokens(fen);
    if t.len() >= 3 {
        crate::text::lemma_tokens_are_words(fen, 0, seq![]);
        assert(crate::text::is_word(t[0]) && crate::text::is_word(t[1]) && crate::text::is_word(t[2]));
        crate::text::lemma_tokens_of_three(t[0], t[1], t[2]);
    }
}

/// The side to move named by the second field of a FEN.
pub open spec fn side_to_move(fen: Seq<char>) -> Color {
    let t = ws_tokens(fen);
    if t.len() >= 2 && t[1] == seq!['b'] {
        Color::Black
    } else {
        Color::White
    }
}

/// The second field of a FEN says white is to move.
pub open spec fn white_to_move(fen: Seq<char>) -> bool {
    let t = ws_tokens(fen);
    t.len() >= 2 && t[1] == seq!['w']
}

pub fn simplified_fen_chars(fen: &[char]) -> (r: Vec<char>)
    ensures
        r@ == simplified(fen@),
{
    let t = split_ws(fen);
    if t.len() >= 3 {
        let mut r: Vec<char> = Vec::new();
        append_chars(&mut r, t[0].as_slice());
        r.push(' ');
        append_chars(&mut r, t[1].as_slice());
        r.push(' ');
        append_chars(&mut r, t[2].as_slice());
        assert(cviews(t@)[0] == t@[0]@);
        assert(cviews(t@)[1] == t@[1]@);
        assert(cviews(t@)[2] == t@[2]@);
        assert(r@ =~= simplified(fen@));
        r
    } else {
        slice_to_vec(fen, 0, fen.len())
    }
}

/// The first three FEN fields of `fen`: placement, side to move and castling rights.
pub fn simplified_fen(fen: &str) -> (r: String)
    ensures
        r@ == simplified(fen@),
{
    let v = chars_of(fen);
    let r = simplified_fen_chars(v.as_slice());
    string_of(r.as_slice())
}

/// Side to move parsed from a simplified or full FEN.
pub fn turn_color(fen: &str) -> (r: Color)
    ensures
        r == side_to_move(fen@),
{
    let v = chars_of(fen);
    let t = split_ws(v.as_slice());
    if t.len() >= 2 {
        assert(cviews(t@)[1] == t@[1]@);
        let mut b: Vec<char> = Vec::new();
        b.push('b');
        if seq_eq(t[1].as_slice(), b.as_slice()) {
            return Color::Black;
        }
    }
    Color::White
}

pub fn fen_turn(fen: &str) -> (r: bool)
    ensures
        r == white_to_move(fen@),
{
    let v = chars_of(fen);
    let t = split_ws(v.as_slice());
    if t.len() >= 2 {
        assert(cviews(t@)[1] == t@[1]@);
        let mut w: Vec<char> = Vec::new();
        w.push('w');
        seq_eq(t[1].as_slice(), w.as_slice())
    } else {
        false
    }
}

// ---------------------------------------------------------------- rules of chess

/// Whether `Fen::from_str` accepts the text.
pub uninterp spec fn spec_fen_parses(fen: Seq<char>) -> bool;

/// The FEN (`EnPassantMode::Legal`) that shakmaty writes for the legal standard-chess
/// position that `fen` describes; `None` where the text is no FEN or the position is illegal.
pub uninterp spec fn spec_position_fen(fen: Seq<char>) -> Option<Seq<char>>;

/// The FEN shakmaty writes back for the setup that `Fen::from_str` reads, legal or not.
pub uninterp spec fn spec_setup_fen(fen: Seq<char>) -> Option<Seq<char>>;

/// Whether `San::from_str` accepts the text.
pub uninterp spec fn spec_san_parses(san: Seq<char>) -> bool;

/// Playing SAN `san` in position `fen`: the FEN after it, the SAN as shakmaty writes it
/// back, and the move's origin and target squares.
pub uninterp spec fn spec_play_san(fen: Seq<char>, san: Seq<char>) -> Option<(Seq<char>, Seq<char>, u8, u8)>;

/// A piece letter as `Role::from_char` reads it, either case.
pub open spec fn is_role_char(c: char) -> bool {
    c == 'P' || c == 'N' || c == 'B' || c == 'R' || c == 'Q' || c == 'K' || c == 'p' || c == 'n' || c == 'b'
        || c == 'r' || c == 'q' || c == 'k'
}

pub open spec fn is_file_char(c: char) -> bool {
    'a' <= c && c <= 'h'
}

pub open spec fn is_rank_char(c: char) -> bool {
    '1' <= c && c <= '8'
}

/// Whether UCI move notation reads the text: four or five ASCII characters; `0000`
/// (the null move); a piece letter, `@` and a square (a drop; a fifth character is not
/// looked at); or two squares and, for five characters, a piece letter to promote to.
/// Text with a character outside ASCII is refused, as its bytes are.
pub open spec fn spec_uci_parses(uci: Seq<char>) -> bool {
    &&& forall|i: int| 0 <= i < uci.len() ==> (#[trigger] uci[i] as u32) < 128
    &&& (uci.len() == 4 || uci.len() == 5)
    &&& (uci == "0000"@ || (is_file_char(uci[2]) && is_rank_char(uci[3]) && if uci[1] == '@' {
        is_role_char(uci[0])
    } else {
        is_file_char(uci[0]) && is_rank_char(uci[1]) && (uci.len() == 5 ==> is_role_char(uci[4]))
    }))
}

/// Playing UCI move `uci` in position `fen`: the FEN after it, its SAN, and its squares.
pub uninterp spec fn spec_play_uci(fen: Seq<char>, uci: Seq<char>) -> Option<(Seq<char>, Seq<char>, u8, u8)>;

/// The origin and target squares of UCI text that is an ordinary move (no null move, no
/// drop).
pub open spec fn spec_uci_squares(uci: Seq<char>) -> Option<(u8, u8)> {
    if spec_uci_parses(uci) && uci != "0000"@ && uci[1] != '@' {
        Some((
            square_of_name(uci.subrange(0, 2))->0,
            square_of_name(uci.subrange(2, 4))->0,
        ))
    } else {
        None
    }
}

/// Origin and target of each legal move of position `fen`, in shakmaty's order.
pub uninterp spec fn spec_legal_moves(fen: Seq<char>) -> Option<Seq<(u8, u8)>>;

/// Playing the legal move with the given index: the FEN after it and its SAN.
pub uninterp spec fn spec_play_legal(fen: Seq<char>, index: nat) -> Option<(Seq<char>, Seq<char>)>;

/// `Fen::from_str` on the text.
#[verifier::external_body]
pub(crate) fn fen_parses(fen: &str) -> (r: bool)
    ensures
        r == spec_fen_parses(fen@),
{
    fen.parse::<Fen>().is_ok()
}

/// `Fen::from_str`, `Fen::into_position::<Chess>` (standard castling), then the FEN of the
/// position.
#[verifier::external_body]
pub(crate) fn position_fen(fen: &str) -> (r: Option<String>)
    ensures
        r matches Some(s) ==> spec_position_fen(fen@) == Some(s@),
        r is None ==> spec_position_fen(fen@) is None,
{
    let setup: Fen = fen.parse().ok()?;
    let pos: Chess = setup.into_position(CastlingMode::Standard).ok()?;
    Some(Fen::from_position(pos, EnPassantMode::Legal).to_string())
}

/// `Fen::from_str` and `Display` for `Fen`.
#[verifier::external_body]
pub(crate) fn setup_fen(fen: &str) -> (r: Option<String>)
    ensures
        r matches Some(s) ==> spec_setup_fen(fen@) == Some(s@),
        r is None ==> spec_setup_fen(fen@) is None,
{
    let setup: Fen = fen.parse().ok()?;
    Some(setup.to_string())
}

/// `San::from_str` on the text.
#[verifier::external_body]
pub(crate) fn san_parses(san: &str) -> (r: bool)
    ensures
        r == spec_san_parses(san@),
{
    san.parse::<San>().is_ok()
}

/// `San::to_move` in the position of `fen`, `play_unchecked`, and the FEN after the move.
/// The squares are shakmaty's own `Square` values, so they are below 64.
#[verifier::external_body]
pub(crate) fn play_san(fen: &str, san: &str) -> (r: Option<(String, String, Key, Key)>)
    ensures
        r matches Some((f, s, o, d)) ==> spec_play_san(fen@, san@) == Some((f@, s@, o.index, d.index))
            && key_wf(o) && key_wf(d),
        r is None ==> spec_play_san(fen@, san@) is None,
{
    let setup: Fen = fen.parse().ok()?;
    let mut pos: Chess = setup.into_position(CastlingMode::Standard).ok()?;
    let san: San = san.parse().ok()?;
    let m = san.to_move(&pos).ok()?;
    let (from, to) = (m.from()?, m.to());
    pos.play_unchecked(&m);
    let after = Fen::from_position(pos, EnPassantMode::Legal).to_string();
    Some((after, san.to_string(), Key { index: from as u8 }, Key { index: to as u8 }))
}

/// Whether UCI move notation reads the text.
pub fn uci_parses(uci: &str) -> (r: bool)
    ensures
        r == spec_uci_parses(uci@),
{
    let v = chars_of(uci);
    let mut i: usize = 0;
    while i < v.len()
        invariant
            i <= v@.len(),
            v@ == uci@,
            forall|k: int| 0 <= k < i ==> (#[trigger] v@[k] as u32) < 128,
        decreases v@.len() - i,
    {
        if (v[i] as u32) >= 128 {
            return false;
        }
        i += 1;
    }
    if v.len() != 4 && v.len() != 5 {
        return false;
    }
    proof {
        reveal_strlit("0000");
    }
    if v.len() == 4 && v[0] == '0' && v[1] == '0' && v[2] == '0' && v[3] == '0' {
        assert(uci@ =~= "0000"@);
        return true;
    }
    assert(uci@ != "0000"@) by {
        if uci@ == "0000"@ {
            assert(uci@[0] == '0' && uci@[1] == '0' && uci@[2] == '0' && uci@[3] == '0');
        }
    }
    let file = |c: char| -> (b: bool) ensures b == is_file_char(c) { 'a' <= c && c <= 'h' };
    let rank = |c: char| -> (b: bool) ensures b == is_rank_char(c) { '1' <= c && c <= '8' };
    let role = |c: char| -> (b: bool)
        ensures
            b == is_role_char(c),
    {
        c == 'P' || c == 'N' || c == 'B' || c == 'R' || c == 'Q' || c == 'K' || c == 'p' || c == 'n' || c == 'b'
            || c == 'r' || c == 'q' || c == 'k'
    };
    if !(file(v[2]) && rank(v[3])) {
        return false;
    }
    if v[1] == '@' {
        role(v[0])
    } else {
        file(v[0]) && rank(v[1]) && (v.len() == 4 || role(v[4]))
    }
}

/// `UciMove::to_move` in the position of `fen`, `San::from_move`, `play_unchecked`, and the
/// FEN after the move.
#[verifier::external_body]
pub(crate) fn play_uci(fen: &str, uci: &str) -> (r: Option<(String, String, Key, Key)>)
    ensures
        r matches Some((f, s, o, d)) ==> spec_play_uci(fen@, uci@) == Some((f@, s@, o.index, d.index))
            && key_wf(o) && key_wf(d),
        r is None ==> spec_play_uci(fen@, uci@) is None,
{
    let setup: Fen = fen.parse().ok()?;
    let mut pos: Chess = setup.into_position(CastlingMode::Standard).ok()?;
    let uci: UciMove = uci.parse().ok()?;
    let m = uci.to_move(&pos).ok()?;
    let label = San::from_move(&pos, &m).to_string();
    let (from, to) = (m.from()?, m.to());
    pos.play_unchecked(&m);
    let after = Fen::from_position(pos, EnPassantMode::Legal).to_string();
    Some((after, label, Key { index: from as u8 }, Key { index: to as u8 }))
}

/// The squares of UCI text that is an ordinary move.
pub fn uci_squares(uci: &str) -> (r: Option<(Key, Key)>)
    ensures
        r matches Some((o, d)) ==> spec_uci_squares(uci@) == Some((o.index, d.index)) && key_wf(o)
            && key_wf(d),
        r is None ==> spec_uci_squares(uci@) is None,
{
    if !uci_parses(uci) {
        return None;
    }
    let v = chars_of(uci);
    proof {
        reveal_strlit("0000");
    }
    if v.len() == 4 && v[0] == '0' && v[1] == '0' && v[2] == '0' && v[3] == '0' {
        assert(uci@ =~= "0000"@);
        return None;
    }
    if v[1] == '@' {
        return None;
    }
    assert(uci@ != "0000"@) by {
        if uci@ == "0000"@ {
            assert(uci@[0] == '0' && uci@[1] == '0' && uci@[2] == '0' && uci@[3] == '0');
        }
    }
    let o: u32 = (v[0] as u32 - 97) + 8 * (v[1] as u32 - 49);
    let d: u32 = (v[2] as u32 - 97) + 8 * (v[3] as u32 - 49);
    Some((Key { index: o as u8 }, Key { index: d as u8 }))
}

/// `Position::legal_moves` of the position of `fen`, each move given by its squares.
#[verifier::external_body]
pub(crate) fn legal_moves(fen: &str) -> (r: Option<Vec<(Key, Key)>>)
    ensures
        r matches Some(v) ==> spec_legal_moves(fen@) == Some(v@.map_values(
            |p: (Key, Key)| (p.0.index, p.1.index),
        )) && forall|i: int| 0 <= i < v@.len() ==> key_wf(#[trigger] v@[i].0) && key_wf(v@[i].1),
        r is None ==> spec_legal_moves(fen@) is None,
{
    let setup: Fen = fen.parse().ok()?;
    let pos: Chess = setup.into_position(CastlingMode::Standard).ok()?;
    pos.legal_moves().iter().map(|m| m.from().map(|from| (Key { index: from as u8 }, Key {
        index: m.to() as u8,
    }))).collect()
}

/// Plays legal move number `index` of `Position::legal_moves`: `San::from_move`,
/// `play_unchecked`, and the FEN after it. A move of that list can always be played.
#[verifier::external_body]
pub(crate) fn play_legal(fen: &str, index: usize) -> (r: (String, String))
    requires
        spec_legal_moves(fen@) matches Some(ms) && index < ms.len(),
    ensures
        spec_play_legal(fen@, index as nat) == Some((r.0@, r.1@)),
{
    let setup: Fen = fen.parse().unwrap();
    let mut pos: Chess = setup.into_position(CastlingMode::Standard).unwrap();
    let m = pos.legal_moves()[index].clone();
    let label = San::from_move(&pos, &m).to_string();
    pos.play_unchecked(&m);
    (Fen::from_position(pos, EnPassantMode::Legal).to_string(), label)
}

/// The FEN of `Chess::default()`, the standard starting position.
#[verifier::external_body]
pub(crate) fn initial_fen() -> (r: String)
    ensures
        r@ == initial_fen_text(),
{
    Fen::from_position(Chess::default(), EnPassantMode::Legal).to_string()
}

pub open spec fn initial_fen_text() -> Seq<char> {
    "rnbqkbnr/pppppppp/8/8/8/8/PPPPPPPP/RNBQKBNR w KQkq - 0 1"@
}

/// The simplified FEN of the starting position.
pub open spec fn start_fen_text() -> Seq<char> {
    simplified(initial_fen_text())
}

pub fn start_fen() -> (r: String)
    ensures
        r@ == start_fen_text(),
{
    let f = initial_fen();
    simplified_fen(f.as_str())
}

// ---------------------------------------------------------------- moves on keys

/// The result of playing a move: simplified FEN after it, its SAN, and its squares.
pub open spec fn move_outcome(r: Option<(Seq<char>, Seq<char>, u8, u8)>) -> Option<(Seq<char>, Seq<char>, u8, u8)> {
    match r {
        Some((f, s, o, d)) => Some((simplified(f), s, o, d)),
        None => None,
    }
}

/// Plays SAN `san` at `fen`; `Ok` holds the simplified FEN after it, the SAN, and its squares.
pub fn play_san_at(fen: &str, san: &str) -> (r: Result<(String, String, Key, Key), String>)
    ensures
        match r {
            Ok((f, s, o, d)) => spec_san_parses(san@) && move_outcome(spec_play_san(fen@, san@))
                == Some((f@, s@, o.index, d.index)) && key_wf(o) && key_wf(d),
            Err(e) => if spec_san_parses(san@) {
                spec_play_san(fen@, san@) is None && e@ == "illegal SAN"@
            } else {
                e@ == "invalid SAN"@
            },
        },
{
    if !san_parses(san) {
        return Err(String::from_str("invalid SAN"));
    }
    match play_san(fen, san) {
        Some((after, label, o, d)) => Ok((simplified_fen(after.as_str()), label, o, d)),
        None => Err(String::from_str("illegal SAN")),
    }
}

/// Index of the first legal move from `o` to `d`.
pub open spec fn first_move_index(ms: Seq<(u8, u8)>, o: u8, d: u8) -> Option<nat> {
    if exists|i: int| 0 <= i < ms.len() && ms[i] == (o, d) {
        let i = choose|i: int|
            0 <= i < ms.len() && ms[i] == (o, d) && forall|j: int| 0 <= j < i ==> ms[j] != (o, d);
        Some(i as nat)
    } else {
        None
    }
}

/// What `play_move_keys` gives for a position, origin and target.
pub open spec fn spec_move_keys(fen: Seq<char>, o: u8, d: u8) -> Result<(Seq<char>, Seq<char>, u8, u8), ()> {
    match spec_legal_moves(fen) {
        None => Err(()),
        Some(ms) => match first_move_index(ms, o, d) {
            None => Err(()),
            Some(i) => match spec_play_legal(fen, i) {
                Some((f, s)) => Ok((simplified(f), s, o, d)),
                None => Err(()),
            },
        },
    }
}

proof fn lemma_first_move_index(ms: Seq<(u8, u8)>, o: u8, d: u8, i: int)
    requires
        0 <= i < ms.len(),
        ms[i] == (o, d),
        forall|j: int| 0 <= j < i ==> ms[j] != (o, d),
    ensures
        first_move_index(ms, o, d) == Some(i as nat),
{
    let c = choose|c: int|
        0 <= c < ms.len() && ms[c] == (o, d) && forall|j: int| 0 <= j < c ==> ms[j] != (o, d);
    assert(0 <= c < ms.len() && ms[c] == (o, d) && forall|j: int| 0 <= j < c ==> ms[j] != (o, d));
    if c < i {
        assert(ms[c] != (o, d));
    } else if c > i {
        assert(ms[i] != (o, d));
    }
}

/// The message for a FEN that names no legal position: one that does not parse is
/// invalid, one that parses is illegal.
pub open spec fn position_error_text(fen: Seq<char>) -> Seq<char> {
    if spec_fen_parses(fen) {
        "illegal position: "@ + fen
    } else {
        "invalid FEN: "@ + fen
    }
}

/// The message when no legal move goes from square `o` to square `d` at `fen`.
pub open spec fn move_keys_error(fen: Seq<char>, o: u8, d: u8) -> Seq<char> {
    if spec_legal_moves(fen) is None {
        position_error_text(fen)
    } else if o >= 64 {
        "invalid origin square"@
    } else if d >= 64 {
        "invalid destination square"@
    } else {
        "illegal move"@
    }
}

fn position_error(fen: &str) -> (r: String)
    ensures
        r@ == position_error_text(fen@),
{
    let mut msg: Vec<char> = Vec::new();
    if fen_parses(fen) {
        append_str(&mut msg, "illegal position: ");
    } else {
        append_str(&mut msg, "invalid FEN: ");
    }
    append_str(&mut msg, fen);
    string_of(msg.as_slice())
}

/// Finds the legal move from `orig` to `dest` at `fen` and plays it.
pub fn play_move_keys(fen: &str, orig: &Key, dest: &Key) -> (r: Result<(String, String, Key, Key), String>)
    ensures
        match r {
            Ok((f, s, o, d)) => spec_move_keys(fen@, orig.index, dest.index) == Ok::<
                (Seq<char>, Seq<char>, u8, u8),
                (),
            >((f@, s@, o.index, d.index)) && o == *orig && d == *dest,
            Err(e) => spec_move_keys(fen@, orig.index, dest.index) is Err && e@ == move_keys_error(
                fen@,
                orig.index,
                dest.index,
            ),
        },
{
    let moves = match legal_moves(fen) {
        Some(m) => m,
        None => return Err(position_error(fen)),
    };
    let ghost ms = moves@.map_values(|p: (Key, Key)| (p.0.index, p.1.index));
    assert(spec_legal_moves(fen@) == Some(ms));
    if !(orig.index < 64) {
        assert(first_move_index(ms, orig.index, dest.index) is None);
        return Err(String::from_str("invalid origin square"));
    }
    if !(dest.index < 64) {
        assert(first_move_index(ms, orig.index, dest.index) is None);
        return Err(String::from_str("invalid destination square"));
    }
    let mut i: usize = 0;
    while i < moves.len()
        invariant
            i <= moves@.len(),
            ms == moves@.map_values(|p: (Key, Key)| (p.0.index, p.1.index)),
            spec_legal_moves(fen@) == Some(ms),
            forall|j: int| 0 <= j < i ==> ms[j] != (orig.index, dest.index),
        decreases moves@.len() - i,
    {
        let (a, b) = moves[i];
        if a.index == orig.index && b.index == dest.index {
            assert(ms[i as int] == (orig.index, dest.index));
            proof {
                lemma_first_move_index(ms, orig.index, dest.index, i as int);
            }
            assert(i < ms.len());
            let (after, label) = play_legal(fen, i);
            return Ok((simplified_fen(after.as_str()), label, *orig, *dest));
        }
        i += 1;
    }
    assert(first_move_index(ms, orig.index, dest.index) is None);
    Err(String::from_str("illegal move"))
}

// ---------------------------------------------------------------- destinations

/// Index of the first group at or after `i` whose origin is `o`, or -1.
pub open spec fn group_index_from(gs: Seq<(u8, Seq<u8>)>, o: u8, i: int) -> int
    decreases gs.len() - i,
{
    if i < 0 || i >= gs.len() {
        -1
    } else if gs[i].0 == o {
        i
    } else {
        group_index_from(gs, o, i + 1)
    }
}

/// Index of the group whose origin is `o`, or -1.
pub open spec fn group_index(gs: Seq<(u8, Seq<u8>)>, o: u8) -> int {
    group_index_from(gs, o, 0)
}

pub open spec fn add_to_groups(gs: Seq<(u8, Seq<u8>)>, m: (u8, u8)) -> Seq<(u8, Seq<u8>)> {
    let i = group_index(gs, m.0);
    if i >= 0 {
        gs.update(i, (gs[i].0, gs[i].1.push(m.1)))
    } else {
        gs.push((m.0, seq![m.1]))
    }
}

/// Targets grouped by origin, origins in order of first appearance.
pub open spec fn group_moves(ms: Seq<(u8, u8)>) -> Seq<(u8, Seq<u8>)>
    decreases ms.len(),
{
    if ms.len() == 0 {
        seq![]
    } else {
        add_to_groups(group_moves(ms.drop_last()), ms.last())
    }
}

pub open spec fn groups_view(v: Seq<(Key, Vec<Key>)>) -> Seq<(u8, Seq<u8>)> {
    v.map_values(|g: (Key, Vec<Key>)| (g.0.index, g.1@.map_values(|k: Key| k.index)))
}

pub open spec fn pairs_view(v: Seq<(Key, Key)>) -> Seq<(u8, u8)> {
    v.map_values(|p: (Key, Key)| (p.0.index, p.1.index))
}

proof fn lemma_group_index_from_range(gs: Seq<(u8, Seq<u8>)>, o: u8, i: int)
    requires
        0 <= i <= gs.len(),
    ensures
        group_index_from(gs, o, i) == -1 || i <= group_index_from(gs, o, i) < gs.len(),
    decreases gs.len() - i,
{
    if i < gs.len() && gs[i].0 != o {
        lemma_group_index_from_range(gs, o, i + 1);
    }
}

/// Targets grouped by origin square, origins in order of first appearance.
pub fn group_by_origin(moves: &[(Key, Key)]) -> (r: Vec<(Key, Vec<Key>)>)
    ensures
        groups_view(r@) == group_moves(pairs_view(moves@)),
{
    let mut r: Vec<(Key, Vec<Key>)> = Vec::new();
    let mut i: usize = 0;
    while i < moves.len()
        invariant
            i <= moves@.len(),
            groups_view(r@) == group_moves(pairs_view(moves@).take(i as int)),
        decreases moves@.len() - i,
    {
        let (o, d) = moves[i];
        let ghost gs = groups_view(r@);
        let ghost pv = pairs_view(moves@);
        assert(pv.take(i + 1).drop_last() =~= pv.take(i as int));
        assert(pv.take(i + 1).last() == (o.index, d.index));
        let mut j: usize = 0;
        while j < r.len() && r[j].0.index != o.index
            invariant
                j <= r@.len(),
                gs == groups_view(r@),
                group_index(gs, o.index) == group_index_from(gs, o.index, j as int),
            decreases r@.len() - j,
        {
            j += 1;
        }
        proof {
            lemma_group_index_from_range(gs, o.index, j as int);
        }
        assert(gs.len() == r@.len());
        if j < r.len() {
            assert(gs[j as int].0 == o.index);
            assert(group_index(gs, o.index) == j);
            r[j].1.push(d);
            assert(groups_view(r@) =~~= add_to_groups(gs, (o.index, d.index)));
        } else {
            assert(group_index(gs, o.index) == -1);
            let mut group: Vec<Key> = Vec::new();
            group.push(d);
            r.push((o, group));
            assert(groups_view(r@) =~~= add_to_groups(gs, (o.index, d.index)));
        }
        i += 1;
    }
    assert(pairs_view(moves@).take(moves@.len() as int) =~= pairs_view(moves@));
    r
}

/// Legal targets of each origin square at `fen`.
pub fn legal_dests_at(fen: &str) -> (r: Result<Vec<(Key, Vec<Key>)>, String>)
    ensures
        match r {
            Ok(g) => spec_legal_moves(fen@) matches Some(ms) && groups_view(g@) == group_moves(ms),
            Err(e) => spec_legal_moves(fen@) is None && e@ == position_error_text(fen@),
        },
{
    match legal_moves(fen) {
        Some(moves) => Ok(group_by_origin(moves.as_slice())),
        None => Err(position_error(fen)),
    }
}

} // verus!
