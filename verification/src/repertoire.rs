//! Repertoire files: their names, first contents and display names.
use vstd::prelude::*;
use crate::chess::start_fen;
use crate::move_tree::MoveTree;
use crate::pgn::{pairs_of};
use crate::pgn_tree::{format_repertoire_pgn, movetext_of_tree, pgn_text, parse_repertoire_pgn, tag_value, height};
use crate::text::{append_str, chars_of, is_ascii_alnum, string_of, trim, trim_str};

verus! {

broadcast use vstd::string::group_string_axioms;

/// What `char::is_alphanumeric` says of a character (Unicode `Alphabetic` or `Numeric`).
pub uninterp spec fn spec_is_alphanumeric(c: char) -> bool;

/// `char::is_alphanumeric`. For ASCII it holds of the letters and digits only.
#[verifier::external_body]
fn is_alphanumeric(c: char) -> (r: bool)
    ensures
        r == spec_is_alphanumeric(c),
        (c as u32) < 128 ==> (r <==> is_ascii_alnum(c)),
{
    c.is_alphanumeric()
}

/// A character kept in a file name: alphanumeric, `-` or `_`; others become `_`.
pub open spec fn file_char(c: char) -> char {
    if spec_is_alphanumeric(c) || c == '-' || c == '_' {
        c
    } else {
        '_'
    }
}

/// The trimmed name with every character other than alphanumerics, `-` and `_` replaced
/// by `_`.
pub open spec fn sanitized(name: Seq<char>) -> Seq<char> {
    trim(name).map_values(|c: char| file_char(c))
}

/// `file_char` on an ASCII character: letters and digits, `-` and `_` are kept.
pub open spec fn ascii_file_char(c: char) -> char {
    if is_ascii_alnum(c) || c == '-' || c == '_' {
        c
    } else {
        '_'
    }
}

pub fn sanitize_filename(name: &str) -> (r: String)
    ensures
        r@ == sanitized(name@),
        r@.len() == trim(name@).len(),
        forall|i: int| 0 <= i < r@.len() && (trim(name@)[i] as u32) < 128 ==> r@[i] == ascii_file_char(
            #[trigger] trim(name@)[i],
        ),
{
    let t = trim_str(name);
    let mut out: Vec<char> = Vec::new();
    let mut i: usize = 0;
    while i < t.len()
        invariant
            i <= t@.len(),
            out@ == t@.take(i as int).map_values(|c: char| file_char(c)),
            forall|j: int| 0 <= j < i && (t@[j] as u32) < 128 ==> out@[j] == ascii_file_char(#[trigger] t@[j]),
        decreases t@.len() - i,
    {
        let c = t[i];
        let k = if is_alphanumeric(c) || c == '-' || c == '_' { c } else { '_' };
        out.push(k);
        assert(out@[i as int] == k);
        i += 1;
        assert(out@ =~= t@.take(i as int).map_values(|c: char| file_char(c)));
    }
    assert(t@.take(i as int) =~= t@);
    string_of(out.as_slice())
}

/// The tag pairs of a new repertoire named `name`.
pub open spec fn first_headers(name: Seq<char>) -> Seq<(Seq<char>, Seq<char>)> {
    seq![
        ("Event"@, name),
        ("Site"@, "?"@),
        ("Date"@, "????.??.??"@),
        ("White"@, "?"@),
        ("Black"@, "?"@),
        ("Result"@, "*"@),
        ("Orientation"@, "white"@),
    ]
}

pub fn initial_headers(name: &str) -> (r: Vec<(String, String)>)
    ensures
        pairs_of(r@) == first_headers(name@),
{
    let mut v: Vec<(String, String)> = Vec::new();
    v.push((String::from_str("Event"), String::from_str(name)));
    v.push((String::from_str("Site"), String::from_str("?")));
    v.push((String::from_str("Date"), String::from_str("????.??.??")));
    v.push((String::from_str("White"), String::from_str("?")));
    v.push((String::from_str("Black"), String::from_str("?")));
    v.push((String::from_str("Result"), String::from_str("*")));
    v.push((String::from_str("Orientation"), String::from_str("white")));
    assert(pairs_of(v@) =~= first_headers(name@));
    v
}

/// The directory of repertoire files below the configuration directory.
pub fn repertoires_dir(config_dir: &str) -> (r: String)
    ensures
        r@ == config_dir@ + "/repertoires"@,
{
    let mut v = chars_of(config_dir);
    append_str(&mut v, "/repertoires");
    string_of(v.as_slice())
}

/// A new repertoire named `name`: the file name (without directory) and its first PGN; or
/// why there is none.
pub fn new_repertoire(name: &str) -> (r: Result<(String, String), String>)
    ensures
        match r {
            Ok((file, pgn)) => trim(name@).len() > 0 && sanitized(name@).len() > 0 && file@ == sanitized(name@)
                + ".pgn"@ && pgn@ == pgn_text(first_headers(trim(name@)), seq![]),
            Err(e) => (trim(name@).len() == 0 && e@ == "Repertoire name required"@) || (trim(name@).len() > 0
                && sanitized(name@).len() == 0 && e@ == "Invalid repertoire name"@),
        },
{
    let t = trim_str(name);
    if t.len() == 0 {
        return Err(String::from_str("Repertoire name required"));
    }
    let trimmed = string_of(t.as_slice());
    let slug = sanitize_filename(trimmed.as_str());
    proof {
        crate::text::lemma_trim_idempotent(name@);
    }
    if chars_of(slug.as_str()).len() == 0 {
        return Err(String::from_str("Invalid repertoire name"));
    }
    let headers = initial_headers(trimmed.as_str());
    let tree = MoveTree::from_fen(start_fen());
    assert(height(tree.root_view()) == 0);
    let pgn = format_repertoire_pgn(headers.as_slice(), &tree);
    assert(movetext_of_tree(tree.root_view()) =~= Seq::<char>::empty()) by {
        assert(crate::pgn_tree::seq_text(tree.root_view(), crate::chess::white_to_move(tree.root_view().fen), 1).0 =~= Seq::<char>::empty());
        crate::text::lemma_trim_empty();
    }
    let mut file = chars_of(slug.as_str());
    append_str(&mut file, ".pgn");
    Ok((string_of(file.as_slice()), pgn))
}

/// The message for a repertoire whose file is already there.
pub fn exists_message(name: &str) -> (r: String)
    ensures
        r@ == "Repertoire “"@ + trim(name@) + "” already exists"@,
{
    let mut v: Vec<char> = Vec::new();
    append_str(&mut v, "Repertoire “");
    let t = trim_str(name);
    crate::text::append_chars(&mut v, t.as_slice());
    append_str(&mut v, "” already exists");
    string_of(v.as_slice())
}

/// The start position of a repertoire's tree: its `FEN` tag, else the standard start.
pub open spec fn start_of(t: Seq<char>) -> Seq<char> {
    match tag_value(crate::pgn::headers_of(t), "FEN"@) {
        Some(f) => f,
        None => crate::chess::start_fen_text(),
    }
}

/// Whether the text reads as a repertoire: it has movetext whose tree can be read.
pub open spec fn reads_as_repertoire(t: Seq<char>) -> bool {
    crate::pgn::movetext_of(t) matches Some(m) && crate::pgn_tree::tree_of(m, start_of(t)) is Ok
}

/// The label of a repertoire: its `Event` tag, else `Repertoire`.
pub open spec fn event_label(t: Seq<char>) -> Seq<char> {
    match tag_value(crate::pgn::headers_of(t), "Event"@) {
        Some(e) => e,
        None => "Repertoire"@,
    }
}

/// The name a repertoire file is shown under, from its text and its file stem (each where
/// it could be had): the `Event` tag of a text that reads as a repertoire, or
/// `Repertoire` when it has none; else the file stem, else `Repertoire`.
pub fn repertoire_display_name(text: Option<&str>, stem: Option<&str>) -> (r: String)
    ensures
        r@ == (if text is Some && reads_as_repertoire(text->0@) {
            event_label(text->0@)
        } else {
            match stem {
                Some(s) => s@,
                None => "Repertoire"@,
            }
        }),
{
    match text {
        Some(t) => {
            match parse_repertoire_pgn(t) {
                Ok(game) => {
                    return game.label;
                },
                Err(_) => {},
            }
        },
        None => {},
    }
    match stem {
        Some(s) => String::from_str(s),
        None => String::from_str("Repertoire"),
    }
}

} // verus!
