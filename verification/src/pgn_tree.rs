//! PGN movetext with nested variations for repertoire trees.
use vstd::prelude::*;
use crate::chess::{fen_parses, play_san, position_fen, san_parses, simplified, simplified_fen, spec_fen_parses, spec_play_san, spec_position_fen, spec_san_parses, start_fen, Key};
use crate::graph::prefixed;
use crate::move_tree::{
    children_view, edit_at, lemma_children_view, leaf, lemma_nv_at_concat, lemma_nv_at_edit_same, node_view, nv_at, nv_edit,
    push_child, ChildEdit, MoveTree, NodeV, TreeNode,
};
use crate::pgn::{header_value, is_result, movetext_from_pgn, movetext_of, pairs_of, parse_headers, header_index_from, headers_of};
use crate::text::{append_str, char_is_digit, chars_of, cviews, is_digit, slice_to_vec, split_ws, str_eq, string_of, ws_tokens};

verus! {

broadcast use vstd::string::group_string_axioms;

// ---------------------------------------------------------------- tokens

/// A piece of movetext: a move, or the start or end of a variation.
#[derive(Debug)]
pub enum MovetextToken {
    San(String),
    VariationStart,
    VariationEnd,
}

pub enum TokV {
    San(Seq<char>),
    Start,
    End,
}

pub open spec fn tok_view(t: MovetextToken) -> TokV {
    match t {
        MovetextToken::San(s) => TokV::San(s@),
        MovetextToken::VariationStart => TokV::Start,
        MovetextToken::VariationEnd => TokV::End,
    }
}

/// `s[i..]` without `{...}` comments and with a space on each side of `(` and `)`.
pub open spec fn spaced(s: Seq<char>, i: int, in_comment: bool) -> Seq<char>
    decreases s.len() - i,
{
    if i < 0 || i >= s.len() {
        seq![]
    } else if in_comment {
        spaced(s, i + 1, s[i] != '}')
    } else if s[i] == '{' {
        spaced(s, i + 1, true)
    } else if s[i] == '(' || s[i] == ')' {
        seq![' ', s[i], ' '] + spaced(s, i + 1, false)
    } else {
        seq![s[i]] + spaced(s, i + 1, false)
    }
}

/// Only digits and dots.
pub open spec fn move_number_like(t: Seq<char>) -> bool {
    forall|k: int| 0 <= k < t.len() ==> is_digit(#[trigger] t[k]) || t[k] == '.'
}

/// First index at or after `i` that holds no digit.
pub open spec fn digits_end(t: Seq<char>, i: int) -> int
    decreases t.len() - i,
{
    if 0 <= i < t.len() && is_digit(t[i]) {
        digits_end(t, i + 1)
    } else {
        i
    }
}

/// A move token without its leading move number: digits, then `...` or `.`.
pub open spec fn strip_number(t: Seq<char>) -> Seq<char> {
    let a = t.skip(digits_end(t, 0));
    let b = if a.len() >= 3 && a.take(3) == "..."@ { a.skip(3) } else { a };
    if b.len() >= 1 && b[0] == '.' { b.skip(1) } else { b }
}

/// The tokens of words `ws[k..]`: a result ends them, parentheses open and close
/// variations, move numbers are left out, and moves lose a leading move number.
pub open spec fn tree_tokens(ws: Seq<Seq<char>>, k: int) -> Seq<TokV>
    decreases ws.len() - k,
{
    if k < 0 || k >= ws.len() {
        seq![]
    } else {
        let w = ws[k];
        if is_result(w) {
            seq![]
        } else if w == "("@ {
            seq![TokV::Start] + tree_tokens(ws, k + 1)
        } else if w == ")"@ {
            seq![TokV::End] + tree_tokens(ws, k + 1)
        } else if move_number_like(w) {
            tree_tokens(ws, k + 1)
        } else if strip_number(w).len() > 0 {
            seq![TokV::San(strip_number(w))] + tree_tokens(ws, k + 1)
        } else {
            tree_tokens(ws, k + 1)
        }
    }
}

pub open spec fn movetext_tokens(text: Seq<char>) -> Seq<TokV> {
    tree_tokens(ws_tokens(spaced(text, 0, false)), 0)
}

pub open spec fn toks_view(v: Seq<MovetextToken>) -> Seq<TokV> {
    v.map_values(|t: MovetextToken| tok_view(t))
}

fn is_move_number(t: &[char]) -> (r: bool)
    ensures
        r == move_number_like(t@),
{
    let mut i: usize = 0;
    while i < t.len()
        invariant
            i <= t@.len(),
            forall|k: int| 0 <= k < i ==> is_digit(#[trigger] t@[k]) || t@[k] == '.',
        decreases t@.len() - i,
    {
        if !(char_is_digit(t[i]) || t[i] == '.') {
            return false;
        }
        i += 1;
    }
    true
}

fn strip_move_number_prefix(t: &[char]) -> (r: Vec<char>)
    ensures
        r@ == strip_number(t@),
{
    let mut i: usize = 0;
    while i < t.len() && char_is_digit(t[i])
        invariant
            i <= t@.len(),
            digits_end(t@, 0) == digits_end(t@, i as int),
        decreases t@.len() - i,
    {
        i += 1;
    }
    let a = slice_to_vec(t, i, t.len());
    assert(a@ =~= t@.skip(i as int));
    let b = if a.len() >= 3 && a[0] == '.' && a[1] == '.' && a[2] == '.' {
        proof {
            reveal_strlit("...");
            assert(a@.take(3) =~= "..."@);
        }
        let b = slice_to_vec(a.as_slice(), 3, a.len());
        assert(b@ =~= a@.skip(3));
        b
    } else {
        proof {
            reveal_strlit("...");
            if a@.len() >= 3 && a@.take(3) == "..."@ {
                assert(a@.take(3)[0] == '.');
                assert(a@.take(3)[1] == '.');
                assert(a@.take(3)[2] == '.');
            }
        }
        a
    };
    if b.len() >= 1 && b[0] == '.' {
        let c = slice_to_vec(b.as_slice(), 1, b.len());
        assert(c@ =~= b@.skip(1));
        c
    } else {
        b
    }
}

/// The moves and variation marks of a movetext.
pub fn tokenize_movetext(text: &str) -> (r: Vec<MovetextToken>)
    ensures
        toks_view(r@) == movetext_tokens(text@),
{
    let chars = chars_of(text);
    let mut cleaned: Vec<char> = Vec::new();
    let mut in_comment = false;
    let mut i: usize = 0;
    while i < chars.len()
        invariant
            i <= chars@.len(),
            chars@ == text@,
            cleaned@ + spaced(chars@, i as int, in_comment) == spaced(chars@, 0, false),
        decreases chars@.len() - i,
    {
        let c = chars[i];
        let ghost before = cleaned@;
        if in_comment {
            in_comment = c != '}';
        } else if c == '{' {
            in_comment = true;
        } else if c == '(' || c == ')' {
            cleaned.push(' ');
            cleaned.push(c);
            cleaned.push(' ');
            assert(before + (seq![' ', c, ' '] + spaced(chars@, i + 1, false)) =~= cleaned@ + spaced(chars@, i + 1, false));
        } else {
            cleaned.push(c);
            assert(before + (seq![c] + spaced(chars@, i + 1, false)) =~= cleaned@ + spaced(chars@, i + 1, false));
        }
        i += 1;
    }
    assert(cleaned@ + spaced(chars@, i as int, in_comment) =~= cleaned@);
    let words = split_ws(cleaned.as_slice());
    let ghost wv = cviews(words@);
    let mut out: Vec<MovetextToken> = Vec::new();
    let mut k: usize = 0;
    while k < words.len()
        invariant
            k <= words@.len(),
            wv == cviews(words@),
            wv == ws_tokens(spaced(text@, 0, false)),
            toks_view(out@) + tree_tokens(wv, k as int) == tree_tokens(wv, 0),
        decreases words@.len() - k,
    {
        let w = words[k].as_slice();
        assert(wv[k as int] == w@);
        let ghost before = toks_view(out@);
        let ws = string_of(w);
        if str_eq(ws.as_str(), "1-0") || str_eq(ws.as_str(), "0-1") || str_eq(ws.as_str(), "1/2-1/2") || str_eq(ws.as_str(), "*") {
            assert(toks_view(out@) + tree_tokens(wv, k as int) =~= toks_view(out@));
            assert(toks_view(out@) + tree_tokens(wv, words@.len() as int) =~= toks_view(out@));
            k = words.len();
        } else {
            if str_eq(ws.as_str(), "(") {
                out.push(MovetextToken::VariationStart);
                assert(toks_view(out@) =~= before.push(TokV::Start));
                assert(before + tree_tokens(wv, k as int) =~= toks_view(out@) + tree_tokens(wv, k + 1));
            } else if str_eq(ws.as_str(), ")") {
                out.push(MovetextToken::VariationEnd);
                assert(toks_view(out@) =~= before.push(TokV::End));
                assert(before + tree_tokens(wv, k as int) =~= toks_view(out@) + tree_tokens(wv, k + 1));
            } else if is_move_number(w) {
            } else {
                let san = strip_move_number_prefix(w);
                if san.len() > 0 {
                    out.push(MovetextToken::San(string_of(san.as_slice())));
                    assert(toks_view(out@) =~= before.push(TokV::San(san@)));
                    assert(before + tree_tokens(wv, k as int) =~= toks_view(out@) + tree_tokens(wv, k + 1));
                }
            }
            k += 1;
        }
    }
    assert(toks_view(out@) + tree_tokens(wv, k as int) =~= toks_view(out@));
    out
}


// ---------------------------------------------------------------- reading a tree

/// Reading the FEN of a position, as the parser does at the start of a line: the text
/// itself where it describes a legal position, else the error.
pub open spec fn sync_fen(fen: Seq<char>) -> Result<Seq<char>, Seq<char>> {
    if !spec_fen_parses(fen) {
        Err("invalid FEN: "@ + fen)
    } else if spec_position_fen(fen) is None {
        Err("invalid position: "@ + fen)
    } else {
        Ok(fen)
    }
}

/// The tree built from tokens `toks[i..]`: `path` leads to the node the next move
/// follows, `stack` holds the paths of the lines that open variations wait to resume,
/// and `board` is the position to play in. A move becomes the last child of the node at
/// `path`; `(` starts a line from the parent of that node; `)` resumes the line that
/// opened it, and ends the reading where none did.
pub open spec fn parse_run(
    root: NodeV,
    toks: Seq<TokV>,
    i: int,
    path: Seq<usize>,
    stack: Seq<Seq<usize>>,
    board: Seq<char>,
) -> Result<NodeV, Seq<char>>
    decreases toks.len() - i,
{
    if i < 0 || i >= toks.len() {
        if stack.len() > 0 {
            Err("Unclosed variation"@)
        } else {
            Ok(root)
        }
    } else {
        match toks[i] {
            TokV::End => if stack.len() == 0 {
                Ok(root)
            } else {
                let p = stack.last();
                match sync_fen(nv_at(root, p)->0.fen) {
                    Err(e) => Err(e),
                    Ok(b) => parse_run(root, toks, i + 1, p, stack.drop_last(), b),
                }
            },
            TokV::Start => {
                let pp = if path.len() > 0 { path.drop_last() } else { path };
                match sync_fen(nv_at(root, pp)->0.fen) {
                    Err(e) => Err(e),
                    Ok(b) => parse_run(root, toks, i + 1, pp, stack.push(path), b),
                }
            },
            TokV::San(s) => if !spec_san_parses(s) {
                Err("invalid SAN: "@ + s)
            } else {
                match spec_play_san(board, s) {
                    None => Err("illegal move: "@ + s),
                    Some((after, _label, o, d)) => {
                        let n = nv_at(root, path)->0.children.len();
                        parse_run(
                            nv_edit(root, path, push_child(leaf(simplified(after), s, o, d))),
                            toks,
                            i + 1,
                            path.push(n as usize),
                            stack,
                            after,
                        )
                    },
                }
            },
        }
    }
}

/// The tree of a movetext read from the position of `start_fen`.
pub open spec fn tree_of(movetext: Seq<char>, start_fen: Seq<char>) -> Result<NodeV, Seq<char>> {
    match sync_fen(start_fen) {
        Err(e) => Err(e),
        Ok(_) => {
            let rf = simplified(spec_position_fen(start_fen)->0);
            match sync_fen(rf) {
                Err(e) => Err(e),
                Ok(b) => parse_run(
                    NodeV { fen: rf, san: None, orig: None, dest: None, children: seq![] },
                    movetext_tokens(movetext),
                    0,
                    seq![],
                    seq![],
                    b,
                ),
            }
        },
    }
}

/// Adding a child keeps every path into the tree a path into it.
proof fn lemma_push_keeps_path(n: NodeV, q: Seq<usize>, c: NodeV, p: Seq<usize>)
    requires
        nv_at(n, q) is Some,
        nv_at(n, p) is Some,
    ensures
        nv_at(nv_edit(n, q, push_child(c)), p) is Some,
    decreases p.len(),
{
    if p.len() > 0 {
        let e = nv_edit(n, q, push_child(c));
        if q.len() == 0 {
            assert(e.children[p[0] as int] == n.children[p[0] as int]);
        } else if p[0] != q[0] {
            assert(e.children[p[0] as int] == n.children[p[0] as int]);
        } else {
            lemma_push_keeps_path(n.children[p[0] as int], q.skip(1), c, p.skip(1));
        }
    }
}

/// The node at `path`, which must exist.
fn node_ref<'a>(root: &'a TreeNode, path: &[usize]) -> (r: &'a TreeNode)
    requires
        nv_at(node_view(*root), path@) is Some,
    ensures
        node_view(*r) == nv_at(node_view(*root), path@)->0,
{
    let mut node = root;
    let mut i: usize = 0;
    assert(path@.skip(0) =~= path@);
    while i < path.len()
        invariant
            i <= path@.len(),
            nv_at(node_view(*root), path@) is Some,
            nv_at(node_view(*root), path@) == nv_at(node_view(*node), path@.skip(i as int)),
        decreases path@.len() - i,
    {
        let index = path[i];
        proof {
            lemma_children_view(node.children@);
        }
        assert(path@.skip(i as int)[0] == index);
        assert(path@.skip(i as int).skip(1) =~= path@.skip(i + 1));
        node = &node.children[index];
        i += 1;
    }
    assert(path@.skip(i as int) =~= Seq::<usize>::empty());
    node
}

/// `fen_to_chess`: the FEN text where it reads as a legal position.
fn sync_board(fen: &str) -> (r: Result<String, String>)
    ensures
        match r {
            Ok(b) => sync_fen(fen@) == Ok::<Seq<char>, Seq<char>>(b@),
            Err(e) => sync_fen(fen@) == Err::<Seq<char>, Seq<char>>(e@),
        },
{
    if !fen_parses(fen) {
        return Err(prefixed("invalid FEN: ", fen));
    }
    if position_fen(fen).is_none() {
        return Err(prefixed("invalid position: ", fen));
    }
    Ok(String::from_str(fen))
}

pub open spec fn paths_view(v: Seq<Vec<usize>>) -> Seq<Seq<usize>> {
    v.map_values(|p: Vec<usize>| p@)
}

fn copy_path(p: &[usize]) -> (r: Vec<usize>)
    ensures
        r@ == p@,
{
    let r = crate::move_tree::path_prefix(p, p.len());
    assert(r@ =~= p@);
    r
}

/// The move tree of a movetext read from the position of `start_fen`.
pub fn parse_movetext_tree(movetext: &str, start_fen: &str) -> (r: Result<MoveTree, String>)
    ensures
        match r {
            Ok(t) => tree_of(movetext@, start_fen@) == Ok::<NodeV, Seq<char>>(t.root_view()) && t.position@.len() == 0
                && !t.variation_mode,
            Err(e) => tree_of(movetext@, start_fen@) == Err::<NodeV, Seq<char>>(e@),
        },
{
    let first = match sync_board(start_fen) {
        Ok(b) => b,
        Err(e) => return Err(e),
    };
    let full = match position_fen(first.as_str()) {
        Some(f) => f,
        None => return Err(prefixed("invalid position: ", start_fen)),
    };
    let mut root = TreeNode { fen: simplified_fen(full.as_str()), san: None, orig: None, dest: None, children: Vec::new() };
    assert(children_view(root.children@) =~= Seq::<NodeV>::empty());
    let mut board = match sync_board(root.fen.as_str()) {
        Ok(b) => b,
        Err(e) => return Err(e),
    };
    let toks = tokenize_movetext(movetext);
    let ghost tv = toks_view(toks@);
    let ghost goal = tree_of(movetext@, start_fen@);
    let mut path: Vec<usize> = Vec::new();
    let mut stack: Vec<Vec<usize>> = Vec::new();
    let mut i: usize = 0;
    let mut stopped = false;
    assert(paths_view(stack@) =~= Seq::<Seq<usize>>::empty());
    assert(path@ =~= Seq::<usize>::empty());
    assert(node_view(root) == (NodeV { fen: root.fen@, san: None, orig: None, dest: None, children: seq![] }));
    while i < toks.len() && !stopped
        invariant
            i <= toks@.len(),
            tv == toks_view(toks@),
            tv == movetext_tokens(movetext@),
            goal == tree_of(movetext@, start_fen@),
            nv_at(node_view(root), path@) is Some,
            forall|k: int| 0 <= k < stack@.len() ==> nv_at(node_view(root), #[trigger] stack@[k]@) is Some,
            stopped ==> goal == Ok::<NodeV, Seq<char>>(node_view(root)),
            !stopped ==> goal == parse_run(node_view(root), tv, i as int, path@, paths_view(stack@), board@),
        decreases toks@.len() - i + (if stopped { 0int } else { 1int }),
    {
        assert(tv[i as int] == tok_view(toks@[i as int]));
        match &toks[i] {
            MovetextToken::VariationEnd => {
                if stack.len() == 0 {
                    stopped = true;
                } else {
                    let ghost sv = paths_view(stack@);
                    let p = stack.pop().unwrap();
                    assert(paths_view(stack@) =~= sv.drop_last());
                    assert(sv.last() == p@);
                    let node = node_ref(&root, p.as_slice());
                    board = match sync_board(node.fen.as_str()) {
                        Ok(b) => b,
                        Err(e) => return Err(e),
                    };
                    path = p;
                    i += 1;
                }
            },
            MovetextToken::VariationStart => {
                let pp = if path.len() > 0 {
                    let q = crate::move_tree::path_prefix(path.as_slice(), path.len() - 1);
                    assert(q@ =~= path@.drop_last());
                    proof {
                        crate::move_tree::lemma_nv_at_prefix(node_view(root), path@, path@.len() - 1);
                    }
                    q
                } else {
                    copy_path(path.as_slice())
                };
                let node = node_ref(&root, pp.as_slice());
                board = match sync_board(node.fen.as_str()) {
                    Ok(b) => b,
                    Err(e) => return Err(e),
                };
                let ghost sv = paths_view(stack@);
                let old_path = copy_path(path.as_slice());
                stack.push(old_path);
                assert(paths_view(stack@) =~= sv.push(path@));
                path = pp;
                i += 1;
            },
            MovetextToken::San(s) => {
                if !san_parses(s.as_str()) {
                    return Err(prefixed("invalid SAN: ", s.as_str()));
                }
                match play_san(board.as_str(), s.as_str()) {
                    None => {
                        return Err(prefixed("illegal move: ", s.as_str()));
                    },
                    Some((after, _label, o, d)) => {
                        let pnode = node_ref(&root, path.as_slice());
                        proof {
                            lemma_children_view(pnode.children@);
                        }
                        let n = pnode.children.len();
                        let child = TreeNode {
                            fen: simplified_fen(after.as_str()),
                            san: Some(s.clone()),
                            orig: Some(o),
                            dest: Some(d),
                            children: Vec::new(),
                        };
                        assert(children_view(child.children@) =~= Seq::<NodeV>::empty());
                        let ghost r0 = node_view(root);
                        let ghost cv = node_view(child);
                        assert(path@.skip(0) =~= path@);
                        edit_at(&mut root, path.as_slice(), 0, ChildEdit::Push(child));
                        proof {
                            assert forall|k: int| 0 <= k < stack@.len() implies nv_at(node_view(root), #[trigger] stack@[k]@) is Some by {
                                lemma_push_keeps_path(r0, path@, cv, stack@[k]@);
                            }
                            lemma_nv_at_edit_same(r0, path@, push_child(cv));
                            let p1 = nv_at(node_view(root), path@)->0;
                            lemma_nv_at_concat(node_view(root), path@, seq![n]);
                            assert(seq![n].skip(1) =~= Seq::<usize>::empty());
                            assert(nv_at(p1.children[n as int], Seq::<usize>::empty()) is Some);
                        }
                        let ghost pv = path@;
                        path.push(n);
                        assert(path@ =~= pv + seq![n]);
                        board = after;
                        i += 1;
                    },
                }
            },
        }
    }
    if !stopped && stack.len() > 0 {
        return Err(String::from_str("Unclosed variation"));
    }
    Ok(MoveTree { root, position: Vec::new(), variation_mode: false })
}


/// A repertoire read from PGN.
#[derive(Debug)]
pub struct ParsedRepertoire {
    pub label: String,
    pub headers: Vec<(String, String)>,
    pub tree: MoveTree,
}

/// The value of the first tag `tag` among `hs`.
pub open spec fn tag_value(hs: Seq<(Seq<char>, Seq<char>)>, tag: Seq<char>) -> Option<Seq<char>> {
    let i = header_index_from(hs, tag, 0);
    if i >= 0 {
        Some(hs[i].1)
    } else {
        None
    }
}

/// A repertoire from PGN: its tag pairs, its tree read from the `FEN` tag's position
/// (the standard start without one), and its `Event` as label (`Repertoire` without one).
pub fn parse_repertoire_pgn(pgn: &str) -> (r: Result<ParsedRepertoire, String>)
    ensures
        match r {
            Ok(p) => {
                &&& pairs_of(p.headers@) == headers_of(pgn@)
                &&& movetext_of(pgn@) matches Some(m) && tree_of(
                    m,
                    match tag_value(headers_of(pgn@), "FEN"@) {
                        Some(f) => f,
                        None => crate::chess::start_fen_text(),
                    },
                ) == Ok::<NodeV, Seq<char>>(p.tree.root_view())
                &&& p.tree.position@.len() == 0
                &&& !p.tree.variation_mode
                &&& p.label@ == match tag_value(headers_of(pgn@), "Event"@) {
                    Some(e) => e,
                    None => "Repertoire"@,
                }
            },
            Err(e) => (movetext_of(pgn@) is None && e@ == "PGN has no movetext"@) || (movetext_of(pgn@) matches Some(m)
                && tree_of(
                m,
                match tag_value(headers_of(pgn@), "FEN"@) {
                    Some(f) => f,
                    None => crate::chess::start_fen_text(),
                },
            ) == Err::<NodeV, Seq<char>>(e@)),
        },
{
    let headers = parse_headers(pgn);
    let movetext = match movetext_from_pgn(pgn) {
        Some(m) => m,
        None => return Err(String::from_str("PGN has no movetext")),
    };
    let start = match header_value(&headers, "FEN") {
        Some(f) => f,
        None => start_fen(),
    };
    let tree = match parse_movetext_tree(movetext.as_str(), start.as_str()) {
        Ok(t) => t,
        Err(e) => return Err(e),
    };
    let label = match header_value(&headers, "Event") {
        Some(e) => e,
        None => String::from_str("Repertoire"),
    };
    Ok(ParsedRepertoire { label, headers, tree })
}

// ---------------------------------------------------------------- writing a tree

/// How a move is numbered: `1. e4` for white, `e5` for black answering on the same line,
/// `1... c5` for black starting a variation.
#[derive(Clone, Copy, Debug, PartialEq, Eq, Structural)]
pub enum MovePrefix {
    MainlineWhite,
    MainlineBlack,
    VariationWhite,
    VariationBlack,
}

pub open spec fn san_text(n: NodeV) -> Seq<char> {
    match n.san {
        Some(s) => s,
        None => "--"@,
    }
}

/// The text of one move: its number as `prefix` asks, its SAN, and a space when it has
/// continuations.
pub open spec fn move_text(n: NodeV, mn: nat, prefix: MovePrefix) -> Seq<char> {
    let t = match prefix {
        MovePrefix::MainlineWhite | MovePrefix::VariationWhite => crate::text::dec(mn) + ". "@ + san_text(n),
        MovePrefix::VariationBlack => crate::text::dec(mn) + "... "@ + san_text(n),
        MovePrefix::MainlineBlack => san_text(n),
    };
    if n.children.len() > 0 {
        t + " "@
    } else {
        t
    }
}

/// The move number after a move by the side `white` says.
pub open spec fn next_number(mn: nat, white: bool) -> nat {
    if white {
        mn
    } else {
        mn + 1
    }
}

/// How far the tree reaches below `n`.
pub open spec fn height(n: NodeV) -> nat
    decreases n, 1int, 0int,
{
    max_height(n, 0)
}

pub open spec fn max_height(n: NodeV, k: int) -> nat
    decreases n, 0int, n.children.len() - k,
{
    if k < 0 || k >= n.children.len() {
        0
    } else {
        let h = 1 + height(n.children[k]);
        let r = max_height(n, k + 1);
        if h > r {
            h
        } else {
            r
        }
    }
}

proof fn lemma_height_child(n: NodeV, k: int, j: int)
    requires
        0 <= j <= k < n.children.len(),
    ensures
        height(n.children[k]) + 1 <= max_height(n, j),
    decreases k - j,
{
    if j < k {
        lemma_height_child(n, k, j + 1);
    }
}

/// The movetext of the continuations of `parent`, `white` to move with move number
/// `mn`: the first child's move, the other children as variations in parentheses, then
/// the first child's continuations. Also the move number after it.
pub open spec fn seq_text(parent: NodeV, white: bool, mn: nat) -> (Seq<char>, nat)
    decreases parent, 2int, 0int,
{
    if parent.children.len() == 0 {
        (seq![], mn)
    } else {
        let main = parent.children[0];
        let prefix = if white { MovePrefix::MainlineWhite } else { MovePrefix::MainlineBlack };
        let t1 = move_text(main, mn, prefix);
        let mn1 = next_number(mn, white);
        let vt = vars_text(parent, 1, mn);
        let rest = seq_text(main, !white, mn1);
        (t1 + vt + rest.0, rest.1)
    }
}

/// The variations `parent.children[k..]`, each ` (...)`, numbered from `bmn`.
pub open spec fn vars_text(parent: NodeV, k: int, bmn: nat) -> Seq<char>
    decreases parent, 1int, parent.children.len() - k,
{
    if k < 1 || k >= parent.children.len() {
        seq![]
    } else {
        " ("@ + var_text(parent.children[k], crate::chess::white_to_move(parent.fen), bmn) + ")"@ + vars_text(
            parent,
            k + 1,
            bmn,
        )
    }
}

/// One variation: its first move, numbered as a variation, then its continuations.
pub open spec fn var_text(node: NodeV, white: bool, mn: nat) -> Seq<char>
    decreases node, 3int, 0int,
{
    let prefix = if white { MovePrefix::VariationWhite } else { MovePrefix::VariationBlack };
    let t1 = move_text(node, mn, prefix);
    if node.children.len() > 0 {
        t1 + " "@ + seq_text(node, !white, next_number(mn, white)).0
    } else {
        t1
    }
}

proof fn lemma_prefix_of_concat(a: Seq<char>, b: Seq<char>)
    ensures
        a.is_prefix_of(a + b),
{
    assert((a + b).subrange(0, a.len() as int) =~= a);
}

/// Each variation is numbered for the side to move where it branches off, with the move
/// number of the branch `bmn`: ` (N. san` when White is to move at its parent, ` (N... san`
/// when Black is. A reply in the variation follows after two spaces: Black's answer to a
/// White move bare, White's answer to a Black move with the next number, ` (N... san  N+1.
/// reply`.
pub proof fn law_variation_numbered_for_side_to_move(parent: NodeV, k: int, bmn: nat)
    requires
        1 <= k < parent.children.len(),
    ensures
        crate::chess::white_to_move(parent.fen) ==> (" ("@ + crate::text::dec(bmn) + ". "@ + san_text(
            parent.children[k],
        )).is_prefix_of(vars_text(parent, k, bmn)),
        !crate::chess::white_to_move(parent.fen) ==> (" ("@ + crate::text::dec(bmn) + "... "@ + san_text(
            parent.children[k],
        )).is_prefix_of(vars_text(parent, k, bmn)),
        crate::chess::white_to_move(parent.fen) && parent.children[k].children.len() > 0 ==> (" ("@ + crate::text::dec(bmn)
            + ". "@ + san_text(parent.children[k]) + "  "@ + san_text(parent.children[k].children[0])).is_prefix_of(
            vars_text(parent, k, bmn),
        ),
        !crate::chess::white_to_move(parent.fen) && parent.children[k].children.len() > 0 ==> (" ("@ + crate::text::dec(bmn)
            + "... "@ + san_text(parent.children[k]) + "  "@ + crate::text::dec(bmn + 1) + ". "@ + san_text(
            parent.children[k].children[0],
        )).is_prefix_of(vars_text(parent, k, bmn)),
{
    lemma_vars_text_unfold(parent, k, bmn);
    lemma_variation_starts(parent.children[k], crate::chess::white_to_move(parent.fen), bmn, vars_text(parent, k + 1, bmn));
}

/// What `lemma_var_text_starts` says of a variation, for its text in parentheses ahead of
/// the later ones.
proof fn lemma_variation_starts(c: NodeV, w: bool, bmn: nat, later: Seq<char>)
    ensures
        (" ("@ + crate::text::dec(bmn) + (if w { ". "@ } else { "... "@ }) + san_text(c)).is_prefix_of(
            " ("@ + var_text(c, w, bmn) + (")"@ + later),
        ),
        c.children.len() > 0 ==> (" ("@ + crate::text::dec(bmn) + (if w { ". "@ } else { "... "@ }) + san_text(c) + "  "@ + (
        if w {
            san_text(c.children[0])
        } else {
            crate::text::dec(bmn + 1) + ". "@ + san_text(c.children[0])
        })).is_prefix_of(" ("@ + var_text(c, w, bmn) + (")"@ + later)),
{
    let x = " ("@;
    let y = ")"@ + later;
    lemma_var_text_starts(c, w, bmn);
    let d = crate::text::dec(bmn);
    let mark = if w { ". "@ } else { "... "@ };
    let p1 = d + mark + san_text(c);
    lemma_prefix_wrap(p1, var_text(c, w, bmn), x, y);
    assert(x + p1 =~= x + d + mark + san_text(c));
    if c.children.len() > 0 {
        let g = c.children[0];
        let gmark = if w { san_text(g) } else { crate::text::dec(bmn + 1) + ". "@ + san_text(g) };
        let p2 = p1 + "  "@ + gmark;
        lemma_prefix_wrap(p2, var_text(c, w, bmn), x, y);
        assert(x + p2 =~= x + d + mark + san_text(c) + "  "@ + gmark);
    }
}

proof fn lemma_vars_text_unfold(parent: NodeV, k: int, bmn: nat)
    requires
        1 <= k < parent.children.len(),
    ensures
        vars_text(parent, k, bmn) =~= " ("@ + var_text(parent.children[k], crate::chess::white_to_move(parent.fen), bmn) + (")"@
            + vars_text(parent, k + 1, bmn)),
{
}

proof fn lemma_prefix_wrap(p: Seq<char>, s: Seq<char>, x: Seq<char>, y: Seq<char>)
    requires
        p.is_prefix_of(s),
    ensures
        (x + p).is_prefix_of(x + s + y),
{
    assert((x + s + y).subrange(0, (x + p).len() as int) =~= x + p);
}

/// The start of a variation's text: its first move numbered for the side `white`, then,
/// where it goes on, two spaces and the reply.
proof fn lemma_var_text_starts(c: NodeV, w: bool, bmn: nat)
    ensures
        (crate::text::dec(bmn) + (if w { ". "@ } else { "... "@ }) + san_text(c)).is_prefix_of(var_text(c, w, bmn)),
        c.children.len() > 0 ==> (crate::text::dec(bmn) + (if w { ". "@ } else { "... "@ }) + san_text(c) + "  "@ + (if w {
            san_text(c.children[0])
        } else {
            crate::text::dec(bmn + 1) + ". "@ + san_text(c.children[0])
        })).is_prefix_of(var_text(c, w, bmn)),
{
    reveal_strlit("  ");
    reveal_strlit(" ");
    let d = crate::text::dec(bmn);
    let mark = if w { ". "@ } else { "... "@ };
    let head = d + mark + san_text(c);
    let t1 = move_text(c, bmn, if w { MovePrefix::VariationWhite } else { MovePrefix::VariationBlack });
    if c.children.len() == 0 {
        assert(t1 == head);
        assert(var_text(c, w, bmn) == t1);
        lemma_prefix_of_concat(head, seq![]);
        assert(head + Seq::<char>::empty() =~= head);
    } else {
        assert(t1 == head + " "@);
        let g = c.children[0];
        let nn = next_number(bmn, w);
        let rest = seq_text(c, !w, nn);
        assert(var_text(c, w, bmn) == t1 + " "@ + rest.0);
        let gmark = if w { san_text(g) } else { crate::text::dec(bmn + 1) + ". "@ + san_text(g) };
        let gt = move_text(g, nn, if !w { MovePrefix::MainlineWhite } else { MovePrefix::MainlineBlack });
        let gsp = if g.children.len() > 0 { " "@ } else { seq![] };
        assert(gt == gmark + gsp);
        let more = vars_text(c, 1, nn) + seq_text(g, w, next_number(nn, !w)).0;
        assert(rest.0 == gt + more);
        assert("  "@ =~= " "@ + " "@);
        let head2 = head + "  "@ + gmark;
        let tail2 = gsp + more;
        assert(var_text(c, w, bmn) =~= head2 + tail2);
        lemma_prefix_of_concat(head2, tail2);
        assert(var_text(c, w, bmn) =~= head + ("  "@ + gmark + tail2));
        lemma_prefix_of_concat(head, "  "@ + gmark + tail2);
    }
}

fn write_move_line(node: &TreeNode, out: &mut Vec<char>, move_number: &mut usize, white_turn: &mut bool, prefix: MovePrefix)
    requires
        *old(move_number) < usize::MAX,
    ensures
        final(out)@ == old(out)@ + move_text(node_view(*node), *old(move_number) as nat, prefix),
        *final(move_number) == next_number(*old(move_number) as nat, *old(white_turn)),
        *final(white_turn) == !*old(white_turn),
{
    let ghost nv = node_view(*node);
    proof {
        lemma_children_view(node.children@);
    }
    let dash = String::from_str("--");
    let san: &str = match &node.san {
        Some(s) => s.as_str(),
        None => dash.as_str(),
    };
    assert(san@ == san_text(nv));
    match prefix {
        MovePrefix::MainlineWhite | MovePrefix::VariationWhite => {
            let d = crate::text::decimal(*move_number as u64);
            crate::text::append_chars(out, d.as_slice());
            append_str(out, ". ");
            append_str(out, san);
        },
        MovePrefix::VariationBlack => {
            let d = crate::text::decimal(*move_number as u64);
            crate::text::append_chars(out, d.as_slice());
            append_str(out, "... ");
            append_str(out, san);
        },
        MovePrefix::MainlineBlack => {
            append_str(out, san);
        },
    }
    if node.children.len() > 0 {
        append_str(out, " ");
    }
    if !*white_turn {
        *move_number = *move_number + 1;
    }
    *white_turn = !*white_turn;
}

fn write_sequence(parent: &TreeNode, out: &mut Vec<char>, white_to_move: bool, move_number: &mut usize)
    requires
        *old(move_number) + height(node_view(*parent)) <= usize::MAX,
    ensures
        final(out)@ == old(out)@ + seq_text(node_view(*parent), white_to_move, *old(move_number) as nat).0,
        *final(move_number) == seq_text(node_view(*parent), white_to_move, *old(move_number) as nat).1,
    decreases node_view(*parent), 2int, 0int,
{
    let ghost pv = node_view(*parent);
    proof {
        lemma_children_view(parent.children@);
    }
    if parent.children.len() == 0 {
        assert(old(out)@ + Seq::<char>::empty() =~= out@);
        return;
    }
    let main = &parent.children[0];
    assert(pv.children[0] == node_view(*main));
    proof {
        lemma_height_child(pv, 0, 0);
    }
    let branch_move_number = *move_number;
    let mut white_turn = white_to_move;
    let prefix = if white_turn { MovePrefix::MainlineWhite } else { MovePrefix::MainlineBlack };
    let ghost o0 = out@;
    write_move_line(main, out, move_number, &mut white_turn, prefix);
    let ghost o1 = out@;
    write_variations(parent, 1, out, branch_move_number);
    let ghost o2 = out@;
    write_sequence(main, out, white_turn, move_number);
    assert(out@ =~= o0 + (move_text(node_view(*main), branch_move_number as nat, prefix) + vars_text(pv, 1, branch_move_number as nat)
        + seq_text(node_view(*main), white_turn, next_number(branch_move_number as nat, white_to_move)).0));
}

fn write_variations(parent: &TreeNode, k: usize, out: &mut Vec<char>, branch_move_number: usize)
    requires
        1 <= k,
        branch_move_number + height(node_view(*parent)) <= usize::MAX,
    ensures
        final(out)@ == old(out)@ + vars_text(node_view(*parent), k as int, branch_move_number as nat),
    decreases node_view(*parent), 1int, parent.children@.len() - k,
{
    let ghost pv = node_view(*parent);
    proof {
        lemma_children_view(parent.children@);
    }
    if k >= parent.children.len() {
        assert(old(out)@ + Seq::<char>::empty() =~= out@);
        return;
    }
    let variation = &parent.children[k];
    assert(pv.children[k as int] == node_view(*variation));
    proof {
        lemma_height_child(pv, k as int, 0);
    }
    let ghost o0 = out@;
    append_str(out, " (");
    let white = crate::chess::fen_turn(parent.fen.as_str());
    write_variation_line(variation, out, white, branch_move_number);
    append_str(out, ")");
    write_variations(parent, k + 1, out, branch_move_number);
    assert(out@ =~= o0 + (" ("@ + var_text(node_view(*variation), white, branch_move_number as nat) + ")"@ + vars_text(
        pv,
        k + 1,
        branch_move_number as nat,
    )));
}

fn write_variation_line(node: &TreeNode, out: &mut Vec<char>, white_to_move: bool, move_number: usize)
    requires
        move_number + height(node_view(*node)) + 1 <= usize::MAX,
    ensures
        final(out)@ == old(out)@ + var_text(node_view(*node), white_to_move, move_number as nat),
    decreases node_view(*node), 3int, 0int,
{
    proof {
        lemma_children_view(node.children@);
    }
    let mut mn = move_number;
    let mut white_turn = white_to_move;
    let prefix = if white_turn { MovePrefix::VariationWhite } else { MovePrefix::VariationBlack };
    let ghost o0 = out@;
    write_move_line(node, out, &mut mn, &mut white_turn, prefix);
    if node.children.len() > 0 {
        let ghost o1 = out@;
        append_str(out, " ");
        write_sequence(node, out, white_turn, &mut mn);
        assert(out@ =~= o0 + (move_text(node_view(*node), move_number as nat, prefix) + " "@ + seq_text(
            node_view(*node),
            !white_to_move,
            next_number(move_number as nat, white_to_move),
        ).0));
    }
}

/// The movetext of the tree below `node`, trimmed.
pub open spec fn movetext_of_tree(node: NodeV) -> Seq<char> {
    crate::text::trim(seq_text(node, crate::chess::white_to_move(node.fen), 1).0)
}

pub fn tree_to_movetext(node: &TreeNode) -> (r: String)
    requires
        height(node_view(*node)) < usize::MAX,
    ensures
        r@ == movetext_of_tree(node_view(*node)),
{
    let mut out: Vec<char> = Vec::new();
    let mut move_number: usize = 1;
    let white = crate::chess::fen_turn(node.fen.as_str());
    write_sequence(node, &mut out, white, &mut move_number);
    let t = crate::text::trim_chars(out.as_slice());
    string_of(t.as_slice())
}

/// The tag pairs, each on a line `[Tag "value"]`, a blank line, then the movetext with a
/// `*` at the end unless it holds one.
pub open spec fn pgn_text(hs: Seq<(Seq<char>, Seq<char>)>, movetext: Seq<char>) -> Seq<char> {
    tags_text(hs) + "\n"@ + movetext + (if movetext.contains('*') {
        seq![]
    } else {
        " *"@
    })
}

pub open spec fn tags_text(hs: Seq<(Seq<char>, Seq<char>)>) -> Seq<char>
    decreases hs.len(),
{
    if hs.len() == 0 {
        seq![]
    } else {
        tags_text(hs.drop_last()) + "["@ + hs.last().0 + " \""@ + hs.last().1 + "\"]\n"@
    }
}

pub fn format_repertoire_pgn(headers: &[(String, String)], tree: &MoveTree) -> (r: String)
    requires
        height(tree.root_view()) < usize::MAX,
    ensures
        r@ == pgn_text(pairs_of(headers@), movetext_of_tree(tree.root_view())),
{
    let mut out: Vec<char> = Vec::new();
    let ghost hv = pairs_of(headers@);
    let mut i: usize = 0;
    while i < headers.len()
        invariant
            i <= headers@.len(),
            hv == pairs_of(headers@),
            out@ == tags_text(hv.take(i as int)),
        decreases headers@.len() - i,
    {
        let ghost before = out@;
        append_str(&mut out, "[");
        append_str(&mut out, headers[i].0.as_str());
        append_str(&mut out, " \"");
        append_str(&mut out, headers[i].1.as_str());
        append_str(&mut out, "\"]\n");
        assert(hv.take(i + 1).drop_last() =~= hv.take(i as int));
        assert(hv.take(i + 1).last() == (headers@[i as int].0@, headers@[i as int].1@));
        assert(out@ =~= before + "["@ + headers@[i as int].0@ + " \""@ + headers@[i as int].1@ + "\"]\n"@);
        i += 1;
    }
    assert(hv.take(i as int) =~= hv);
    append_str(&mut out, "\n");
    let movetext = tree_to_movetext(&tree.root);
    append_str(&mut out, movetext.as_str());
    let mv = chars_of(movetext.as_str());
    let mut has_star = false;
    let mut k: usize = 0;
    while k < mv.len()
        invariant
            k <= mv@.len(),
            mv@ == movetext@,
            has_star == (exists|j: int| 0 <= j < k && mv@[j] == '*'),
        decreases mv@.len() - k,
    {
        if mv[k] == '*' {
            has_star = true;
        }
        k += 1;
    }
    if !has_star {
        append_str(&mut out, " *");
    }
    string_of(out.as_slice())
}

/// The same text from tag pairs given as a list.
pub fn format_repertoire_pgn_map(headers: &Vec<(String, String)>, tree: &MoveTree) -> (r: String)
    requires
        height(tree.root_view()) < usize::MAX,
    ensures
        r@ == pgn_text(pairs_of(headers@), movetext_of_tree(tree.root_view())),
{
    format_repertoire_pgn(headers.as_slice(), tree)
}


// ---------------------------------------------------------------- clickable notation

/// One piece of inline PGN notation: plain text, or a move with the path to its node.
#[derive(Clone, Debug, PartialEq, Eq)]
pub struct NotationSegment {
    pub text: String,
    pub position: Option<Vec<usize>>,
    pub is_variation: bool,
}

pub struct SegV {
    pub text: Seq<char>,
    pub position: Option<Seq<usize>>,
    pub is_variation: bool,
}

pub open spec fn seg_view(s: NotationSegment) -> SegV {
    SegV {
        text: s.text@,
        position: match s.position {
            Some(p) => Some(p@),
            None => None,
        },
        is_variation: s.is_variation,
    }
}

pub open spec fn segs_view(v: Seq<NotationSegment>) -> Seq<SegV> {
    v.map_values(|s: NotationSegment| seg_view(s))
}

/// `out` with plain text added: joined to a last plain segment, else as a new one.
pub open spec fn pushed_text(out: Seq<SegV>, text: Seq<char>) -> Seq<SegV> {
    if text.len() == 0 {
        out
    } else if out.len() > 0 && out.last().position is None {
        out.update(out.len() - 1, SegV { text: out.last().text + text, ..out.last() })
    } else {
        out.push(SegV { text, position: None, is_variation: false })
    }
}

/// `out` with one move: its number as plain text, then the move itself.
pub open spec fn move_segs(out: Seq<SegV>, n: NodeV, path: Seq<usize>, mn: nat, var: bool, prefix: MovePrefix) -> Seq<SegV> {
    let mv = SegV { text: san_text(n), position: Some(path), is_variation: var };
    let o1 = match prefix {
        MovePrefix::MainlineWhite | MovePrefix::VariationWhite => pushed_text(out, crate::text::dec(mn) + ". "@).push(mv),
        MovePrefix::VariationBlack => pushed_text(out, crate::text::dec(mn) + "... "@).push(mv),
        MovePrefix::MainlineBlack => out.push(mv),
    };
    if n.children.len() > 0 {
        pushed_text(o1, " "@)
    } else {
        o1
    }
}

/// `seq_text` as segments, each move with its path from the root.
pub open spec fn seq_segs(parent: NodeV, path: Seq<usize>, out: Seq<SegV>, white: bool, mn: nat) -> (Seq<SegV>, nat)
    decreases parent, 2int, 0int,
{
    if parent.children.len() == 0 {
        (out, mn)
    } else {
        let main = parent.children[0];
        let mp = path.push(0);
        let prefix = if white { MovePrefix::MainlineWhite } else { MovePrefix::MainlineBlack };
        let o1 = move_segs(out, main, mp, mn, false, prefix);
        let o2 = vars_segs(parent, path, 1, o1, mn);
        seq_segs(main, mp, o2, !white, next_number(mn, white))
    }
}

pub open spec fn vars_segs(parent: NodeV, path: Seq<usize>, k: int, out: Seq<SegV>, bmn: nat) -> Seq<SegV>
    decreases parent, 1int, parent.children.len() - k,
{
    if k < 1 || k >= parent.children.len() {
        out
    } else {
        let o1 = pushed_text(out, " ("@);
        let o2 = var_segs(parent.children[k], path.push(k as usize), o1, crate::chess::white_to_move(parent.fen), bmn);
        vars_segs(parent, path, k + 1, pushed_text(o2, ")"@), bmn)
    }
}

pub open spec fn var_segs(node: NodeV, path: Seq<usize>, out: Seq<SegV>, white: bool, mn: nat) -> Seq<SegV>
    decreases node, 3int, 0int,
{
    let prefix = if white { MovePrefix::VariationWhite } else { MovePrefix::VariationBlack };
    let o1 = move_segs(out, node, path, mn, true, prefix);
    if node.children.len() > 0 {
        seq_segs(node, path, pushed_text(o1, " "@), !white, next_number(mn, white)).0
    } else {
        o1
    }
}

fn push_text(out: &mut Vec<NotationSegment>, text: &str)
    ensures
        segs_view(final(out)@) == pushed_text(segs_view(old(out)@), text@),
{
    let ghost before = segs_view(out@);
    let n = chars_of(text).len();
    if n == 0 {
        return;
    }
    let len = out.len();
    if len > 0 && out[len - 1].position.is_none() {
        let mut v = chars_of(out[len - 1].text.as_str());
        append_str(&mut v, text);
        let seg = NotationSegment { text: string_of(v.as_slice()), position: None, is_variation: out[len - 1].is_variation };
        out.set(len - 1, seg);
        assert(segs_view(out@) =~= pushed_text(before, text@));
        return;
    }
    out.push(NotationSegment { text: String::from_str(text), position: None, is_variation: false });
    assert(segs_view(out@) =~= pushed_text(before, text@));
}

fn push_move(out: &mut Vec<NotationSegment>, position: &[usize], san: &str, is_variation: bool)
    ensures
        segs_view(final(out)@) == segs_view(old(out)@).push(SegV { text: san@, position: Some(position@), is_variation }),
{
    let ghost before = segs_view(out@);
    out.push(NotationSegment { text: String::from_str(san), position: Some(copy_path(position)), is_variation });
    assert(segs_view(out@) =~= before.push(SegV { text: san@, position: Some(position@), is_variation }));
}

fn append_move_line(
    node: &TreeNode,
    path: &[usize],
    out: &mut Vec<NotationSegment>,
    move_number: &mut usize,
    white_turn: &mut bool,
    is_variation: bool,
    prefix: MovePrefix,
)
    requires
        *old(move_number) < usize::MAX,
    ensures
        segs_view(final(out)@) == move_segs(segs_view(old(out)@), node_view(*node), path@, *old(move_number) as nat, is_variation, prefix),
        *final(move_number) == next_number(*old(move_number) as nat, *old(white_turn)),
        *final(white_turn) == !*old(white_turn),
{
    let ghost nv = node_view(*node);
    proof {
        lemma_children_view(node.children@);
    }
    let dash = String::from_str("--");
    let san: &str = match &node.san {
        Some(s) => s.as_str(),
        None => dash.as_str(),
    };
    assert(san@ == san_text(nv));
    match prefix {
        MovePrefix::MainlineWhite | MovePrefix::VariationWhite => {
            let mut d = crate::text::decimal(*move_number as u64);
            append_str(&mut d, ". ");
            push_text(out, string_of(d.as_slice()).as_str());
            push_move(out, path, san, is_variation);
        },
        MovePrefix::VariationBlack => {
            let mut d = crate::text::decimal(*move_number as u64);
            append_str(&mut d, "... ");
            push_text(out, string_of(d.as_slice()).as_str());
            push_move(out, path, san, is_variation);
        },
        MovePrefix::MainlineBlack => {
            push_move(out, path, san, is_variation);
        },
    }
    if node.children.len() > 0 {
        push_text(out, " ");
    }
    if !*white_turn {
        *move_number = *move_number + 1;
    }
    *white_turn = !*white_turn;
}

fn collect_sequence(parent: &TreeNode, path: &[usize], out: &mut Vec<NotationSegment>, white_to_move: bool, move_number: &mut usize)
    requires
        *old(move_number) + height(node_view(*parent)) <= usize::MAX,
        path@.len() + height(node_view(*parent)) <= usize::MAX,
    ensures
        segs_view(final(out)@) == seq_segs(node_view(*parent), path@, segs_view(old(out)@), white_to_move, *old(move_number) as nat).0,
        *final(move_number) == seq_segs(node_view(*parent), path@, segs_view(old(out)@), white_to_move, *old(move_number) as nat).1,
    decreases node_view(*parent), 2int, 0int,
{
    let ghost pv = node_view(*parent);
    proof {
        lemma_children_view(parent.children@);
    }
    if parent.children.len() == 0 {
        return;
    }
    let main = &parent.children[0];
    assert(pv.children[0] == node_view(*main));
    proof {
        lemma_height_child(pv, 0, 0);
    }
    let branch_move_number = *move_number;
    let mut white_turn = white_to_move;
    let prefix = if white_turn { MovePrefix::MainlineWhite } else { MovePrefix::MainlineBlack };
    let mut main_path = copy_path(path);
    main_path.push(0);
    append_move_line(main, main_path.as_slice(), out, move_number, &mut white_turn, false, prefix);
    collect_variations(parent, path, 1, out, branch_move_number);
    collect_sequence(main, main_path.as_slice(), out, white_turn, move_number);
}

fn collect_variations(parent: &TreeNode, path: &[usize], k: usize, out: &mut Vec<NotationSegment>, branch_move_number: usize)
    requires
        1 <= k,
        branch_move_number + height(node_view(*parent)) <= usize::MAX,
        path@.len() + height(node_view(*parent)) <= usize::MAX,
    ensures
        segs_view(final(out)@) == vars_segs(node_view(*parent), path@, k as int, segs_view(old(out)@), branch_move_number as nat),
    decreases node_view(*parent), 1int, parent.children@.len() - k,
{
    let ghost pv = node_view(*parent);
    proof {
        lemma_children_view(parent.children@);
    }
    if k >= parent.children.len() {
        return;
    }
    let variation = &parent.children[k];
    assert(pv.children[k as int] == node_view(*variation));
    proof {
        lemma_height_child(pv, k as int, 0);
    }
    push_text(out, " (");
    let mut var_path = copy_path(path);
    var_path.push(k);
    let white = crate::chess::fen_turn(parent.fen.as_str());
    collect_variation_line(variation, var_path.as_slice(), out, white, branch_move_number);
    push_text(out, ")");
    collect_variations(parent, path, k + 1, out, branch_move_number);
}

fn collect_variation_line(node: &TreeNode, path: &[usize], out: &mut Vec<NotationSegment>, white_to_move: bool, branch_move_number: usize)
    requires
        branch_move_number + height(node_view(*node)) + 1 <= usize::MAX,
        path@.len() + height(node_view(*node)) <= usize::MAX,
    ensures
        segs_view(final(out)@) == var_segs(node_view(*node), path@, segs_view(old(out)@), white_to_move, branch_move_number as nat),
    decreases node_view(*node), 3int, 0int,
{
    proof {
        lemma_children_view(node.children@);
    }
    let mut move_number = branch_move_number;
    let mut white_turn = white_to_move;
    let prefix = if white_turn { MovePrefix::VariationWhite } else { MovePrefix::VariationBlack };
    append_move_line(node, path, out, &mut move_number, &mut white_turn, true, prefix);
    if node.children.len() > 0 {
        push_text(out, " ");
        collect_sequence(node, path, out, white_turn, &mut move_number);
    }
}

/// The notation of the tree below `root` as text and clickable moves.
pub fn notation_segments(root: &TreeNode, current_position: &[usize]) -> (r: Vec<NotationSegment>)
    requires
        height(node_view(*root)) < usize::MAX,
    ensures
        segs_view(r@) == seq_segs(node_view(*root), seq![], seq![], crate::chess::white_to_move(root.fen@), 1).0,
{
    let mut out: Vec<NotationSegment> = Vec::new();
    let mut move_number: usize = 1;
    let white = crate::chess::fen_turn(root.fen.as_str());
    let path: Vec<usize> = Vec::new();
    assert(segs_view(out@) =~= Seq::<SegV>::empty());
    collect_sequence(root, path.as_slice(), &mut out, white, &mut move_number);
    out
}

// ---------------------------------------------------------------- what the notation shows

/// Every node has at most `usize::MAX` children, as every tree held in memory has.
pub open spec fn counts_fit(root: NodeV) -> bool {
    forall|p: Seq<usize>| #[trigger] nv_at(root, p) is Some ==> nv_at(root, p)->0.children.len() <= usize::MAX
}

/// No move below the root is written as empty text.
pub open spec fn moves_named(root: NodeV) -> bool {
    forall|p: Seq<usize>| p.len() > 0 && #[trigger] nv_at(root, p) is Some ==> nv_at(root, p)->0.san != Some(
        Seq::<char>::empty(),
    )
}

/// Segments as the notation shows them: none is empty; each move segment stands for the
/// node at its path below `root`, and shows that node's move; no two plain segments
/// follow each other.
pub open spec fn segs_sound(root: NodeV, out: Seq<SegV>) -> bool {
    &&& forall|i: int| 0 <= i < out.len() ==> (#[trigger] out[i]).text.len() > 0
    &&& forall|i: int| 0 <= i < out.len() && (#[trigger] out[i]).position is Some ==> {
        let p = out[i].position->0;
        p.len() > 0 && nv_at(root, p) is Some && out[i].text == san_text(nv_at(root, p)->0)
    }
    &&& forall|i: int, j: int| 0 <= i && j == i + 1 && j < out.len() ==> !((#[trigger] out[i]).position is None
        && (#[trigger] out[j]).position is None)
}

proof fn lemma_pushed_text_sound(root: NodeV, out: Seq<SegV>, text: Seq<char>)
    requires
        segs_sound(root, out),
    ensures
        segs_sound(root, pushed_text(out, text)),
{
    let r = pushed_text(out, text);
    if text.len() > 0 {
        if out.len() > 0 && out.last().position is None {
            assert forall|i: int| 0 <= i < r.len() implies (#[trigger] r[i]).text.len() > 0 by {
                if i < out.len() - 1 {
                    assert(r[i] == out[i]);
                } else {
                    assert(out[out.len() - 1].text.len() > 0);
                }
            }
            assert forall|i: int| 0 <= i < r.len() && (#[trigger] r[i]).position is Some implies {
                let p = r[i].position->0;
                p.len() > 0 && nv_at(root, p) is Some && r[i].text == san_text(nv_at(root, p)->0)
            } by {
                assert(r[i] == out[i]);
            }
            assert forall|i: int, j: int| 0 <= i && j == i + 1 && j < r.len() implies !((#[trigger] r[i]).position is None
                && (#[trigger] r[j]).position is None) by {
                assert(r[i].position == out[i].position && r[j].position == out[j].position);
            }
        } else {
            assert forall|i: int| 0 <= i < r.len() implies (#[trigger] r[i]).text.len() > 0 by {
                if i < out.len() {
                    assert(r[i] == out[i]);
                }
            }
            assert forall|i: int| 0 <= i < r.len() && (#[trigger] r[i]).position is Some implies {
                let p = r[i].position->0;
                p.len() > 0 && nv_at(root, p) is Some && r[i].text == san_text(nv_at(root, p)->0)
            } by {
                assert(r[i] == out[i]);
            }
            assert forall|i: int, j: int| 0 <= i && j == i + 1 && j < r.len() implies !((#[trigger] r[i]).position is None
                && (#[trigger] r[j]).position is None) by {
                if j < out.len() {
                    assert(r[i] == out[i] && r[j] == out[j]);
                } else {
                    assert(r[i] == out[out.len() - 1]);
                }
            }
        }
    }
}

proof fn lemma_push_move_sound(root: NodeV, out: Seq<SegV>, mv: SegV)
    requires
        segs_sound(root, out),
        mv.text.len() > 0,
        mv.position matches Some(p) && p.len() > 0 && nv_at(root, p) is Some && mv.text == san_text(nv_at(root, p)->0),
    ensures
        segs_sound(root, out.push(mv)),
{
    let r = out.push(mv);
    assert forall|i: int| 0 <= i < r.len() implies (#[trigger] r[i]).text.len() > 0 by {
        if i < out.len() {
            assert(r[i] == out[i]);
        }
    }
    assert forall|i: int| 0 <= i < r.len() && (#[trigger] r[i]).position is Some implies {
        let p = r[i].position->0;
        p.len() > 0 && nv_at(root, p) is Some && r[i].text == san_text(nv_at(root, p)->0)
    } by {
        if i < out.len() {
            assert(r[i] == out[i]);
        }
    }
    assert forall|i: int, j: int| 0 <= i && j == i + 1 && j < r.len() implies !((#[trigger] r[i]).position is None
        && (#[trigger] r[j]).position is None) by {
        if j < out.len() {
            assert(r[i] == out[i] && r[j] == out[j]);
        }
    }
}

proof fn lemma_move_segs_sound(
    root: NodeV,
    out: Seq<SegV>,
    n: NodeV,
    path: Seq<usize>,
    mn: nat,
    var: bool,
    prefix: MovePrefix,
)
    requires
        segs_sound(root, out),
        moves_named(root),
        path.len() > 0,
        nv_at(root, path) == Some(n),
    ensures
        segs_sound(root, move_segs(out, n, path, mn, var, prefix)),
{
    let mv = SegV { text: san_text(n), position: Some(path), is_variation: var };
    assert(nv_at(root, path) is Some);
    assert(n.san != Some(Seq::<char>::empty()));
    assert(mv.text.len() > 0) by {
        reveal_strlit("--");
        match n.san {
            None => assert("--"@.len() == 2),
            Some(t) => if t.len() == 0 {
                assert(t =~= Seq::<char>::empty());
            },
        }
    }
    let o1 = match prefix {
        MovePrefix::MainlineWhite | MovePrefix::VariationWhite => {
            lemma_pushed_text_sound(root, out, crate::text::dec(mn) + ". "@);
            lemma_push_move_sound(root, pushed_text(out, crate::text::dec(mn) + ". "@), mv);
            pushed_text(out, crate::text::dec(mn) + ". "@).push(mv)
        },
        MovePrefix::VariationBlack => {
            lemma_pushed_text_sound(root, out, crate::text::dec(mn) + "... "@);
            lemma_push_move_sound(root, pushed_text(out, crate::text::dec(mn) + "... "@), mv);
            pushed_text(out, crate::text::dec(mn) + "... "@).push(mv)
        },
        MovePrefix::MainlineBlack => {
            lemma_push_move_sound(root, out, mv);
            out.push(mv)
        },
    };
    lemma_pushed_text_sound(root, o1, " "@);
}

proof fn lemma_nv_at_child(root: NodeV, path: Seq<usize>, parent: NodeV, k: int)
    requires
        nv_at(root, path) == Some(parent),
        0 <= k < parent.children.len(),
        k <= usize::MAX,
    ensures
        nv_at(root, path.push(k as usize)) == Some(parent.children[k]),
{
    lemma_nv_at_concat(root, path, seq![k as usize]);
    assert(path + seq![k as usize] =~= path.push(k as usize));
    assert(seq![k as usize].skip(1) =~= Seq::<usize>::empty());
    let c = parent.children[k];
    assert(nv_at(c, Seq::<usize>::empty()) == Some(c));
    assert(seq![k as usize][0] as int == k);
    assert(nv_at(parent, seq![k as usize]) == Some(c));
}

proof fn lemma_seq_segs_sound(root: NodeV, parent: NodeV, path: Seq<usize>, out: Seq<SegV>, white: bool, mn: nat)
    requires
        segs_sound(root, out),
        moves_named(root),
        counts_fit(root),
        nv_at(root, path) == Some(parent),
    ensures
        segs_sound(root, seq_segs(parent, path, out, white, mn).0),
    decreases parent, 2int, 0int,
{
    if parent.children.len() > 0 {
        let main = parent.children[0];
        let mp = path.push(0);
        let prefix = if white { MovePrefix::MainlineWhite } else { MovePrefix::MainlineBlack };
        lemma_nv_at_child(root, path, parent, 0);
        lemma_move_segs_sound(root, out, main, mp, mn, false, prefix);
        let o1 = move_segs(out, main, mp, mn, false, prefix);
        lemma_vars_segs_sound(root, parent, path, 1, o1, mn);
        let o2 = vars_segs(parent, path, 1, o1, mn);
        lemma_seq_segs_sound(root, main, mp, o2, !white, next_number(mn, white));
    }
}

proof fn lemma_vars_segs_sound(root: NodeV, parent: NodeV, path: Seq<usize>, k: int, out: Seq<SegV>, bmn: nat)
    requires
        segs_sound(root, out),
        moves_named(root),
        counts_fit(root),
        nv_at(root, path) == Some(parent),
    ensures
        segs_sound(root, vars_segs(parent, path, k, out, bmn)),
    decreases parent, 1int, parent.children.len() - k,
{
    if 1 <= k < parent.children.len() {
        lemma_pushed_text_sound(root, out, " ("@);
        let o1 = pushed_text(out, " ("@);
        lemma_nv_at_child(root, path, parent, k);
        lemma_var_segs_sound(root, parent.children[k], path.push(k as usize), o1, crate::chess::white_to_move(parent.fen), bmn);
        let o2 = var_segs(parent.children[k], path.push(k as usize), o1, crate::chess::white_to_move(parent.fen), bmn);
        lemma_pushed_text_sound(root, o2, ")"@);
        lemma_vars_segs_sound(root, parent, path, k + 1, pushed_text(o2, ")"@), bmn);
    }
}

proof fn lemma_var_segs_sound(root: NodeV, node: NodeV, path: Seq<usize>, out: Seq<SegV>, white: bool, mn: nat)
    requires
        segs_sound(root, out),
        moves_named(root),
        counts_fit(root),
        path.len() > 0,
        nv_at(root, path) == Some(node),
    ensures
        segs_sound(root, var_segs(node, path, out, white, mn)),
    decreases node, 3int, 0int,
{
    let prefix = if white { MovePrefix::VariationWhite } else { MovePrefix::VariationBlack };
    lemma_move_segs_sound(root, out, node, path, mn, true, prefix);
    let o1 = move_segs(out, node, path, mn, true, prefix);
    if node.children.len() > 0 {
        lemma_pushed_text_sound(root, o1, " "@);
        lemma_seq_segs_sound(root, node, path, pushed_text(o1, " "@), !white, next_number(mn, white));
    }
}

/// What the notation shows of a tree whose moves are all written: no segment is empty;
/// each move segment stands for the node at its path and shows that node's move; and no
/// two plain segments follow each other.
pub proof fn law_notation_segments_sound(root: NodeV)
    requires
        moves_named(root),
        counts_fit(root),
    ensures
        segs_sound(root, seq_segs(root, seq![], seq![], crate::chess::white_to_move(root.fen), 1).0),
{
    assert(nv_at(root, Seq::<usize>::empty()) == Some(root));
    lemma_seq_segs_sound(root, root, seq![], seq![], crate::chess::white_to_move(root.fen), 1);
}

// ---------------------------------------------------------------- each move once

/// The paths of the move segments, in order.
pub open spec fn positions(out: Seq<SegV>) -> Seq<Seq<usize>>
    decreases out.len(),
{
    if out.len() == 0 {
        seq![]
    } else {
        positions(out.drop_last()) + match out.last().position {
            Some(p) => seq![p],
            None => seq![],
        }
    }
}

/// The paths of the moves below `parent` (at `path`) in the order the notation writes them.
pub open spec fn seq_paths(parent: NodeV, path: Seq<usize>) -> Seq<Seq<usize>>
    decreases parent, 2int, 0int,
{
    if parent.children.len() == 0 {
        seq![]
    } else {
        seq![path.push(0)] + vars_paths(parent, path, 1) + seq_paths(parent.children[0], path.push(0))
    }
}

pub open spec fn vars_paths(parent: NodeV, path: Seq<usize>, k: int) -> Seq<Seq<usize>>
    decreases parent, 1int, parent.children.len() - k,
{
    if k < 1 || k >= parent.children.len() {
        seq![]
    } else {
        var_paths(parent.children[k], path.push(k as usize)) + vars_paths(parent, path, k + 1)
    }
}

pub open spec fn var_paths(node: NodeV, path: Seq<usize>) -> Seq<Seq<usize>>
    decreases node, 3int, 0int,
{
    seq![path] + seq_paths(node, path)
}

proof fn lemma_positions_push(out: Seq<SegV>, s: SegV)
    ensures
        positions(out.push(s)) == positions(out) + match s.position {
            Some(p) => seq![p],
            None => seq![],
        },
{
    assert(out.push(s).drop_last() =~= out);
}

proof fn lemma_positions_text(out: Seq<SegV>, text: Seq<char>)
    ensures
        positions(pushed_text(out, text)) == positions(out),
{
    if text.len() > 0 {
        if out.len() > 0 && out.last().position is None {
            let u = pushed_text(out, text);
            assert(u.drop_last() =~= out.drop_last());
            assert(positions(out) == positions(out.drop_last()) + Seq::<Seq<usize>>::empty());
            assert(positions(u) == positions(u.drop_last()) + Seq::<Seq<usize>>::empty());
        } else {
            lemma_positions_push(out, SegV { text, position: None, is_variation: false });
            assert(positions(out) + Seq::<Seq<usize>>::empty() =~= positions(out));
        }
    }
}

proof fn lemma_positions_move(out: Seq<SegV>, n: NodeV, path: Seq<usize>, mn: nat, var: bool, prefix: MovePrefix)
    ensures
        positions(move_segs(out, n, path, mn, var, prefix)) == positions(out).push(path),
{
    let mv = SegV { text: san_text(n), position: Some(path), is_variation: var };
    let o0 = match prefix {
        MovePrefix::MainlineWhite | MovePrefix::VariationWhite => pushed_text(out, crate::text::dec(mn) + ". "@),
        MovePrefix::VariationBlack => pushed_text(out, crate::text::dec(mn) + "... "@),
        MovePrefix::MainlineBlack => out,
    };
    lemma_positions_text(out, crate::text::dec(mn) + ". "@);
    lemma_positions_text(out, crate::text::dec(mn) + "... "@);
    assert(positions(o0) == positions(out));
    lemma_positions_push(o0, mv);
    assert(positions(o0) + seq![path] =~= positions(out).push(path));
    lemma_positions_text(o0.push(mv), " "@);
}

proof fn lemma_positions_seq(parent: NodeV, path: Seq<usize>, out: Seq<SegV>, white: bool, mn: nat)
    ensures
        positions(seq_segs(parent, path, out, white, mn).0) == positions(out) + seq_paths(parent, path),
    decreases parent, 2int, 0int,
{
    if parent.children.len() == 0 {
        assert(positions(out) + Seq::<Seq<usize>>::empty() =~= positions(out));
    } else {
        let main = parent.children[0];
        let mp = path.push(0);
        let prefix = if white { MovePrefix::MainlineWhite } else { MovePrefix::MainlineBlack };
        lemma_positions_move(out, main, mp, mn, false, prefix);
        let o1 = move_segs(out, main, mp, mn, false, prefix);
        lemma_positions_vars(parent, path, 1, o1, mn);
        let o2 = vars_segs(parent, path, 1, o1, mn);
        lemma_positions_seq(main, mp, o2, !white, next_number(mn, white));
        assert(positions(out).push(mp) + vars_paths(parent, path, 1) + seq_paths(main, mp) =~= positions(out) + (seq![mp]
            + vars_paths(parent, path, 1) + seq_paths(main, mp)));
    }
}

proof fn lemma_positions_vars(parent: NodeV, path: Seq<usize>, k: int, out: Seq<SegV>, bmn: nat)
    ensures
        positions(vars_segs(parent, path, k, out, bmn)) == positions(out) + vars_paths(parent, path, k),
    decreases parent, 1int, parent.children.len() - k,
{
    if k < 1 || k >= parent.children.len() {
        assert(positions(out) + Seq::<Seq<usize>>::empty() =~= positions(out));
    } else {
        lemma_positions_text(out, " ("@);
        let o1 = pushed_text(out, " ("@);
        let c = parent.children[k];
        let w = crate::chess::white_to_move(parent.fen);
        lemma_positions_var(c, path.push(k as usize), o1, w, bmn);
        let o2 = var_segs(c, path.push(k as usize), o1, w, bmn);
        lemma_positions_text(o2, ")"@);
        lemma_positions_vars(parent, path, k + 1, pushed_text(o2, ")"@), bmn);
        assert(positions(out) + var_paths(c, path.push(k as usize)) + vars_paths(parent, path, k + 1) =~= positions(out)
            + (var_paths(c, path.push(k as usize)) + vars_paths(parent, path, k + 1)));
    }
}

proof fn lemma_positions_var(node: NodeV, path: Seq<usize>, out: Seq<SegV>, white: bool, mn: nat)
    ensures
        positions(var_segs(node, path, out, white, mn)) == positions(out) + var_paths(node, path),
    decreases node, 3int, 0int,
{
    let prefix = if white { MovePrefix::VariationWhite } else { MovePrefix::VariationBlack };
    lemma_positions_move(out, node, path, mn, true, prefix);
    let o1 = move_segs(out, node, path, mn, true, prefix);
    if node.children.len() > 0 {
        lemma_positions_text(o1, " "@);
        lemma_positions_seq(node, path, pushed_text(o1, " "@), !white, next_number(mn, white));
        assert(positions(out).push(path) + seq_paths(node, path) =~= positions(out) + (seq![path] + seq_paths(node, path)));
    } else {
        assert(positions(out).push(path) =~= positions(out) + (seq![path] + Seq::<Seq<usize>>::empty()));
    }
}

/// `q` followed by more.
pub open spec fn extends(e: Seq<usize>, q: Seq<usize>) -> bool {
    e.len() > q.len() && e.take(q.len() as int) == q
}

pub open spec fn paths_distinct(v: Seq<Seq<usize>>) -> bool {
    forall|i: int, j: int| 0 <= i < j < v.len() ==> v[i] != v[j]
}

proof fn lemma_counts_fit_child(x: NodeV, k: int)
    requires
        counts_fit(x),
        0 <= k < x.children.len(),
    ensures
        counts_fit(x.children[k]),
{
    assert forall|p: Seq<usize>| #[trigger] nv_at(x.children[k], p) is Some implies nv_at(x.children[k], p)->0.children.len() <= usize::MAX by {
        assert(x.children.len() <= usize::MAX) by {
            assert(nv_at(x, Seq::<usize>::empty()) is Some);
        }
        let q = seq![k as usize] + p;
        assert(q[0] as int == k);
        assert(q.skip(1) =~= p);
        assert(nv_at(x, q) == nv_at(x.children[k], p));
    }
}

proof fn lemma_distinct_concat(a: Seq<Seq<usize>>, b: Seq<Seq<usize>>)
    requires
        paths_distinct(a),
        paths_distinct(b),
        forall|i: int, j: int| 0 <= i < a.len() && 0 <= j < b.len() ==> a[i] != b[j],
    ensures
        paths_distinct(a + b),
{
    assert forall|i: int, j: int| 0 <= i < j < (a + b).len() implies (a + b)[i] != (a + b)[j] by {
        if j < a.len() {
            assert((a + b)[i] == a[i] && (a + b)[j] == a[j]);
        } else if i >= a.len() {
            assert((a + b)[i] == b[i - a.len()] && (a + b)[j] == b[j - a.len()]);
        } else {
            assert((a + b)[i] == a[i] && (a + b)[j] == b[j - a.len()]);
        }
    }
}

proof fn lemma_seq_paths_shape(x: NodeV, q: Seq<usize>)
    requires
        counts_fit(x),
    ensures
        forall|i: int| 0 <= i < seq_paths(x, q).len() ==> extends(#[trigger] seq_paths(x, q)[i], q),
        paths_distinct(seq_paths(x, q)),
    decreases x, 2int, 0int,
{
    if x.children.len() > 0 {
        let main = x.children[0];
        let q0 = q.push(0);
        lemma_counts_fit_child(x, 0);
        lemma_vars_paths_shape(x, q, 1);
        lemma_seq_paths_shape(main, q0);
        let v = vars_paths(x, q, 1);
        let sm = seq_paths(main, q0);
        let r = seq![q0] + v + sm;
        assert(seq_paths(x, q) == r);
        assert forall|e: Seq<usize>| extends(e, q0) implies extends(e, q) && e[q.len() as int] == 0 by {
            assert(e.take(q0.len() as int).take(q.len() as int) =~= e.take(q.len() as int));
            assert(q0.take(q.len() as int) =~= q);
            assert(e.take(q0.len() as int)[q.len() as int] == e[q.len() as int]);
        }
        assert(q0.take(q.len() as int) =~= q);
        lemma_distinct_concat(seq![q0], v);
        assert forall|i: int, j: int| 0 <= i < (seq![q0] + v).len() && 0 <= j < sm.len() implies (seq![q0] + v)[i] != sm[j] by {
            assert(extends(sm[j], q0));
            if i == 0 {
                assert((seq![q0] + v)[i] == q0);
            } else {
                assert((seq![q0] + v)[i] == v[i - 1]);
                assert(sm[j][q.len() as int] == 0);
            }
        }
        lemma_distinct_concat(seq![q0] + v, sm);
        assert forall|i: int| 0 <= i < r.len() implies extends(#[trigger] r[i], q) by {
            if i == 0 {
                assert(r[i] == q0);
            } else if i > v.len() {
                assert(r[i] == sm[i - 1 - v.len()]);
                assert(extends(sm[i - 1 - v.len()], q0));
            } else {
                assert(r[i] == v[i - 1]);
            }
        }
    }
}

proof fn lemma_vars_paths_shape(x: NodeV, q: Seq<usize>, k: int)
    requires
        counts_fit(x),
    ensures
        forall|i: int| 0 <= i < vars_paths(x, q, k).len() ==> extends(#[trigger] vars_paths(x, q, k)[i], q)
            && vars_paths(x, q, k)[i][q.len() as int] >= k && vars_paths(x, q, k)[i][q.len() as int] >= 1,
        paths_distinct(vars_paths(x, q, k)),
    decreases x, 1int, x.children.len() - k,
{
    if 1 <= k < x.children.len() {
        assert(x.children.len() <= usize::MAX) by {
            assert(nv_at(x, Seq::<usize>::empty()) is Some);
        }
        let c = x.children[k];
        let qk = q.push(k as usize);
        lemma_counts_fit_child(x, k);
        lemma_seq_paths_shape(c, qk);
        lemma_vars_paths_shape(x, q, k + 1);
        let sc = seq_paths(c, qk);
        let vp = seq![qk] + sc;
        let rest = vars_paths(x, q, k + 1);
        assert(qk.take(q.len() as int) =~= q);
        assert(qk[q.len() as int] as int == k);
        assert forall|e: Seq<usize>| extends(e, qk) implies extends(e, q) && e[q.len() as int] as int == k by {
            assert(e.take(qk.len() as int).take(q.len() as int) =~= e.take(q.len() as int));
            assert(e.take(qk.len() as int)[q.len() as int] == e[q.len() as int]);
        }
        lemma_distinct_concat(seq![qk], sc);
        assert forall|i: int| 0 <= i < vp.len() implies extends(#[trigger] vp[i], q) && vp[i][q.len() as int] as int == k by {
            if i > 0 {
                assert(vp[i] == sc[i - 1]);
                assert(extends(sc[i - 1], qk));
            }
        }
        assert forall|i: int, j: int| 0 <= i < vp.len() && 0 <= j < rest.len() implies vp[i] != rest[j] by {
            assert(vp[i][q.len() as int] as int == k);
            assert(rest[j][q.len() as int] >= k + 1);
        }
        lemma_distinct_concat(vp, rest);
        let r = vp + rest;
        assert(var_paths(c, qk) == vp);
        assert(vars_paths(x, q, k) == r);
        assert forall|i: int| 0 <= i < r.len() implies extends(#[trigger] r[i], q) && r[i][q.len() as int] >= k
            && r[i][q.len() as int] >= 1 by {
            if i < vp.len() {
                assert(r[i] == vp[i]);
            } else {
                assert(r[i] == rest[i - vp.len()]);
            }
        }
    }
}

proof fn lemma_seq_paths_complete(x: NodeV, q: Seq<usize>, r: Seq<usize>)
    requires
        r.len() > 0,
        nv_at(x, r) is Some,
        counts_fit(x),
    ensures
        seq_paths(x, q).contains(q + r),
    decreases x, 2int, 0int,
{
    let main = x.children[0];
    let q0 = q.push(0);
    let v = vars_paths(x, q, 1);
    let sm = seq_paths(main, q0);
    assert(seq_paths(x, q) == seq![q0] + v + sm);
    let all = seq![q0] + v + sm;
    if r[0] == 0 {
        if r.len() == 1 {
            assert(q + r =~= q0);
            assert(all[0] == q0);
        } else {
            lemma_counts_fit_child(x, 0);
            assert(nv_at(x, r) == nv_at(main, r.skip(1)));
            lemma_seq_paths_complete(main, q0, r.skip(1));
            assert(q0 + r.skip(1) =~= q + r);
            let j = choose|j: int| 0 <= j < sm.len() && sm[j] == q + r;
            assert(all[1 + v.len() + j] == sm[j]);
        }
    } else {
        lemma_vars_paths_complete(x, q, 1, r);
        let j = choose|j: int| 0 <= j < v.len() && v[j] == q + r;
        assert(all[1 + j] == v[j]);
    }
}

proof fn lemma_vars_paths_complete(x: NodeV, q: Seq<usize>, k: int, r: Seq<usize>)
    requires
        r.len() > 0,
        nv_at(x, r) is Some,
        counts_fit(x),
        1 <= k <= r[0],
    ensures
        vars_paths(x, q, k).contains(q + r),
    decreases x, 1int, x.children.len() - k,
{
    assert(x.children.len() <= usize::MAX) by {
        assert(nv_at(x, Seq::<usize>::empty()) is Some);
    }
    let c = x.children[k];
    let qk = q.push(k as usize);
    let sc = seq_paths(c, qk);
    let rest = vars_paths(x, q, k + 1);
    assert(var_paths(c, qk) == seq![qk] + sc);
    assert(vars_paths(x, q, k) == seq![qk] + sc + rest);
    let all = seq![qk] + sc + rest;
    if r[0] as int == k {
        if r.len() == 1 {
            assert(q + r =~= qk);
            assert(all[0] == qk);
        } else {
            lemma_counts_fit_child(x, k);
            assert(nv_at(x, r) == nv_at(c, r.skip(1)));
            lemma_seq_paths_complete(c, qk, r.skip(1));
            assert(qk + r.skip(1) =~= q + r);
            let j = choose|j: int| 0 <= j < sc.len() && sc[j] == q + r;
            assert(all[1 + j] == sc[j]);
        }
    } else {
        lemma_vars_paths_complete(x, q, k + 1, r);
        let j = choose|j: int| 0 <= j < rest.len() && rest[j] == q + r;
        assert(all[1 + sc.len() + j] == rest[j]);
    }
}

/// Every move of the tree is written exactly once: the paths of the move segments are
/// all different, and the path of every node below the root is among them.
pub proof fn law_notation_has_each_move_once(root: NodeV)
    requires
        counts_fit(root),
    ensures
        positions(seq_segs(root, seq![], seq![], crate::chess::white_to_move(root.fen), 1).0) == seq_paths(root, seq![]),
        paths_distinct(seq_paths(root, seq![])),
        forall|p: Seq<usize>| p.len() > 0 && #[trigger] nv_at(root, p) is Some ==> seq_paths(root, seq![]).contains(p),
{
    lemma_positions_seq(root, seq![], seq![], crate::chess::white_to_move(root.fen), 1);
    assert(positions(Seq::<SegV>::empty()) + seq_paths(root, seq![]) =~= seq_paths(root, seq![]));
    lemma_seq_paths_shape(root, seq![]);
    assert forall|p: Seq<usize>| p.len() > 0 && #[trigger] nv_at(root, p) is Some implies seq_paths(root, seq![]).contains(p) by {
        lemma_seq_paths_complete(root, seq![], p);
        assert(Seq::<usize>::empty() + p =~= p);
    }
}

} // verus!
