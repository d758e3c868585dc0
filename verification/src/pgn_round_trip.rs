//! Reading back a written repertoire: the movetext written for a tree reads back as that
//! tree, when each of its moves replays as the reader plays it.
use vstd::prelude::*;
use crate::chess::{simplified, spec_play_san, spec_position_fen, spec_san_parses};
use crate::move_tree::{leaf, lemma_nv_at_concat, lemma_nv_at_edit_same, nv_at, nv_edit, push_child, NodeV};
use crate::pgn_tree::{parse_run, spaced, sync_fen, tree_tokens, TokV};
use crate::text::{is_ws, is_word, tokens_from, ws_tokens};

verus! {

// ---------------------------------------------------------------- trees and paths

/// The node without its continuations.
pub open spec fn stripped(n: NodeV) -> NodeV {
    NodeV { children: seq![], ..n }
}

/// `n` with the node at path `p` replaced by `x`.
pub open spec fn nv_put(n: NodeV, p: Seq<usize>, x: NodeV) -> NodeV
    decreases p.len(),
{
    if p.len() == 0 {
        x
    } else if p[0] < n.children.len() {
        NodeV { children: n.children.update(p[0] as int, nv_put(n.children[p[0] as int], p.skip(1), x)), ..n }
    } else {
        n
    }
}

proof fn lemma_put_at(n: NodeV, p: Seq<usize>, x: NodeV, q: Seq<usize>)
    requires
        nv_at(n, p) is Some,
    ensures
        nv_at(nv_put(n, p, x), p + q) == nv_at(x, q),
    decreases p.len(),
{
    if p.len() == 0 {
        assert(p + q =~= q);
    } else {
        let b = p[0] as int;
        assert((p + q).skip(1) =~= p.skip(1) + q);
        assert((p + q)[0] == p[0]);
        lemma_put_at(n.children[b], p.skip(1), x, q);
    }
}

proof fn lemma_edit_is_put(n: NodeV, p: Seq<usize>, f: spec_fn(Seq<NodeV>) -> Seq<NodeV>)
    requires
        nv_at(n, p) is Some,
    ensures
        nv_edit(n, p, f) == nv_put(n, p, NodeV { children: f(nv_at(n, p)->0.children), ..nv_at(n, p)->0 }),
    decreases p.len(),
{
    if p.len() > 0 {
        lemma_edit_is_put(n.children[p[0] as int], p.skip(1), f);
    }
}

proof fn lemma_put_put(n: NodeV, p: Seq<usize>, x: NodeV, y: NodeV)
    requires
        nv_at(n, p) is Some,
    ensures
        nv_put(nv_put(n, p, x), p, y) == nv_put(n, p, y),
    decreases p.len(),
{
    if p.len() > 0 {
        let b = p[0] as int;
        lemma_put_put(n.children[b], p.skip(1), x, y);
        assert(nv_put(n, p, x).children[b] == nv_put(n.children[b], p.skip(1), x));
        assert(nv_put(nv_put(n, p, x), p, y).children =~= nv_put(n, p, y).children);
    }
}

proof fn lemma_put_child(n: NodeV, p: Seq<usize>, x: NodeV, k: int, y: NodeV)
    requires
        nv_at(n, p) is Some,
        0 <= k < x.children.len(),
        k <= usize::MAX,
    ensures
        nv_put(nv_put(n, p, x), p.push(k as usize), y) == nv_put(
            n,
            p,
            NodeV { children: x.children.update(k, y), ..x },
        ),
    decreases p.len(),
{
    if p.len() == 0 {
        let q = p.push(k as usize);
        assert(q[0] as int == k);
        assert(q.skip(1) =~= Seq::<usize>::empty());
        assert(nv_put(x.children[k], q.skip(1), y) == y);
        assert(nv_put(x, q, y).children =~= x.children.update(k, y));
    } else {
        let b = p[0] as int;
        assert(p.push(k as usize).skip(1) =~= p.skip(1).push(k as usize));
        assert(p.push(k as usize)[0] == p[0]);
        lemma_put_child(n.children[b], p.skip(1), x, k, y);
        assert(nv_put(nv_put(n, p, x), p.push(k as usize), y).children =~= nv_put(
            n,
            p,
            NodeV { children: x.children.update(k, y), ..x },
        ).children);
    }
}

proof fn lemma_at_put_some(n: NodeV, p: Seq<usize>, x: NodeV)
    requires
        nv_at(n, p) is Some,
    ensures
        nv_at(nv_put(n, p, x), p) == Some(x),
{
    lemma_put_at(n, p, x, seq![]);
    assert(p + Seq::<usize>::empty() =~= p);
}

proof fn lemma_put_same(n: NodeV, p: Seq<usize>)
    requires
        nv_at(n, p) is Some,
    ensures
        nv_put(n, p, nv_at(n, p)->0) == n,
    decreases p.len(),
{
    if p.len() > 0 {
        let b = p[0] as int;
        lemma_put_same(n.children[b], p.skip(1));
        assert(nv_put(n, p, nv_at(n, p)->0).children =~= n.children);
    }
}

proof fn lemma_at_put_child(n: NodeV, p: Seq<usize>, x: NodeV, k: int)
    requires
        nv_at(n, p) is Some,
        0 <= k < x.children.len(),
        k <= usize::MAX,
    ensures
        nv_at(nv_put(n, p, x), p.push(k as usize)) == Some(x.children[k]),
{
    lemma_put_at(n, p, x, seq![k as usize]);
    assert(p + seq![k as usize] =~= p.push(k as usize));
    let c = x.children[k];
    assert(seq![k as usize].skip(1) =~= Seq::<usize>::empty());
    assert(nv_at(c, Seq::<usize>::empty()) == Some(c));
    assert(seq![k as usize][0] as int == k);
}

// ---------------------------------------------------------------- the tokens of a tree

/// The tokens the movetext of the continuations of `n` reads as: the first child's move,
/// the other children as variations, then the first child's continuations.
pub open spec fn seq_toks(n: NodeV) -> Seq<TokV>
    decreases n, 2int, 0int,
{
    if n.children.len() == 0 {
        seq![]
    } else {
        seq![TokV::San(crate::pgn_tree::san_text(n.children[0]))] + vars_toks(n, 1) + seq_toks(n.children[0])
    }
}

pub open spec fn vars_toks(n: NodeV, k: int) -> Seq<TokV>
    decreases n, 1int, n.children.len() - k,
{
    if k < 1 || k >= n.children.len() {
        seq![]
    } else {
        seq![TokV::Start] + var_toks(n.children[k]) + seq![TokV::End] + vars_toks(n, k + 1)
    }
}

pub open spec fn var_toks(c: NodeV) -> Seq<TokV>
    decreases c, 3int, 0int,
{
    seq![TokV::San(crate::pgn_tree::san_text(c))] + seq_toks(c)
}

// ---------------------------------------------------------------- moves that replay

/// The position after the move of `c`, played on `board` as the reader plays it, when
/// that gives `c`: its move read and played, its FEN (simplified) and its squares.
pub open spec fn step_after(board: Seq<char>, c: NodeV) -> Option<Seq<char>> {
    match c.san {
        None => None,
        Some(w) => if !spec_san_parses(w) {
            None
        } else {
            match spec_play_san(board, w) {
                None => None,
                Some((after, _l, o, d)) => if c.fen == simplified(after) && c.orig == Some(o) && c.dest == Some(d) {
                    Some(after)
                } else {
                    None
                },
            }
        },
    }
}

/// The continuations of `n` replay from `board`: the first child from `board`, the other
/// children from the node's own FEN, and the first child's continuations from the board
/// the reader has there (its own FEN after variations, else the position after its move).
pub open spec fn replays(n: NodeV, board: Seq<char>) -> bool
    decreases n, 2int, 0int,
{
    &&& n.children.len() <= usize::MAX
    &&& if n.children.len() == 0 {
        true
    } else {
        let main = n.children[0];
        match step_after(board, main) {
            None => false,
            Some(a0) => {
                &&& (n.children.len() > 1 ==> sync_fen(n.fen) is Ok && sync_fen(main.fen) is Ok && vars_replay(n, 1))
                &&& replays(main, if n.children.len() > 1 { main.fen } else { a0 })
            },
        }
    }
}

pub open spec fn vars_replay(n: NodeV, k: int) -> bool
    decreases n, 1int, n.children.len() - k,
{
    if k < 1 || k >= n.children.len() {
        true
    } else {
        match step_after(n.fen, n.children[k]) {
            None => false,
            Some(a) => replays(n.children[k], a) && vars_replay(n, k + 1),
        }
    }
}

/// The node with its first child stripped of continuations and its children after `k`
/// not yet read.
pub open spec fn partial(n: NodeV, k: int) -> NodeV {
    NodeV { children: seq![stripped(n.children[0])] + n.children.subrange(1, k), ..n }
}

/// Reading on where the next token closes a variation or the tokens end: the path and
/// board do not matter there.
pub open spec fn resume(root: NodeV, toks: Seq<TokV>, j: int, stack: Seq<Seq<usize>>) -> Result<NodeV, Seq<char>> {
    parse_run(root, toks, j, seq![], stack, seq![])
}

proof fn lemma_resume(root: NodeV, toks: Seq<TokV>, j: int, p: Seq<usize>, stack: Seq<Seq<usize>>, b: Seq<char>)
    requires
        0 <= j,
        j >= toks.len() || toks[j] is End,
    ensures
        parse_run(root, toks, j, p, stack, b) == resume(root, toks, j, stack),
{
}

proof fn lemma_sub(toks: Seq<TokV>, i: int, a: Seq<TokV>, b: Seq<TokV>)
    requires
        0 <= i,
        i + a.len() + b.len() <= toks.len(),
        toks.subrange(i, i + a.len() + b.len()) == a + b,
    ensures
        toks.subrange(i, i + a.len()) == a,
        toks.subrange(i + a.len(), i + a.len() + b.len()) == b,
{
    assert forall|x: int| 0 <= x < a.len() implies toks.subrange(i, i + a.len())[x] == a[x] by {
        assert(toks.subrange(i, i + a.len() + b.len())[x] == (a + b)[x]);
    }
    assert forall|x: int| 0 <= x < b.len() implies toks.subrange(i + a.len(), i + a.len() + b.len())[x] == b[x] by {
        assert(toks.subrange(i, i + a.len() + b.len())[a.len() + x] == (a + b)[a.len() + x]);
        assert((a + b)[a.len() + x] == b[x]);
        assert(toks.subrange(i, i + a.len() + b.len())[a.len() + x] == toks[i + a.len() + x]);
        assert(toks.subrange(i + a.len(), i + a.len() + b.len())[x] == toks[i + a.len() + x]);
    }
    assert(toks.subrange(i, i + a.len()) =~= a);
    assert(toks.subrange(i + a.len(), i + a.len() + b.len()) =~= b);
}

proof fn lemma_parse_seq(
    r: NodeV,
    p: Seq<usize>,
    n: NodeV,
    board: Seq<char>,
    toks: Seq<TokV>,
    i: int,
    stack: Seq<Seq<usize>>,
)
    requires
        nv_at(r, p) == Some(stripped(n)),
        replays(n, board),
        0 <= i,
        i + seq_toks(n).len() <= toks.len(),
        toks.subrange(i, i + seq_toks(n).len()) == seq_toks(n),
        i + seq_toks(n).len() == toks.len() || toks[i + seq_toks(n).len()] is End,
    ensures
        parse_run(r, toks, i, p, stack, board) == resume(nv_put(r, p, n), toks, i + seq_toks(n).len(), stack),
    decreases n, 2int, 0int,
{
    let len = n.children.len() as int;
    if len == 0 {
        lemma_resume(r, toks, i, p, stack, board);
        assert(stripped(n) =~= n) by {
            assert(n.children =~= Seq::<NodeV>::empty());
        }
        lemma_put_same(r, p);
    } else {
        let main = n.children[0];
        let w0 = crate::pgn_tree::san_text(main);
        let a0 = step_after(board, main)->0;
        let vt = vars_toks(n, 1);
        let sm = seq_toks(main);
        assert(seq_toks(n) == seq![TokV::San(w0)] + vt + sm);
        assert(seq![TokV::San(w0)] + vt + sm =~= seq![TokV::San(w0)] + (vt + sm));
        lemma_sub(toks, i, seq![TokV::San(w0)], vt + sm);
        lemma_sub(toks, i + 1, vt, sm);
        assert(toks[i] == toks.subrange(i, i + 1)[0]);
        assert(toks[i] == TokV::San(w0));
        let (after, l, o, d) = spec_play_san(board, w0)->0;
        assert(main.san == Some(w0));
        assert(leaf(simplified(after), w0, o, d) == stripped(main));
        let f = push_child(leaf(simplified(after), w0, o, d));
        let r1 = nv_edit(r, p, f);
        lemma_edit_is_put(r, p, f);
        assert(f(stripped(n).children) =~= partial(n, 1).children);
        assert(r1 == nv_put(r, p, partial(n, 1)));
        assert(nv_at(r, p)->0.children.len() == 0);
        assert(parse_run(r, toks, i, p, stack, board) == parse_run(r1, toks, i + 1, p.push(0), stack, after));
        lemma_at_put_child(r, p, partial(n, 1), 0);
        let whole = NodeV { children: partial(n, len).children.update(0, main), ..n };
        assert(whole.children =~= n.children);
        assert(whole == n);
        if len > 1 {
            lemma_at_put_some(r, p, partial(n, 1));
            lemma_parse_vars(r1, p, n, 1, toks, i + 1, stack, after);
            lemma_put_put(r, p, partial(n, 1), partial(n, len));
            let r2 = nv_put(r, p, partial(n, len));
            assert(parse_run(r1, toks, i + 1, p.push(0), stack, after) == parse_run(
                r2,
                toks,
                i + 1 + vt.len(),
                p.push(0),
                stack,
                main.fen,
            ));
            lemma_at_put_child(r, p, partial(n, len), 0);
            lemma_parse_seq(r2, p.push(0), main, main.fen, toks, i + 1 + vt.len(), stack);
            lemma_put_child(r, p, partial(n, len), 0, main);
        } else {
            assert(vt.len() == 0);
            assert(partial(n, 1).children.update(0, main) =~= n.children);
            lemma_parse_seq(r1, p.push(0), main, after, toks, i + 1, stack);
            lemma_put_child(r, p, partial(n, 1), 0, main);
        }
    }
}

proof fn lemma_parse_vars(
    r: NodeV,
    p: Seq<usize>,
    n: NodeV,
    k: int,
    toks: Seq<TokV>,
    i: int,
    stack: Seq<Seq<usize>>,
    b: Seq<char>,
)
    requires
        1 <= k <= n.children.len(),
        n.children.len() <= usize::MAX,
        nv_at(r, p) == Some(partial(n, k)),
        sync_fen(n.fen) is Ok,
        sync_fen(n.children[0].fen) is Ok,
        vars_replay(n, k),
        0 <= i,
        i + vars_toks(n, k).len() <= toks.len(),
        toks.subrange(i, i + vars_toks(n, k).len()) == vars_toks(n, k),
    ensures
        parse_run(r, toks, i, p.push(0), stack, b) == parse_run(
            nv_put(r, p, partial(n, n.children.len() as int)),
            toks,
            i + vars_toks(n, k).len(),
            p.push(0),
            stack,
            if k < n.children.len() { n.children[0].fen } else { b },
        ),
    decreases n, 1int, n.children.len() - k,
{
    let len = n.children.len() as int;
    let main = n.children[0];
    if k >= len {
        lemma_put_same(r, p);
    } else {
        let c = n.children[k];
        let w = crate::pgn_tree::san_text(c);
        let vc = var_toks(c);
        let sc = seq_toks(c);
        let rest = vars_toks(n, k + 1);
        assert(vars_toks(n, k) == seq![TokV::Start] + vc + seq![TokV::End] + rest);
        assert(vc == seq![TokV::San(w)] + sc);
        let pre = seq![TokV::Start, TokV::San(w)];
        assert(seq![TokV::Start] + vc + seq![TokV::End] + rest =~= pre + (sc + (seq![TokV::End] + rest)));
        lemma_sub(toks, i, pre, sc + (seq![TokV::End] + rest));
        lemma_sub(toks, i + 2, sc, seq![TokV::End] + rest);
        lemma_sub(toks, i + 2 + sc.len(), seq![TokV::End], rest);
        assert(toks[i] == toks.subrange(i, i + 2)[0]);
        assert(toks[i + 1] == toks.subrange(i, i + 2)[1]);
        assert(toks[i] == TokV::Start);
        assert(toks[i + 1] == TokV::San(w));
        let j = i + 2 + sc.len();
        assert(toks[j] == toks.subrange(j, j + 1)[0]);
        assert(toks[j] == TokV::End);
        // `(`: back to the node, board its FEN
        assert(p.push(0).drop_last() =~= p);
        assert(nv_at(r, p)->0.fen == n.fen);
        let st1 = stack.push(p.push(0));
        assert(parse_run(r, toks, i, p.push(0), stack, b) == parse_run(r, toks, i + 1, p, st1, n.fen));
        // the move of the variation
        let a = step_after(n.fen, c)->0;
        let (after, l, o, d) = spec_play_san(n.fen, w)->0;
        assert(c.san == Some(w));
        assert(leaf(simplified(after), w, o, d) == stripped(c));
        let f = push_child(leaf(simplified(after), w, o, d));
        lemma_edit_is_put(r, p, f);
        let x = NodeV { children: partial(n, k).children.push(stripped(c)), ..n };
        assert(f(partial(n, k).children) == x.children);
        let r1 = nv_edit(r, p, f);
        assert(r1 == nv_put(r, p, x));
        assert(partial(n, k).children.len() == k);
        assert(parse_run(r, toks, i + 1, p, st1, n.fen) == parse_run(r1, toks, i + 2, p.push(k as usize), st1, after));
        lemma_at_put_child(r, p, x, k);
        lemma_parse_seq(r1, p.push(k as usize), c, after, toks, i + 2, st1);
        lemma_put_child(r, p, x, k, c);
        let y = partial(n, k + 1);
        assert(x.children.update(k, c) =~= y.children);
        let r3 = nv_put(r, p, y);
        assert(nv_put(r1, p.push(k as usize), c) == r3);
        // `)`: back to the first child, board its FEN
        lemma_at_put_child(r, p, y, 0);
        assert(nv_at(r3, p.push(0))->0.fen == main.fen);
        assert(st1.last() == p.push(0));
        assert(st1.drop_last() =~= stack);
        assert(resume(r3, toks, j, st1) == parse_run(r3, toks, j + 1, p.push(0), stack, main.fen));
        lemma_at_put_some(r, p, y);
        lemma_parse_vars(r3, p, n, k + 1, toks, j + 1, stack, main.fen);
        lemma_put_put(r, p, y, partial(n, len));
    }
}

// ---------------------------------------------------------------- text to tokens

pub open spec fn is_paren(c: char) -> bool {
    c == '(' || c == ')'
}

/// No `{` in the text.
pub open spec fn no_brace(s: Seq<char>) -> bool {
    forall|i: int| 0 <= i < s.len() ==> #[trigger] s[i] != '{'
}

/// The words of a text as the reader splits it.
pub open spec fn words(s: Seq<char>) -> Seq<Seq<char>> {
    ws_tokens(spaced(s, 0, false))
}

/// The tokens of a text as the reader reads them.
pub open spec fn toks_of(s: Seq<char>) -> Seq<TokV> {
    tree_tokens(words(s), 0)
}

/// No word of the text is a game result.
pub open spec fn no_result(s: Seq<char>) -> bool {
    forall|i: int| 0 <= i < words(s).len() ==> !crate::pgn::is_result(#[trigger] words(s)[i])
}

/// Two texts meet at whitespace or a parenthesis, or one is empty.
pub open spec fn meets(a: Seq<char>, b: Seq<char>) -> bool {
    a.len() == 0 || b.len() == 0 || is_ws(a.last()) || is_ws(b[0]) || is_paren(a.last()) || is_paren(b[0])
}

proof fn lemma_spaced_shift(a: Seq<char>, b: Seq<char>, i: int, c: bool)
    requires
        0 <= i,
    ensures
        spaced(a + b, a.len() + i, c) == spaced(b, i, c),
    decreases b.len() - i,
{
    if i < b.len() {
        assert((a + b)[a.len() + i] == b[i]);
        lemma_spaced_shift(a, b, i + 1, b[i] != '}');
        lemma_spaced_shift(a, b, i + 1, true);
        lemma_spaced_shift(a, b, i + 1, false);
    }
}

proof fn lemma_spaced_concat(a: Seq<char>, b: Seq<char>, i: int)
    requires
        0 <= i <= a.len(),
        no_brace(a),
    ensures
        spaced(a + b, i, false) == spaced(a, i, false) + spaced(b, 0, false),
    decreases a.len() - i,
{
    if i == a.len() {
        lemma_spaced_shift(a, b, 0, false);
        assert(spaced(a, i, false) =~= Seq::<char>::empty());
        assert(Seq::<char>::empty() + spaced(b, 0, false) =~= spaced(b, 0, false));
    } else {
        assert((a + b)[i] == a[i]);
        assert(a[i] != '{');
        lemma_spaced_concat(a, b, i + 1);
        if is_paren(a[i]) {
            assert(seq![' ', a[i], ' '] + (spaced(a, i + 1, false) + spaced(b, 0, false)) =~= (seq![' ', a[i], ' ']
                + spaced(a, i + 1, false)) + spaced(b, 0, false));
        } else {
            assert(seq![a[i]] + (spaced(a, i + 1, false) + spaced(b, 0, false)) =~= (seq![a[i]] + spaced(
                a,
                i + 1,
                false,
            )) + spaced(b, 0, false));
        }
    }
}

proof fn lemma_spaced_plain(s: Seq<char>, i: int)
    requires
        0 <= i <= s.len(),
        forall|k: int| 0 <= k < s.len() ==> #[trigger] s[k] != '{' && !is_paren(s[k]),
    ensures
        spaced(s, i, false) == s.skip(i),
    decreases s.len() - i,
{
    if i < s.len() {
        assert(s[i] != '{' && !is_paren(s[i]));
        lemma_spaced_plain(s, i + 1);
        assert(seq![s[i]] + s.skip(i + 1) =~= s.skip(i));
    } else {
        assert(s.skip(i) =~= Seq::<char>::empty());
    }
}

/// The first and last characters of a spaced text.
proof fn lemma_spaced_ends(a: Seq<char>)
    requires
        a.len() > 0,
        no_brace(a),
    ensures
        spaced(a, 0, false).len() > 0,
        spaced(a, 0, false)[0] == (if is_paren(a[0]) { ' ' } else { a[0] }),
        spaced(a, 0, false).last() == (if is_paren(a.last()) { ' ' } else { a.last() }),
{
    let d = a.drop_last();
    let c = a.last();
    assert(no_brace(d)) by {
        assert forall|i: int| 0 <= i < d.len() implies #[trigger] d[i] != '{' by {
            assert(d[i] == a[i]);
        }
    }
    assert(d + seq![c] =~= a);
    lemma_spaced_concat(d, seq![c], 0);
    assert(a[a.len() - 1] != '{');
    assert(spaced(seq![c], 1, false) =~= Seq::<char>::empty());
    let sc = spaced(seq![c], 0, false);
    if is_paren(c) {
        assert(sc =~= seq![' ', c, ' ']);
    } else {
        assert(sc =~= seq![c]);
    }
    assert(a[0] != '{');
}

/// Tokens of a text split where one part ends or the other starts with whitespace.
proof fn lemma_ws_concat_at(x: Seq<char>, y: Seq<char>, i: int, cur: Seq<char>)
    requires
        0 <= i <= x.len(),
        (x.len() > 0 && is_ws(x.last()) && i < x.len()) || (y.len() > 0 && is_ws(y[0])),
    ensures
        tokens_from(x + y, i, cur) == tokens_from(x, i, cur) + tokens_from(y, 0, seq![]),
    decreases x.len() - i,
{
    let cc: Seq<Seq<char>> = if cur.len() > 0 { seq![cur] } else { seq![] };
    if i == x.len() {
        // y starts with whitespace
        assert((x + y)[i] == y[0]);
        crate::text::lemma_tokens_shift(x, y, 1, seq![]);
        assert(tokens_from(x, i, cur) == cc);
        assert(tokens_from(y, 0, seq![]) == tokens_from(y, 1, seq![]));
        if cur.len() > 0 {
            assert(tokens_from(x + y, i, cur) == seq![cur] + tokens_from(x + y, i + 1, seq![]));
        } else {
            assert(tokens_from(x + y, i, cur) == tokens_from(x + y, i + 1, seq![]));
            assert(cc + tokens_from(y, 0, seq![]) =~= tokens_from(y, 0, seq![]));
        }
    } else if i == x.len() - 1 && is_ws(x[i]) {
        assert((x + y)[i] == x[i]);
        crate::text::lemma_tokens_shift(x, y, 0, seq![]);
        assert(tokens_from(x, i + 1, seq![]) =~= Seq::<Seq<char>>::empty());
        if cur.len() > 0 {
            assert(seq![cur] + Seq::<Seq<char>>::empty() =~= seq![cur]);
        }
    } else {
        assert((x + y)[i] == x[i]);
        if is_ws(x[i]) {
            lemma_ws_concat_at(x, y, i + 1, seq![]);
            if cur.len() > 0 {
                assert(seq![cur] + (tokens_from(x, i + 1, seq![]) + tokens_from(y, 0, seq![])) =~= (seq![cur]
                    + tokens_from(x, i + 1, seq![])) + tokens_from(y, 0, seq![]));
            }
        } else {
            lemma_ws_concat_at(x, y, i + 1, cur.push(x[i]));
        }
    }
}

proof fn lemma_ws_concat(x: Seq<char>, y: Seq<char>)
    requires
        x.len() == 0 || y.len() == 0 || is_ws(x.last()) || is_ws(y[0]),
    ensures
        ws_tokens(x + y) == ws_tokens(x) + ws_tokens(y),
{
    if x.len() == 0 {
        assert(x + y =~= y);
        assert(ws_tokens(x) =~= Seq::<Seq<char>>::empty());
        assert(Seq::<Seq<char>>::empty() + ws_tokens(y) =~= ws_tokens(y));
    } else if y.len() == 0 {
        assert(x + y =~= x);
        assert(ws_tokens(y) =~= Seq::<Seq<char>>::empty());
        assert(ws_tokens(x) + Seq::<Seq<char>>::empty() =~= ws_tokens(x));
    } else {
        lemma_ws_concat_at(x, y, 0, seq![]);
    }
}

proof fn lemma_tt_shift(a: Seq<Seq<char>>, b: Seq<Seq<char>>, j: int)
    requires
        0 <= j,
    ensures
        tree_tokens(a + b, a.len() + j) == tree_tokens(b, j),
    decreases b.len() - j,
{
    if j < b.len() {
        assert((a + b)[a.len() + j] == b[j]);
        lemma_tt_shift(a, b, j + 1);
    }
}

proof fn lemma_tt_concat(a: Seq<Seq<char>>, b: Seq<Seq<char>>, k: int)
    requires
        0 <= k <= a.len(),
        forall|i: int| 0 <= i < a.len() ==> !crate::pgn::is_result(#[trigger] a[i]),
    ensures
        tree_tokens(a + b, k) == tree_tokens(a, k) + tree_tokens(b, 0),
    decreases a.len() - k,
{
    if k == a.len() {
        lemma_tt_shift(a, b, 0);
        assert(tree_tokens(a, k) =~= Seq::<TokV>::empty());
        assert(Seq::<TokV>::empty() + tree_tokens(b, 0) =~= tree_tokens(b, 0));
    } else {
        assert((a + b)[k] == a[k]);
        assert(!crate::pgn::is_result(a[k]));
        lemma_tt_concat(a, b, k + 1);
        let w = a[k];
        if w == "("@ {
            assert(seq![TokV::Start] + (tree_tokens(a, k + 1) + tree_tokens(b, 0)) =~= (seq![TokV::Start]
                + tree_tokens(a, k + 1)) + tree_tokens(b, 0));
        } else if w == ")"@ {
            assert(seq![TokV::End] + (tree_tokens(a, k + 1) + tree_tokens(b, 0)) =~= (seq![TokV::End]
                + tree_tokens(a, k + 1)) + tree_tokens(b, 0));
        } else if crate::pgn_tree::move_number_like(w) {
        } else if crate::pgn_tree::strip_number(w).len() > 0 {
            let t = TokV::San(crate::pgn_tree::strip_number(w));
            assert(seq![t] + (tree_tokens(a, k + 1) + tree_tokens(b, 0)) =~= (seq![t] + tree_tokens(a, k + 1))
                + tree_tokens(b, 0));
        }
    }
}

/// The words and tokens of two texts that meet cleanly are those of each.
proof fn lemma_text_concat(a: Seq<char>, b: Seq<char>)
    requires
        no_brace(a),
        no_brace(b),
        meets(a, b),
    ensures
        no_brace(a + b),
        words(a + b) == words(a) + words(b),
        no_result(a) && no_result(b) ==> no_result(a + b),
        no_result(a) ==> toks_of(a + b) == toks_of(a) + toks_of(b),
{
    assert forall|i: int| 0 <= i < (a + b).len() implies #[trigger] (a + b)[i] != '{' by {
        if i < a.len() {
            assert((a + b)[i] == a[i]);
        } else {
            assert((a + b)[i] == b[i - a.len()]);
        }
    }
    lemma_spaced_concat(a, b, 0);
    let x = spaced(a, 0, false);
    let y = spaced(b, 0, false);
    if a.len() > 0 {
        lemma_spaced_ends(a);
    } else {
        assert(x =~= Seq::<char>::empty());
    }
    if b.len() > 0 {
        lemma_spaced_ends(b);
    } else {
        assert(y =~= Seq::<char>::empty());
    }
    lemma_ws_concat(x, y);
    let wa = words(a);
    let wb = words(b);
    if no_result(a) && no_result(b) {
        assert forall|i: int| 0 <= i < words(a + b).len() implies !crate::pgn::is_result(#[trigger] words(a + b)[i]) by {
            if i < wa.len() {
                assert(words(a + b)[i] == wa[i]);
            } else {
                assert(words(a + b)[i] == wb[i - wa.len()]);
            }
        }
    }
    if no_result(a) {
        lemma_tt_concat(wa, wb, 0);
    }
}

// ---------------------------------------------------------------- the text of one move

/// A move as it can be written and read back: a word without parentheses or braces that
/// does not start like a move number or a result.
pub open spec fn plain_word(w: Seq<char>) -> bool {
    &&& w.len() > 0
    &&& forall|k: int| 0 <= k < w.len() ==> !is_ws(#[trigger] w[k]) && !is_paren(w[k]) && w[k] != '{'
    &&& !crate::text::is_digit(w[0])
    &&& w[0] != '.'
    &&& w[0] != '*'
}

pub open spec fn plain_san(c: NodeV) -> bool {
    c.san matches Some(w) && plain_word(w)
}

proof fn lemma_dec_digits(n: nat)
    ensures
        crate::text::dec(n).len() > 0,
        forall|i: int| 0 <= i < crate::text::dec(n).len() ==> crate::text::is_digit(#[trigger] crate::text::dec(n)[i]),
    decreases n,
{
    if n >= 10 {
        lemma_dec_digits(n / 10);
        let d = crate::text::dec(n / 10);
        assert forall|i: int| 0 <= i < crate::text::dec(n).len() implies crate::text::is_digit(#[trigger] crate::text::dec(n)[i]) by {
            if i < d.len() {
                assert(crate::text::dec(n)[i] == d[i]);
            }
        }
    }
}

proof fn lemma_results()
    ensures
        "1-0"@ =~= seq!['1', '-', '0'],
        "0-1"@ =~= seq!['0', '-', '1'],
        "1/2-1/2"@ =~= seq!['1', '/', '2', '-', '1', '/', '2'],
        "*"@ =~= seq!['*'],
        "("@ =~= seq!['('],
        ")"@ =~= seq![')'],
        "..."@ =~= seq!['.', '.', '.'],
{
    reveal_strlit("1-0");
    reveal_strlit("0-1");
    reveal_strlit("1/2-1/2");
    reveal_strlit("*");
    reveal_strlit("(");
    reveal_strlit(")");
    reveal_strlit("...");
}

/// A plain word reads as itself, a move.
proof fn lemma_plain_word(w: Seq<char>)
    requires
        plain_word(w),
    ensures
        no_brace(w),
        words(w) == seq![w],
        !crate::pgn::is_result(w),
        tree_tokens(seq![w], 0) == seq![TokV::San(w)],
        is_word(w),
{
    lemma_results();
    assert(w[0] == w[0]);
    lemma_spaced_plain(w, 0);
    assert(w.skip(0) =~= w);
    crate::text::lemma_tokens_gather(w, 0, w.len() as int, seq![]);
    assert(Seq::<char>::empty() + w.subrange(0, w.len() as int) =~= w);
    assert(tokens_from(w, w.len() as int, w) =~= seq![w]);
    assert(!crate::pgn::is_result(w)) by {
        if w.len() == 1 {
            assert(w != seq!['*']);
        }
    }
    assert(w != "("@ && w != ")"@) by {
        if w.len() == 1 {
            assert(!is_paren(w[0]));
        }
    }
    assert(!crate::pgn_tree::move_number_like(w)) by {
        assert(!(crate::text::is_digit(w[0]) || w[0] == '.'));
    }
    assert(crate::pgn_tree::digits_end(w, 0) == 0);
    assert(w.skip(0) =~= w);
    assert(!(w.len() >= 3 && w.take(3) == "..."@)) by {
        if w.len() >= 3 && w.take(3) == "..."@ {
            assert(w.take(3)[0] == '.');
        }
    }
    assert(crate::pgn_tree::strip_number(w) == w);
    assert(tree_tokens(seq![w], 1) =~= Seq::<TokV>::empty());
    assert(seq![TokV::San(w)] + Seq::<TokV>::empty() =~= seq![TokV::San(w)]);
}

/// A move number with its dots: a word of digits and dots, no result.
proof fn lemma_number_word(d: Seq<char>, dots: Seq<char>)
    requires
        d.len() > 0,
        forall|i: int| 0 <= i < d.len() ==> crate::text::is_digit(#[trigger] d[i]),
        dots.len() > 0,
        forall|i: int| 0 <= i < dots.len() ==> #[trigger] dots[i] == '.',
    ensures
        is_word(d + dots),
        crate::pgn_tree::move_number_like(d + dots),
        !crate::pgn::is_result(d + dots),
        forall|k: int| 0 <= k < (d + dots).len() ==> #[trigger] (d + dots)[k] != '{' && !is_paren((d + dots)[k]),
{
    lemma_results();
    let x = d + dots;
    assert forall|k: int| 0 <= k < x.len() implies !is_ws(#[trigger] x[k]) by {
        if k < d.len() {
            assert(x[k] == d[k]);
        } else {
            assert(x[k] == dots[k - d.len()]);
        }
    }
    assert forall|k: int| 0 <= k < x.len() implies crate::text::is_digit(#[trigger] x[k]) || x[k] == '.' by {
        if k < d.len() {
            assert(x[k] == d[k]);
        } else {
            assert(x[k] == dots[k - d.len()]);
        }
    }
    assert forall|k: int| 0 <= k < x.len() implies #[trigger] x[k] != '{' && !is_paren(x[k]) by {
        if k < d.len() {
            assert(x[k] == d[k]);
        } else {
            assert(x[k] == dots[k - d.len()]);
        }
    }
    assert(x.last() == '.');
}

proof fn lemma_plain_text(t: Seq<char>)
    requires
        forall|k: int| 0 <= k < t.len() ==> #[trigger] t[k] != '{' && !is_paren(t[k]),
    ensures
        no_brace(t),
        words(t) == ws_tokens(t),
{
    lemma_spaced_plain(t, 0);
    assert(t.skip(0) =~= t);
}

/// A word, then (perhaps) a space: it reads as that word.
proof fn lemma_word_then_space(w: Seq<char>, sp: bool)
    requires
        plain_word(w),
    ensures
        ws_tokens(if sp { w + " "@ } else { w }) == seq![w],
{
    lemma_plain_word(w);
    lemma_spaced_plain(w, 0);
    assert(w.skip(0) =~= w);
    if sp {
        reveal_strlit(" ");
        assert(w + " "@ =~= w + seq![' '] + Seq::<char>::empty());
        crate::text::lemma_tokens_word_space(w, Seq::<char>::empty());
        assert(ws_tokens(Seq::<char>::empty()) =~= Seq::<Seq<char>>::empty());
        assert(seq![w] + Seq::<Seq<char>>::empty() =~= seq![w]);
    }
}

/// The text of one move reads as that move alone.
proof fn lemma_move_text(n: NodeV, mn: nat, prefix: crate::pgn_tree::MovePrefix)
    requires
        plain_san(n),
    ensures
        no_brace(crate::pgn_tree::move_text(n, mn, prefix)),
        no_result(crate::pgn_tree::move_text(n, mn, prefix)),
        toks_of(crate::pgn_tree::move_text(n, mn, prefix)) == seq![TokV::San(crate::pgn_tree::san_text(n))],
        crate::pgn_tree::move_text(n, mn, prefix).len() > 0,
        !is_ws(crate::pgn_tree::move_text(n, mn, prefix)[0]),
        n.children.len() > 0 ==> crate::pgn_tree::move_text(n, mn, prefix).last() == ' ',
        n.children.len() == 0 ==> !is_ws(crate::pgn_tree::move_text(n, mn, prefix).last()) && !is_paren(
            crate::pgn_tree::move_text(n, mn, prefix).last(),
        ),
{
    let w = n.san->0;
    assert(crate::pgn_tree::san_text(n) == w);
    lemma_plain_word(w);
    lemma_results();
    reveal_strlit(" ");
    reveal_strlit(". ");
    reveal_strlit("... ");
    reveal_strlit(".");
    let t = crate::pgn_tree::move_text(n, mn, prefix);
    let sp = n.children.len() > 0;
    let tail = if sp { w + " "@ } else { w };
    lemma_word_then_space(w, sp);
    assert(tail.len() > 0 && tail[0] == w[0]);
    assert(sp ==> tail.last() == ' ');
    assert(!sp ==> tail.last() == w.last());
    assert(w[w.len() - 1] == w.last());
    assert forall|k: int| 0 <= k < tail.len() implies #[trigger] tail[k] != '{' && !is_paren(tail[k]) by {
        if k < w.len() {
            assert(tail[k] == w[k]);
        }
    }
    match prefix {
        crate::pgn_tree::MovePrefix::MainlineBlack => {
            assert(t == tail);
            lemma_plain_text(t);
            assert(tree_tokens(seq![w], 0) == seq![TokV::San(w)]);
        },
        _ => {
            let d = crate::text::dec(mn);
            lemma_dec_digits(mn);
            let dots = if prefix == crate::pgn_tree::MovePrefix::VariationBlack { "..."@ } else { "."@ };
            assert(dots.len() > 0);
            assert forall|i: int| 0 <= i < dots.len() implies #[trigger] dots[i] == '.' by {}
            lemma_number_word(d, dots);
            let x = d + dots;
            assert(t =~= x + seq![' '] + tail);
            crate::text::lemma_tokens_word_space(x, tail);
            assert forall|k: int| 0 <= k < t.len() implies #[trigger] t[k] != '{' && !is_paren(t[k]) by {
                if k < x.len() {
                    assert(t[k] == x[k]);
                } else if k > x.len() {
                    assert(t[k] == tail[k - x.len() - 1]);
                }
            }
            lemma_plain_text(t);
            assert(words(t) == seq![x] + seq![w]);
            assert(seq![x] + seq![w] =~= seq![x, w]);
            assert(!crate::pgn::is_result(x));
            assert(x != "("@ && x != ")"@) by {
                assert(x.len() >= 2);
            }
            assert(tree_tokens(seq![x, w], 1) == tree_tokens(seq![w], 0)) by {
                lemma_tt_shift(seq![x], seq![w], 0);
                assert(seq![x] + seq![w] =~= seq![x, w]);
            }
            assert(t[0] == d[0]);
            assert(t.last() == tail.last());
        },
    }
}

// ---------------------------------------------------------------- the text of a tree

/// Every move below `n` is a plain word.
pub open spec fn writable(n: NodeV) -> bool
    decreases n, 2int, 0int,
{
    n.children.len() == 0 || (plain_san(n.children[0]) && writable(n.children[0]) && vars_writable(n, 1))
}

pub open spec fn vars_writable(n: NodeV, k: int) -> bool
    decreases n, 1int, n.children.len() - k,
{
    if k < 1 || k >= n.children.len() {
        true
    } else {
        plain_san(n.children[k]) && writable(n.children[k]) && vars_writable(n, k + 1)
    }
}

/// The fixed pieces of a variation: ` (`, `)` and a space.
proof fn lemma_pieces()
    ensures
        no_brace(" ("@),
        no_result(" ("@),
        toks_of(" ("@) == seq![TokV::Start],
        no_brace(")"@),
        no_result(")"@),
        toks_of(")"@) == seq![TokV::End],
        no_brace(" "@),
        no_result(" "@),
        toks_of(" "@) == Seq::<TokV>::empty(),
{
    reveal_strlit(" (");
    reveal_strlit(")");
    reveal_strlit(" ");
    lemma_results();
    let open = seq!['('];
    let close = seq![')'];
    assert(" ("@ =~= seq![' ', '(']);
    assert(spaced(" ("@, 2, false) =~= Seq::<char>::empty());
    assert(spaced(" ("@, 1, false) =~= seq![' ', '(', ' ']);
    assert(spaced(" ("@, 0, false) =~= seq![' ', ' ', '(', ' ']);
    assert(spaced(")"@, 1, false) =~= Seq::<char>::empty());
    assert(spaced(")"@, 0, false) =~= seq![' ', ')', ' ']);
    assert(spaced(" "@, 1, false) =~= Seq::<char>::empty());
    assert(spaced(" "@, 0, false) =~= seq![' ']);
    // words
    let ws2 = seq![' ', ' '];
    assert(tokens_from(ws2, 2, seq![]) =~= Seq::<Seq<char>>::empty());
    assert(tokens_from(ws2, 1, seq![]) =~= Seq::<Seq<char>>::empty());
    assert(ws_tokens(ws2) =~= Seq::<Seq<char>>::empty());
    crate::text::lemma_tokens_word_space(open, Seq::<char>::empty());
    crate::text::lemma_tokens_word_space(close, Seq::<char>::empty());
    assert(tokens_from(Seq::<char>::empty(), 0, seq![]) =~= Seq::<Seq<char>>::empty());
    assert(open + seq![' '] + Seq::<char>::empty() =~= seq!['(', ' ']);
    assert(close + seq![' '] + Seq::<char>::empty() =~= seq![')', ' ']);
    assert(ws_tokens(seq!['(', ' ']) =~= seq![open]);
    lemma_ws_concat(ws2, seq!['(', ' ']);
    assert(ws2 + seq!['(', ' '] =~= seq![' ', ' ', '(', ' ']);
    assert(words(" ("@) =~= seq![open]);
    assert(seq![' '] + seq![')', ' '] =~= seq![' ', ')', ' ']);
    assert(tokens_from(seq![' '], 1, seq![]) =~= Seq::<Seq<char>>::empty());
    assert(ws_tokens(seq![' ']) =~= Seq::<Seq<char>>::empty());
    lemma_ws_concat(seq![' '], seq![')', ' ']);
    assert(words(")"@) =~= seq![close]);
    assert(words(" "@) =~= Seq::<Seq<char>>::empty());
    assert(open == "("@);
    assert(close == ")"@);
    assert(tree_tokens(seq![open], 1) =~= Seq::<TokV>::empty());
    assert(tree_tokens(seq![close], 1) =~= Seq::<TokV>::empty());
    assert(tree_tokens(seq![open], 0) =~= seq![TokV::Start]);
    assert(tree_tokens(seq![close], 0) =~= seq![TokV::End]);
    assert(toks_of(" "@) =~= Seq::<TokV>::empty());
}

proof fn lemma_text_seq(x: NodeV, white: bool, mn: nat)
    requires
        writable(x),
    ensures
        no_brace(crate::pgn_tree::seq_text(x, white, mn).0),
        no_result(crate::pgn_tree::seq_text(x, white, mn).0),
        toks_of(crate::pgn_tree::seq_text(x, white, mn).0) == seq_toks(x),
        (crate::pgn_tree::seq_text(x, white, mn).0.len() == 0) == (x.children.len() == 0),
        crate::pgn_tree::seq_text(x, white, mn).0.len() > 0 ==> !is_ws(crate::pgn_tree::seq_text(x, white, mn).0[0])
            && !is_ws(crate::pgn_tree::seq_text(x, white, mn).0.last()),
    decreases x, 2int, 0int,
{
    let t = crate::pgn_tree::seq_text(x, white, mn).0;
    if x.children.len() == 0 {
        assert(t =~= Seq::<char>::empty());
        assert(words(t) =~= Seq::<Seq<char>>::empty()) by {
            assert(spaced(t, 0, false) =~= Seq::<char>::empty());
        }
        assert(toks_of(t) =~= Seq::<TokV>::empty());
    } else {
        let main = x.children[0];
        let prefix = if white { crate::pgn_tree::MovePrefix::MainlineWhite } else { crate::pgn_tree::MovePrefix::MainlineBlack };
        let t1 = crate::pgn_tree::move_text(main, mn, prefix);
        let mn1 = crate::pgn_tree::next_number(mn, white);
        let vt = crate::pgn_tree::vars_text(x, 1, mn);
        let rest = crate::pgn_tree::seq_text(main, !white, mn1).0;
        assert(t == t1 + vt + rest);
        lemma_move_text(main, mn, prefix);
        lemma_text_vars(x, 1, mn);
        lemma_text_seq(main, !white, mn1);
        lemma_text_concat(t1, vt);
        let a = t1 + vt;
        assert(vt.len() > 0 ==> a.last() == ')');
        assert(vt.len() == 0 ==> a =~= t1);
        lemma_text_concat(a, rest);
        assert(seq_toks(x) == seq![TokV::San(crate::pgn_tree::san_text(main))] + vars_toks(x, 1) + seq_toks(main));
        assert(t.len() > 0);
        assert(t[0] == t1[0]);
        if rest.len() > 0 {
            assert(t.last() == rest.last());
        } else if vt.len() > 0 {
            assert(t.last() == ')');
        } else {
            assert(t =~= t1);
        }
    }
}

proof fn lemma_text_vars(x: NodeV, k: int, bmn: nat)
    requires
        vars_writable(x, k),
    ensures
        no_brace(crate::pgn_tree::vars_text(x, k, bmn)),
        no_result(crate::pgn_tree::vars_text(x, k, bmn)),
        toks_of(crate::pgn_tree::vars_text(x, k, bmn)) == vars_toks(x, k),
        crate::pgn_tree::vars_text(x, k, bmn).len() == 0 || (crate::pgn_tree::vars_text(x, k, bmn)[0] == ' '
            && crate::pgn_tree::vars_text(x, k, bmn).last() == ')'),
    decreases x, 1int, x.children.len() - k,
{
    let t = crate::pgn_tree::vars_text(x, k, bmn);
    if k < 1 || k >= x.children.len() {
        assert(t =~= Seq::<char>::empty());
        assert(words(t) =~= Seq::<Seq<char>>::empty()) by {
            assert(spaced(t, 0, false) =~= Seq::<char>::empty());
        }
        assert(toks_of(t) =~= Seq::<TokV>::empty());
    } else {
        let c = x.children[k];
        let v = crate::pgn_tree::var_text(c, crate::chess::white_to_move(x.fen), bmn);
        let rest = crate::pgn_tree::vars_text(x, k + 1, bmn);
        lemma_pieces();
        reveal_strlit(" (");
        reveal_strlit(")");
        lemma_text_var(c, crate::chess::white_to_move(x.fen), bmn);
        lemma_text_vars(x, k + 1, bmn);
        let o = " ("@;
        let cl = ")"@;
        assert(o.last() == '(');
        lemma_text_concat(o, v);
        let a = o + v;
        assert(cl[0] == ')');
        lemma_text_concat(a, cl);
        let b = a + cl;
        assert(b.last() == ')');
        lemma_text_concat(b, rest);
        assert(t == b + rest);
        assert(vars_toks(x, k) == seq![TokV::Start] + var_toks(c) + seq![TokV::End] + vars_toks(x, k + 1));
        assert(t[0] == ' ');
        if rest.len() > 0 {
            assert(t.last() == rest.last());
        } else {
            assert(t =~= b);
        }
    }
}

proof fn lemma_text_var(c: NodeV, white: bool, mn: nat)
    requires
        plain_san(c),
        writable(c),
    ensures
        no_brace(crate::pgn_tree::var_text(c, white, mn)),
        no_result(crate::pgn_tree::var_text(c, white, mn)),
        toks_of(crate::pgn_tree::var_text(c, white, mn)) == var_toks(c),
    decreases c, 3int, 0int,
{
    let prefix = if white { crate::pgn_tree::MovePrefix::VariationWhite } else { crate::pgn_tree::MovePrefix::VariationBlack };
    let t1 = crate::pgn_tree::move_text(c, mn, prefix);
    lemma_move_text(c, mn, prefix);
    let t = crate::pgn_tree::var_text(c, white, mn);
    if c.children.len() > 0 {
        let sq = crate::pgn_tree::seq_text(c, !white, crate::pgn_tree::next_number(mn, white)).0;
        lemma_text_seq(c, !white, crate::pgn_tree::next_number(mn, white));
        lemma_pieces();
        reveal_strlit(" ");
        let sp = " "@;
        assert(sp[0] == ' ');
        lemma_text_concat(t1, sp);
        let a = t1 + sp;
        assert(a.last() == ' ');
        lemma_text_concat(a, sq);
        assert(t == a + sq);
        assert(toks_of(t) =~= seq![TokV::San(crate::pgn_tree::san_text(c))] + seq_toks(c));
    } else {
        assert(seq_toks(c) =~= Seq::<TokV>::empty());
        assert(var_toks(c) =~= seq![TokV::San(crate::pgn_tree::san_text(c))]);
    }
}

proof fn lemma_trim_clean(t: Seq<char>)
    requires
        t.len() == 0 || (!is_ws(t[0]) && !is_ws(t.last())),
    ensures
        crate::text::trim(t) == t,
{
    if t.len() > 0 {
        assert(crate::text::lead_end(t, 0) == 0);
        assert(crate::text::trail_start(t, t.len() as int) == t.len());
        assert(t.subrange(0, t.len() as int) =~= t);
    } else {
        assert(crate::text::lead_end(t, 0) == 0);
        assert(crate::text::trail_start(t, 0) == 0);
        assert(crate::text::trim(t) =~= t);
    }
}

/// The tokens read from the movetext written for a tree are the tree's own.
pub proof fn lemma_movetext_tokens(n: NodeV)
    requires
        writable(n),
    ensures
        crate::pgn_tree::movetext_tokens(crate::pgn_tree::movetext_of_tree(n)) == seq_toks(n),
{
    let t = crate::pgn_tree::seq_text(n, crate::chess::white_to_move(n.fen), 1).0;
    lemma_text_seq(n, crate::chess::white_to_move(n.fen), 1);
    lemma_trim_clean(t);
}

/// Reading back a written repertoire: the movetext written for a tree reads, from a
/// start position whose FEN the tree's root holds, as that very tree, node for node,
/// when every move is a plain word and replays as the reader plays it.
pub proof fn law_written_tree_reads_back(n: NodeV, start: Seq<char>)
    requires
        writable(n),
        replays(n, n.fen),
        n.san is None,
        n.orig is None,
        n.dest is None,
        sync_fen(start) is Ok,
        simplified(spec_position_fen(start)->0) == n.fen,
        sync_fen(n.fen) is Ok,
    ensures
        crate::pgn_tree::tree_of(crate::pgn_tree::movetext_of_tree(n), start) == Ok::<NodeV, Seq<char>>(n),
{
    lemma_movetext_tokens(n);
    let toks = seq_toks(n);
    let root0 = NodeV { fen: n.fen, san: None, orig: None, dest: None, children: seq![] };
    assert(root0 == stripped(n));
    assert(nv_at(root0, Seq::<usize>::empty()) == Some(root0));
    assert(toks.subrange(0, toks.len() as int) =~= toks);
    lemma_parse_seq(root0, seq![], n, n.fen, toks, 0, seq![]);
    assert(nv_put(root0, Seq::<usize>::empty(), n) == n);
}

} // verus!
