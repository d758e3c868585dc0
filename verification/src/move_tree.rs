//! Variation tree for repertoire lines (mainline = child 0).
use vstd::prelude::*;
use crate::text::{append_chars, append_str, dec, decimal, str_eq, string_of, views};
use crate::opening_book::{deepest_known, lookup_fens, match_view, OpeningMatch};
use crate::chess::{key_wf, move_keys_error, move_outcome, play_move_keys, play_san_at, spec_move_keys, spec_play_san, spec_san_parses, start_fen, start_fen_text, Key};

verus! {

broadcast use vstd::string::group_string_axioms;

#[derive(Debug)]
pub struct TreeNode {
    pub fen: String,
    pub san: Option<String>,
    pub orig: Option<Key>,
    pub dest: Option<Key>,
    pub children: Vec<TreeNode>,
}

#[derive(Debug)]
pub struct MoveTree {
    pub root: TreeNode,
    /// Path of child indices from root to the current position.
    pub position: Vec<usize>,
    /// The next board move is added as a variation: after the moves already played from
    /// the current node, as a sibling of the mainline, never in front of it.
    pub variation_mode: bool,
}

/// The mathematical form of a tree node.
pub struct NodeV {
    pub fen: Seq<char>,
    pub san: Option<Seq<char>>,
    pub orig: Option<u8>,
    pub dest: Option<u8>,
    pub children: Seq<NodeV>,
}

pub open spec fn opt_str(o: Option<String>) -> Option<Seq<char>> {
    match o {
        Some(s) => Some(s@),
        None => None,
    }
}

pub open spec fn opt_key(o: Option<Key>) -> Option<u8> {
    match o {
        Some(k) => Some(k.index),
        None => None,
    }
}

pub open spec fn node_view(n: TreeNode) -> NodeV
    decreases n,
{
    NodeV {
        fen: n.fen@,
        san: opt_str(n.san),
        orig: opt_key(n.orig),
        dest: opt_key(n.dest),
        children: children_view(n.children@),
    }
}

pub open spec fn children_view(cs: Seq<TreeNode>) -> Seq<NodeV>
    decreases cs,
{
    if cs.len() == 0 {
        seq![]
    } else {
        children_view(cs.drop_last()).push(node_view(cs.last()))
    }
}

impl View for TreeNode {
    type V = NodeV;

    open spec fn view(&self) -> NodeV {
        node_view(*self)
    }
}

pub broadcast proof fn lemma_children_view(cs: Seq<TreeNode>)
    ensures
        #[trigger] children_view(cs).len() == cs.len(),
        forall|k: int| 0 <= k < cs.len() ==> #[trigger] children_view(cs)[k] == node_view(cs[k]),
    decreases cs.len(),
{
    if cs.len() > 0 {
        lemma_children_view(cs.drop_last());
    }
}

pub proof fn lemma_children_view_ext(a: Seq<TreeNode>, b: Seq<NodeV>)
    requires
        a.len() == b.len(),
        forall|k: int| 0 <= k < a.len() ==> node_view(#[trigger] a[k]) == b[k],
    ensures
        children_view(a) == b,
{
    lemma_children_view(a);
    assert(children_view(a) =~= b);
}

/// The node reached by following `path` from `n`.
pub open spec fn nv_at(n: NodeV, path: Seq<usize>) -> Option<NodeV>
    decreases path.len(),
{
    if path.len() == 0 {
        Some(n)
    } else if path[0] < n.children.len() {
        nv_at(n.children[path[0] as int], path.skip(1))
    } else {
        None
    }
}

/// `n` with the children of the node at `path` replaced by `f` of them.
pub open spec fn nv_edit(n: NodeV, path: Seq<usize>, f: spec_fn(Seq<NodeV>) -> Seq<NodeV>) -> NodeV
    decreases path.len(),
{
    if path.len() == 0 {
        NodeV { children: f(n.children), ..n }
    } else if path[0] < n.children.len() {
        NodeV {
            children: n.children.update(
                path[0] as int,
                nv_edit(n.children[path[0] as int], path.skip(1), f),
            ),
            ..n
        }
    } else {
        n
    }
}

/// A node with no continuation.
pub open spec fn leaf(fen: Seq<char>, san: Seq<char>, orig: u8, dest: u8) -> NodeV {
    NodeV { fen, san: Some(san), orig: Some(orig), dest: Some(dest), children: seq![] }
}

/// Index of the first child at or after `i` whose move is `san`.
pub open spec fn child_index_from(cs: Seq<NodeV>, san: Seq<char>, i: int) -> Option<int>
    decreases cs.len() - i,
{
    if i < 0 || i >= cs.len() {
        None
    } else if cs[i].san == Some(san) {
        Some(i)
    } else {
        child_index_from(cs, san, i + 1)
    }
}

pub open spec fn child_index(cs: Seq<NodeV>, san: Seq<char>) -> Option<int> {
    child_index_from(cs, san, 0)
}

/// The nodes of the mainline from `n`: `n`, then its first child, and so on.
pub open spec fn mainline(n: NodeV) -> Seq<NodeV>
    decreases n,
{
    if n.children.len() == 0 {
        seq![n]
    } else {
        seq![n] + mainline(n.children[0])
    }
}

/// The FENs along `path` from `n`: `n`'s, then one per step that exists.
pub open spec fn fens_along(n: NodeV, path: Seq<usize>, i: int) -> Seq<Seq<char>>
    decreases path.len() - i,
{
    if i < 0 || i >= path.len() {
        seq![]
    } else {
        match nv_at(n, path.take(i + 1)) {
            Some(x) => seq![x.fen] + fens_along(n, path, i + 1),
            None => fens_along(n, path, i + 1),
        }
    }
}

/// `(index, san)` of each child that has a move, from index `i`.
pub open spec fn branch_opts(cs: Seq<NodeV>, i: int) -> Seq<(usize, Seq<char>)>
    decreases cs.len() - i,
{
    if i < 0 || i >= cs.len() {
        seq![]
    } else {
        match cs[i].san {
            Some(s) => seq![(i as usize, s)] + branch_opts(cs, i + 1),
            None => branch_opts(cs, i + 1),
        }
    }
}

/// The position after the node at `promoted` becomes the first child of its parent,
/// as `MoveTree::promote_variation_at` computes it.
pub open spec fn promoted_position(current: Seq<usize>, promoted: Seq<usize>) -> Seq<usize> {
    let k = promoted.len() - 1;
    let b = promoted[k];
    if promoted.len() == 0 {
        current
    } else if promoted.is_prefix_of(current) {
        promoted.take(k).push(0) + current.skip(promoted.len() as int)
    } else if current.len() > k && current.take(k) == promoted.take(k) {
        if current[k] == b {
            current.update(k, 0)
        } else if current[k] > b {
            current.update(k, (current[k] - 1) as usize)
        } else {
            current
        }
    } else {
        current
    }
}

/// The position after the line at `deleted` is removed, as `MoveTree::delete_line_at`
/// computes it.
pub open spec fn deleted_position(current: Seq<usize>, deleted: Seq<usize>) -> Seq<usize> {
    let k = deleted.len() - 1;
    let b = deleted[k];
    if deleted.len() == 0 {
        current
    } else if deleted.is_prefix_of(current) {
        deleted.take(k)
    } else if current.len() > k && current.take(k) == deleted.take(k) && current[k] > b {
        current.update(k, (current[k] - 1) as usize)
    } else {
        current
    }
}

pub open spec fn promote_children(b: int) -> spec_fn(Seq<NodeV>) -> Seq<NodeV> {
    |cs: Seq<NodeV>| cs.remove(b).insert(0, cs[b])
}

pub open spec fn remove_child(b: int) -> spec_fn(Seq<NodeV>) -> Seq<NodeV> {
    |cs: Seq<NodeV>| cs.remove(b)
}

pub open spec fn push_child(c: NodeV) -> spec_fn(Seq<NodeV>) -> Seq<NodeV> {
    |cs: Seq<NodeV>| cs.push(c)
}


/// Adding line `sans` from `path` (step `k` on), as `MoveTree::merge_line_from_path`
/// does it: the tree after, and the count of new nodes.
pub open spec fn merge_spec(n: NodeV, path: Seq<usize>, sans: Seq<Seq<char>>, k: int) -> (NodeV, nat)
    decreases sans.len() - k,
{
    if k < 0 || k >= sans.len() {
        (n, 0)
    } else {
        match nv_at(n, path) {
            None => (n, 0),
            Some(node) => match child_index(node.children, sans[k]) {
                Some(i) => merge_spec(n, path.push(i as usize), sans, k + 1),
                None => {
                    if spec_san_parses(sans[k]) && move_outcome(spec_play_san(node.fen, sans[k])) is Some {
                        let (f, _s, o, d) = move_outcome(spec_play_san(node.fen, sans[k]))->0;
                        let n2 = nv_edit(n, path, push_child(leaf(f, sans[k], o, d)));
                        let r = merge_spec(n2, path.push(node.children.len() as usize), sans, k + 1);
                        (r.0, r.1 + 1)
                    } else {
                        (n, 0)
                    }
                },
            },
        }
    }
}

// ---------------------------------------------------------------- lemmas on paths

pub(crate) proof fn lemma_nv_at_edit_same(n: NodeV, path: Seq<usize>, f: spec_fn(Seq<NodeV>) -> Seq<NodeV>)
    requires
        nv_at(n, path) is Some,
    ensures
        nv_at(nv_edit(n, path, f), path) == Some(
            NodeV { children: f(nv_at(n, path)->0.children), ..nv_at(n, path)->0 },
        ),
    decreases path.len(),
{
    if path.len() > 0 {
        lemma_nv_at_edit_same(n.children[path[0] as int], path.skip(1), f);
    }
}

/// Following `p` then `q` is following `p + q`.
pub(crate) proof fn lemma_nv_at_concat(n: NodeV, p: Seq<usize>, q: Seq<usize>)
    requires
        nv_at(n, p) is Some,
    ensures
        nv_at(n, p + q) == nv_at(nv_at(n, p)->0, q),
    decreases p.len(),
{
    if p.len() > 0 {
        assert((p + q).skip(1) =~= p.skip(1) + q);
        assert((p + q)[0] == p[0]);
        lemma_nv_at_concat(n.children[p[0] as int], p.skip(1), q);
    } else {
        assert(p + q =~= q);
    }
}

// ---------------------------------------------------------------- position arithmetic

fn adjust_position_after_promote(current: &mut Vec<usize>, promoted: &[usize])
    ensures
        final(current)@ == promoted_position(old(current)@, promoted@),
{
    if promoted.len() == 0 {
        return;
    }
    let k = promoted.len() - 1;
    if starts_with_path(current.as_slice(), promoted) {
        let mut new_pos: Vec<usize> = Vec::new();
        let mut i: usize = 0;
        while i < k
            invariant
                k == promoted@.len() - 1,
                i <= k,
                new_pos@ == promoted@.take(i as int),
            decreases k - i,
        {
            new_pos.push(promoted[i]);
            i += 1;
            assert(new_pos@ =~= promoted@.take(i as int));
        }
        new_pos.push(0);
        let mut j: usize = promoted.len();
        while j < current.len()
            invariant
                promoted@.len() <= j <= current@.len(),
                new_pos@ == promoted@.take(k as int).push(0) + current@.subrange(
                    promoted@.len() as int,
                    j as int,
                ),
            decreases current@.len() - j,
        {
            new_pos.push(current[j]);
            j += 1;
            assert(new_pos@ =~= promoted@.take(k as int).push(0) + current@.subrange(
                promoted@.len() as int,
                j as int,
            ));
        }
        assert(current@.subrange(promoted@.len() as int, current@.len() as int) =~= current@.skip(
            promoted@.len() as int,
        ));
        *current = new_pos;
        return;
    }
    let branch_index = promoted[k];
    if current.len() > k && prefix_equal(current.as_slice(), promoted, k) {
        let idx = current[k];
        if idx == branch_index {
            current.set(k, 0);
        } else if idx > branch_index {
            current.set(k, idx - 1);
        }
    }
}

fn adjust_position_after_delete(current: &mut Vec<usize>, deleted: &[usize])
    ensures
        final(current)@ == deleted_position(old(current)@, deleted@),
{
    if deleted.len() == 0 {
        return;
    }
    let k = deleted.len() - 1;
    if starts_with_path(current.as_slice(), deleted) {
        let mut new_pos: Vec<usize> = Vec::new();
        let mut i: usize = 0;
        while i < k
            invariant
                k == deleted@.len() - 1,
                i <= k,
                new_pos@ == deleted@.take(i as int),
            decreases k - i,
        {
            new_pos.push(deleted[i]);
            i += 1;
            assert(new_pos@ =~= deleted@.take(i as int));
        }
        *current = new_pos;
        return;
    }
    let branch_index = deleted[k];
    if current.len() > k && prefix_equal(current.as_slice(), deleted, k) {
        if current[k] > branch_index {
            let v = current[k] - 1;
            current.set(k, v);
        }
    }
}

/// `p` is a prefix of `s`.
fn starts_with_path(s: &[usize], p: &[usize]) -> (r: bool)
    ensures
        r == p@.is_prefix_of(s@),
{
    if p.len() > s.len() {
        return false;
    }
    let r = prefix_equal(s, p, p.len());
    assert(r ==> p@ =~= s@.take(p@.len() as int));
    assert(p@.is_prefix_of(s@) ==> s@.take(p@.len() as int) =~= p@.take(p@.len() as int));
    r
}

/// The first `k` entries of `a` and `b` agree.
fn prefix_equal(a: &[usize], b: &[usize], k: usize) -> (r: bool)
    requires
        k <= a@.len(),
        k <= b@.len(),
    ensures
        r == (a@.take(k as int) == b@.take(k as int)),
{
    let mut i: usize = 0;
    while i < k
        invariant
            k <= a@.len(),
            k <= b@.len(),
            i <= k,
            forall|j: int| 0 <= j < i ==> a@[j] == b@[j],
        decreases k - i,
    {
        if a[i] != b[i] {
            assert(a@.take(k as int)[i as int] != b@.take(k as int)[i as int]);
            return false;
        }
        i += 1;
    }
    assert(a@.take(k as int) =~= b@.take(k as int));
    true
}

/// The first `k` entries of `p`.
pub(crate) fn path_prefix(p: &[usize], k: usize) -> (r: Vec<usize>)
    requires
        k <= p@.len(),
    ensures
        r@ == p@.take(k as int),
{
    let mut r: Vec<usize> = Vec::new();
    let mut i: usize = 0;
    while i < k
        invariant
            k <= p@.len(),
            i <= k,
            r@ == p@.take(i as int),
        decreases k - i,
    {
        r.push(p[i]);
        i += 1;
        assert(r@ =~= p@.take(i as int));
    }
    r
}

/// A path that leaves the tree stays outside it when extended.
proof fn lemma_nv_at_none_extend(n: NodeV, p: Seq<usize>, q: Seq<usize>)
    requires
        nv_at(n, p) is None,
    ensures
        nv_at(n, p + q) is None,
    decreases p.len(),
{
    if p.len() > 0 {
        assert((p + q).skip(1) =~= p.skip(1) + q);
        assert((p + q)[0] == p[0]);
        if p[0] < n.children.len() {
            lemma_nv_at_none_extend(n.children[p[0] as int], p.skip(1), q);
        }
    }
}

/// Every prefix of a path into the tree leads into the tree.
pub(crate) proof fn lemma_nv_at_prefix(n: NodeV, s: Seq<usize>, k: int)
    requires
        nv_at(n, s) is Some,
        0 <= k <= s.len(),
    ensures
        nv_at(n, s.take(k)) is Some,
{
    assert(s.take(k) + s.skip(k) =~= s);
    if nv_at(n, s.take(k)) is None {
        lemma_nv_at_none_extend(n, s.take(k), s.skip(k));
    }
}

// ---------------------------------------------------------------- editing

/// One change to the children of a node.
pub enum ChildEdit {
    Push(TreeNode),
    Promote(usize),
    Remove(usize),
}

pub open spec fn edit_fn(e: ChildEdit) -> spec_fn(Seq<NodeV>) -> Seq<NodeV> {
    match e {
        ChildEdit::Push(c) => push_child(node_view(c)),
        ChildEdit::Promote(b) => promote_children(b as int),
        ChildEdit::Remove(b) => remove_child(b as int),
    }
}

pub open spec fn edit_ok(e: ChildEdit, len: nat) -> bool {
    match e {
        ChildEdit::Promote(b) => b < len,
        ChildEdit::Remove(b) => b < len,
        _ => true,
    }
}

fn apply_edit(cs: &mut Vec<TreeNode>, e: ChildEdit)
    requires
        edit_ok(e, old(cs)@.len()),
    ensures
        children_view(final(cs)@) == (edit_fn(e))(children_view(old(cs)@)),
{
    proof {
        lemma_children_view(old(cs)@);
    }
    match e {
        ChildEdit::Push(c) => {
            cs.push(c);
            proof {
                lemma_children_view_ext(cs@, children_view(old(cs)@).push(node_view(c)));
            }
        },
        ChildEdit::Promote(b) => {
            let node = cs.remove(b);
            cs.insert(0, node);
            proof {
                let v = children_view(old(cs)@);
                lemma_children_view_ext(cs@, v.remove(b as int).insert(0, v[b as int]));
            }
        },
        ChildEdit::Remove(b) => {
            cs.remove(b);
            proof {
                lemma_children_view_ext(cs@, children_view(old(cs)@).remove(b as int));
            }
        },
    }
}

proof fn lemma_view_with_children(n: TreeNode, m: TreeNode)
    requires
        n.fen == m.fen,
        n.san == m.san,
        n.orig == m.orig,
        n.dest == m.dest,
    ensures
        node_view(m) == (NodeV { children: children_view(m.children@), ..node_view(n) }),
{
}

pub(crate) fn edit_at(node: &mut TreeNode, path: &[usize], depth: usize, e: ChildEdit)
    requires
        depth <= path@.len(),
        nv_at(node_view(*old(node)), path@.skip(depth as int)) is Some,
        edit_ok(e, nv_at(node_view(*old(node)), path@.skip(depth as int))->0.children.len()),
    ensures
        node_view(*final(node)) == nv_edit(node_view(*old(node)), path@.skip(depth as int), edit_fn(e)),
    decreases path@.len() - depth,
{
    proof {
        lemma_children_view(old(node).children@);
    }
    if depth == path.len() {
        proof {
            lemma_children_view(old(node).children@);
        }
        apply_edit(&mut node.children, e);
        proof {
            lemma_view_with_children(*old(node), *node);
        }
    } else {
        let i = path[depth];
        assert(path@.skip(depth as int)[0] == i);
        assert(path@.skip(depth as int).skip(1) =~= path@.skip(depth + 1));
        let ghost old_children = node.children@;
        edit_at(&mut node.children[i], path, depth + 1, e);
        proof {
            lemma_children_view(node.children@);
            lemma_children_view_ext(
                node.children@,
                children_view(old_children).update(
                    i as int,
                    nv_edit(node_view(old_children[i as int]), path@.skip(depth + 1), edit_fn(e)),
                ),
            );
            lemma_view_with_children(*old(node), *node);
        }
    }
}

// ---------------------------------------------------------------- the tree

pub open spec fn tree_wf(t: MoveTree) -> bool {
    nv_at(node_view(t.root), t.position@) is Some
}

impl MoveTree {
    pub open spec fn root_view(&self) -> NodeV {
        node_view(self.root)
    }

    /// The node at the current position.
    pub open spec fn current_view(&self) -> NodeV {
        match nv_at(self.root_view(), self.position@) {
            Some(n) => n,
            None => self.root_view(),
        }
    }

    pub fn new() -> (t: Self)
        ensures
            t.root_view() == (NodeV { fen: start_fen_text(), san: None, orig: None, dest: None, children: seq![] }),
            t.position@ == Seq::<usize>::empty(),
            !t.variation_mode,
            tree_wf(t),
    {
        Self::from_fen(start_fen())
    }

    pub fn from_fen(fen: String) -> (t: Self)
        ensures
            t.root_view() == (NodeV { fen: fen@, san: None, orig: None, dest: None, children: seq![] }),
            t.position@ == Seq::<usize>::empty(),
            !t.variation_mode,
            tree_wf(t),
    {
        let t = Self {
            root: TreeNode { fen, san: None, orig: None, dest: None, children: Vec::new() },
            position: Vec::new(),
            variation_mode: false,
        };
        assert(children_view(t.root.children@) =~= Seq::<NodeV>::empty());
        t
    }

    pub fn node_at(&self, path: &[usize]) -> (r: Option<&TreeNode>)
        ensures
            match r {
                Some(x) => nv_at(self.root_view(), path@) == Some(node_view(*x)),
                None => nv_at(self.root_view(), path@) is None,
            },
    {
        Self::node_at_root(&self.root, path)
    }

    fn node_at_root<'a>(root: &'a TreeNode, path: &[usize]) -> (r: Option<&'a TreeNode>)
        ensures
            match r {
                Some(x) => nv_at(node_view(*root), path@) == Some(node_view(*x)),
                None => nv_at(node_view(*root), path@) is None,
            },
    {
        let mut node = root;
        let mut i: usize = 0;
        assert(path@.skip(0) =~= path@);
        while i < path.len()
            invariant
                i <= path@.len(),
                nv_at(node_view(*root), path@) == nv_at(node_view(*node), path@.skip(i as int)),
            decreases path@.len() - i,
        {
            let index = path[i];
            proof {
                lemma_children_view(node.children@);
            }
            assert(path@.skip(i as int)[0] == index);
            assert(path@.skip(i as int).skip(1) =~= path@.skip(i + 1));
            if index >= node.children.len() {
                return None;
            }
            node = &node.children[index];
            i += 1;
        }
        assert(path@.skip(i as int) =~= Seq::<usize>::empty());
        Some(node)
    }

    pub fn current(&self) -> (r: &TreeNode)
        ensures
            node_view(*r) == self.current_view(),
    {
        match self.node_at(self.position.as_slice()) {
            Some(n) => n,
            None => &self.root,
        }
    }

    /// FENs from the root to the current position.
    pub fn path_fens(&self) -> (r: Vec<String>)
        ensures
            crate::text::views(r@) == seq![self.root_view().fen] + fens_along(
                self.root_view(),
                self.position@,
                0,
            ),
    {
        let mut fens: Vec<String> = Vec::new();
        fens.push(self.root.fen.clone());
        let mut path: Vec<usize> = Vec::new();
        let mut i: usize = 0;
        let ghost n = self.root_view();
        while i < self.position.len()
            invariant
                i <= self.position@.len(),
                path@ == self.position@.take(i as int),
                n == self.root_view(),
                crate::text::views(fens@) + fens_along(n, self.position@, i as int) == seq![n.fen]
                    + fens_along(n, self.position@, 0),
            decreases self.position@.len() - i,
        {
            let ghost before = crate::text::views(fens@);
            path.push(self.position[i]);
            assert(path@ =~= self.position@.take(i + 1));
            match self.node_at(path.as_slice()) {
                Some(node) => {
                    fens.push(node.fen.clone());
                    assert(crate::text::views(fens@) =~= before.push(node.fen@));
                    assert(before + fens_along(n, self.position@, i as int) =~= before.push(node.fen@)
                        + fens_along(n, self.position@, i + 1));
                },
                None => {},
            }
            i += 1;
        }
        assert(crate::text::views(fens@) + fens_along(n, self.position@, i as int) =~= crate::text::views(fens@));
        fens
    }

    /// The mainline from the root, root included.
    pub fn mainline_steps(&self) -> (r: Vec<&TreeNode>)
        ensures
            r@.map_values(|x: &TreeNode| node_view(*x)) == mainline(self.root_view()),
    {
        let mut steps: Vec<&TreeNode> = Vec::new();
        let mut node = &self.root;
        steps.push(node);
        proof {
            lemma_children_view(node.children@);
        }
        while node.children.len() > 0
            invariant
                steps@.map_values(|x: &TreeNode| node_view(*x)) + (if node_view(*node).children.len() == 0 {
                    seq![]
                } else {
                    mainline(node_view(*node).children[0])
                }) == mainline(self.root_view()),
                children_view(node.children@).len() == node.children@.len(),
            decreases node_view(*node),
        {
            let ghost before = steps@.map_values(|x: &TreeNode| node_view(*x));
            proof {
                lemma_children_view(node.children@);
            }
            let ghost parent = node_view(*node);
            node = &node.children[0];
            steps.push(node);
            proof {
                lemma_children_view(node.children@);
                assert(steps@.map_values(|x: &TreeNode| node_view(*x)) =~= before.push(node_view(*node)));
                assert(parent.children[0] == node_view(*node));
                assert(mainline(node_view(*node)) == seq![node_view(*node)] + (if node_view(*node).children.len() == 0 {
                    seq![]
                } else {
                    mainline(node_view(*node).children[0])
                }));
                assert(before + mainline(node_view(*node)) =~= before.push(node_view(*node)) + (if node_view(*node).children.len() == 0 {
                    seq![]
                } else {
                    mainline(node_view(*node).children[0])
                }));
            }
        }
        assert(steps@.map_values(|x: &TreeNode| node_view(*x)) =~= steps@.map_values(|x: &TreeNode| node_view(*x)) + Seq::<NodeV>::empty());
        steps
    }

    pub fn mainline_fens(&self) -> (r: Vec<String>)
        ensures
            crate::text::views(r@) == mainline(self.root_view()).map_values(|n: NodeV| n.fen),
    {
        let steps = self.mainline_steps();
        let mut fens: Vec<String> = Vec::new();
        let mut i: usize = 0;
        let ghost ms = steps@.map_values(|x: &TreeNode| node_view(*x));
        while i < steps.len()
            invariant
                i <= steps@.len(),
                ms == steps@.map_values(|x: &TreeNode| node_view(*x)),
                crate::text::views(fens@) == ms.take(i as int).map_values(|n: NodeV| n.fen),
            decreases steps@.len() - i,
        {
            let ghost old_v = crate::text::views(fens@);
            fens.push(steps[i].fen.clone());
            assert(ms[i as int] == node_view(*steps@[i as int]));
            assert(crate::text::views(fens@) =~= old_v.push(ms[i as int].fen));
            assert(ms.take(i + 1).map_values(|n: NodeV| n.fen) =~= ms.take(i as int).map_values(
                |n: NodeV| n.fen,
            ).push(ms[i as int].fen));
            i += 1;
        }
        assert(ms.take(i as int) =~= ms);
        fens
    }

    pub fn make_move_from_board(&mut self, orig: &Key, dest: &Key) -> (r: Result<(), String>)
        requires
            tree_wf(*old(self)),
        ensures
            tree_wf(*final(self)),
            match r {
                Ok(()) => spec_move_keys(old(self).current_view().fen, orig.index, dest.index) matches Ok(
                    (f, s, o, d),
                ) && stepped(*old(self), *final(self), f, s, o, d),
                Err(e) => spec_move_keys(old(self).current_view().fen, orig.index, dest.index) is Err
                    && e@ == move_keys_error(old(self).current_view().fen, orig.index, dest.index)
                    && *final(self) == *old(self),
            },
    {
        let fen = self.current().fen.clone();
        match play_move_keys(fen.as_str(), orig, dest) {
            Ok((target_fen, san, orig_key, dest_key)) => {
                self.make_step(target_fen, san, orig_key, dest_key);
                Ok(())
            },
            Err(e) => Err(e),
        }
    }

    pub fn make_step(&mut self, fen: String, san: String, orig: Key, dest: Key)
        requires
            tree_wf(*old(self)),
        ensures
            tree_wf(*final(self)),
            stepped(*old(self), *final(self), fen@, san@, orig.index, dest.index),
            child_index(old(self).current_view().children, san@) is None ==> {
                let k = old(self).current_view().children.len();
                &&& final(self).position@ == old(self).position@.push(k as usize)
                &&& nv_at(final(self).root_view(), old(self).position@) == Some(NodeV {
                    children: old(self).current_view().children.push(
                        leaf(fen@, san@, orig.index, dest.index),
                    ),
                    ..old(self).current_view()
                })
            },
    {
        self.variation_mode = false;
        let parent_path = self.position.clone();
        assert(parent_path@ == self.position@);
        let ghost root0 = self.root_view();
        let ghost parent = nv_at(root0, parent_path@)->0;
        let existing_index = self.child_with_san(parent_path.as_slice(), &san);
        if let Some(index) = existing_index {
            self.position.push(index);
            proof {
                lemma_nv_at_concat(root0, parent_path@, seq![index]);
                assert(parent_path@ + seq![index] =~= self.position@);
                assert(seq![index].skip(1) =~= Seq::<usize>::empty());
                let child = parent.children[index as int];
                assert(nv_at(child, Seq::<usize>::empty()) == Some(child));
                assert(nv_at(parent, seq![index]) == Some(child));
            }
            return;
        }
        let node = TreeNode {
            fen,
            san: Some(san),
            orig: Some(orig),
            dest: Some(dest),
            children: Vec::new(),
        };
        assert(children_view(node.children@) =~= Seq::<NodeV>::empty());
        let ghost nv = node_view(node);
        assert(parent_path@.skip(0) =~= parent_path@);
        let child_index: usize = match Self::node_at_root(&self.root, parent_path.as_slice()) {
            Some(x) => {
                proof {
                    lemma_children_view(x.children@);
                }
                x.children.len()
            },
            None => 0,
        };
        edit_at(&mut self.root, parent_path.as_slice(), 0, ChildEdit::Push(node));
        self.position.push(child_index);
        proof {
            let f = push_child(nv);
            lemma_nv_at_edit_same(root0, parent_path@, f);
            lemma_nv_at_concat(self.root_view(), parent_path@, seq![child_index]);
            assert(parent_path@ + seq![child_index] =~= self.position@);
            assert(seq![child_index].skip(1) =~= Seq::<usize>::empty());
            let p1 = nv_at(self.root_view(), parent_path@)->0;
            let child = p1.children[child_index as int];
            assert(nv_at(child, Seq::<usize>::empty()) == Some(child));
            assert(nv_at(p1, seq![child_index]) == Some(child));
        }
    }

    /// Moves to `position` when a node stands there; otherwise nothing changes.
    pub fn go_to_position(&mut self, position: Vec<usize>)
        ensures
            final(self).root == old(self).root,
            final(self).variation_mode == old(self).variation_mode,
            nv_at(old(self).root_view(), position@) is Some ==> final(self).position@ == position@,
            nv_at(old(self).root_view(), position@) is None ==> final(self).position@ == old(
                self,
            ).position@,
    {
        if self.node_at(position.as_slice()).is_some() {
            self.position = position;
        }
    }

    /// Steps back to the parent; `false` at the root.
    pub fn go_back(&mut self) -> (r: bool)
        ensures
            r == (old(self).position@.len() > 0),
            final(self).root == old(self).root,
            final(self).variation_mode == old(self).variation_mode,
            r ==> final(self).position@ == old(self).position@.drop_last(),
            !r ==> final(self).position@ == old(self).position@,
    {
        if self.position.len() == 0 {
            return false;
        }
        self.position.pop();
        true
    }

    /// Steps to the first child of the current node; `false` where it has none.
    pub fn go_forward_mainline(&mut self) -> (r: bool)
        ensures
            r == (old(self).current_view().children.len() > 0),
            final(self).root == old(self).root,
            final(self).variation_mode == old(self).variation_mode,
            r ==> final(self).position@ == old(self).position@.push(0),
            !r ==> final(self).position@ == old(self).position@,
    {
        let cur = self.current();
        proof {
            lemma_children_view(cur.children@);
        }
        let n = cur.children.len();
        if n == 0 {
            return false;
        }
        self.position.push(0);
        true
    }

    /// The node whose children the current node is one of.
    pub open spec fn parent_view(&self) -> Option<NodeV> {
        nv_at(self.root_view(), self.position@.drop_last())
    }

    /// Moves to the next sibling of the current node, cyclically; `false` at the root
    /// or where the current node has no sibling.
    pub fn next_branch(&mut self) -> (r: bool)
        requires
            tree_wf(*old(self)),
        ensures
            r == (old(self).position@.len() > 0 && old(self).parent_view()->0.children.len() > 1),
            final(self).root == old(self).root,
            final(self).variation_mode == old(self).variation_mode,
            tree_wf(*final(self)),
            r ==> final(self).position@ == old(self).position@.update(
                old(self).position@.len() - 1,
                ((old(self).position@.last() + 1) % (old(self).parent_view()->0.children.len() as int)) as usize,
            ),
            !r ==> final(self).position@ == old(self).position@,
    {
        match self.sibling_count() {
            None => false,
            Some(n) => {
                let k = self.position.len() - 1;
                let b = self.position[k];
                let next = if b + 1 == n { 0 } else { b + 1 };
                proof {
                    if b + 1 == n {
                        vstd::arithmetic::div_mod::lemma_mod_self_0(n as int);
                    } else {
                        vstd::arithmetic::div_mod::lemma_small_mod((b + 1) as nat, n as nat);
                    }
                }
                self.position.set(k, next);
                proof {
                    self.lemma_sibling_wf(*old(self), next);
                }
                true
            },
        }
    }

    /// Moves to the previous sibling of the current node, cyclically; `false` at the
    /// root or where the current node has no sibling.
    pub fn previous_branch(&mut self) -> (r: bool)
        requires
            tree_wf(*old(self)),
        ensures
            r == (old(self).position@.len() > 0 && old(self).parent_view()->0.children.len() > 1),
            final(self).root == old(self).root,
            final(self).variation_mode == old(self).variation_mode,
            tree_wf(*final(self)),
            r ==> final(self).position@ == old(self).position@.update(
                old(self).position@.len() - 1,
                ((old(self).position@.last() + old(self).parent_view()->0.children.len() - 1)
                    % (old(self).parent_view()->0.children.len() as int)) as usize,
            ),
            !r ==> final(self).position@ == old(self).position@,
    {
        match self.sibling_count() {
            None => false,
            Some(n) => {
                let k = self.position.len() - 1;
                let b = self.position[k];
                let prev = if b == 0 { n - 1 } else { b - 1 };
                proof {
                    if b == 0 {
                        vstd::arithmetic::div_mod::lemma_small_mod((n - 1) as nat, n as nat);
                    } else {
                        vstd::arithmetic::div_mod::lemma_mod_add_multiples_vanish((b - 1) as int, n as int);
                        vstd::arithmetic::div_mod::lemma_small_mod((b - 1) as nat, n as nat);
                    }
                }
                self.position.set(k, prev);
                proof {
                    self.lemma_sibling_wf(*old(self), prev);
                }
                true
            },
        }
    }

    /// The number of children of the current node's parent, where the current node
    /// has a parent and a sibling.
    fn sibling_count(&self) -> (r: Option<usize>)
        requires
            tree_wf(*self),
        ensures
            r is Some == (self.position@.len() > 0 && self.parent_view()->0.children.len() > 1),
            r matches Some(n) ==> n == self.parent_view()->0.children.len() && self.position@.last()
                < n,
    {
        if self.position.len() == 0 {
            return None;
        }
        let k = self.position.len() - 1;
        let parent_path = path_prefix(self.position.as_slice(), k);
        proof {
            assert(parent_path@ =~= self.position@.drop_last());
            lemma_nv_at_prefix(self.root_view(), self.position@, k as int);
            lemma_nv_at_concat(self.root_view(), parent_path@, seq![self.position@.last()]);
            assert(parent_path@ + seq![self.position@.last()] =~= self.position@);
        }
        match Self::node_at_root(&self.root, parent_path.as_slice()) {
            None => None,
            Some(parent) => {
                proof {
                    lemma_children_view(parent.children@);
                }
                let n = parent.children.len();
                if n <= 1 {
                    None
                } else {
                    Some(n)
                }
            },
        }
    }

    /// Replacing the last index of a well-formed position by another index of the
    /// same parent keeps it well-formed.
    proof fn lemma_sibling_wf(&self, t0: MoveTree, j: usize)
        requires
            tree_wf(t0),
            t0.position@.len() > 0,
            self.root == t0.root,
            j < t0.parent_view()->0.children.len(),
            self.position@ == t0.position@.update(t0.position@.len() - 1, j),
        ensures
            tree_wf(*self),
    {
        let p = t0.position@.drop_last();
        lemma_nv_at_prefix(t0.root_view(), t0.position@, p.len() as int);
        assert(t0.position@.take(p.len() as int) =~= p);
        lemma_nv_at_concat(t0.root_view(), p, seq![t0.position@.last()]);
        assert(p + seq![t0.position@.last()] =~= t0.position@);
        lemma_nv_at_concat(self.root_view(), p, seq![j]);
        assert(p + seq![j] =~= self.position@);
        let c = t0.parent_view()->0.children[j as int];
        assert(seq![j].skip(1) =~= Seq::<usize>::empty());
        assert(nv_at(c, Seq::<usize>::empty()) == Some(c));
    }

    /// Whether `position` names a variation that can become the mainline.
    pub fn can_promote_at(&self, position: &[usize]) -> (r: bool)
        ensures
            r == (position@.len() > 0 && position@.last() != 0),
    {
        position.len() > 0 && position[position.len() - 1] != 0
    }

    /// Whether `position` names a line that can be deleted.
    pub fn can_delete_at(&self, position: &[usize]) -> (r: bool)
        ensures
            r == (position@.len() > 0),
    {
        position.len() > 0
    }

    /// Makes the current node the first child of its parent.
    pub fn promote_current_variation(&mut self) -> (r: bool)
        requires
            tree_wf(*old(self)),
        ensures
            r == (old(self).position@.len() > 0 && old(self).position@.last() != 0),
            final(self).variation_mode == old(self).variation_mode,
            r ==> final(self).root_view() == nv_edit(
                old(self).root_view(),
                old(self).position@.drop_last(),
                promote_children(old(self).position@.last() as int),
            ),
            r ==> final(self).position@ == promoted_position(old(self).position@, old(self).position@),
            !r ==> *final(self) == *old(self),
    {
        if self.position.len() == 0 {
            return false;
        }
        let position = self.position.clone();
        proof {
            let k = position@.len() - 1;
            let p = position@.drop_last();
            lemma_nv_at_prefix(self.root_view(), position@, k as int);
            assert(position@.take(k as int) =~= p);
            lemma_nv_at_concat(self.root_view(), p, seq![position@.last()]);
            assert(p + seq![position@.last()] =~= position@);
            assert(position@.take(k) =~= p);
        }
        self.promote_variation_at(position.as_slice())
    }

    /// Makes the node at `position` the first child of its parent, moving the current
    /// position along; `false` for the root or a node that is already first.
    pub fn promote_variation_at(&mut self, position: &[usize]) -> (r: bool)
        requires
            position@.len() > 0 && position@.last() != 0 ==> nv_at(
                old(self).root_view(),
                position@.drop_last(),
            ) is Some && position@.last() < nv_at(
                old(self).root_view(),
                position@.drop_last(),
            )->0.children.len(),
        ensures
            r == (position@.len() > 0 && position@.last() != 0),
            final(self).variation_mode == old(self).variation_mode,
            r ==> final(self).root_view() == nv_edit(
                old(self).root_view(),
                position@.drop_last(),
                promote_children(position@.last() as int),
            ),
            r ==> final(self).position@ == promoted_position(old(self).position@, position@),
            !r ==> *final(self) == *old(self),
    {
        if position.len() == 0 {
            return false;
        }
        let k = position.len() - 1;
        let b = position[k];
        if b == 0 {
            return false;
        }
        let parent_path = path_prefix(position, k);
        assert(parent_path@ =~= position@.drop_last());
        assert(parent_path@.skip(0) =~= parent_path@);
        edit_at(&mut self.root, parent_path.as_slice(), 0, ChildEdit::Promote(b));
        adjust_position_after_promote(&mut self.position, position);
        true
    }

    /// Removes the node at `position` with everything after it, moving the current
    /// position along; `false` where no such node exists below the root.
    pub fn delete_line_at(&mut self, position: &[usize]) -> (r: bool)
        ensures
            r == (position@.len() > 0 && nv_at(old(self).root_view(), position@) is Some),
            final(self).variation_mode == old(self).variation_mode,
            r ==> final(self).root_view() == nv_edit(
                old(self).root_view(),
                position@.drop_last(),
                remove_child(position@.last() as int),
            ),
            r ==> final(self).position@ == deleted_position(old(self).position@, position@),
            !r ==> *final(self) == *old(self),
    {
        if position.len() == 0 {
            return false;
        }
        let k = position.len() - 1;
        let b = position[k];
        let parent_path = path_prefix(position, k);
        proof {
            assert(parent_path@ =~= position@.drop_last());
            assert(parent_path@ + seq![b] =~= position@);
            assert(seq![b].skip(1) =~= Seq::<usize>::empty());
        }
        let n = match Self::node_at_root(&self.root, parent_path.as_slice()) {
            None => {
                proof {
                    lemma_nv_at_none_extend(self.root_view(), parent_path@, seq![b]);
                }
                return false;
            },
            Some(parent) => {
                proof {
                    lemma_children_view(parent.children@);
                    lemma_nv_at_concat(self.root_view(), parent_path@, seq![b]);
                }
                parent.children.len()
            },
        };
        if b >= n {
            return false;
        }
        proof {
            let c = nv_at(self.root_view(), parent_path@)->0.children[b as int];
            assert(nv_at(c, Seq::<usize>::empty()) == Some(c));
        }
        assert(parent_path@.skip(0) =~= parent_path@);
        edit_at(&mut self.root, parent_path.as_slice(), 0, ChildEdit::Remove(b));
        adjust_position_after_delete(&mut self.position, position);
        true
    }

    /// `(index, san)` of each sibling of the current node that has a move, the current
    /// node included; at the root, of the root's children.
    pub fn branch_options(&self) -> (r: Vec<(usize, String)>)
        ensures
            r@.map_values(|p: (usize, String)| (p.0, p.1@)) == branch_opts(
                if self.position@.len() == 0 {
                    self.root_view().children
                } else {
                    match self.parent_view() {
                        Some(n) => n.children,
                        None => self.root_view().children,
                    }
                },
                0,
            ),
    {
        let parent: &TreeNode = if self.position.len() == 0 {
            &self.root
        } else {
            let parent_path = path_prefix(self.position.as_slice(), self.position.len() - 1);
            assert(parent_path@ =~= self.position@.drop_last());
            match Self::node_at_root(&self.root, parent_path.as_slice()) {
                Some(x) => x,
                None => &self.root,
            }
        };
        let ghost cs = node_view(*parent).children;
        proof {
            lemma_children_view(parent.children@);
        }
        let mut out: Vec<(usize, String)> = Vec::new();
        let mut i: usize = 0;
        while i < parent.children.len()
            invariant
                i <= parent.children@.len(),
                cs == node_view(*parent).children,
                cs.len() == parent.children@.len(),
                forall|j: int| 0 <= j < cs.len() ==> #[trigger] cs[j] == node_view(parent.children@[j]),
                out@.map_values(|p: (usize, String)| (p.0, p.1@)) + branch_opts(cs, i as int)
                    == branch_opts(cs, 0),
            decreases parent.children@.len() - i,
        {
            let ghost before = out@.map_values(|p: (usize, String)| (p.0, p.1@));
            match &parent.children[i].san {
                Some(s) => {
                    out.push((i, s.clone()));
                    assert(out@.map_values(|p: (usize, String)| (p.0, p.1@)) =~= before.push(
                        (i, s@),
                    ));
                    assert(before + branch_opts(cs, i as int) =~= before.push((i, s@))
                        + branch_opts(cs, i + 1));
                },
                None => {},
            }
            i += 1;
        }
        assert(out@.map_values(|p: (usize, String)| (p.0, p.1@)) + branch_opts(cs, i as int)
            =~= out@.map_values(|p: (usize, String)| (p.0, p.1@)));
        out
    }

    /// The squares of the move that led to the current node, where it has both.
    pub fn last_move_keys(&self) -> (r: Option<(Key, Key)>)
        ensures
            match r {
                Some((a, b)) => self.current_view().orig == Some(a.index) && self.current_view().dest
                    == Some(b.index),
                None => self.current_view().orig is None || self.current_view().dest is None,
            },
    {
        let node = self.current();
        match (&node.orig, &node.dest) {
            (Some(orig), Some(dest)) => Some((*orig, *dest)),
            _ => None,
        }
    }

    /// Adds the moves `sans` as a line below the node at `anchor_path`, reusing children
    /// that already play a move; stops at the first move that cannot be played. Returns
    /// how many nodes were added.
    pub fn merge_line_from_path(&mut self, anchor_path: &[usize], sans: &[String]) -> (added: u32)
        requires
            sans@.len() <= u32::MAX,
        ensures
            (final(self).root_view(), added as nat) == merge_spec(
                old(self).root_view(),
                anchor_path@,
                sans@.map_values(|s: String| s@),
                0,
            ),
            final(self).position == old(self).position,
            final(self).variation_mode == old(self).variation_mode,
    {
        let ghost ss = sans@.map_values(|s: String| s@);
        let ghost goal = merge_spec(self.root_view(), anchor_path@, ss, 0);
        let mut path = path_prefix(anchor_path, anchor_path.len());
        assert(path@ =~= anchor_path@);
        let mut added: u32 = 0;
        let mut k: usize = 0;
        while k < sans.len()
            invariant_except_break
                k <= sans@.len(),
                added <= k,
            invariant
                sans@.len() <= u32::MAX,
                ss == sans@.map_values(|s: String| s@),
                self.position == old(self).position,
                self.variation_mode == old(self).variation_mode,
                goal == (merge_spec(self.root_view(), path@, ss, k as int).0, (merge_spec(
                    self.root_view(),
                    path@,
                    ss,
                    k as int,
                ).1 + added) as nat),
            ensures
                goal == (self.root_view(), added as nat),
            decreases sans@.len() - k,
        {
            let (fen, n) = match Self::node_at_root(&self.root, path.as_slice()) {
                None => break,
                Some(node) => {
                    proof {
                        lemma_children_view(node.children@);
                    }
                    (node.fen.clone(), node.children.len())
                },
            };
            match self.child_with_san(path.as_slice(), &sans[k]) {
                Some(i) => {
                    path.push(i);
                    k += 1;
                },
                None => {
                    match play_san_at(fen.as_str(), sans[k].as_str()) {
                        Err(_) => break,
                        Ok((target_fen, _label, o, d)) => {
                            let child = TreeNode {
                                fen: target_fen,
                                san: Some(sans[k].clone()),
                                orig: Some(o),
                                dest: Some(d),
                                children: Vec::new(),
                            };
                            assert(children_view(child.children@) =~= Seq::<NodeV>::empty());
                            assert(path@.skip(0) =~= path@);
                            edit_at(&mut self.root, path.as_slice(), 0, ChildEdit::Push(child));
                            path.push(n);
                            added += 1;
                            k += 1;
                        },
                    }
                },
            }
        }
        added
    }

    /// The book opening of the deepest known position on the mainline.
    pub open spec fn mainline_book(&self) -> Option<(Seq<char>, Seq<char>)> {
        deepest_known(
            mainline(self.root_view()).map_values(|n: NodeV| n.fen),
            mainline(self.root_view()).len() as int,
        )
    }

    /// Deepest book opening on the mainline (child 0 at each step), other than the
    /// starting position; `None` while the mainline has no move.
    pub fn mainline_opening(&self) -> (r: Option<OpeningMatch>)
        ensures
            match r {
                Some(m) => mainline(self.root_view()).len() > 1 && self.mainline_book() == Some(match_view(m))
                    && m.eco@ != "—"@,
                None => mainline(self.root_view()).len() <= 1 || self.mainline_book() is None || first_of(
                    self.mainline_book()->0,
                ) == "—"@,
            },
    {
        let fens = self.mainline_fens();
        if fens.len() <= 1 {
            return None;
        }
        assert(fens@.map_values(|s: String| s@) == crate::text::views(fens@));
        match lookup_fens(fens.as_slice()) {
            Some(o) => {
                if str_eq(o.eco.as_str(), "—") {
                    None
                } else {
                    Some(o)
                }
            },
            None => None,
        }
    }

    /// Index of the first child of the node at `path` whose move is `san`.
    pub(crate) fn child_with_san(&self, path: &[usize], san: &String) -> (r: Option<usize>)
        requires
            nv_at(self.root_view(), path@) is Some,
        ensures
            match r {
                Some(i) => child_index(nv_at(self.root_view(), path@)->0.children, san@) == Some(
                    i as int,
                ) && i < nv_at(self.root_view(), path@)->0.children.len(),
                None => child_index(nv_at(self.root_view(), path@)->0.children, san@) is None,
            },
    {
        let ghost parent = nv_at(self.root_view(), path@)->0;
        let p = match Self::node_at_root(&self.root, path) {
            Some(x) => x,
            None => &self.root,
        };
        proof {
            lemma_children_view(p.children@);
        }
        let mut j: usize = 0;
        let mut found: Option<usize> = None;
        while j < p.children.len() && found.is_none()
            invariant
                j <= p.children@.len(),
                node_view(*p) == parent,
                children_view(p.children@).len() == p.children@.len(),
                found is None ==> child_index(parent.children, san@) == child_index_from(
                    parent.children,
                    san@,
                    j as int,
                ),
                found matches Some(k) ==> child_index(parent.children, san@) == Some(k as int) && k
                    < parent.children.len(),
            decreases p.children@.len() - j + (if found is None { 1int } else { 0int }),
        {
            proof {
                lemma_children_view(p.children@);
            }
            let is_match = match &p.children[j].san {
                Some(s) => str_eq(s.as_str(), san.as_str()),
                None => false,
            };
            if is_match {
                assert(parent.children[j as int].san == Some(san@));
                found = Some(j);
            } else {
                j += 1;
            }
        }
        found
    }
}

pub open spec fn first_of(p: (Seq<char>, Seq<char>)) -> Seq<char> {
    p.0
}

/// The tree after a step to a move with the given FEN, SAN and squares: an existing child
/// with that SAN becomes current; otherwise a new leaf is added after the children already
/// there, so that each keeps its index (the mainline stays first), and becomes current.
/// Variation mode is switched off.
pub open spec fn stepped(t0: MoveTree, t1: MoveTree, fen: Seq<char>, san: Seq<char>, o: u8, d: u8) -> bool {
    let parent = t0.current_view();
    &&& !t1.variation_mode
    &&& match child_index(parent.children, san) {
        Some(i) => t1.root_view() == t0.root_view() && t1.position@ == t0.position@.push(i as usize),
        None => t1.root_view() == nv_edit(t0.root_view(), t0.position@, push_child(leaf(fen, san, o, d)))
            && t1.position@ == t0.position@.push(parent.children.len() as usize),
    }
}

// ---------------------------------------------------------------- laws

/// What a node shows of itself: its FEN, its move and the move's squares.
pub open spec fn label(n: NodeV) -> (Seq<char>, Option<Seq<char>>, Option<u8>, Option<u8>) {
    (n.fen, n.san, n.orig, n.dest)
}

/// `c` lies below the node at `p`'s parent, in a sibling line of `p`.
pub open spec fn in_sibling_line(c: Seq<usize>, p: Seq<usize>) -> bool {
    &&& p.len() > 0
    &&& c.len() >= p.len()
    &&& c.take(p.len() - 1) == p.drop_last()
    &&& c[p.len() - 1] != p.last()
}

/// An edit below the node at `path` leaves every node off that subtree as it was,
/// and keeps the fields of the nodes on the way to it.
pub(crate) proof fn lemma_nv_at_edit_off(n: NodeV, path: Seq<usize>, f: spec_fn(Seq<NodeV>) -> Seq<NodeV>, c: Seq<usize>)
    requires
        nv_at(n, path) is Some,
        !(path.len() < c.len() && path.is_prefix_of(c)),
    ensures
        nv_at(n, c) is Some ==> nv_at(nv_edit(n, path, f), c) is Some && label(
            nv_at(nv_edit(n, path, f), c)->0,
        ) == label(nv_at(n, c)->0),
        nv_at(n, c) is Some && !c.is_prefix_of(path) ==> nv_at(nv_edit(n, path, f), c) == nv_at(
            n,
            c,
        ),
    decreases c.len(),
{
    if c.len() == 0 {
        assert(c.is_prefix_of(path));
    } else if path.len() == 0 {
        assert(path.is_prefix_of(c));
    } else if c[0] != path[0] {
    } else {
        let i = c[0] as int;
        if path.skip(1).len() < c.skip(1).len() && path.skip(1).is_prefix_of(c.skip(1)) {
            assert forall|j: int| 0 <= j < path.len() implies path[j] == c[j] by {
                if j > 0 {
                    assert(path[j] == path.skip(1)[j - 1]);
                    assert(c[j] == c.skip(1)[j - 1]);
                    assert(c.skip(1).subrange(0, path.skip(1).len() as int)[j - 1] == c.skip(1)[j - 1]);
                }
            }
            assert(path =~= c.subrange(0, path.len() as int));
        }
        if c.skip(1).is_prefix_of(path.skip(1)) {
            assert forall|j: int| 0 <= j < c.len() implies path[j] == c[j] by {
                if j > 0 {
                    assert(path[j] == path.skip(1)[j - 1]);
                    assert(c[j] == c.skip(1)[j - 1]);
                    assert(path.skip(1).subrange(0, c.skip(1).len() as int)[j - 1] == path.skip(1)[j - 1]);
                }
            }
            assert(c =~= path.subrange(0, c.len() as int));
        }
        lemma_nv_at_edit_off(n.children[i], path.skip(1), f, c.skip(1));
    }
}

/// Where an edit puts the old child `j` of the node at `parent` at index `j2`, the
/// paths through them lead to the same nodes.
proof fn lemma_edit_moves_child(
    n: NodeV,
    parent: Seq<usize>,
    f: spec_fn(Seq<NodeV>) -> Seq<NodeV>,
    j: usize,
    j2: usize,
    rest: Seq<usize>,
)
    requires
        nv_at(n, parent) is Some,
        j < nv_at(n, parent)->0.children.len(),
        j2 < f(nv_at(n, parent)->0.children).len(),
        f(nv_at(n, parent)->0.children)[j2 as int] == nv_at(n, parent)->0.children[j as int],
    ensures
        nv_at(nv_edit(n, parent, f), parent + seq![j2] + rest) == nv_at(n, parent + seq![j] + rest),
{
    lemma_nv_at_edit_same(n, parent, f);
    let e = nv_edit(n, parent, f);
    lemma_nv_at_concat(e, parent, seq![j2] + rest);
    lemma_nv_at_concat(n, parent, seq![j] + rest);
    assert(parent + seq![j2] + rest =~= parent + (seq![j2] + rest));
    assert(parent + seq![j] + rest =~= parent + (seq![j] + rest));
    assert((seq![j2] + rest)[0] == j2);
    assert((seq![j2] + rest).skip(1) =~= rest);
    assert((seq![j] + rest)[0] == j);
    assert((seq![j] + rest).skip(1) =~= rest);
}

/// Promoting the variation at `p` keeps the current position on the same move (same
/// FEN, SAN and squares), wherever the current position lies outside the sibling
/// lines of `p`.
pub proof fn law_promote_keeps_current(t0: MoveTree, t1: MoveTree, p: Seq<usize>)
    requires
        tree_wf(t0),
        p.len() > 0,
        p.last() != 0,
        nv_at(t0.root_view(), p) is Some,
        t1.root_view() == nv_edit(t0.root_view(), p.drop_last(), promote_children(p.last() as int)),
        t1.position@ == promoted_position(t0.position@, p),
        !in_sibling_line(t0.position@, p),
    ensures
        tree_wf(t1),
        label(t1.current_view()) == label(t0.current_view()),
{
    let n = t0.root_view();
    let c = t0.position@;
    let k = p.len() - 1;
    let par = p.drop_last();
    let b = p.last();
    let f = promote_children(b as int);
    assert(p.take(k) =~= par);
    lemma_nv_at_prefix(n, p, k);
    lemma_nv_at_concat(n, par, seq![b]);
    assert(par + seq![b] =~= p);
    assert(seq![b].skip(1) =~= Seq::<usize>::empty());
    let cs = nv_at(n, par)->0.children;
    assert(b < cs.len());
    if p.is_prefix_of(c) {
        let rest = c.skip(p.len() as int);
        assert(par + seq![b] + rest =~= c);
        assert(p.take(k).push(0) + rest =~= par + seq![0usize] + rest);
        lemma_edit_moves_child(n, par, f, b, 0, rest);
    } else {
        assert(!(par.len() < c.len() && par.is_prefix_of(c))) by {
            if par.len() < c.len() && par.is_prefix_of(c) {
                assert(c.take(k) =~= par);
                if c[k] == b {
                    assert(p =~= c.subrange(0, p.len() as int));
                }
            }
        }
        assert(c.len() > k && c.take(k) == p.take(k) ==> par.is_prefix_of(c)) by {
            if c.len() > k && c.take(k) == p.take(k) {
                assert(par =~= c.subrange(0, k));
            }
        }
        lemma_nv_at_edit_off(n, par, f, c);
    }
}

/// Deleting the line at `p` keeps the current position on the same move when the
/// current position lies outside that line, and moves it to the parent of `p`
/// otherwise.
pub proof fn law_delete_keeps_current(t0: MoveTree, t1: MoveTree, p: Seq<usize>)
    requires
        tree_wf(t0),
        p.len() > 0,
        nv_at(t0.root_view(), p) is Some,
        t1.root_view() == nv_edit(t0.root_view(), p.drop_last(), remove_child(p.last() as int)),
        t1.position@ == deleted_position(t0.position@, p),
    ensures
        tree_wf(t1),
        p.is_prefix_of(t0.position@) ==> t1.position@ == p.drop_last() && label(t1.current_view())
            == label(nv_at(t0.root_view(), p.drop_last())->0),
        !p.is_prefix_of(t0.position@) ==> label(t1.current_view()) == label(t0.current_view()),
{
    let n = t0.root_view();
    let c = t0.position@;
    let k = p.len() - 1;
    let par = p.drop_last();
    let b = p.last();
    let f = remove_child(b as int);
    assert(p.take(k) =~= par);
    lemma_nv_at_prefix(n, p, k);
    lemma_nv_at_concat(n, par, seq![b]);
    assert(par + seq![b] =~= p);
    assert(seq![b].skip(1) =~= Seq::<usize>::empty());
    let cs = nv_at(n, par)->0.children;
    assert(b < cs.len());
    if p.is_prefix_of(c) {
        assert(!(par.len() < par.len() && par.is_prefix_of(par)));
        lemma_nv_at_edit_off(n, par, f, par);
    } else if c.len() > k && c.take(k) == par {
        let j = c[k];
        let rest = c.skip(p.len() as int);
        assert(par + seq![j] + rest =~= c);
        lemma_nv_at_prefix(n, c, p.len() as int);
        assert(c.take(p.len() as int) =~= par + seq![j]);
        lemma_nv_at_concat(n, par, seq![j]);
        assert(seq![j].skip(1) =~= Seq::<usize>::empty());
        if j == b {
            assert(p =~= c.subrange(0, p.len() as int));
        } else if j > b {
            assert(c.take(k) == p.take(k));
            assert(t1.position@ =~= par + seq![(j - 1) as usize] + rest);
            lemma_edit_moves_child(n, par, f, j, (j - 1) as usize, rest);
        } else {
            assert(t1.position@ =~= par + seq![j] + rest);
            lemma_edit_moves_child(n, par, f, j, j, rest);
        }
    } else {
        assert(!(par.len() < c.len() && par.is_prefix_of(c))) by {
            if par.len() < c.len() && par.is_prefix_of(c) {
                assert(c.take(k) =~= par);
            }
        }
        assert(c.len() > k && c.take(k) == p.take(k) ==> false);
        lemma_nv_at_edit_off(n, par, f, c);
    }
}

/// Moving to the next sibling and then to the previous one comes back to where it
/// started.
pub proof fn law_next_then_previous_branch(t0: MoveTree, t1: MoveTree, t2: MoveTree)
    requires
        tree_wf(t0),
        t0.position@.len() > 0,
        1 < t0.parent_view()->0.children.len() <= usize::MAX,
        t1.root == t0.root,
        t1.position@ == t0.position@.update(
            t0.position@.len() - 1,
            ((t0.position@.last() + 1) % (t0.parent_view()->0.children.len() as int)) as usize,
        ),
        t2.root == t1.root,
        t2.position@ == t1.position@.update(
            t1.position@.len() - 1,
            ((t1.position@.last() + t1.parent_view()->0.children.len() - 1) % (
            t1.parent_view()->0.children.len() as int)) as usize,
        ),
    ensures
        t2.position@ == t0.position@,
{
    let c = t0.position@;
    let k = c.len() - 1;
    let par = c.drop_last();
    lemma_nv_at_prefix(t0.root_view(), c, k);
    assert(c.take(k) =~= par);
    lemma_nv_at_concat(t0.root_view(), par, seq![c.last()]);
    assert(par + seq![c.last()] =~= c);
    assert(t1.position@.drop_last() =~= par);
    let len = t0.parent_view()->0.children.len();
    let b = c.last();
    assert(b < len);
    assert(t1.parent_view() == t0.parent_view());
    let b1 = t1.position@.last();
    assert(b1 == t1.position@[k]);
    assert(t1.position@[k] == ((b + 1) % (len as int)) as usize);
    if b + 1 == len {
        vstd::arithmetic::div_mod::lemma_mod_self_0(len as int);
        assert(b1 == 0);
        vstd::arithmetic::div_mod::lemma_small_mod((len - 1) as nat, len as nat);
        assert((b1 + len - 1) % (len as int) == b);
    } else {
        let bi = b as int;
        let li = len as int;
        assert((bi + 1) % li == bi + 1) by (nonlinear_arith)
            requires
                0 <= bi + 1 < li,
        ;
        assert(b1 == b + 1);
        vstd::arithmetic::div_mod::lemma_mod_add_multiples_vanish(b as int, len as int);
        vstd::arithmetic::div_mod::lemma_small_mod(b as nat, len as nat);
        assert(b1 + len - 1 == len + b);
        assert((b1 + len - 1) % (len as int) == b);
    }
    assert(t2.position@ =~= c);
}

/// Stepping to a move and going back returns to the position the step started from.
pub proof fn law_step_then_back(
    t0: MoveTree,
    t1: MoveTree,
    t2: MoveTree,
    fen: Seq<char>,
    san: Seq<char>,
    o: u8,
    d: u8,
)
    requires
        tree_wf(t0),
        stepped(t0, t1, fen, san, o, d),
        t2.position@ == t1.position@.drop_last(),
    ensures
        t2.position@ == t0.position@,
{
    assert(t0.position@.push(0).drop_last() =~= t0.position@);
    assert(forall|i: usize| t0.position@.push(i).drop_last() =~= t0.position@);
}

/// Index of a move among children after a child with that move is put last, where no
/// child had it before.
proof fn lemma_child_index_push(cs: Seq<NodeV>, c: NodeV, san: Seq<char>, i: int)
    requires
        0 <= i <= cs.len(),
        child_index_from(cs, san, i) is None,
        c.san == Some(san),
    ensures
        child_index_from(cs.push(c), san, i) == Some(cs.len() as int),
    decreases cs.len() - i,
{
    if i < cs.len() {
        lemma_child_index_push(cs, c, san, i + 1);
    }
}

/// Stepping again to a move just stepped to, from the same node, changes nothing in
/// the tree and arrives at the same place.
pub proof fn law_repeated_step_is_stable(
    t0: MoveTree,
    t1: MoveTree,
    t2: MoveTree,
    t3: MoveTree,
    fen: Seq<char>,
    san: Seq<char>,
    o: u8,
    d: u8,
)
    requires
        tree_wf(t0),
        stepped(t0, t1, fen, san, o, d),
        t2.root == t1.root,
        t2.position@ == t1.position@.drop_last(),
        !t2.variation_mode,
        stepped(t2, t3, fen, san, o, d),
    ensures
        t3.root_view() == t1.root_view(),
        t3.position@ == t1.position@,
{
    let n = t0.root_view();
    let c = t0.position@;
    let parent = t0.current_view();
    assert(forall|i: usize| c.push(i).drop_last() =~= c);
    assert(t2.position@ == c);
    match child_index(parent.children, san) {
        Some(i) => {},
        None => {
            let l = leaf(fen, san, o, d);
            let f = push_child(l);
            lemma_nv_at_edit_same(n, c, f);
            assert(t2.current_view().children == f(parent.children));
            lemma_child_index_push(parent.children, l, san, 0);
        },
    }
}

/// Two nodes agree on their position and on the moves of their children, in order.
pub open spec fn same_moves(a: NodeV, b: NodeV) -> bool {
    &&& a.fen == b.fen
    &&& a.children.len() == b.children.len()
    &&& forall|i: int| 0 <= i < a.children.len() ==> #[trigger] a.children[i].san == b.children[i].san
}

/// `q` is a proper prefix of `p`.
pub open spec fn proper_prefix(q: Seq<usize>, p: Seq<usize>) -> bool {
    q.len() < p.len() && p.take(q.len() as int) == q
}

/// Which child a move leads to depends on the children's moves alone.
proof fn lemma_child_index_same_moves(a: Seq<NodeV>, b: Seq<NodeV>, san: Seq<char>, i: int)
    requires
        a.len() == b.len(),
        forall|j: int| 0 <= j < a.len() ==> #[trigger] a[j].san == b[j].san,
    ensures
        child_index_from(a, san, i) == child_index_from(b, san, i),
    decreases a.len() - i,
{
    if 0 <= i < a.len() {
        assert(a[i].san == b[i].san);
        lemma_child_index_same_moves(a, b, san, i + 1);
    }
}

/// An edit below `p` leaves every node on a proper prefix of `p` with the same moves.
proof fn lemma_edit_keeps_prefix(n: NodeV, p: Seq<usize>, f: spec_fn(Seq<NodeV>) -> Seq<NodeV>, q: Seq<usize>)
    requires
        proper_prefix(q, p),
        nv_at(n, q) is Some,
    ensures
        nv_at(nv_edit(n, p, f), q) is Some,
        same_moves(nv_at(n, q)->0, nv_at(nv_edit(n, p, f), q)->0),
    decreases q.len(),
{
    let e = nv_edit(n, p, f);
    assert(p.take(0) =~= seq![]);
    if q.len() == 0 {
        if p[0] < n.children.len() {
            let b = p[0] as int;
            let c = n.children[b];
            if p.skip(1).len() == 0 {
                assert(nv_edit(c, p.skip(1), f).san == c.san);
            } else if p.skip(1)[0] < c.children.len() {
                assert(nv_edit(c, p.skip(1), f).san == c.san);
            } else {
                assert(nv_edit(c, p.skip(1), f) == c);
            }
            assert forall|i: int| 0 <= i < n.children.len() implies #[trigger] n.children[i].san
                == e.children[i].san by {
                if i == b {
                    assert(e.children[i] == nv_edit(c, p.skip(1), f));
                }
            }
        }
    } else {
        assert(q[0] == p.take(q.len() as int)[0]);
        assert(q[0] == p[0]);
        let b = p[0] as int;
        assert(b < n.children.len());
        assert(p.skip(1).take(q.skip(1).len() as int) =~= q.skip(1)) by {
            assert forall|j: int| 0 <= j < q.skip(1).len() implies p.skip(1).take(
                q.skip(1).len() as int,
            )[j] == q.skip(1)[j] by {
                assert(p.take(q.len() as int)[j + 1] == q[j + 1]);
            }
        }
        lemma_edit_keeps_prefix(n.children[b], p.skip(1), f, q.skip(1));
        assert(e.children[b] == nv_edit(n.children[b], p.skip(1), f));
    }
}

/// Merging from `p` leaves every node on a proper prefix of `p` with the same moves.
proof fn lemma_merge_keeps_prefix(n: NodeV, p: Seq<usize>, sans: Seq<Seq<char>>, k: int, q: Seq<usize>)
    requires
        proper_prefix(q, p),
        nv_at(n, q) is Some,
    ensures
        nv_at(merge_spec(n, p, sans, k).0, q) is Some,
        same_moves(nv_at(n, q)->0, nv_at(merge_spec(n, p, sans, k).0, q)->0),
    decreases sans.len() - k,
{
    if 0 <= k < sans.len() {
        if let Some(node) = nv_at(n, p) {
            match child_index(node.children, sans[k]) {
                Some(i) => {
                    assert(p.push(i as usize).take(q.len() as int) =~= p.take(q.len() as int));
                    lemma_merge_keeps_prefix(n, p.push(i as usize), sans, k + 1, q);
                },
                None => {
                    if spec_san_parses(sans[k]) && move_outcome(spec_play_san(node.fen, sans[k])) is Some {
                        let (f, _s, o, d) = move_outcome(spec_play_san(node.fen, sans[k]))->0;
                        let g = push_child(leaf(f, sans[k], o, d));
                        let n2 = nv_edit(n, p, g);
                        let len = node.children.len() as usize;
                        lemma_edit_keeps_prefix(n, p, g, q);
                        assert(p.push(len).take(q.len() as int) =~= p.take(q.len() as int));
                        lemma_merge_keeps_prefix(n2, p.push(len), sans, k + 1, q);
                    }
                },
            }
        }
    }
}

/// Merging the line that a merge from the same place just produced finds every move in
/// place.
proof fn lemma_merge_again(n: NodeV, p: Seq<usize>, sans: Seq<Seq<char>>, k: int)
    ensures
        merge_spec(merge_spec(n, p, sans, k).0, p, sans, k) == (merge_spec(n, p, sans, k).0, 0nat),
    decreases sans.len() - k,
{
    let r = merge_spec(n, p, sans, k);
    if 0 <= k < sans.len() {
        if let Some(node) = nv_at(n, p) {
            match child_index(node.children, sans[k]) {
                Some(i) => {
                    let pi = p.push(i as usize);
                    assert(pi.take(p.len() as int) =~= p);
                    lemma_merge_again(n, pi, sans, k + 1);
                    lemma_merge_keeps_prefix(n, pi, sans, k + 1, p);
                    let after = nv_at(r.0, p)->0;
                    lemma_child_index_same_moves(after.children, node.children, sans[k], 0);
                },
                None => {
                    if spec_san_parses(sans[k]) && move_outcome(spec_play_san(node.fen, sans[k])) is Some {
                        let (f, _s, o, d) = move_outcome(spec_play_san(node.fen, sans[k]))->0;
                        let l = leaf(f, sans[k], o, d);
                        let g = push_child(l);
                        let n2 = nv_edit(n, p, g);
                        let len = node.children.len() as usize;
                        let pl = p.push(len);
                        assert(pl.take(p.len() as int) =~= p);
                        lemma_nv_at_edit_same(n, p, g);
                        let mid = nv_at(n2, p)->0;
                        assert(mid.children == node.children.push(l));
                        lemma_child_index_push(node.children, l, sans[k], 0);
                        lemma_merge_again(n2, pl, sans, k + 1);
                        lemma_merge_keeps_prefix(n2, pl, sans, k + 1, p);
                        let after = nv_at(r.0, p)->0;
                        lemma_child_index_same_moves(after.children, mid.children, sans[k], 0);
                    }
                },
            }
        }
    }
}

/// Merging a line a second time, from the same place, adds nothing and leaves the tree
/// as the first merge left it.
pub proof fn law_merge_twice_adds_nothing(
    t0: MoveTree,
    t1: MoveTree,
    t2: MoveTree,
    anchor: Seq<usize>,
    sans: Seq<Seq<char>>,
    added1: nat,
    added2: nat,
)
    requires
        (t1.root_view(), added1) == merge_spec(t0.root_view(), anchor, sans, 0),
        (t2.root_view(), added2) == merge_spec(t1.root_view(), anchor, sans, 0),
    ensures
        added2 == 0,
        t2.root_view() == t1.root_view(),
{
    lemma_merge_again(t0.root_view(), anchor, sans, 0);
}

/// The indices of a path joined by `-`.
pub open spec fn joined_path(path: Seq<usize>) -> Seq<char>
    decreases path.len(),
{
    if path.len() <= 1 {
        if path.len() == 1 {
            dec(path[0] as nat)
        } else {
            seq![]
        }
    } else {
        joined_path(path.drop_last()) + "-"@ + dec(path.last() as nat)
    }
}

/// The key under which the variations below a node are folded: `root` for the root, else
/// the node's path joined by `-`.
pub open spec fn group_key(path: Seq<usize>) -> Seq<char> {
    if path.len() == 0 {
        "root"@
    } else {
        joined_path(path)
    }
}

pub fn variation_group_key(path: &[usize]) -> (r: String)
    ensures
        r@ == group_key(path@),
{
    let mut v: Vec<char> = Vec::new();
    if path.len() == 0 {
        append_str(&mut v, "root");
        return string_of(v.as_slice());
    }
    let mut i: usize = 0;
    while i < path.len()
        invariant
            i <= path@.len(),
            path@.len() > 0,
            v@ == joined_path(path@.take(i as int)),
        decreases path@.len() - i,
    {
        if i > 0 {
            append_str(&mut v, "-");
        }
        let d = decimal(path[i] as u64);
        append_chars(&mut v, d.as_slice());
        assert(path@.take(i + 1).drop_last() =~= path@.take(i as int));
        i += 1;
    }
    assert(path@.take(i as int) =~= path@);
    string_of(v.as_slice())
}

/// Folds the variations below the node at `branch_path` when they are open, opens them
/// when folded: `collapsed` holds the keys of the folded groups.
pub fn toggle_variation_group(collapsed: &mut Vec<String>, branch_path: &[usize])
    ensures
        ({
            let key = group_key(branch_path@);
            let before = views(old(collapsed)@);
            let after = views(final(collapsed)@);
            if before.contains(key) {
                after == before.filter(|k: Seq<char>| k != key)
            } else {
                after == before.push(key)
            }
        }),
{
    let key = variation_group_key(branch_path);
    let ghost kv = key@;
    let ghost f = |k: Seq<char>| k != kv;
    let ghost before = views(collapsed@);
    let mut found = false;
    let mut out: Vec<String> = Vec::new();
    let mut i: usize = 0;
    while i < collapsed.len()
        invariant
            i <= collapsed@.len(),
            before == views(collapsed@),
            kv == key@,
            f == (|k: Seq<char>| k != kv),
            found == before.take(i as int).contains(kv),
            views(out@) == before.take(i as int).filter(f),
        decreases collapsed@.len() - i,
    {
        let ghost prev = before.take(i as int);
        let ghost x = before[i as int];
        assert(before.take(i + 1) =~= prev.push(x));
        proof {
            prev.lemma_filter_push(x, f);
            vstd::seq_lib::lemma_seq_contains_after_push(prev, x, kv);
        }
        if str_eq(collapsed[i].as_str(), key.as_str()) {
            found = true;
        } else {
            let ghost o = views(out@);
            out.push(collapsed[i].clone());
            assert(views(out@) =~= o.push(x));
        }
        i += 1;
    }
    assert(before.take(i as int) =~= before);
    if found {
        *collapsed = out;
    } else {
        collapsed.push(key);
        assert(views(collapsed@) =~= before.push(kv));
    }
}

} // verus!
