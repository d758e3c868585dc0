//! Engine best-move arrows on the board, one per reported line.
use vstd::prelude::*;
use crate::board::{Arrow, ArrowStyle};
use crate::chess::{spec_uci_squares, uci_squares, Key};
use crate::engine_uci::{lines_view, AnalysisResult, LineV};

verus! {

/// The arrow of the `index`-th line: from its first move's squares, when it has a first
/// move that is a UCI move between two squares.
pub open spec fn line_arrow(l: LineV, index: int) -> Seq<Arrow> {
    if l.pv.len() > 0 {
        match spec_uci_squares(l.pv[0]) {
            Some((o, d)) => seq![Arrow { orig: Key { index: o }, dest: Key { index: d }, style: ArrowStyle::Engine(index as usize) }],
            None => seq![],
        }
    } else {
        seq![]
    }
}

/// The arrows of the first `n` lines, in order.
pub open spec fn line_arrows(lines: Seq<LineV>, n: int) -> Seq<Arrow>
    decreases n,
{
    if n <= 0 || n > lines.len() {
        seq![]
    } else {
        line_arrows(lines, n - 1) + line_arrow(lines[n - 1], n - 1)
    }
}

pub fn engine_line_shapes(result: &AnalysisResult) -> (r: Vec<Arrow>)
    ensures
        r@ == line_arrows(lines_view(result.lines@), result.lines@.len() as int),
{
    let ghost lv = lines_view(result.lines@);
    let mut out: Vec<Arrow> = Vec::new();
    let mut i: usize = 0;
    while i < result.lines.len()
        invariant
            i <= result.lines@.len(),
            lv == lines_view(result.lines@),
            out@ == line_arrows(lv, i as int),
        decreases result.lines@.len() - i,
    {
        let line = &result.lines[i];
        assert(lv[i as int] == crate::engine_uci::line_view(*line));
        let ghost before = out@;
        if line.pv.len() > 0 {
            assert(lv[i as int].pv[0] == line.pv@[0]@);
            match uci_squares(line.pv[0].as_str()) {
                Some((o, d)) => {
                    out.push(Arrow { orig: o, dest: d, style: ArrowStyle::Engine(i) });
                },
                None => {},
            }
        }
        assert(out@ =~= before + line_arrow(lv[i as int], i as int));
        i += 1;
    }
    out
}

} // verus!
