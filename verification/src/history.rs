//! A linear game history with a cursor, as the board tabs keep it.
use vstd::prelude::*;
use crate::opening_book::{deepest_known, format_opening, lookup_fens, opening_text};
use crate::pgn::{step_view, steps_view, HistoryStep, StepV};
use crate::text::{append_str, string_of};

verus! {

broadcast use vstd::string::group_string_axioms;

/// A history is usable when it has a step under its cursor.
pub open spec fn cursor_ok(history: Seq<HistoryStep>, index: usize) -> bool {
    index < history.len()
}

/// Adds a move after the step at `index`: the steps after it are dropped, the new step
/// follows it, and the cursor moves onto it.
pub fn append_step(history: &mut Vec<HistoryStep>, index: usize, step: HistoryStep) -> (new_index: usize)
    requires
        index < old(history)@.len(),
    ensures
        steps_view(final(history)@) == steps_view(old(history)@.take(index + 1)).push(step_view(step)),
        new_index == index + 1,
        new_index == final(history)@.len() - 1,
{
    if index < history.len() - 1 {
        history.truncate(index + 1);
    }
    assert(history@ =~= old(history)@.take(index + 1));
    history.push(step);
    assert(steps_view(history@) =~= steps_view(old(history)@.take(index + 1)).push(step_view(step)));
    history.len() - 1
}

/// The positions of the history up to and including the step at `index`.
pub fn fens_through(history: &[HistoryStep], index: usize) -> (r: Vec<String>)
    requires
        index < history@.len(),
    ensures
        r@.map_values(|s: String| s@) == steps_view(history@).take(index + 1).map_values(|s: StepV| s.fen),
{
    let ghost target = steps_view(history@).take(index + 1).map_values(|s: StepV| s.fen);
    let mut out: Vec<String> = Vec::new();
    let mut i: usize = 0;
    while i <= index
        invariant
            i <= index + 1,
            index < history@.len(),
            target == steps_view(history@).take(index + 1).map_values(|s: StepV| s.fen),
            out@.map_values(|s: String| s@) == target.take(i as int),
        decreases index + 1 - i,
    {
        let ghost before = out@.map_values(|s: String| s@);
        out.push(history[i].fen.clone());
        assert(out@.map_values(|s: String| s@) =~= before.push(history@[i as int].fen@));
        assert(target.take(i + 1) =~= target.take(i as int).push(target[i as int]));
        i += 1;
    }
    assert(target.take(i as int) =~= target);
    out
}

/// The opening name shown for a line of positions: the deepest one the book knows, or
/// `Unknown opening`.
pub open spec fn opening_label_of(fens: Seq<Seq<char>>) -> Seq<char> {
    match deepest_known(fens, fens.len() as int) {
        Some((eco, name)) => opening_text(eco, name),
        None => "Unknown opening"@,
    }
}

pub fn opening_label_for(fens: &[String]) -> (r: String)
    ensures
        r@ == opening_label_of(fens@.map_values(|s: String| s@)),
{
    match lookup_fens(fens) {
        Some(m) => format_opening(&m),
        None => {
            let mut v: Vec<char> = Vec::new();
            append_str(&mut v, "Unknown opening");
            string_of(v.as_slice())
        },
    }
}

/// The opening label of a history up to its cursor.
pub fn history_opening_label(history: &[HistoryStep], index: usize) -> (r: String)
    requires
        index < history@.len(),
    ensures
        r@ == opening_label_of(steps_view(history@).take(index + 1).map_values(|s: StepV| s.fen)),
{
    let fens = fens_through(history, index);
    opening_label_for(fens.as_slice())
}

/// A move appended after the step at `index` leaves the steps up to it as they were, so
/// going back one step returns to the position the move was made from.
pub proof fn law_append_then_back(history: Seq<StepV>, index: int, step: StepV)
    requires
        0 <= index < history.len(),
    ensures
        history.take(index + 1).push(step).len() == index + 2,
        history.take(index + 1).push(step)[index + 1] == step,
        history.take(index + 1).push(step).take(index + 1) == history.take(index + 1),
        history.take(index + 1).push(step)[index] == history[index],
{
    assert(history.take(index + 1).push(step).take(index + 1) =~= history.take(index + 1));
}

} // verus!
