//! The engine analysis shown with a board: which engine, whether a search runs, its result.
use vstd::prelude::*;
use crate::analysis_session::AnalysisSettings;
use crate::board::{Arrow, EvalBarPosition, EvalPatch};
use crate::engine_shapes::{engine_line_shapes, line_arrows};
use crate::engine_uci::{lines_view, AnalysisResult, EvalDisplay};

verus! {

/// The bar value of the best line of an analysis, if there is one.
pub open spec fn best_eval_of(analysis: Option<AnalysisResult>) -> Option<EvalDisplay> {
    match analysis {
        Some(a) => if a.lines@.len() == 0 {
            None
        } else {
            a.lines@[0].eval
        },
        None => None,
    }
}

/// The evaluation bar: on the left while an engine is selected, empty while it searches,
/// else showing the best line's value; switched off without an engine.
pub open spec fn eval_patch_of(engine_selected: bool, analyzing: bool, best: Option<EvalDisplay>) -> EvalPatch {
    if engine_selected {
        EvalPatch {
            enabled: Some(true),
            position: Some(EvalBarPosition::Left),
            display: Some(
                if analyzing {
                    None
                } else {
                    best
                },
            ),
        }
    } else {
        EvalPatch { enabled: Some(false), position: None, display: None }
    }
}

/// The engine arrows: those of the analysis while engine lines are shown.
pub open spec fn engine_arrows_of(show: bool, analysis: Option<AnalysisResult>) -> Seq<Arrow> {
    match analysis {
        Some(a) => if show {
            line_arrows(lines_view(a.lines@), a.lines@.len() as int)
        } else {
            seq![]
        },
        None => seq![],
    }
}

/// The bar value of a stored analysis.
pub fn best_eval_in(analysis: &Option<AnalysisResult>) -> (r: Option<EvalDisplay>)
    ensures
        r == best_eval_of(*analysis),
{
    match analysis {
        Some(a) => a.best_eval(),
        None => None,
    }
}

pub fn eval_patch_for(engine_selected: bool, analyzing: bool, best: Option<EvalDisplay>) -> (r: EvalPatch)
    ensures
        r == eval_patch_of(engine_selected, analyzing, best),
{
    if engine_selected {
        EvalPatch {
            enabled: Some(true),
            position: Some(EvalBarPosition::Left),
            display: Some(
                if analyzing {
                    None
                } else {
                    best
                },
            ),
        }
    } else {
        EvalPatch { enabled: Some(false), position: None, display: None }
    }
}

pub fn engine_arrows_for(show: bool, analysis: &Option<AnalysisResult>) -> (r: Vec<Arrow>)
    ensures
        r@ == engine_arrows_of(show, *analysis),
{
    match analysis {
        Some(a) => if show {
            engine_line_shapes(a)
        } else {
            Vec::new()
        },
        None => Vec::new(),
    }
}

#[derive(Debug)]
pub struct EngineState {
    pub selected_engine_id: Option<String>,
    pub analyzing: bool,
    pub analysis: Option<AnalysisResult>,
    pub settings: AnalysisSettings,
}

impl EngineState {
    pub fn board_shapes(&self) -> (r: Vec<Arrow>)
        ensures
            r@ == engine_arrows_of(self.settings.show_engine_lines, self.analysis),
    {
        engine_arrows_for(self.settings.show_engine_lines, &self.analysis)
    }

    pub fn eval_patch(&self) -> (r: Option<EvalPatch>)
        ensures
            r == Some(eval_patch_of(self.selected_engine_id is Some, self.analyzing, best_eval_of(self.analysis))),
    {
        let best = best_eval_in(&self.analysis);
        Some(eval_patch_for(self.selected_engine_id.is_some(), self.analyzing, best))
    }

    /// A search was started: its result is awaited.
    pub fn set_eval_pending(&mut self)
        ensures
            final(self).analyzing,
            final(self).analysis is None,
            final(self).selected_engine_id == old(self).selected_engine_id,
            final(self).settings == old(self).settings,
    {
        self.analyzing = true;
        self.analysis = None;
    }

    pub fn apply_analysis(&mut self, result: AnalysisResult)
        ensures
            !final(self).analyzing,
            final(self).analysis == Some(result),
            final(self).selected_engine_id == old(self).selected_engine_id,
            final(self).settings == old(self).settings,
    {
        self.analyzing = false;
        self.analysis = Some(result);
    }

    pub fn clear_analysis(&mut self)
        ensures
            !final(self).analyzing,
            final(self).analysis is None,
            final(self).selected_engine_id == old(self).selected_engine_id,
            final(self).settings == old(self).settings,
    {
        self.analyzing = false;
        self.analysis = None;
    }
}

} // verus!
