//! Right-side panel tabs shared across board modes.
use vstd::prelude::*;

verus! {

#[derive(Clone, Copy, Debug, PartialEq, Eq, Structural)]
pub enum SidePanelTab {
    Moves,
    Explorer,
    Engine,
    Game,
}

pub open spec fn tab_label(t: SidePanelTab) -> Seq<char> {
    match t {
        SidePanelTab::Moves => "Moves"@,
        SidePanelTab::Explorer => "Explorer"@,
        SidePanelTab::Engine => "Engine"@,
        SidePanelTab::Game => "Game"@,
    }
}

/// Index of the first `t` in `tabs` at or after `i`, or 0 where it is missing.
pub open spec fn tab_index_from(tabs: Seq<SidePanelTab>, t: SidePanelTab, i: int) -> int
    decreases tabs.len() - i,
{
    if i < 0 || i >= tabs.len() {
        0
    } else if tabs[i] == t {
        i
    } else {
        tab_index_from(tabs, t, i + 1)
    }
}

impl Default for SidePanelTab {
    fn default() -> (r: Self)
        ensures
            r == SidePanelTab::Moves,
    {
        SidePanelTab::Moves
    }
}

impl SidePanelTab {
    /// The tabs of the opening tree.
    pub fn opening_tree() -> (r: Vec<SidePanelTab>)
        ensures
            r@ == seq![SidePanelTab::Moves, SidePanelTab::Engine],
    {
        let mut v: Vec<SidePanelTab> = Vec::new();
        v.push(SidePanelTab::Moves);
        v.push(SidePanelTab::Engine);
        v
    }

    /// The tabs of game analysis.
    pub fn game_analysis() -> (r: Vec<SidePanelTab>)
        ensures
            r@ == seq![SidePanelTab::Engine, SidePanelTab::Explorer, SidePanelTab::Game],
    {
        let mut v: Vec<SidePanelTab> = Vec::new();
        v.push(SidePanelTab::Engine);
        v.push(SidePanelTab::Explorer);
        v.push(SidePanelTab::Game);
        v
    }

    /// The tabs of a repertoire.
    pub fn repertoire() -> (r: Vec<SidePanelTab>)
        ensures
            r@ == seq![SidePanelTab::Explorer],
    {
        let mut v: Vec<SidePanelTab> = Vec::new();
        v.push(SidePanelTab::Explorer);
        v
    }

    pub fn label(self) -> (r: &'static str)
        ensures
            r@ == tab_label(self),
    {
        match self {
            SidePanelTab::Moves => "Moves",
            SidePanelTab::Explorer => "Explorer",
            SidePanelTab::Engine => "Engine",
            SidePanelTab::Game => "Game",
        }
    }

    /// Position of this tab in `tabs`, or 0 where it is not there.
    pub fn index_in(self, tabs: &[SidePanelTab]) -> (r: usize)
        ensures
            r == tab_index_from(tabs@, self, 0),
    {
        let mut i: usize = 0;
        while i < tabs.len()
            invariant
                i <= tabs@.len(),
                tab_index_from(tabs@, self, 0) == tab_index_from(tabs@, self, i as int),
            decreases tabs@.len() - i,
        {
            if tabs[i] == self {
                return i;
            }
            i += 1;
        }
        0
    }

    /// The tab at `index`, or the first tab where `index` is past the end.
    pub fn from_index(tabs: &[SidePanelTab], index: usize) -> (r: Self)
        requires
            tabs@.len() > 0,
        ensures
            r == (if index < tabs@.len() { tabs@[index as int] } else { tabs@[0] }),
    {
        if index < tabs.len() {
            tabs[index]
        } else {
            tabs[0]
        }
    }
}

/// Reading a tab's index back gives the tab, for every tab of the list.
pub proof fn law_index_round_trip(tabs: Seq<SidePanelTab>, t: SidePanelTab)
    requires
        tabs.contains(t),
    ensures
        0 <= tab_index_from(tabs, t, 0) < tabs.len(),
        tabs[tab_index_from(tabs, t, 0)] == t,
{
    let j = choose|j: int| 0 <= j < tabs.len() && tabs[j] == t;
    lemma_tab_index_from(tabs, t, 0, j);
}

proof fn lemma_tab_index_from(tabs: Seq<SidePanelTab>, t: SidePanelTab, i: int, j: int)
    requires
        0 <= i <= j < tabs.len(),
        tabs[j] == t,
    ensures
        i <= tab_index_from(tabs, t, i) <= j,
        tabs[tab_index_from(tabs, t, i)] == t,
    decreases j - i,
{
    if tabs[i] != t {
        lemma_tab_index_from(tabs, t, i + 1, j);
    }
}

} // verus!
