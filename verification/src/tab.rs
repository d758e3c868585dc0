//! The application's tabs: the home launcher's modes and the open tabs.
use vstd::prelude::*;
use crate::analysis_session::AnalysisSession;
use crate::session::ProfileSession;
use crate::text::{append_str, string_of};

verus! {

broadcast use vstd::string::group_string_axioms;

/// The modes the launcher offers.
#[derive(Clone, Copy, Debug, PartialEq, Eq, Structural)]
pub enum TabKind {
    Play,
    GameAnalysis,
    Puzzle,
    Repertoire,
    OpeningTree,
    Database,
    Engine,
    Settings,
}

pub open spec fn kind_label(k: TabKind) -> Seq<char> {
    match k {
        TabKind::Play => "Play"@,
        TabKind::GameAnalysis => "Game Analysis"@,
        TabKind::Puzzle => "Puzzle"@,
        TabKind::Repertoire => "Repertoire"@,
        TabKind::OpeningTree => "Opening Tree"@,
        TabKind::Database => "Database"@,
        TabKind::Engine => "Engine"@,
        TabKind::Settings => "Settings"@,
    }
}

pub open spec fn kind_description(k: TabKind) -> Seq<char> {
    match k {
        TabKind::Play => "Play against an engine or a friend"@,
        TabKind::GameAnalysis => "Analyze games move by move"@,
        TabKind::Puzzle => "Solve tactical puzzles"@,
        TabKind::Repertoire => "Build and practice your repertoire"@,
        TabKind::OpeningTree => "Explore openings from online games"@,
        TabKind::Database => "Load and browse game databases"@,
        TabKind::Engine => "Load chess engine binaries"@,
        TabKind::Settings => "App preferences and appearance"@,
    }
}

pub open spec fn kind_tile_id(k: TabKind) -> Seq<char> {
    match k {
        TabKind::Play => "play"@,
        TabKind::GameAnalysis => "analysis"@,
        TabKind::Puzzle => "puzzle"@,
        TabKind::Repertoire => "repertoire"@,
        TabKind::OpeningTree => "opening-tree"@,
        TabKind::Database => "database"@,
        TabKind::Engine => "engine"@,
        TabKind::Settings => "settings"@,
    }
}

impl TabKind {
    pub fn label(self) -> (r: &'static str)
        ensures
            r@ == kind_label(self),
    {
        match self {
            TabKind::Play => "Play",
            TabKind::GameAnalysis => "Game Analysis",
            TabKind::Puzzle => "Puzzle",
            TabKind::Repertoire => "Repertoire",
            TabKind::OpeningTree => "Opening Tree",
            TabKind::Database => "Database",
            TabKind::Engine => "Engine",
            TabKind::Settings => "Settings",
        }
    }

    pub fn description(self) -> (r: &'static str)
        ensures
            r@ == kind_description(self),
    {
        match self {
            TabKind::Play => "Play against an engine or a friend",
            TabKind::GameAnalysis => "Analyze games move by move",
            TabKind::Puzzle => "Solve tactical puzzles",
            TabKind::Repertoire => "Build and practice your repertoire",
            TabKind::OpeningTree => "Explore openings from online games",
            TabKind::Database => "Load and browse game databases",
            TabKind::Engine => "Load chess engine binaries",
            TabKind::Settings => "App preferences and appearance",
        }
    }

    /// The playing modes, in launcher order.
    pub fn game_modes() -> (r: Vec<TabKind>)
        ensures
            r@ == seq![TabKind::Play, TabKind::GameAnalysis, TabKind::Puzzle, TabKind::Repertoire, TabKind::OpeningTree],
    {
        let mut v: Vec<TabKind> = Vec::new();
        v.push(TabKind::Play);
        v.push(TabKind::GameAnalysis);
        v.push(TabKind::Puzzle);
        v.push(TabKind::Repertoire);
        v.push(TabKind::OpeningTree);
        assert(v@ =~= seq![TabKind::Play, TabKind::GameAnalysis, TabKind::Puzzle, TabKind::Repertoire, TabKind::OpeningTree]);
        v
    }

    /// The tool modes, in launcher order.
    pub fn tool_modes() -> (r: Vec<TabKind>)
        ensures
            r@ == seq![TabKind::Database, TabKind::Engine, TabKind::Settings],
    {
        let mut v: Vec<TabKind> = Vec::new();
        v.push(TabKind::Database);
        v.push(TabKind::Engine);
        v.push(TabKind::Settings);
        assert(v@ =~= seq![TabKind::Database, TabKind::Engine, TabKind::Settings]);
        v
    }

    /// Only the opening tree, the engines and game analysis are built.
    pub fn is_implemented(self) -> (r: bool)
        ensures
            r == (self == TabKind::OpeningTree || self == TabKind::Engine || self == TabKind::GameAnalysis),
    {
        match self {
            TabKind::OpeningTree | TabKind::Engine | TabKind::GameAnalysis => true,
            _ => false,
        }
    }

    pub fn tile_id(self) -> (r: &'static str)
        ensures
            r@ == kind_tile_id(self),
    {
        match self {
            TabKind::Play => "play",
            TabKind::GameAnalysis => "analysis",
            TabKind::Puzzle => "puzzle",
            TabKind::Repertoire => "repertoire",
            TabKind::OpeningTree => "opening-tree",
            TabKind::Database => "database",
            TabKind::Engine => "engine",
            TabKind::Settings => "settings",
        }
    }
}

/// An open tab.
#[derive(Debug)]
pub enum AppTab {
    Home { id: u64 },
    OpeningTree { id: u64, session: ProfileSession },
    GameAnalysis { id: u64, session: AnalysisSession },
    Engines { id: u64 },
    Stub { id: u64, kind: TabKind },
}

pub open spec fn tab_id(t: &AppTab) -> u64 {
    match t {
        AppTab::Home { id } => *id,
        AppTab::OpeningTree { id, .. } => *id,
        AppTab::GameAnalysis { id, .. } => *id,
        AppTab::Engines { id } => *id,
        AppTab::Stub { id, .. } => *id,
    }
}

pub open spec fn tab_label(t: &AppTab) -> Seq<char> {
    match t {
        AppTab::Home { .. } => "Home"@,
        AppTab::OpeningTree { session, .. } => session.label@,
        AppTab::GameAnalysis { session, .. } => session.label@,
        AppTab::Engines { .. } => kind_label(TabKind::Engine),
        AppTab::Stub { kind, .. } => kind_label(*kind),
    }
}

impl AppTab {
    pub fn id(&self) -> (r: u64)
        ensures
            r == tab_id(self),
    {
        match self {
            AppTab::Home { id } => *id,
            AppTab::OpeningTree { id, .. } => *id,
            AppTab::GameAnalysis { id, .. } => *id,
            AppTab::Engines { id } => *id,
            AppTab::Stub { id, .. } => *id,
        }
    }

    /// The title of the tab: a session's label, else the mode's.
    pub fn label(&self) -> (r: String)
        ensures
            r@ == tab_label(self),
    {
        match self {
            AppTab::Home { .. } => {
                let mut v: Vec<char> = Vec::new();
                append_str(&mut v, "Home");
                string_of(v.as_slice())
            },
            AppTab::OpeningTree { session, .. } => session.label.clone(),
            AppTab::GameAnalysis { session, .. } => session.label.clone(),
            AppTab::Engines { .. } => {
                let mut v: Vec<char> = Vec::new();
                append_str(&mut v, TabKind::Engine.label());
                string_of(v.as_slice())
            },
            AppTab::Stub { kind, .. } => {
                let mut v: Vec<char> = Vec::new();
                append_str(&mut v, kind.label());
                string_of(v.as_slice())
            },
        }
    }

    pub fn opening_tree(&self) -> (r: Option<&ProfileSession>)
        ensures
            match self {
                AppTab::OpeningTree { session, .. } => r == Some(session),
                _ => r is None,
            },
    {
        match self {
            AppTab::OpeningTree { session, .. } => Some(session),
            _ => None,
        }
    }

    pub fn opening_tree_mut(&mut self) -> (r: Option<&mut ProfileSession>)
        ensures
            match *old(self) {
                AppTab::OpeningTree { .. } => r is Some,
                _ => r is None,
            },
    {
        match self {
            AppTab::OpeningTree { session, .. } => Some(session),
            _ => None,
        }
    }

    pub fn game_analysis(&self) -> (r: Option<&AnalysisSession>)
        ensures
            match self {
                AppTab::GameAnalysis { session, .. } => r == Some(session),
                _ => r is None,
            },
    {
        match self {
            AppTab::GameAnalysis { session, .. } => Some(session),
            _ => None,
        }
    }

    pub fn game_analysis_mut(&mut self) -> (r: Option<&mut AnalysisSession>)
        ensures
            match *old(self) {
                AppTab::GameAnalysis { .. } => r is Some,
                _ => r is None,
            },
    {
        match self {
            AppTab::GameAnalysis { session, .. } => Some(session),
            _ => None,
        }
    }
}

} // verus!
