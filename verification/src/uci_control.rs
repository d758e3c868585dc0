//! The connections to UCI engines as the application tracks them: per engine a status,
//! which engines have a running session, and the analysis waiting for a connection. Each
//! step takes what happened and says what the application does next.
use vstd::prelude::*;
use crate::engine_uci::AnalysisResult;
use crate::text::{append_chars, append_str, dec, decimal, str_eq, string_of};

verus! {

broadcast use vstd::string::group_string_axioms;

#[derive(Clone, Copy, Debug, PartialEq, Eq, Structural)]
pub enum UciConnectionStatus {
    Disconnected,
    Connecting,
    Connected,
    Analyzing,
    Error,
}

impl Default for UciConnectionStatus {
    fn default() -> (r: Self)
        ensures
            r == UciConnectionStatus::Disconnected,
    {
        UciConnectionStatus::Disconnected
    }
}

/// What is shown of one engine: its status, the name it gave and its last message.
#[derive(Debug)]
pub struct UciEngineState {
    pub status: UciConnectionStatus,
    pub identity: String,
    pub last_result: String,
}

pub struct StateV {
    pub status: UciConnectionStatus,
    pub identity: Seq<char>,
    pub last_result: Seq<char>,
}

pub open spec fn state_view(s: UciEngineState) -> StateV {
    StateV { status: s.status, identity: s.identity@, last_result: s.last_result@ }
}

impl Default for UciEngineState {
    fn default() -> (r: Self)
        ensures
            state_view(r) == (StateV { status: UciConnectionStatus::Disconnected, identity: seq![], last_result: seq![] }),
    {
        UciEngineState { status: UciConnectionStatus::Disconnected, identity: String::new(), last_result: String::new() }
    }
}

/// The tab an analysis is for.
#[derive(Clone, Copy, Debug, PartialEq, Eq, Structural)]
pub enum AnalysisTarget {
    GameAnalysis(u64),
    OpeningTree(u64),
}

/// An analysis asked for while its engine was still connecting (or running).
#[derive(Debug)]
pub struct PendingConnectAnalysis {
    pub target: Option<AnalysisTarget>,
    pub engine_id: String,
    pub fen: String,
}

/// What an engine session reports.
#[derive(Debug)]
pub enum UciEvent {
    Analysis(AnalysisResult),
    Error(String),
    Disconnected,
}

/// What the application does after a step.
#[derive(Debug)]
pub enum UciAction {
    Nothing,
    /// Start the engine at this path.
    Connect { engine_id: String, path: String },
    /// Send this search to the engine's session.
    Analyze { engine_id: String, fen: String, depth: u32, line_count: u32 },
    /// Show the error on the target tab (and drop its pending analysis).
    Fail { target: Option<AnalysisTarget>, message: String },
    /// Show the result on the target tab; `status` is the game analysis tab's new status.
    Apply { target: AnalysisTarget, result: AnalysisResult, status: String },
    /// Stop the engine's session.
    Disconnect { engine_id: String },
}

/// The engines' connections.
#[derive(Debug)]
pub struct UciControl {
    pub states: Vec<(String, UciEngineState)>,
    pub sessions: Vec<String>,
    pub pending: Option<PendingConnectAnalysis>,
    pub engine_status: String,
}

pub open spec fn ids_view(v: Seq<String>) -> Seq<Seq<char>> {
    v.map_values(|s: String| s@)
}

pub open spec fn has_id(v: Seq<String>, id: Seq<char>) -> bool {
    exists|i: int| 0 <= i < v.len() && v[i]@ == id
}

/// The first entry for `id`, at or after `i`.
pub open spec fn entry_from(v: Seq<(String, UciEngineState)>, id: Seq<char>, i: int) -> Option<int>
    decreases v.len() - i,
{
    if i < 0 || i >= v.len() {
        None
    } else if v[i].0@ == id {
        Some(i)
    } else {
        entry_from(v, id, i + 1)
    }
}

/// The state kept for an engine.
pub open spec fn state_of(v: Seq<(String, UciEngineState)>, id: Seq<char>) -> Option<StateV> {
    match entry_from(v, id, 0) {
        Some(i) => Some(state_view(v[i].1)),
        None => None,
    }
}

pub open spec fn pending_view(p: Option<PendingConnectAnalysis>) -> Option<(Option<AnalysisTarget>, Seq<char>, Seq<char>)> {
    match p {
        Some(p) => Some((p.target, p.engine_id@, p.fen@)),
        None => None,
    }
}

/// The pending analysis is for this engine and has a position to send.
pub open spec fn dispatches(p: Option<(Option<AnalysisTarget>, Seq<char>, Seq<char>)>, id: Seq<char>) -> bool {
    p matches Some((_, pid, fen)) && pid == id && fen.len() > 0
}

/// The pending analysis is for this engine and for a tab.
pub open spec fn applies(p: Option<(Option<AnalysisTarget>, Seq<char>, Seq<char>)>, id: Seq<char>) -> bool {
    p matches Some((t, pid, _)) && pid == id && t is Some
}

proof fn lemma_entry_from(v: Seq<(String, UciEngineState)>, id: Seq<char>, i: int, j: int)
    requires
        0 <= i,
        entry_from(v, id, i) == Some(j),
    ensures
        i <= j < v.len(),
        v[j].0@ == id,
        forall|k: int| i <= k < j ==> v[k].0@ != id,
    decreases v.len() - i,
{
    if i < v.len() && v[i].0@ != id {
        lemma_entry_from(v, id, i + 1, j);
    }
}

proof fn lemma_entry_none(v: Seq<(String, UciEngineState)>, id: Seq<char>, i: int)
    requires
        0 <= i,
        entry_from(v, id, i) is None,
    ensures
        forall|k: int| i <= k < v.len() ==> v[k].0@ != id,
    decreases v.len() - i,
{
    if i < v.len() {
        lemma_entry_none(v, id, i + 1);
    }
}

proof fn lemma_entry_first(v: Seq<(String, UciEngineState)>, id: Seq<char>, i: int, j: int)
    requires
        0 <= i <= j < v.len(),
        v[j].0@ == id,
        forall|k: int| i <= k < j ==> v[k].0@ != id,
    ensures
        entry_from(v, id, i) == Some(j),
    decreases j - i,
{
    if i < j {
        lemma_entry_first(v, id, i + 1, j);
    }
}

proof fn lemma_entry_absent(v: Seq<(String, UciEngineState)>, id: Seq<char>, i: int)
    requires
        0 <= i,
        forall|k: int| i <= k < v.len() ==> v[k].0@ != id,
    ensures
        entry_from(v, id, i) is None,
    decreases v.len() - i,
{
    if i < v.len() {
        lemma_entry_absent(v, id, i + 1);
    }
}

/// The state lookup of `w` agrees with that of `v` on every id but `id`, when `w` differs
/// from `v` only at entries for `id` (same length, same keys).
proof fn lemma_same_elsewhere(v: Seq<(String, UciEngineState)>, w: Seq<(String, UciEngineState)>, id: Seq<char>, other: Seq<char>)
    requires
        other != id,
        v.len() == w.len(),
        forall|k: int| 0 <= k < v.len() ==> #[trigger] w[k].0@ == v[k].0@,
        forall|k: int| 0 <= k < v.len() && v[k].0@ != id ==> #[trigger] w[k] == v[k],
    ensures
        state_of(w, other) == state_of(v, other),
{
    match entry_from(v, other, 0) {
        Some(j) => {
            lemma_entry_from(v, other, 0, j);
            lemma_entry_first(w, other, 0, j);
        },
        None => {
            lemma_entry_none(v, other, 0);
            lemma_entry_absent(w, other, 0);
        },
    }
}

fn find_entry(v: &Vec<(String, UciEngineState)>, id: &str) -> (r: Option<usize>)
    ensures
        match r {
            Some(i) => entry_from(v@, id@, 0) == Some(i as int) && i < v@.len(),
            None => entry_from(v@, id@, 0) is None,
        },
{
    let mut i: usize = 0;
    while i < v.len()
        invariant
            i <= v@.len(),
            entry_from(v@, id@, 0) == entry_from(v@, id@, i as int),
        decreases v@.len() - i,
    {
        if str_eq(v[i].0.as_str(), id) {
            return Some(i);
        }
        i += 1;
    }
    None
}

/// Sets the state of an engine, keeping the others.
fn put_state(v: &mut Vec<(String, UciEngineState)>, id: &str, s: UciEngineState)
    ensures
        state_of(final(v)@, id@) == Some(state_view(s)),
        forall|other: Seq<char>| other != id@ ==> #[trigger] state_of(final(v)@, other) == state_of(old(v)@, other),
{
    let ghost sv = state_view(s);
    match find_entry(v, id) {
        Some(i) => {
            proof {
                lemma_entry_from(v@, id@, 0, i as int);
            }
            let key = v[i].0.clone();
            v.set(i, (key, s));
            proof {
                let w = v@;
                let o = old(v)@;
                assert(w =~= o.update(i as int, w[i as int]));
                lemma_entry_first(w, id@, 0, i as int);
                assert forall|other: Seq<char>| other != id@ implies #[trigger] state_of(w, other) == state_of(o, other) by {
                    lemma_same_elsewhere(o, w, id@, other);
                }
            }
        },
        None => {
            proof {
                lemma_entry_none(v@, id@, 0);
            }
            v.push((String::from_str(id), s));
            proof {
                let w = v@;
                let o = old(v)@;
                let n = o.len() as int;
                lemma_entry_first(w, id@, 0, n);
                assert forall|other: Seq<char>| other != id@ implies #[trigger] state_of(w, other) == state_of(o, other) by {
                    match entry_from(o, other, 0) {
                        Some(j) => {
                            lemma_entry_from(o, other, 0, j);
                            lemma_entry_first(w, other, 0, j);
                        },
                        None => {
                            lemma_entry_none(o, other, 0);
                            lemma_entry_absent(w, other, 0);
                        },
                    }
                }
            }
        },
    }
}

/// Drops every state of an engine, keeping the others.
fn drop_state(v: &mut Vec<(String, UciEngineState)>, id: &str)
    ensures
        state_of(final(v)@, id@) is None,
        forall|other: Seq<char>| other != id@ ==> #[trigger] state_of(final(v)@, other) == state_of(old(v)@, other),
{
    let ghost o = v@;
    let mut i: usize = 0;
    while i < v.len()
        invariant
            i <= v@.len(),
            forall|k: int| 0 <= k < i ==> v@[k].0@ != id@,
            forall|other: Seq<char>| other != id@ ==> #[trigger] state_of(v@, other) == state_of(o, other),
        decreases v@.len() - i,
    {
        if str_eq(v[i].0.as_str(), id) {
            let ghost before = v@;
            v.remove(i);
            proof {
                let w = v@;
                assert(w =~= before.remove(i as int));
                assert forall|other: Seq<char>| other != id@ implies #[trigger] state_of(w, other) == state_of(before, other) by {
                    match entry_from(before, other, 0) {
                        Some(j) => {
                            lemma_entry_from(before, other, 0, j);
                            if j < i {
                                lemma_entry_first(w, other, 0, j);
                            } else {
                                assert(j != i);
                                assert forall|k: int| 0 <= k < j - 1 implies w[k].0@ != other by {
                                    if k < i {
                                        assert(w[k] == before[k]);
                                    } else {
                                        assert(w[k] == before[k + 1]);
                                    }
                                }
                                lemma_entry_first(w, other, 0, j - 1);
                            }
                        },
                        None => {
                            lemma_entry_none(before, other, 0);
                            assert forall|k: int| 0 <= k < w.len() implies w[k].0@ != other by {
                                if k < i {
                                    assert(w[k] == before[k]);
                                } else {
                                    assert(w[k] == before[k + 1]);
                                }
                            }
                            lemma_entry_absent(w, other, 0);
                        },
                    }
                }
            }
        } else {
            i += 1;
        }
    }
    proof {
        lemma_entry_absent(v@, id@, 0);
    }
}

fn has_session(v: &Vec<String>, id: &str) -> (r: bool)
    ensures
        r == has_id(v@, id@),
{
    let mut i: usize = 0;
    while i < v.len()
        invariant
            i <= v@.len(),
            forall|k: int| 0 <= k < i ==> v@[k]@ != id@,
        decreases v@.len() - i,
    {
        if str_eq(v[i].as_str(), id) {
            return true;
        }
        i += 1;
    }
    false
}

fn drop_session(v: &mut Vec<String>, id: &str)
    ensures
        !has_id(final(v)@, id@),
        forall|other: Seq<char>| other != id@ ==> (#[trigger] has_id(final(v)@, other) == has_id(old(v)@, other)),
{
    let mut i: usize = 0;
    while i < v.len()
        invariant
            i <= v@.len(),
            forall|k: int| 0 <= k < i ==> v@[k]@ != id@,
            forall|other: Seq<char>| other != id@ ==> (#[trigger] has_id(v@, other) == has_id(old(v)@, other)),
        decreases v@.len() - i,
    {
        if str_eq(v[i].as_str(), id) {
            let ghost before = v@;
            v.remove(i);
            proof {
                let w = v@;
                assert(w =~= before.remove(i as int));
                assert forall|other: Seq<char>| other != id@ implies (#[trigger] has_id(w, other) == has_id(before, other)) by {
                    if has_id(before, other) {
                        let j = choose|j: int| 0 <= j < before.len() && before[j]@ == other;
                        if j < i {
                            assert(w[j] == before[j]);
                        } else {
                            assert(j != i);
                            assert(w[j - 1] == before[j]);
                        }
                    }
                    if has_id(w, other) {
                        let j = choose|j: int| 0 <= j < w.len() && w[j]@ == other;
                        if j < i {
                            assert(w[j] == before[j]);
                        } else {
                            assert(w[j] == before[j + 1]);
                        }
                    }
                }
            }
        } else {
            i += 1;
        }
    }
}

fn text(s: &str) -> (r: String)
    ensures
        r@ == s@,
{
    String::from_str(s)
}

/// The depth and line count used for a target: the tab's settings when the tab is there,
/// else 16 and 3 for game analysis, 14 and 3 for an opening tree, 16 and 1 for none.
pub fn analysis_settings_for_target(target: Option<AnalysisTarget>, game: Option<(u32, u32)>, tree: Option<(u32, u32)>) -> (r: (
    u32,
    u32,
))
    ensures
        r == (match target {
            Some(AnalysisTarget::GameAnalysis(_)) => match game {
                Some(s) => s,
                None => (16u32, 3u32),
            },
            Some(AnalysisTarget::OpeningTree(_)) => match tree {
                Some(s) => s,
                None => (14u32, 3u32),
            },
            None => (16u32, 1u32),
        }),
{
    match target {
        Some(AnalysisTarget::GameAnalysis(_)) => match game {
            Some(s) => s,
            None => (16, 3),
        },
        Some(AnalysisTarget::OpeningTree(_)) => match tree {
            Some(s) => s,
            None => (14, 3),
        },
        None => (16, 1),
    }
}

impl UciControl {
    pub fn new() -> (r: Self)
        ensures
            r.states@.len() == 0,
            r.sessions@.len() == 0,
            r.pending is None,
            r.engine_status@.len() == 0,
    {
        UciControl { states: Vec::new(), sessions: Vec::new(), pending: None, engine_status: String::new() }
    }

    /// The state of an engine, or the default one.
    pub fn uci_state(&self, engine_id: &str) -> (r: UciEngineState)
        ensures
            state_view(r) == (match state_of(self.states@, engine_id@) {
                Some(s) => s,
                None => StateV { status: UciConnectionStatus::Disconnected, identity: seq![], last_result: seq![] },
            }),
    {
        match find_entry(&self.states, engine_id) {
            Some(i) => {
                let s = &self.states[i].1;
                UciEngineState { status: s.status, identity: s.identity.clone(), last_result: s.last_result.clone() }
            },
            None => UciEngineState::default(),
        }
    }

    /// Drops the pending analysis; the failure to show, if there was one.
    fn fail_pending(&mut self, message: String) -> (r: UciAction)
        ensures
            final(self).pending is None,
            final(self).states == old(self).states,
            final(self).sessions == old(self).sessions,
            final(self).engine_status == old(self).engine_status,
            match old(self).pending {
                Some(p) => r matches UciAction::Fail { target, message: m } && target == p.target && m == message,
                None => r is Nothing,
            },
    {
        match self.pending.take() {
            Some(p) => UciAction::Fail { target: p.target, message },
            None => UciAction::Nothing,
        }
    }

    /// Starts connecting to an engine, unless it has a session or is already connecting;
    /// whether it started.
    pub fn begin_connect(&mut self, engine_id: &str) -> (started: bool)
        ensures
            started == (!has_id(old(self).sessions@, engine_id@) && !(state_of(old(self).states@, engine_id@) matches Some(
                s,
            ) && s.status == UciConnectionStatus::Connecting)),
            started ==> state_of(final(self).states@, engine_id@) == Some(
                StateV { status: UciConnectionStatus::Connecting, identity: seq![], last_result: seq![] },
            ) && final(self).engine_status@ == "Connecting to UCI engine…"@,
            !started ==> final(self).states == old(self).states && final(self).engine_status == old(self).engine_status,
            forall|other: Seq<char>| other != engine_id@ ==> #[trigger] state_of(final(self).states@, other) == state_of(
                old(self).states@,
                other,
            ),
            final(self).sessions == old(self).sessions,
            final(self).pending == old(self).pending,
    {
        if has_session(&self.sessions, engine_id) {
            return false;
        }
        match find_entry(&self.states, engine_id) {
            Some(i) => {
                if self.states[i].1.status == UciConnectionStatus::Connecting {
                    return false;
                }
            },
            None => {},
        }
        let s = UciEngineState { status: UciConnectionStatus::Connecting, identity: String::new(), last_result: String::new() };
        put_state(&mut self.states, engine_id, s);
        self.engine_status = text("Connecting to UCI engine…");
        true
    }

    /// Sends an analysis to the engine's session: only when it has one. The engine is then
    /// analysing, and the analysis waits for its result.
    pub fn dispatch(&mut self, target: Option<AnalysisTarget>, engine_id: &str, fen: String, settings: (u32, u32)) -> (r: UciAction)
        ensures
            final(self).sessions == old(self).sessions,
            forall|other: Seq<char>| other != engine_id@ ==> #[trigger] state_of(final(self).states@, other) == state_of(
                old(self).states@,
                other,
            ),
            !has_id(old(self).sessions@, engine_id@) ==> {
                &&& r matches UciAction::Fail { target: t, message: m } && t == target && m@ == "Connect to the engine first"@
                &&& final(self).engine_status@ == "Connect to the engine first"@
                &&& final(self).pending is None
                &&& final(self).states == old(self).states
            },
            has_id(old(self).sessions@, engine_id@) ==> {
                &&& r matches UciAction::Analyze { engine_id: e, fen: f, depth, line_count } && e@ == engine_id@ && f@
                    == fen@ && depth == settings.0 && line_count == settings.1
                &&& final(self).engine_status@ == "Analyzing (depth "@ + dec(settings.0 as nat) + ", "@ + dec(
                    settings.1 as nat,
                ) + " lines)…"@
                &&& pending_view(final(self).pending) == Some((target, engine_id@, Seq::<char>::empty()))
                &&& state_of(final(self).states@, engine_id@) == (match state_of(old(self).states@, engine_id@) {
                    Some(s) => Some(
                        StateV { status: UciConnectionStatus::Analyzing, identity: s.identity, last_result: "Analyzing position…"@ },
                    ),
                    None => None,
                })
            },
    {
        if !has_session(&self.sessions, engine_id) {
            let message = text("Connect to the engine first");
            self.engine_status = text("Connect to the engine first");
            self.pending = None;
            return UciAction::Fail { target, message };
        }
        update_status(&mut self.states, engine_id, UciConnectionStatus::Analyzing, text("Analyzing position…"));
        let mut status: Vec<char> = Vec::new();
        append_str(&mut status, "Analyzing (depth ");
        append_chars(&mut status, decimal(settings.0 as u64).as_slice());
        append_str(&mut status, ", ");
        append_chars(&mut status, decimal(settings.1 as u64).as_slice());
        append_str(&mut status, " lines)…");
        self.engine_status = string_of(status.as_slice());
        self.pending = Some(PendingConnectAnalysis { target, engine_id: String::from_str(engine_id), fen: String::new() });
        UciAction::Analyze { engine_id: String::from_str(engine_id), fen, depth: settings.0, line_count: settings.1 }
    }

    /// The connection attempt ended: with the engine's name, or an error. On success the
    /// pending analysis for this engine, when it has a position, is sent (with `settings`,
    /// those of its target); any other pending analysis is dropped. On failure the pending
    /// analysis fails with the error.
    pub fn on_connected(&mut self, engine_id: &str, result: Result<String, String>, settings: (u32, u32)) -> (r: UciAction)
        ensures
            forall|other: Seq<char>| other != engine_id@ ==> #[trigger] state_of(final(self).states@, other) == state_of(
                old(self).states@,
                other,
            ),
            match result {
                Ok(name) => {
                    &&& has_id(final(self).sessions@, engine_id@)
                    &&& if dispatches(pending_view(old(self).pending), engine_id@) {
                        let pv = pending_view(old(self).pending)->0;
                        let target = pv.0;
                        let fen = pv.2;
                        &&& r matches UciAction::Analyze { engine_id: e, fen: f, depth, line_count } && e@ == engine_id@
                            && f@ == fen && depth == settings.0 && line_count == settings.1
                        &&& state_of(final(self).states@, engine_id@) == Some(
                            StateV {
                                status: UciConnectionStatus::Analyzing,
                                identity: name@,
                                last_result: "Analyzing position…"@,
                            },
                        )
                        &&& pending_view(final(self).pending) == Some((target, engine_id@, Seq::<char>::empty()))
                    } else {
                        &&& r is Nothing
                        &&& state_of(final(self).states@, engine_id@) == Some(
                            StateV { status: UciConnectionStatus::Connected, identity: name@, last_result: "Connected"@ },
                        )
                        &&& final(self).engine_status@ == "Connected to "@ + name@
                        &&& final(self).pending is None
                    }
                },
                Err(err) => {
                    &&& final(self).sessions == old(self).sessions
                    &&& state_of(final(self).states@, engine_id@) == Some(
                        StateV { status: UciConnectionStatus::Error, identity: seq![], last_result: err@ },
                    )
                    &&& final(self).engine_status == err
                    &&& final(self).pending is None
                    &&& match old(self).pending {
                        Some(p) => r matches UciAction::Fail { target, message } && target == p.target && message == err,
                        None => r is Nothing,
                    }
                },
            },
    {
        match result {
            Ok(name) => {
                if !has_session(&self.sessions, engine_id) {
                    self.sessions.push(String::from_str(engine_id));
                    assert(self.sessions@[self.sessions@.len() - 1]@ == engine_id@);
                }
                let mut status: Vec<char> = Vec::new();
                append_str(&mut status, "Connected to ");
                append_str(&mut status, name.as_str());
                let s = UciEngineState { status: UciConnectionStatus::Connected, identity: name, last_result: text("Connected") };
                put_state(&mut self.states, engine_id, s);
                self.engine_status = string_of(status.as_slice());
                match self.pending.take() {
                    Some(p) => {
                        if str_eq(p.engine_id.as_str(), engine_id) && crate::text::chars_of(p.fen.as_str()).len() > 0 {
                            self.dispatch(p.target, engine_id, p.fen, settings)
                        } else {
                            UciAction::Nothing
                        }
                    },
                    None => UciAction::Nothing,
                }
            },
            Err(err) => {
                let s = UciEngineState { status: UciConnectionStatus::Error, identity: String::new(), last_result: err.clone() };
                put_state(&mut self.states, engine_id, s);
                self.engine_status = err.clone();
                self.fail_pending(err)
            },
        }
    }

    /// The connection attempt ended without a word from the engine.
    pub fn on_connect_lost(&mut self, engine_id: &str)
        ensures
            state_of(final(self).states@, engine_id@) == Some(
                StateV { status: UciConnectionStatus::Error, identity: seq![], last_result: "Engine connection failed"@ },
            ),
            final(self).engine_status@ == "Engine connection failed"@,
            forall|other: Seq<char>| other != engine_id@ ==> #[trigger] state_of(final(self).states@, other) == state_of(
                old(self).states@,
                other,
            ),
            final(self).sessions == old(self).sessions,
            final(self).pending == old(self).pending,
    {
        let s = UciEngineState {
            status: UciConnectionStatus::Error,
            identity: String::new(),
            last_result: text("Engine connection failed"),
        };
        put_state(&mut self.states, engine_id, s);
        self.engine_status = text("Engine connection failed");
    }

    /// Disconnects an engine: its session (if any) is stopped and its state forgotten.
    pub fn disconnect(&mut self, engine_id: &str) -> (r: UciAction)
        ensures
            !has_id(final(self).sessions@, engine_id@),
            state_of(final(self).states@, engine_id@) is None,
            final(self).engine_status@ == "Engine disconnected"@,
            has_id(old(self).sessions@, engine_id@) ==> (r matches UciAction::Disconnect { engine_id: e } && e@ == engine_id@),
            !has_id(old(self).sessions@, engine_id@) ==> r is Nothing,
            final(self).pending == old(self).pending,
    {
        let r = self.disconnect_on_remove(engine_id);
        self.engine_status = text("Engine disconnected");
        r
    }

    /// An engine was removed from the list: its session (if any) is stopped and its state
    /// forgotten.
    pub fn disconnect_on_remove(&mut self, engine_id: &str) -> (r: UciAction)
        ensures
            !has_id(final(self).sessions@, engine_id@),
            forall|other: Seq<char>| other != engine_id@ ==> (#[trigger] has_id(final(self).sessions@, other) == has_id(
                old(self).sessions@,
                other,
            )),
            state_of(final(self).states@, engine_id@) is None,
            forall|other: Seq<char>| other != engine_id@ ==> #[trigger] state_of(final(self).states@, other) == state_of(
                old(self).states@,
                other,
            ),
            has_id(old(self).sessions@, engine_id@) ==> (r matches UciAction::Disconnect { engine_id: e } && e@ == engine_id@),
            !has_id(old(self).sessions@, engine_id@) ==> r is Nothing,
            final(self).pending == old(self).pending,
            final(self).engine_status == old(self).engine_status,
    {
        let had = has_session(&self.sessions, engine_id);
        drop_session(&mut self.sessions, engine_id);
        drop_state(&mut self.states, engine_id);
        if had {
            UciAction::Disconnect { engine_id: String::from_str(engine_id) }
        } else {
            UciAction::Nothing
        }
    }

    /// Asks for an analysis: sent at once to a connected engine; otherwise the engine (found
    /// at `engine_path`) is connected first and the analysis waits; without such an engine the
    /// target fails.
    pub fn run_analysis(
        &mut self,
        target: Option<AnalysisTarget>,
        engine_id: &str,
        fen: String,
        engine_path: Option<String>,
        settings: (u32, u32),
    ) -> (r: UciAction)
        ensures
            final(self).sessions == old(self).sessions,
            has_id(old(self).sessions@, engine_id@) ==> (r matches UciAction::Analyze { engine_id: e, fen: f, depth, line_count }
                && e@ == engine_id@ && f@ == fen@ && depth == settings.0 && line_count == settings.1),
            !has_id(old(self).sessions@, engine_id@) && engine_path is None ==> {
                &&& r matches UciAction::Fail { target: t, message: m } && t == target && m@
                    == "Engine not found — add one in the Engine tab"@
                &&& final(self).engine_status@ == "Engine not found — add one in the Engine tab"@
                &&& final(self).pending is None
                &&& final(self).states == old(self).states
            },
            !has_id(old(self).sessions@, engine_id@) && engine_path is Some ==> {
                &&& pending_view(final(self).pending) == Some((target, engine_id@, fen@))
                &&& if state_of(old(self).states@, engine_id@) matches Some(s) && s.status == UciConnectionStatus::Connecting {
                    r is Nothing && final(self).states == old(self).states
                } else {
                    r matches UciAction::Connect { engine_id: e, path } && e@ == engine_id@ && path == engine_path->0
                        && state_of(final(self).states@, engine_id@) == Some(
                        StateV { status: UciConnectionStatus::Connecting, identity: seq![], last_result: seq![] },
                    )
                }
            },
    {
        if has_session(&self.sessions, engine_id) {
            return self.dispatch(target, engine_id, fen, settings);
        }
        match engine_path {
            None => {
                let message = text("Engine not found — add one in the Engine tab");
                self.engine_status = text("Engine not found — add one in the Engine tab");
                self.pending = None;
                UciAction::Fail { target, message }
            },
            Some(path) => {
                self.pending = Some(PendingConnectAnalysis { target, engine_id: String::from_str(engine_id), fen });
                if self.begin_connect(engine_id) {
                    UciAction::Connect { engine_id: String::from_str(engine_id), path }
                } else {
                    UciAction::Nothing
                }
            },
        }
    }

    /// Sending an analysis to the session failed.
    pub fn on_send_failed(&mut self, target: Option<AnalysisTarget>, engine_id: &str, error: String) -> (r: UciAction)
        ensures
            r matches UciAction::Fail { target: t, message } && t == target && message == error,
            final(self).pending is None,
            final(self).engine_status == error,
            state_of(final(self).states@, engine_id@) == (match state_of(old(self).states@, engine_id@) {
                Some(s) => Some(StateV { status: UciConnectionStatus::Error, identity: s.identity, last_result: error@ }),
                None => None,
            }),
            forall|other: Seq<char>| other != engine_id@ ==> #[trigger] state_of(final(self).states@, other) == state_of(
                old(self).states@,
                other,
            ),
            final(self).sessions == old(self).sessions,
    {
        self.pending = None;
        update_status(&mut self.states, engine_id, UciConnectionStatus::Error, error.clone());
        self.engine_status = error.clone();
        UciAction::Fail { target, message: error }
    }

    /// What a session reported. A result goes to the pending analysis's target when it is
    /// for this engine (a game analysis tab also shows the depth and line count); an error
    /// fails the pending analysis; a disconnection forgets the engine. The pending analysis
    /// is dropped in every case.
    pub fn on_event(&mut self, engine_id: &str, event: UciEvent) -> (r: UciAction)
        ensures
            final(self).pending is None,
            forall|other: Seq<char>| other != engine_id@ ==> #[trigger] state_of(final(self).states@, other) == state_of(
                old(self).states@,
                other,
            ),
            match event {
                UciEvent::Analysis(result) => {
                    let summary = crate::engine_uci::summary_text(crate::engine_uci::lines_view(result.lines@), result.depth);
                    &&& final(self).engine_status@ == summary
                    &&& final(self).sessions == old(self).sessions
                    &&& state_of(final(self).states@, engine_id@) == (match state_of(old(self).states@, engine_id@) {
                        Some(s) => Some(StateV { status: UciConnectionStatus::Connected, identity: s.identity, last_result: summary }),
                        None => None,
                    })
                    &&& if applies(pending_view(old(self).pending), engine_id@) {
                        let pv = pending_view(old(self).pending)->0;
                        let target = pv.0->0;
                        r matches UciAction::Apply { target: t, status, .. } && t == target && status@ == "Depth "@ + dec(
                            result.depth as nat,
                        ) + " · "@ + dec(result.lines@.len()) + " engine lines"@
                    } else {
                        r is Nothing
                    }
                },
                UciEvent::Error(message) => {
                    &&& final(self).engine_status == message
                    &&& final(self).sessions == old(self).sessions
                    &&& state_of(final(self).states@, engine_id@) == (match state_of(old(self).states@, engine_id@) {
                        Some(s) => Some(StateV { status: UciConnectionStatus::Error, identity: s.identity, last_result: message@ }),
                        None => None,
                    })
                    &&& match old(self).pending {
                        Some(p) => r matches UciAction::Fail { target, message: m } && target == p.target && m == message,
                        None => r is Nothing,
                    }
                },
                UciEvent::Disconnected => {
                    &&& r is Nothing
                    &&& final(self).engine_status@ == "Engine disconnected"@
                    &&& !has_id(final(self).sessions@, engine_id@)
                    &&& state_of(final(self).states@, engine_id@) is None
                },
            },
    {
        match event {
            UciEvent::Analysis(result) => {
                let summary = result.summary();
                update_status(&mut self.states, engine_id, UciConnectionStatus::Connected, summary.clone());
                self.engine_status = summary;
                match self.pending.take() {
                    Some(p) => {
                        if str_eq(p.engine_id.as_str(), engine_id) {
                            match p.target {
                                Some(target) => {
                                    let mut status: Vec<char> = Vec::new();
                                    append_str(&mut status, "Depth ");
                                    append_chars(&mut status, decimal(result.depth as u64).as_slice());
                                    append_str(&mut status, " · ");
                                    append_chars(&mut status, decimal(result.lines.len() as u64).as_slice());
                                    append_str(&mut status, " engine lines");
                                    UciAction::Apply { target, result, status: string_of(status.as_slice()) }
                                },
                                None => UciAction::Nothing,
                            }
                        } else {
                            UciAction::Nothing
                        }
                    },
                    None => UciAction::Nothing,
                }
            },
            UciEvent::Error(message) => {
                update_status(&mut self.states, engine_id, UciConnectionStatus::Error, message.clone());
                self.engine_status = message.clone();
                self.fail_pending(message)
            },
            UciEvent::Disconnected => {
                drop_session(&mut self.sessions, engine_id);
                drop_state(&mut self.states, engine_id);
                self.engine_status = text("Engine disconnected");
                self.pending = None;
                UciAction::Nothing
            },
        }
    }

    /// The session's reports stopped while the engine was still connecting: the connection
    /// failed.
    pub fn on_poll_closed(&mut self, engine_id: &str) -> (r: UciAction)
        ensures
            final(self).sessions == old(self).sessions,
            if state_of(old(self).states@, engine_id@) matches Some(s) && s.status == UciConnectionStatus::Connecting {
                &&& state_of(final(self).states@, engine_id@) == Some(
                    StateV {
                        status: UciConnectionStatus::Error,
                        identity: seq![],
                        last_result: "Engine connection failed unexpectedly"@,
                    },
                )
                &&& final(self).engine_status@ == "Engine connection failed unexpectedly"@
                &&& final(self).pending is None
                &&& match old(self).pending {
                    Some(p) => r matches UciAction::Fail { target, message } && target == p.target && message@
                        == "Engine connection failed unexpectedly"@,
                    None => r is Nothing,
                }
            } else {
                r is Nothing && final(self).states == old(self).states && final(self).pending == old(self).pending
                    && final(self).engine_status == old(self).engine_status
            },
    {
        let connecting = match find_entry(&self.states, engine_id) {
            Some(i) => self.states[i].1.status == UciConnectionStatus::Connecting,
            None => false,
        };
        if !connecting {
            return UciAction::Nothing;
        }
        let s = UciEngineState {
            status: UciConnectionStatus::Error,
            identity: String::new(),
            last_result: text("Engine connection failed unexpectedly"),
        };
        put_state(&mut self.states, engine_id, s);
        self.engine_status = text("Engine connection failed unexpectedly");
        self.fail_pending(text("Engine connection failed unexpectedly"))
    }
}

/// Sets an engine's status and last message, keeping the name it gave; nothing when the
/// engine has no state.
fn update_status(v: &mut Vec<(String, UciEngineState)>, id: &str, status: UciConnectionStatus, last: String)
    ensures
        state_of(final(v)@, id@) == (match state_of(old(v)@, id@) {
            Some(s) => Some(StateV { status, identity: s.identity, last_result: last@ }),
            None => None,
        }),
        forall|other: Seq<char>| other != id@ ==> #[trigger] state_of(final(v)@, other) == state_of(old(v)@, other),
{
    match find_entry(v, id) {
        Some(i) => {
            let identity = v[i].1.identity.clone();
            put_state(v, id, UciEngineState { status, identity, last_result: last });
        },
        None => {},
    }
}

} // verus!
