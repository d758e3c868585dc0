//! Locally added engine binaries: the list, and where engines live.
use vstd::prelude::*;
use crate::text::{append_str, chars_of, has_prefix, slice_to_vec, starts_with, str_eq, string_of};

verus! {

broadcast use vstd::string::group_string_axioms;

pub const FILE_NAME: &'static str = "engines.json";

/// An engine binary known by its path.
#[derive(Clone, Debug, PartialEq, Eq)]
pub struct LocalEngine {
    pub id: String,
    pub name: String,
    pub path: String,
}

pub struct EngineV {
    pub id: Seq<char>,
    pub name: Seq<char>,
    pub path: Seq<char>,
}

pub open spec fn engine_view(e: LocalEngine) -> EngineV {
    EngineV { id: e.id@, name: e.name@, path: e.path@ }
}

pub open spec fn engines_view(v: Seq<LocalEngine>) -> Seq<EngineV> {
    v.map_values(|e: LocalEngine| engine_view(e))
}

/// The directory engines are installed to, below the configuration directory.
pub fn engines_install_dir(config_dir: &str) -> (r: String)
    ensures
        r@ == config_dir@ + "/engines"@,
{
    let mut v = chars_of(config_dir);
    append_str(&mut v, "/engines");
    string_of(v.as_slice())
}

/// Whether some engine of the list has this path.
pub open spec fn has_path(v: Seq<EngineV>, path: Seq<char>) -> bool {
    exists|i: int| 0 <= i < v.len() && v[i].path == path
}

fn path_in_list(engines: &Vec<LocalEngine>, path: &str) -> (r: bool)
    ensures
        r == has_path(engines_view(engines@), path@),
{
    let ghost ev = engines_view(engines@);
    let mut i: usize = 0;
    while i < engines.len()
        invariant
            i <= engines@.len(),
            ev == engines_view(engines@),
            forall|k: int| 0 <= k < i ==> ev[k].path != path@,
        decreases engines@.len() - i,
    {
        assert(ev[i as int] == engine_view(engines@[i as int]));
        if str_eq(engines[i].path.as_str(), path) {
            return true;
        }
        i += 1;
    }
    false
}

/// Adds an engine under its (canonical) path, which must be a file not yet in the list;
/// its id is the path.
pub fn insert_engine(engines: &mut Vec<LocalEngine>, name: String, path: String, is_file: bool) -> (r: Result<(), String>)
    ensures
        match r {
            Ok(()) => is_file && !has_path(engines_view(old(engines)@), path@) && engines_view(final(engines)@)
                == engines_view(old(engines)@).push(EngineV { id: path@, name: name@, path: path@ }),
            Err(e) => engines_view(final(engines)@) == engines_view(old(engines)@) && ((!is_file && e@ == "Not a file: "@ + path@)
                || (is_file && has_path(engines_view(old(engines)@), path@) && e@ == "already in list"@)),
        },
{
    if !is_file {
        let mut v: Vec<char> = Vec::new();
        append_str(&mut v, "Not a file: ");
        append_str(&mut v, path.as_str());
        return Err(string_of(v.as_slice()));
    }
    if path_in_list(engines, path.as_str()) {
        return Err(String::from_str("already in list"));
    }
    let ghost before = engines_view(engines@);
    let id = path.clone();
    engines.push(LocalEngine { id, name, path });
    assert(engines_view(engines@) =~= before.push(engine_view(engines@.last())));
    Ok(())
}

/// Adds an engine named after its file stem (`Engine` without one).
pub fn add_engine(engines: &mut Vec<LocalEngine>, path: String, is_file: bool, stem: Option<&str>) -> (r: Result<(), String>)
    ensures
        match r {
            Ok(()) => is_file && !has_path(engines_view(old(engines)@), path@) && engines_view(final(engines)@)
                == engines_view(old(engines)@).push(EngineV {
                id: path@,
                name: match stem {
                    Some(s) => s@,
                    None => "Engine"@,
                },
                path: path@,
            }),
            Err(e) => engines_view(final(engines)@) == engines_view(old(engines)@) && ((!is_file && e@ == "Not a file: "@ + path@)
                || (is_file && has_path(engines_view(old(engines)@), path@) && e@ == "already in list"@)),
        },
{
    let name = match stem {
        Some(s) => String::from_str(s),
        None => String::from_str("Engine"),
    };
    insert_engine(engines, name, path, is_file)
}

/// Adds an engine under a given name.
pub fn register_engine(engines: &mut Vec<LocalEngine>, name: String, path: String, is_file: bool) -> (r: Result<(), String>)
    ensures
        match r {
            Ok(()) => is_file && !has_path(engines_view(old(engines)@), path@) && engines_view(final(engines)@)
                == engines_view(old(engines)@).push(EngineV { id: path@, name: name@, path: path@ }),
            Err(e) => engines_view(final(engines)@) == engines_view(old(engines)@) && ((!is_file && e@ == "Not a file: "@ + path@)
                || (is_file && has_path(engines_view(old(engines)@), path@) && e@ == "already in list"@)),
        },
{
    insert_engine(engines, name, path, is_file)
}

/// The engines whose id is not `id`.
pub open spec fn without_id(v: Seq<EngineV>, id: Seq<char>) -> Seq<EngineV>
    decreases v.len(),
{
    if v.len() == 0 {
        seq![]
    } else if v.last().id == id {
        without_id(v.drop_last(), id)
    } else {
        without_id(v.drop_last(), id).push(v.last())
    }
}

pub fn remove_engine(engines: &mut Vec<LocalEngine>, id: &str)
    ensures
        engines_view(final(engines)@) == without_id(engines_view(old(engines)@), id@),
{
    let ghost ev = engines_view(engines@);
    let mut kept: Vec<LocalEngine> = Vec::new();
    let mut i: usize = 0;
    while i < engines.len()
        invariant
            i <= engines@.len(),
            ev == engines_view(engines@),
            engines_view(kept@) == without_id(ev.take(i as int), id@),
        decreases engines@.len() - i,
    {
        let ghost before = engines_view(kept@);
        assert(ev.take(i + 1).drop_last() =~= ev.take(i as int));
        assert(ev.take(i + 1).last() == engine_view(engines@[i as int]));
        if !str_eq(engines[i].id.as_str(), id) {
            let e = LocalEngine { id: engines[i].id.clone(), name: engines[i].name.clone(), path: engines[i].path.clone() };
            kept.push(e);
            assert(engines_view(kept@) =~= before.push(engine_view(engines@[i as int])));
        }
        i += 1;
    }
    assert(ev.take(i as int) =~= ev);
    *engines = kept;
}

/// The engines whose file is still there (`present[i]` says it of engine `i`).
pub open spec fn present_only(v: Seq<EngineV>, present: Seq<bool>) -> Seq<EngineV>
    decreases v.len(),
{
    if v.len() == 0 || present.len() < v.len() {
        seq![]
    } else if present[v.len() - 1] {
        present_only(v.drop_last(), present).push(v.last())
    } else {
        present_only(v.drop_last(), present)
    }
}

/// Keeps the engines whose file is there; says whether any was dropped.
pub fn retain_present(engines: &mut Vec<LocalEngine>, present: &[bool]) -> (changed: bool)
    requires
        present@.len() == old(engines)@.len(),
    ensures
        engines_view(final(engines)@) == present_only(engines_view(old(engines)@), present@),
        changed == (final(engines)@.len() != old(engines)@.len()),
{
    let ghost ev = engines_view(engines@);
    let n = engines.len();
    let mut kept: Vec<LocalEngine> = Vec::new();
    let mut i: usize = 0;
    while i < engines.len()
        invariant
            i <= engines@.len(),
            n == engines@.len(),
            present@.len() == n,
            ev == engines_view(engines@),
            engines_view(kept@) == present_only(ev.take(i as int), present@),
            kept@.len() <= i,
        decreases engines@.len() - i,
    {
        let ghost before = engines_view(kept@);
        assert(ev.take(i + 1).drop_last() =~= ev.take(i as int));
        assert(ev.take(i + 1).last() == engine_view(engines@[i as int]));
        if present[i] {
            let e = LocalEngine { id: engines[i].id.clone(), name: engines[i].name.clone(), path: engines[i].path.clone() };
            kept.push(e);
            assert(engines_view(kept@) =~= before.push(engine_view(engines@[i as int])));
        }
        i += 1;
    }
    assert(ev.take(i as int) =~= ev);
    let changed = kept.len() != n;
    *engines = kept;
    changed
}

/// A path below the home directory written with `~`.
pub open spec fn shown_path(path: Seq<char>, home: Option<Seq<char>>) -> Seq<char> {
    match home {
        Some(h) => if has_prefix(path, h + "/"@) {
            "~/"@ + path.skip((h.len() + 1) as int)
        } else {
            path
        },
        None => path,
    }
}

pub fn display_path(path: &str, home: Option<&str>) -> (r: String)
    ensures
        r@ == shown_path(path@, match home {
            Some(h) => Some(h@),
            None => None,
        }),
{
    match home {
        Some(h) => {
            let mut prefix = chars_of(h);
            prefix.push('/');
            assert(prefix@ =~= h@ + "/"@) by {
                reveal_strlit("/");
            }
            let p = chars_of(path);
            if starts_with(p.as_slice(), prefix.as_slice()) {
                let rest = slice_to_vec(p.as_slice(), prefix.len(), p.len());
                let mut v: Vec<char> = Vec::new();
                append_str(&mut v, "~/");
                crate::text::append_chars(&mut v, rest.as_slice());
                assert(rest@ =~= path@.skip((h@.len() + 1) as int));
                string_of(v.as_slice())
            } else {
                String::from_str(path)
            }
        },
        None => String::from_str(path),
    }
}

/// No path is listed twice.
pub open spec fn unique_paths(v: Seq<EngineV>) -> bool {
    forall|i: int, j: int| 0 <= i < j < v.len() ==> #[trigger] v[i].path != #[trigger] v[j].path
}

/// Every engine left after removing an id was in the list before.
proof fn lemma_without_id_from(v: Seq<EngineV>, id: Seq<char>)
    ensures
        forall|k: int| 0 <= k < without_id(v, id).len() ==> exists|j: int| 0 <= j < v.len() && #[trigger] without_id(v, id)[k] == v[j],
    decreases v.len(),
{
    if v.len() > 0 {
        let w = without_id(v.drop_last(), id);
        lemma_without_id_from(v.drop_last(), id);
        assert forall|k: int| 0 <= k < without_id(v, id).len() implies exists|j: int| 0 <= j < v.len() && #[trigger] without_id(v, id)[k] == v[j] by {
            if k < w.len() {
                let j = choose|j: int| 0 <= j < v.drop_last().len() && w[k] == v.drop_last()[j];
                assert(without_id(v, id)[k] == v[j]);
            } else {
                assert(without_id(v, id)[k] == v[v.len() - 1]);
            }
        }
    }
}

proof fn lemma_without_id_unique(v: Seq<EngineV>, id: Seq<char>)
    requires
        unique_paths(v),
    ensures
        unique_paths(without_id(v, id)),
    decreases v.len(),
{
    if v.len() > 0 {
        let d = v.drop_last();
        assert(unique_paths(d)) by {
            assert forall|i: int, j: int| 0 <= i < j < d.len() implies #[trigger] d[i].path != #[trigger] d[j].path by {
                assert(d[i] == v[i] && d[j] == v[j]);
            }
        }
        lemma_without_id_unique(d, id);
        lemma_without_id_from(d, id);
        let w = without_id(d, id);
        if v.last().id != id {
            let w2 = w.push(v.last());
            assert forall|i: int, j: int| 0 <= i < j < w2.len() implies #[trigger] w2[i].path != #[trigger] w2[j].path by {
                if j == w.len() {
                    let m = choose|m: int| 0 <= m < d.len() && w[i] == d[m];
                    assert(d[m] == v[m]);
                    assert(v[m].path != v[v.len() - 1].path);
                } else {
                    assert(w2[i] == w[i] && w2[j] == w[j]);
                }
            }
        }
    }
}

/// Adding an engine keeps every path listed once: where the path is listed already the
/// list is left as it was, else the engine is put last; removing an engine keeps it too.
pub proof fn law_engine_paths_stay_unique(v: Seq<EngineV>, name: Seq<char>, path: Seq<char>, id: Seq<char>)
    requires
        unique_paths(v),
    ensures
        !has_path(v, path) ==> unique_paths(v.push(EngineV { id: path, name, path })),
        unique_paths(without_id(v, id)),
{
    let w = v.push(EngineV { id: path, name, path });
    if !has_path(v, path) {
        assert forall|i: int, j: int| 0 <= i < j < w.len() implies #[trigger] w[i].path != #[trigger] w[j].path by {
            assert(w[i] == v[i]);
            if j < v.len() {
                assert(w[j] == v[j]);
            }
        }
    }
    lemma_without_id_unique(v, id);
}

} // verus!
