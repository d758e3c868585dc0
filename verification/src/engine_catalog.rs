//! Downloadable engines from GitHub releases: which asset suits the platform, and where it
//! goes.
use vstd::prelude::*;
use crate::engines::{engine_view, engines_view, EngineV, LocalEngine};
use crate::text::{
    append_chars, append_str, chars_of, contains_chars, contains_seq, dec, decimal, ends_with, has_prefix, has_suffix,
    is_ascii_alnum, slice_to_vec, starts_with, str_eq, string_of,
};

verus! {

broadcast use vstd::string::group_string_axioms;

pub const USER_AGENT: &'static str = "novelty-chess-app";

/// An engine that can be downloaded.
#[derive(Clone, Copy, Debug)]
pub struct CatalogEngine {
    pub id: &'static str,
    pub name: &'static str,
    pub description: &'static str,
    pub repo: &'static str,
}

/// One file of a GitHub release.
#[derive(Debug)]
pub struct GithubAsset {
    pub name: String,
    pub browser_download_url: String,
    pub size: u64,
}

/// The download offered for an engine on this platform.
#[derive(Debug)]
pub struct CatalogOffer {
    pub engine: CatalogEngine,
    pub version: String,
    pub asset_name: String,
    pub download_url: String,
    pub size: Option<u64>,
    pub available: bool,
}

pub open spec fn catalog_ids() -> Seq<Seq<char>> {
    seq!["stockfish"@, "reckless"@, "lc0"@]
}

/// Stockfish, Reckless and Leela Chess Zero.
pub fn catalog_engines() -> (r: Vec<CatalogEngine>)
    ensures
        r@.map_values(|e: CatalogEngine| e.id@) == catalog_ids(),
        r@.map_values(|e: CatalogEngine| e.repo@) == seq![
            "official-stockfish/Stockfish"@,
            "codedeliveryservice/Reckless"@,
            "LeelaChessZero/lc0"@,
        ],
        r@.map_values(|e: CatalogEngine| e.name@) == seq!["Stockfish"@, "Reckless"@, "Leela Chess Zero"@],
{
    let mut v: Vec<CatalogEngine> = Vec::new();
    v.push(CatalogEngine {
        id: "stockfish",
        name: "Stockfish",
        description: "Strong open-source chess engine",
        repo: "official-stockfish/Stockfish",
    });
    v.push(CatalogEngine {
        id: "reckless",
        name: "Reckless",
        description: "Fast UCI engine by Code Delivery Service",
        repo: "codedeliveryservice/Reckless",
    });
    v.push(CatalogEngine {
        id: "lc0",
        name: "Leela Chess Zero",
        description: "Neural network chess engine",
        repo: "LeelaChessZero/lc0",
    });
    assert(v@.map_values(|e: CatalogEngine| e.id@) =~= catalog_ids());
    assert(v@.map_values(|e: CatalogEngine| e.repo@) =~= seq![
        "official-stockfish/Stockfish"@,
        "codedeliveryservice/Reckless"@,
        "LeelaChessZero/lc0"@,
    ]);
    assert(v@.map_values(|e: CatalogEngine| e.name@) =~= seq!["Stockfish"@, "Reckless"@, "Leela Chess Zero"@]);
    v
}

/// The release URL of a repository.
pub fn latest_release_url(repo: &str) -> (r: String)
    ensures
        r@ == "https://api.github.com/repos/"@ + repo@ + "/releases/latest"@,
{
    let mut v: Vec<char> = Vec::new();
    append_str(&mut v, "https://api.github.com/repos/");
    append_str(&mut v, repo);
    append_str(&mut v, "/releases/latest");
    string_of(v.as_slice())
}

/// The asset names to look for, best first, for an engine on an OS and architecture
/// (names as `std::env::consts` gives them); a trailing `*` matches any rest.
pub open spec fn preferences(id: Seq<char>, os: Seq<char>, arch: Seq<char>) -> Seq<Seq<char>> {
    if id == "stockfish"@ && os == "macos"@ && arch == "aarch64"@ {
        seq!["stockfish-macos-m1-apple-silicon.tar"@]
    } else if id == "stockfish"@ && os == "macos"@ {
        seq!["stockfish-macos-x86-64-avx2.tar"@, "stockfish-macos-x86-64-sse41-popcnt.tar"@, "stockfish-macos-x86-64.tar"@]
    } else if id == "stockfish"@ && os == "linux"@ {
        seq!["stockfish-ubuntu-x86-64-avx2.tar"@, "stockfish-ubuntu-x86-64-sse41-popcnt.tar"@, "stockfish-ubuntu-x86-64.tar"@]
    } else if id == "stockfish"@ && os == "windows"@ {
        seq!["stockfish-windows-x86-64-avx2.zip"@, "stockfish-windows-x86-64-sse41-popcnt.zip"@]
    } else if id == "reckless"@ && os == "macos"@ {
        seq!["reckless-macos"@]
    } else if id == "reckless"@ && os == "linux"@ {
        seq!["reckless-linux-avx2"@, "reckless-linux-generic"@]
    } else if id == "reckless"@ && os == "windows"@ {
        seq!["reckless-windows-avx2.exe"@, "reckless-windows-generic.exe"@]
    } else if id == "lc0"@ && os == "windows"@ {
        seq!["lc0-v*-windows-cpu-openblas.zip"@, "lc0-v*-windows-cpu-dnnl.zip"@]
    } else {
        seq![]
    }
}

fn strs(items: &[&'static str]) -> (r: Vec<&'static str>)
    ensures
        r@.map_values(|s: &'static str| s@) == items@.map_values(|s: &'static str| s@),
{
    let mut v: Vec<&'static str> = Vec::new();
    let mut i: usize = 0;
    while i < items.len()
        invariant
            i <= items@.len(),
            v@ == items@.take(i as int),
        decreases items@.len() - i,
    {
        v.push(items[i]);
        i += 1;
        assert(v@ =~= items@.take(i as int));
    }
    assert(items@.take(i as int) =~= items@);
    v
}

pub fn asset_preferences_for(engine_id: &str, os: &str, arch: &str) -> (r: Vec<&'static str>)
    ensures
        r@.map_values(|s: &'static str| s@) == preferences(engine_id@, os@, arch@),
{
    let st = str_eq(engine_id, "stockfish");
    let re = str_eq(engine_id, "reckless");
    let lc = str_eq(engine_id, "lc0");
    let mac = str_eq(os, "macos");
    let lin = str_eq(os, "linux");
    let win = str_eq(os, "windows");
    let r: Vec<&'static str> = if st && mac && str_eq(arch, "aarch64") {
        let mut v: Vec<&'static str> = Vec::new();
        v.push("stockfish-macos-m1-apple-silicon.tar");
        v
    } else if st && mac {
        let mut v: Vec<&'static str> = Vec::new();
        v.push("stockfish-macos-x86-64-avx2.tar");
        v.push("stockfish-macos-x86-64-sse41-popcnt.tar");
        v.push("stockfish-macos-x86-64.tar");
        v
    } else if st && lin {
        let mut v: Vec<&'static str> = Vec::new();
        v.push("stockfish-ubuntu-x86-64-avx2.tar");
        v.push("stockfish-ubuntu-x86-64-sse41-popcnt.tar");
        v.push("stockfish-ubuntu-x86-64.tar");
        v
    } else if st && win {
        let mut v: Vec<&'static str> = Vec::new();
        v.push("stockfish-windows-x86-64-avx2.zip");
        v.push("stockfish-windows-x86-64-sse41-popcnt.zip");
        v
    } else if re && mac {
        let mut v: Vec<&'static str> = Vec::new();
        v.push("reckless-macos");
        v
    } else if re && lin {
        let mut v: Vec<&'static str> = Vec::new();
        v.push("reckless-linux-avx2");
        v.push("reckless-linux-generic");
        v
    } else if re && win {
        let mut v: Vec<&'static str> = Vec::new();
        v.push("reckless-windows-avx2.exe");
        v.push("reckless-windows-generic.exe");
        v
    } else if lc && win {
        let mut v: Vec<&'static str> = Vec::new();
        v.push("lc0-v*-windows-cpu-openblas.zip");
        v.push("lc0-v*-windows-cpu-dnnl.zip");
        v
    } else {
        Vec::new()
    };
    assert(r@.map_values(|s: &'static str| s@) =~= preferences(engine_id@, os@, arch@));
    r
}

/// Index of the first asset named `name`, at or after `i`.
pub open spec fn asset_named(names: Seq<Seq<char>>, name: Seq<char>, i: int) -> Option<int>
    decreases names.len() - i,
{
    if i < 0 || i >= names.len() {
        None
    } else if names[i] == name {
        Some(i)
    } else {
        asset_named(names, name, i + 1)
    }
}

/// Index of the first asset whose name starts with `prefix`, at or after `i`.
pub open spec fn asset_prefixed(names: Seq<Seq<char>>, prefix: Seq<char>, i: int) -> Option<int>
    decreases names.len() - i,
{
    if i < 0 || i >= names.len() {
        None
    } else if has_prefix(names[i], prefix) {
        Some(i)
    } else {
        asset_prefixed(names, prefix, i + 1)
    }
}

/// The asset for the first preference (from `k`) that some asset matches: by its exact
/// name, or, for a preference ending in `*`, by the part before the `*`.
pub open spec fn picked(names: Seq<Seq<char>>, prefs: Seq<Seq<char>>, k: int) -> Option<int>
    decreases prefs.len() - k,
{
    if k < 0 || k >= prefs.len() {
        None
    } else {
        let p = prefs[k];
        match asset_named(names, p, 0) {
            Some(i) => Some(i),
            None => if p.len() > 0 && p.last() == '*' {
                match asset_prefixed(names, p.drop_last(), 0) {
                    Some(i) => Some(i),
                    None => picked(names, prefs, k + 1),
                }
            } else {
                picked(names, prefs, k + 1)
            },
        }
    }
}

pub open spec fn asset_names(assets: Seq<GithubAsset>) -> Seq<Seq<char>> {
    assets.map_values(|a: GithubAsset| a.name@)
}

pub fn pick_asset(assets: &[GithubAsset], preferences: &[&str]) -> (r: Option<usize>)
    ensures
        match r {
            Some(i) => i < assets@.len()
                && picked(asset_names(assets@), preferences@.map_values(|s: &str| s@), 0) == Some(i as int),
            None => picked(asset_names(assets@), preferences@.map_values(|s: &str| s@), 0) is None,
        },
{
    let ghost names = asset_names(assets@);
    let ghost prefs = preferences@.map_values(|s: &str| s@);
    let mut k: usize = 0;
    while k < preferences.len()
        invariant
            k <= preferences@.len(),
            names == asset_names(assets@),
            prefs == preferences@.map_values(|s: &str| s@),
            picked(names, prefs, 0) == picked(names, prefs, k as int),
        decreases preferences@.len() - k,
    {
        let p = chars_of(preferences[k]);
        assert(prefs[k as int] == p@);
        let mut i: usize = 0;
        while i < assets.len()
            invariant
                i <= assets@.len(),
                k < preferences@.len(),
                names == asset_names(assets@),
                prefs == preferences@.map_values(|s: &str| s@),
                p@ == prefs[k as int],
                picked(names, prefs, 0) == picked(names, prefs, k as int),
                asset_named(names, p@, 0) == asset_named(names, p@, i as int),
            decreases assets@.len() - i,
        {
            assert(names[i as int] == assets@[i as int].name@);
            if str_eq(assets[i].name.as_str(), preferences[k]) {
                return Some(i);
            }
            i += 1;
        }
        if p.len() > 0 && p[p.len() - 1] == '*' {
            let prefix = slice_to_vec(p.as_slice(), 0, p.len() - 1);
            assert(prefix@ =~= p@.drop_last());
            let mut j: usize = 0;
            while j < assets.len()
                invariant
                    j <= assets@.len(),
                    k < preferences@.len(),
                    names == asset_names(assets@),
                    prefs == preferences@.map_values(|s: &str| s@),
                    p@ == prefs[k as int],
                    p@.len() > 0 && p@.last() == '*',
                    prefix@ == p@.drop_last(),
                    asset_named(names, p@, 0) is None,
                    picked(names, prefs, 0) == picked(names, prefs, k as int),
                    asset_prefixed(names, prefix@, 0) == asset_prefixed(names, prefix@, j as int),
                decreases assets@.len() - j,
            {
                assert(names[j as int] == assets@[j as int].name@);
                let n = chars_of(assets[j].name.as_str());
                if starts_with(n.as_slice(), prefix.as_slice()) {
                    return Some(j);
                }
                j += 1;
            }
        }
        k += 1;
    }
    None
}

/// The offer for an engine from its latest release: the asset `pick_asset` finds, if any.
pub fn resolve_offer(engine: CatalogEngine, version: String, assets: &[GithubAsset], preferences: &[&str]) -> (r: CatalogOffer)
    ensures
        r.engine == engine,
        r.version@ == version@,
        r.available == picked(asset_names(assets@), preferences@.map_values(|s: &str| s@), 0) is Some,
        match picked(asset_names(assets@), preferences@.map_values(|s: &str| s@), 0) {
            Some(i) => r.asset_name@ == assets@[i].name@ && r.download_url@ == assets@[i].browser_download_url@
                && r.size == Some(assets@[i].size),
            None => r.asset_name@.len() == 0 && r.download_url@.len() == 0 && r.size is None,
        },
{
    match pick_asset(assets, preferences) {
        Some(i) => CatalogOffer {
            engine,
            version,
            asset_name: assets[i].name.clone(),
            download_url: assets[i].browser_download_url.clone(),
            size: Some(assets[i].size),
            available: true,
        },
        None => CatalogOffer {
            engine,
            version,
            asset_name: String::new(),
            download_url: String::new(),
            size: None,
            available: false,
        },
    }
}

/// What `resolve_offer` gives for an engine, a release tag and its assets.
pub open spec fn offer_of(
    r: CatalogOffer,
    engine_id: Seq<char>,
    version: Seq<char>,
    assets: Seq<GithubAsset>,
    prefs: Seq<Seq<char>>,
) -> bool {
    &&& r.engine.id@ == engine_id
    &&& r.version@ == version
    &&& r.available == picked(asset_names(assets), prefs, 0) is Some
    &&& match picked(asset_names(assets), prefs, 0) {
        Some(i) => r.asset_name@ == assets[i].name@ && r.download_url@ == assets[i].browser_download_url@
            && r.size == Some(assets[i].size),
        None => r.asset_name@.len() == 0 && r.download_url@.len() == 0 && r.size is None,
    }
}

/// The offer at position `k` of the catalog was made from a found release, as `offer_of` says.
pub open spec fn catalog_entry(
    release: Result<(String, Vec<GithubAsset>), String>,
    offer: CatalogOffer,
    k: int,
    os: Seq<char>,
    arch: Seq<char>,
) -> bool {
    match release {
        Ok(rel) => offer_of(offer, catalog_ids()[k], rel.0@, rel.1@, preferences(catalog_ids()[k], os, arch)),
        Err(_) => false,
    }
}

/// The index of the first failed release lookup, from `i` on.
pub open spec fn first_failure(releases: Seq<Result<(String, Vec<GithubAsset>), String>>, i: int) -> Option<int>
    decreases releases.len() - i,
{
    if i < 0 || i >= releases.len() {
        None
    } else if releases[i] is Err {
        Some(i)
    } else {
        first_failure(releases, i + 1)
    }
}

/// The offers of the whole catalog, from the latest release of each engine (in the order of
/// `catalog_engines`, as fetched for this OS and architecture), or the first lookup's error.
pub fn resolve_catalog(releases: Vec<Result<(String, Vec<GithubAsset>), String>>, os: &str, arch: &str) -> (r: Result<
    Vec<CatalogOffer>,
    String,
>)
    requires
        releases@.len() == catalog_ids().len(),
    ensures
        match first_failure(releases@, 0) {
            Some(i) => r matches Err(e) && releases@[i] matches Err(e2) && e@ == e2@,
            None => r matches Ok(v) && v@.len() == catalog_ids().len() && forall|k: int|
                0 <= k < v@.len() ==> #[trigger] catalog_entry(releases@[k], v@[k], k, os@, arch@),
        },
{
    let engines = catalog_engines();
    let mut out: Vec<CatalogOffer> = Vec::new();
    let mut i: usize = 0;
    while i < releases.len()
        invariant
            i <= releases@.len(),
            releases@.len() == catalog_ids().len(),
            engines@.map_values(|e: CatalogEngine| e.id@) == catalog_ids(),
            first_failure(releases@, 0) == first_failure(releases@, i as int),
            out@.len() == i,
            forall|k: int| 0 <= k < i ==> #[trigger] catalog_entry(releases@[k], out@[k], k, os@, arch@),
        decreases releases@.len() - i,
    {
        match &releases[i] {
            Err(e) => {
                assert(first_failure(releases@, i as int) == Some(i as int));
                return Err(e.clone());
            },
            Ok(rel) => {
                let engine = engines[i];
                assert(engine.id@ == catalog_ids()[i as int]);
                let prefs = asset_preferences_for(engine.id, os, arch);
                let offer = resolve_offer(engine, rel.0.clone(), rel.1.as_slice(), prefs.as_slice());
                assert(prefs@.map_values(|s: &str| s@) =~= prefs@.map_values(|s: &'static str| s@));
                assert(releases@[i as int] matches Ok(r2) && r2 == *rel);
                assert(offer_of(offer, catalog_ids()[i as int], rel.0@, rel.1@, preferences(catalog_ids()[i as int], os@, arch@)));
                let ghost before = out@;
                out.push(offer);
                assert forall|k: int| 0 <= k < i + 1 implies #[trigger] catalog_entry(releases@[k], out@[k], k, os@, arch@) by {
                    if k < i {
                        assert(out@[k] == before[k]);
                        assert(catalog_entry(releases@[k], before[k], k, os@, arch@));
                    }
                }
                assert(first_failure(releases@, i as int) == first_failure(releases@, i + 1));
            },
        }
        i += 1;
    }
    assert(first_failure(releases@, i as int) is None);
    Ok(out)
}

pub open spec fn version_char(c: char) -> char {
    if is_ascii_alnum(c) || c == '.' || c == '-' || c == '_' {
        c
    } else {
        '_'
    }
}

/// A release tag made safe as a directory name.
pub fn sanitize_version(version: &str) -> (r: String)
    ensures
        r@ == version@.map_values(|c: char| version_char(c)),
{
    let v = chars_of(version);
    let mut out: Vec<char> = Vec::new();
    let mut i: usize = 0;
    while i < v.len()
        invariant
            i <= v@.len(),
            v@ == version@,
            out@ == v@.take(i as int).map_values(|c: char| version_char(c)),
        decreases v@.len() - i,
    {
        let c = v[i];
        let ok = ('0' <= c && c <= '9') || ('A' <= c && c <= 'Z') || ('a' <= c && c <= 'z') || c == '.' || c == '-' || c == '_';
        out.push(if ok { c } else { '_' });
        i += 1;
        assert(out@ =~= v@.take(i as int).map_values(|c: char| version_char(c)));
    }
    assert(v@.take(i as int) =~= v@);
    string_of(out.as_slice())
}

/// Where an offer is installed, below the engines directory.
pub fn install_dir(engines_dir: &str, offer: &CatalogOffer) -> (r: String)
    ensures
        r@ == engines_dir@ + "/"@ + offer.engine.id@ + "/"@ + offer.version@.map_values(|c: char| version_char(c)),
{
    let mut v = chars_of(engines_dir);
    append_str(&mut v, "/");
    append_str(&mut v, offer.engine.id);
    append_str(&mut v, "/");
    let s = sanitize_version(offer.version.as_str());
    append_str(&mut v, s.as_str());
    string_of(v.as_slice())
}

/// The name an installed offer is listed under, or why it cannot be installed.
pub fn install_name(offer: &CatalogOffer) -> (r: Result<String, String>)
    ensures
        match r {
            Ok(n) => offer.available && n@ == offer.engine.name@ + " "@ + offer.version@,
            Err(e) => !offer.available && e@ == offer.engine.name@ + " is not available for this platform"@,
        },
{
    if !offer.available {
        let mut v: Vec<char> = Vec::new();
        append_str(&mut v, offer.engine.name);
        append_str(&mut v, " is not available for this platform");
        return Err(string_of(v.as_slice()));
    }
    let mut v: Vec<char> = Vec::new();
    append_str(&mut v, offer.engine.name);
    append_str(&mut v, " ");
    append_str(&mut v, offer.version.as_str());
    Ok(string_of(v.as_slice()))
}

/// The directory below which the catalog engine `catalog_id` is installed.
pub open spec fn catalog_prefix(engines_dir: Seq<char>, catalog_id: Seq<char>) -> Seq<char> {
    engines_dir + "/"@ + catalog_id
}

/// Whether an engine of the list lies below the catalog engine's install directory and its
/// file is there (`present[i]` says it of engine `i`).
pub fn is_catalog_installed(engines: &[LocalEngine], engines_dir: &str, catalog_id: &str, present: &[bool]) -> (r: bool)
    requires
        present@.len() == engines@.len(),
    ensures
        r == exists|i: int|
            0 <= i < engines@.len() && has_prefix(engines@[i].path@, catalog_prefix(engines_dir@, catalog_id@))
                && present@[i],
{
    let mut pv = chars_of(engines_dir);
    append_str(&mut pv, "/");
    append_str(&mut pv, catalog_id);
    let ghost prefix = catalog_prefix(engines_dir@, catalog_id@);
    assert(pv@ =~= prefix);
    let mut i: usize = 0;
    while i < engines.len()
        invariant
            i <= engines@.len(),
            present@.len() == engines@.len(),
            pv@ == prefix,
            prefix == catalog_prefix(engines_dir@, catalog_id@),
            forall|k: int| 0 <= k < i ==> !(has_prefix(engines@[k].path@, prefix) && present@[k]),
        decreases engines@.len() - i,
    {
        let p = chars_of(engines[i].path.as_str());
        if starts_with(p.as_slice(), pv.as_slice()) && present[i] {
            return true;
        }
        i += 1;
    }
    false
}

/// `s` without its trailing copies of `suffix`, as `trim_end_matches`.
pub open spec fn strip_suffixes(s: Seq<char>, suffix: Seq<char>) -> Seq<char>
    decreases s.len(),
{
    if suffix.len() > 0 && has_suffix(s, suffix) {
        strip_suffixes(s.take(s.len() - suffix.len()), suffix)
    } else {
        s
    }
}

fn strip_suffix_all(s: &[char], suffix: &[char]) -> (r: Vec<char>)
    ensures
        r@ == strip_suffixes(s@, suffix@),
{
    let mut cur = slice_to_vec(s, 0, s.len());
    assert(cur@ =~= s@);
    if suffix.len() == 0 {
        return cur;
    }
    while ends_with(cur.as_slice(), suffix)
        invariant
            suffix@.len() > 0,
            strip_suffixes(s@, suffix@) == strip_suffixes(cur@, suffix@),
        decreases cur@.len(),
    {
        let n = cur.len() - suffix.len();
        let next = slice_to_vec(cur.as_slice(), 0, n);
        assert(next@ =~= cur@.take(cur@.len() - suffix@.len()));
        cur = next;
    }
    cur
}

/// The name the engine binary is expected to have: the asset name without its `.tar` and
/// `.zip` endings.
pub open spec fn binary_stem(asset: Seq<char>) -> Seq<char> {
    strip_suffixes(strip_suffixes(asset, ".tar"@), ".zip"@)
}

pub fn asset_stem(asset_name: &str) -> (r: String)
    ensures
        r@ == binary_stem(asset_name@),
{
    let a = chars_of(asset_name);
    let tar = chars_of(".tar");
    let zip = chars_of(".zip");
    let s1 = strip_suffix_all(a.as_slice(), tar.as_slice());
    let s2 = strip_suffix_all(s1.as_slice(), zip.as_slice());
    string_of(s2.as_slice())
}

/// How an asset is unpacked.
#[derive(Clone, Copy, Debug, PartialEq, Eq, Structural)]
pub enum AssetKind {
    Zip,
    Tar,
    Plain,
}

pub fn asset_kind(asset_name: &str) -> (r: AssetKind)
    ensures
        r == (if has_suffix(asset_name@, ".zip"@) {
            AssetKind::Zip
        } else if has_suffix(asset_name@, ".tar"@) {
            AssetKind::Tar
        } else {
            AssetKind::Plain
        }),
{
    let a = chars_of(asset_name);
    let zip = chars_of(".zip");
    let tar = chars_of(".tar");
    if ends_with(a.as_slice(), zip.as_slice()) {
        AssetKind::Zip
    } else if ends_with(a.as_slice(), tar.as_slice()) {
        AssetKind::Tar
    } else {
        AssetKind::Plain
    }
}

/// Which unpacked file is the engine, when the stem itself is not there: the only file;
/// else the first named as the stem or containing it; else the first executable one.
pub open spec fn binary_choice(names: Seq<Seq<char>>, executable: Seq<bool>, stem: Seq<char>) -> Option<int> {
    if names.len() == 1 {
        Some(0)
    } else {
        match named_like(names, stem, 0) {
            Some(i) => Some(i),
            None => first_true(executable, 0),
        }
    }
}

pub open spec fn named_like(names: Seq<Seq<char>>, stem: Seq<char>, i: int) -> Option<int>
    decreases names.len() - i,
{
    if i < 0 || i >= names.len() {
        None
    } else if names[i] == stem || contains_seq(names[i], stem) {
        Some(i)
    } else {
        named_like(names, stem, i + 1)
    }
}

pub open spec fn first_true(flags: Seq<bool>, i: int) -> Option<int>
    decreases flags.len() - i,
{
    if i < 0 || i >= flags.len() {
        None
    } else if flags[i] {
        Some(i)
    } else {
        first_true(flags, i + 1)
    }
}

pub fn choose_binary(names: &[String], executable: &[bool], stem: &str) -> (r: Option<usize>)
    requires
        names@.len() == executable@.len(),
    ensures
        match r {
            Some(i) => binary_choice(names@.map_values(|s: String| s@), executable@, stem@) == Some(i as int),
            None => binary_choice(names@.map_values(|s: String| s@), executable@, stem@) is None,
        },
{
    let ghost nv = names@.map_values(|s: String| s@);
    if names.len() == 1 {
        return Some(0);
    }
    let sv = chars_of(stem);
    let mut i: usize = 0;
    while i < names.len()
        invariant
            i <= names@.len(),
            nv == names@.map_values(|s: String| s@),
            sv@ == stem@,
            named_like(nv, stem@, 0) == named_like(nv, stem@, i as int),
        decreases names@.len() - i,
    {
        assert(nv[i as int] == names@[i as int]@);
        let n = chars_of(names[i].as_str());
        if str_eq(names[i].as_str(), stem) || contains_chars(n.as_slice(), sv.as_slice()) {
            return Some(i);
        }
        i += 1;
    }
    let mut j: usize = 0;
    while j < executable.len()
        invariant
            j <= executable@.len(),
            names@.len() == executable@.len(),
            names@.len() != 1,
            nv == names@.map_values(|s: String| s@),
            named_like(nv, stem@, 0) is None,
            first_true(executable@, 0) == first_true(executable@, j as int),
        decreases executable@.len() - j,
    {
        if executable[j] {
            return Some(j);
        }
        j += 1;
    }
    None
}

/// A size in bytes, written with one decimal in GB, MB or KB (units of 1024) from one
/// such unit on, rounded to the nearest tenth with halves to even; plain bytes below.
pub open spec fn bytes_text(size: nat) -> Seq<char> {
    let gb: nat = 1024 * 1024 * 1024;
    let mb: nat = 1024 * 1024;
    let kb: nat = 1024;
    if size >= gb {
        tenths_text(tenths(size, gb)) + " GB"@
    } else if size >= mb {
        tenths_text(tenths(size, mb)) + " MB"@
    } else if size >= kb {
        tenths_text(tenths(size, kb)) + " KB"@
    } else {
        dec(size) + " B"@
    }
}

/// `size / unit` in tenths, rounded to the nearest with halves to even.
pub open spec fn tenths(size: nat, unit: nat) -> nat {
    let num = 10 * size;
    let q = num / unit;
    let r = num % unit;
    if 2 * r > unit {
        q + 1
    } else if 2 * r < unit {
        q
    } else if q % 2 == 0 {
        q
    } else {
        q + 1
    }
}

pub open spec fn tenths_text(t: nat) -> Seq<char> {
    dec(t / 10) + "."@ + dec(t % 10)
}

fn tenths_exec(size: u64, unit: u64) -> (r: u64)
    requires
        unit >= 1024,
    ensures
        r == tenths(size as nat, unit as nat),
{
    let num: u128 = 10 * (size as u128);
    let u: u128 = unit as u128;
    let q: u128 = num / u;
    let rem: u128 = num % u;
    proof {
        vstd::arithmetic::div_mod::lemma_div_is_ordered_by_denominator(num as int, 1024, u as int);
    }
    assert(q < 0x1_0000_0000_0000_0000u128 / 64);
    let t: u128 = if 2 * rem > u {
        q + 1
    } else if 2 * rem < u {
        q
    } else if q % 2 == 0 {
        q
    } else {
        q + 1
    };
    t as u64
}

/// `size` as `bytes_text` writes it.
pub fn format_bytes(size: u64) -> (r: String)
    ensures
        r@ == bytes_text(size as nat),
{
    let kb: u64 = 1024;
    let mb: u64 = 1024 * 1024;
    let gb: u64 = 1024 * 1024 * 1024;
    let mut v: Vec<char> = Vec::new();
    if size >= kb {
        let (unit, label) = if size >= gb {
            (gb, " GB")
        } else if size >= mb {
            (mb, " MB")
        } else {
            (kb, " KB")
        };
        let t = tenths_exec(size, unit);
        let whole = decimal(t / 10);
        let frac = decimal(t % 10);
        append_chars(&mut v, whole.as_slice());
        append_str(&mut v, ".");
        append_chars(&mut v, frac.as_slice());
        append_str(&mut v, label);
    } else {
        let d = decimal(size);
        append_chars(&mut v, d.as_slice());
        append_str(&mut v, " B");
    }
    string_of(v.as_slice())
}

} // verus!
