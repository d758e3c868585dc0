//! What the opening-tree tab says while a profile's games load, and when it refreshes.
use vstd::prelude::*;
use crate::fetch::{period_label, LoadPeriod, StreamOutcome, TimeControlFilter};
use crate::text::{append_chars, append_str, dec, decimal, string_of, trim, trim_str};

verus! {

broadcast use vstd::string::group_string_axioms;

pub open spec fn loading_text(period: LoadPeriod) -> Seq<char> {
    if period == LoadPeriod::All {
        "all games"@
    } else {
        "last "@ + period_label(period)
    }
}

/// Whether a load can start: the trimmed user name, or the status that says why not.
pub fn load_request(username: &str, time_controls: TimeControlFilter) -> (r: Result<String, String>)
    ensures
        match r {
            Ok(u) => trim(username@).len() > 0 && (time_controls.bullet || time_controls.blitz || time_controls.rapid || time_controls.classical) && u@ == trim(username@),
            Err(e) => (trim(username@).len() == 0 && e@ == "Username required"@) || (trim(username@).len() > 0
                && !(time_controls.bullet || time_controls.blitz || time_controls.rapid || time_controls.classical) && e@ == "Select at least one time control"@),
        },
{
    let t = trim_str(username);
    if t.len() == 0 {
        return Err(String::from_str("Username required"));
    }
    if !time_controls.any_selected() {
        return Err(String::from_str("Select at least one time control"));
    }
    Ok(string_of(t.as_slice()))
}

/// `Loading <user> (<period>)…`.
pub fn loading_status(username: &str, period: LoadPeriod) -> (r: String)
    ensures
        r@ == "Loading "@ + username@ + " ("@ + loading_text(period) + ")…"@,
{
    let mut v: Vec<char> = Vec::new();
    append_str(&mut v, "Loading ");
    append_str(&mut v, username);
    append_str(&mut v, " (");
    let label = period.loading_label();
    append_str(&mut v, label.as_str());
    append_str(&mut v, ")…");
    string_of(v.as_slice())
}

/// `<user> — loading (<period>)… <n> games (<k> skipped)`.
pub fn progress_status(username: &str, period: LoadPeriod, loaded: u32, skipped: u32) -> (r: String)
    ensures
        r@ == username@ + " — loading ("@ + loading_text(period) + ")… "@ + dec(loaded as nat) + " games ("@ + dec(
            skipped as nat,
        ) + " skipped)"@,
{
    let mut v: Vec<char> = Vec::new();
    append_str(&mut v, username);
    append_str(&mut v, " — loading (");
    let label = period.loading_label();
    append_str(&mut v, label.as_str());
    append_str(&mut v, ")… ");
    append_chars(&mut v, decimal(loaded as u64).as_slice());
    append_str(&mut v, " games (");
    append_chars(&mut v, decimal(skipped as u64).as_slice());
    append_str(&mut v, " skipped)");
    string_of(v.as_slice())
}

/// The status when a load has ended, and whether the board is refreshed: a completed or
/// stopped load shows its count; a failed one keeps the games loaded before the error, or
/// shows only the error when there are none.
pub open spec fn finished_text(user: Seq<char>, result: Result<StreamOutcome, Seq<char>>, loaded: nat, skipped: nat) -> (Seq<
    char,
>, bool) {
    let counts = dec(loaded) + " games"@;
    let skip = " ("@ + dec(skipped) + " skipped)"@;
    match result {
        Ok(StreamOutcome::Completed) => (user + " — "@ + counts + " loaded"@ + skip, true),
        Ok(StreamOutcome::Cancelled) => (user + " — stopped at "@ + counts + skip, true),
        Err(e) => if loaded > 0 {
            (e + " — kept "@ + counts + skip, true)
        } else {
            (e, false)
        },
    }
}

pub fn load_finished(username: &str, result: &Result<(StreamOutcome, u32), String>, loaded: u32, skipped: u32) -> (r: (
    String,
    bool,
))
    ensures
        (r.0@, r.1) == finished_text(
            username@,
            match result {
                Ok((o, _)) => Ok(*o),
                Err(e) => Err(e@),
            },
            loaded as nat,
            skipped as nat,
        ),
{
    let mut v: Vec<char> = Vec::new();
    let refresh = match result {
        Ok((StreamOutcome::Completed, _)) => {
            append_str(&mut v, username);
            append_str(&mut v, " — ");
            append_chars(&mut v, decimal(loaded as u64).as_slice());
            append_str(&mut v, " games");
            append_str(&mut v, " loaded");
            true
        },
        Ok((StreamOutcome::Cancelled, _)) => {
            append_str(&mut v, username);
            append_str(&mut v, " — stopped at ");
            append_chars(&mut v, decimal(loaded as u64).as_slice());
            append_str(&mut v, " games");
            true
        },
        Err(e) => {
            append_str(&mut v, e.as_str());
            if loaded > 0 {
                append_str(&mut v, " — kept ");
                append_chars(&mut v, decimal(loaded as u64).as_slice());
                append_str(&mut v, " games");
                true
            } else {
                false
            }
        },
    };
    if refresh {
        append_str(&mut v, " (");
        append_chars(&mut v, decimal(skipped as u64).as_slice());
        append_str(&mut v, " skipped)");
    }
    (string_of(v.as_slice()), refresh)
}

} // verus!
