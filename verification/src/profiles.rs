//! Recently used usernames, newest first.
use vstd::prelude::*;
use crate::text::{eq_ignore_ascii_case, eq_ignore_case, string_of, trim, trim_str};

verus! {

broadcast use vstd::string::group_string_axioms;

/// How many usernames are kept.
pub const MAX_PROFILES: usize = 24;

/// The entries of `v` that are not `name` up to ASCII case.
pub open spec fn others(v: Seq<Seq<char>>, name: Seq<char>) -> Seq<Seq<char>>
    decreases v.len(),
{
    if v.len() == 0 {
        seq![]
    } else if eq_ignore_case(v.last(), name) {
        others(v.drop_last(), name)
    } else {
        others(v.drop_last(), name).push(v.last())
    }
}

/// The list after using `username`: the trimmed name first, without other spellings of
/// it, at most `MAX_PROFILES` long; unchanged for a blank name.
pub open spec fn remembered(v: Seq<Seq<char>>, username: Seq<char>) -> Seq<Seq<char>> {
    let name = trim(username);
    if name.len() == 0 {
        v
    } else {
        let r = seq![name] + others(v, name);
        if r.len() > MAX_PROFILES {
            r.take(MAX_PROFILES as int)
        } else {
            r
        }
    }
}

/// Puts `username` first in the list of recent profiles. Returns whether the list was
/// changed and is to be saved (not for a blank name).
pub fn remember_profile(profiles: &mut Vec<String>, username: &str) -> (saved: bool)
    ensures
        saved == (trim(username@).len() > 0),
        final(profiles)@.map_values(|s: String| s@) == remembered(old(profiles)@.map_values(|s: String| s@), username@),
{
    let name_chars = trim_str(username);
    if name_chars.len() == 0 {
        return false;
    }
    let name = string_of(name_chars.as_slice());
    let ghost old_v = profiles@.map_values(|s: String| s@);
    let mut kept: Vec<String> = Vec::new();
    kept.push(string_of(name_chars.as_slice()));
    let mut i: usize = 0;
    while i < profiles.len()
        invariant
            i <= profiles@.len(),
            old_v == profiles@.map_values(|s: String| s@),
            name@ == trim(username@),
            kept@.map_values(|s: String| s@) == seq![name@] + others(old_v.take(i as int), name@),
        decreases profiles@.len() - i,
    {
        let ghost before = kept@.map_values(|s: String| s@);
        assert(old_v.take(i + 1).drop_last() =~= old_v.take(i as int));
        assert(old_v.take(i + 1).last() == profiles@[i as int]@);
        if !eq_ignore_ascii_case(profiles[i].as_str(), name.as_str()) {
            kept.push(profiles[i].clone());
            assert(kept@.map_values(|s: String| s@) =~= before.push(profiles@[i as int]@));
        }
        i += 1;
    }
    assert(old_v.take(i as int) =~= old_v);
    if kept.len() > MAX_PROFILES {
        kept.truncate(MAX_PROFILES);
        assert(kept@.map_values(|s: String| s@) =~= (seq![name@] + others(old_v, name@)).take(MAX_PROFILES as int));
    }
    *profiles = kept;
    true
}


proof fn lemma_others_free(v: Seq<Seq<char>>, name: Seq<char>)
    ensures
        forall|k: int| 0 <= k < others(v, name).len() ==> !eq_ignore_case(#[trigger] others(v, name)[k], name),
        others(v, name).len() <= v.len(),
    decreases v.len(),
{
    if v.len() > 0 {
        lemma_others_free(v.drop_last(), name);
    }
}

/// After a non-blank name is remembered it comes first, and no other entry is the same
/// name up to ASCII case.
pub proof fn law_remember_front_and_unique(v: Seq<Seq<char>>, username: Seq<char>)
    requires
        trim(username).len() > 0,
    ensures
        remembered(v, username)[0] == trim(username),
        forall|k: int| 1 <= k < remembered(v, username).len() ==> !eq_ignore_case(
            #[trigger] remembered(v, username)[k],
            trim(username),
        ),
        remembered(v, username).len() <= MAX_PROFILES,
{
    let name = trim(username);
    lemma_others_free(v, name);
    let r = seq![name] + others(v, name);
    assert forall|k: int| 1 <= k < r.len() implies !eq_ignore_case(#[trigger] r[k], name) by {
        assert(r[k] == others(v, name)[k - 1]);
    }
}

} // verus!
