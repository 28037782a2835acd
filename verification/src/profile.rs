//! The persisted enrollment snapshot.
//!
//! A profile is one JSON object of five string members. The two counts are
//! decimal numerals, the baseline is a number in decimal notation. The
//! statistics are the text of a JSON object of their own, with one member
//! for each digraph. The diff parameters and the timing of each digraph are
//! carried as the text that stands for them in the file; this module frames
//! them and does not look inside.

use crate::codec::{
    decimal_text, format_count, is_float_literal, is_float_text, parse_count, parsed_count,
};
use crate::digraph::{lemma_ascending_unique, Digraph};
use crate::events::KeystrokeLogger;
use crate::json::{
    distinct_names, json_object_members, json_object_text, members_view, read_object, write_object,
};
use crate::persist::{statistics_members, statistics_of_members, ParseError};
use crate::table::DigraphMap;
use crate::text::same_text;
use vstd::prelude::*;

verus! {

/// An enrollment snapshot, with the values that this crate only carries
/// held as text.
pub struct UserProfile {
    /// The number of events in the enrollment window.
    pub n_profile: u32,
    /// The number of events in each chunk of the window.
    pub n_sample: u32,
    /// The calibrated baseline, as a decimal number.
    pub diff_base: String,
    /// The diff parameters, as the text of a JSON object.
    pub diff_params: String,
    /// For each digraph its timing, as the text of a JSON object.
    pub stats: DigraphMap<String>,
}

/// What a profile holds.
pub struct ProfileView {
    pub n_profile: u32,
    pub n_sample: u32,
    pub diff_base: Seq<char>,
    pub diff_params: Seq<char>,
    pub stats: Map<Digraph, Seq<char>>,
}

impl View for UserProfile {
    type V = ProfileView;

    open spec fn view(&self) -> ProfileView {
        ProfileView {
            n_profile: self.n_profile,
            n_sample: self.n_sample,
            diff_base: self.diff_base@,
            diff_params: self.diff_params@,
            stats: self.stats.texts(),
        }
    }
}

/// The five members of a persisted profile whose statistics are walked as `keys`.
pub open spec fn profile_members(profile: ProfileView, keys: Seq<Digraph>) -> Seq<
    (Seq<char>, Seq<char>),
> {
    seq![
        ("n_profile"@, decimal_text(profile.n_profile as nat)),
        ("n_sample"@, decimal_text(profile.n_sample as nat)),
        ("diff_base"@, profile.diff_base),
        ("diff_params"@, profile.diff_params),
        ("stats"@, json_object_text(statistics_members(keys, profile.stats))),
    ]
}

/// The value of the first member called `name`.
pub open spec fn member_value(members: Seq<(Seq<char>, Seq<char>)>, name: Seq<char>) -> Option<
    Seq<char>,
>
    decreases members.len(),
{
    if members.len() == 0 {
        None
    } else if members[0].0 == name {
        Some(members[0].1)
    } else {
        member_value(members.drop_first(), name)
    }
}

/// The count held by the member called `name`.
pub open spec fn member_count(members: Seq<(Seq<char>, Seq<char>)>, name: Seq<char>) -> Result<
    u32,
    ParseError,
> {
    match member_value(members, name) {
        Some(text) => match parsed_count(text) {
            Some(count) => Ok(count),
            None => Err(ParseError::Number),
        },
        None => Err(ParseError::MissingField),
    }
}

/// The number held, as text, by the member called `name`.
pub open spec fn member_number(members: Seq<(Seq<char>, Seq<char>)>, name: Seq<char>) -> Result<
    Seq<char>,
    ParseError,
> {
    match member_value(members, name) {
        Some(text) => if is_float_literal(text) {
            Ok(text)
        } else {
            Err(ParseError::Number)
        },
        None => Err(ParseError::MissingField),
    }
}

/// The statistics held by the member called `stats`.
pub open spec fn member_statistics(members: Seq<(Seq<char>, Seq<char>)>) -> Result<
    Map<Digraph, Seq<char>>,
    ParseError,
> {
    match member_value(members, "stats"@) {
        Some(text) => match json_object_members(text) {
            Some(inner) => match statistics_of_members(inner) {
                Some(stats) => Ok(stats),
                None => Err(ParseError::DigraphKey),
            },
            None => Err(ParseError::Json),
        },
        None => Err(ParseError::MissingField),
    }
}

/// The profile that `members` stand for, or the first thing wrong with
/// them, taking the members in the order `n_profile`, `n_sample`,
/// `diff_base`, `diff_params`, `stats`.
pub open spec fn profile_of_members(members: Seq<(Seq<char>, Seq<char>)>) -> Result<
    ProfileView,
    ParseError,
> {
    match member_count(members, "n_profile"@) {
        Err(e) => Err(e),
        Ok(n_profile) => match member_count(members, "n_sample"@) {
            Err(e) => Err(e),
            Ok(n_sample) => match member_number(members, "diff_base"@) {
                Err(e) => Err(e),
                Ok(diff_base) => match member_value(members, "diff_params"@) {
                    None => Err(ParseError::MissingField),
                    Some(diff_params) => match member_statistics(members) {
                        Err(e) => Err(e),
                        Ok(stats) => Ok(
                            ProfileView { n_profile, n_sample, diff_base, diff_params, stats },
                        ),
                    },
                },
            },
        },
    }
}

/// The text persisted for a profile.
pub open spec fn profile_text(profile: ProfileView, keys: Seq<Digraph>) -> Seq<char> {
    json_object_text(profile_members(profile, keys))
}

/// The profile persisted as `text`.
pub open spec fn parsed_profile(text: Seq<char>) -> Result<ProfileView, ParseError> {
    match json_object_members(text) {
        Some(members) => profile_of_members(members),
        None => Err(ParseError::Json),
    }
}

/// The value of the first of `members` called `name`.
fn find_member<'a>(members: &'a Vec<(String, String)>, name: &str) -> (found: Option<&'a String>)
    ensures
        match member_value(members_view(members@), name@) {
            Some(text) => found matches Some(value) && value@ == text,
            None => found is None,
        },
{
    let ghost view = members_view(members@);
    let mut i: usize = 0;
    assert(view.skip(0) =~= view);
    while i < members.len()
        invariant
            i <= members@.len(),
            view == members_view(members@),
            member_value(view, name@) == member_value(view.skip(i as int), name@),
        decreases members.len() - i,
    {
        assert(view.skip(i as int)[0] == (members@[i as int].0@, members@[i as int].1@));
        assert(view.skip(i as int).drop_first() =~= view.skip(i + 1));
        if same_text(members[i].0.as_str(), name) {
            return Some(&members[i].1);
        }
        i += 1;
    }
    None
}

/// The count held by the member of `members` called `name`.
fn find_count(members: &Vec<(String, String)>, name: &str) -> (count: Result<u32, ParseError>)
    ensures
        count == member_count(members_view(members@), name@),
{
    match find_member(members, name) {
        Some(text) => match parse_count(text.as_str()) {
            Some(count) => Ok(count),
            None => Err(ParseError::Number),
        },
        None => Err(ParseError::MissingField),
    }
}

/// The five members of `profile`.
pub fn profile_members_of(profile: &UserProfile) -> (members: Vec<(String, String)>)
    ensures
        members_view(members@) == profile_members(profile@, profile.stats.keys()),
        distinct_names(members_view(members@)),
{
    let stats = KeystrokeLogger::serialize_digraph_statistics(&profile.stats);
    let mut members: Vec<(String, String)> = Vec::new();
    members.push(("n_profile".to_owned(), format_count(profile.n_profile)));
    members.push(("n_sample".to_owned(), format_count(profile.n_sample)));
    members.push(("diff_base".to_owned(), profile.diff_base.clone()));
    members.push(("diff_params".to_owned(), profile.diff_params.clone()));
    members.push(("stats".to_owned(), stats));
    proof {
        assert(members_view(members@) =~= profile_members(profile@, profile.stats.keys()));
        lemma_member_names_differ();
    }
    members
}

/// The five member names are five different names.
proof fn lemma_member_names_differ()
    ensures
        "n_profile"@ != "n_sample"@,
        "n_profile"@ != "diff_base"@,
        "n_profile"@ != "diff_params"@,
        "n_profile"@ != "stats"@,
        "n_sample"@ != "diff_base"@,
        "n_sample"@ != "diff_params"@,
        "n_sample"@ != "stats"@,
        "diff_base"@ != "diff_params"@,
        "diff_base"@ != "stats"@,
        "diff_params"@ != "stats"@,
{
    reveal_strlit("n_profile");
    reveal_strlit("n_sample");
    reveal_strlit("diff_base");
    reveal_strlit("diff_params");
    reveal_strlit("stats");
    assert("n_profile"@[0] == 'n' && "diff_base"@[0] == 'd');
    assert("n_sample"@.len() == 8 && "n_profile"@.len() == 9);
    assert("diff_params"@.len() == 11 && "stats"@.len() == 5);
}

/// The profile that `members` stand for.
pub fn profile_from_members(members: &Vec<(String, String)>) -> (read: Result<
    UserProfile,
    ParseError,
>)
    ensures
        match profile_of_members(members_view(members@)) {
            Ok(view) => read matches Ok(profile) && profile@ == view,
            Err(e) => read matches Err(error) && error == e,
        },
{
    let n_profile = match find_count(members, "n_profile") {
        Ok(count) => count,
        Err(e) => {
            return Err(e);
        },
    };
    let n_sample = match find_count(members, "n_sample") {
        Ok(count) => count,
        Err(e) => {
            return Err(e);
        },
    };
    let diff_base = match find_member(members, "diff_base") {
        Some(text) => {
            if !is_float_text(text.as_str()) {
                return Err(ParseError::Number);
            }
            text.clone()
        },
        None => {
            return Err(ParseError::MissingField);
        },
    };
    let diff_params = match find_member(members, "diff_params") {
        Some(text) => text.clone(),
        None => {
            return Err(ParseError::MissingField);
        },
    };
    let stats = match find_member(members, "stats") {
        Some(text) => match KeystrokeLogger::deserialize_digraph_statistics(text.as_str()) {
            Ok(stats) => stats,
            Err(e) => {
                return Err(e);
            },
        },
        None => {
            return Err(ParseError::MissingField);
        },
    };
    Ok(UserProfile { n_profile, n_sample, diff_base, diff_params, stats })
}

impl UserProfile {
    /// A profile with copies of the given texts and statistics.
    pub fn new(
        n_profile: u32,
        n_sample: u32,
        diff_base: &str,
        diff_params: &str,
        stats: &DigraphMap<String>,
    ) -> (profile: UserProfile)
        ensures
            profile@ == (ProfileView {
                n_profile,
                n_sample,
                diff_base: diff_base@,
                diff_params: diff_params@,
                stats: stats.texts(),
            }),
            profile.stats.keys() == stats.keys(),
    {
        let n = stats.len();
        let mut copy: DigraphMap<String> = DigraphMap::new();
        let mut i: usize = 0;
        assert(copy.texts() =~= stats.texts().restrict(stats.keys().take(0).to_set()));
        while i < n
            invariant
                i <= n,
                n == stats.keys().len(),
                stats.keys().to_set() == stats@.dom(),
                copy.texts() == stats.texts().restrict(stats.keys().take(i as int).to_set()),
            decreases n - i,
        {
            let (d, text) = stats.entry_at(i);
            let ghost copied = copy.texts();
            copy.insert(d, text.clone());
            proof {
                broadcast use Seq::lemma_push_to_set_commute;

                assert(stats.keys().take(i + 1) =~= stats.keys().take(i as int).push(d));
                assert(copy.texts() =~= copied.insert(d, stats.texts()[d]));
                assert(copy.texts() =~= stats.texts().restrict(
                    stats.keys().take(i + 1).to_set(),
                ));
            }
            i += 1;
        }
        proof {
            assert(stats.keys().take(n as int) =~= stats.keys());
            assert(copy.texts() =~= stats.texts());
        }
        let m = copy.len();
        proof {
            assert(copy@.dom() =~= stats@.dom()) by {
                assert(copy.texts().dom() =~= copy@.dom());
                assert(stats.texts().dom() =~= stats@.dom());
            }
            lemma_ascending_unique(copy.keys(), stats.keys());
        }
        UserProfile {
            n_profile,
            n_sample,
            diff_base: diff_base.to_owned(),
            diff_params: diff_params.to_owned(),
            stats: copy,
        }
    }

    /// The text that persists this profile.
    pub fn serialize(&self) -> (text: String)
        ensures
            text@ == profile_text(self@, self.stats.keys()),
    {
        let members = profile_members_of(self);
        write_object(&members)
    }

    /// The profile persisted as `serialized`, or what is wrong with the text:
    /// `Json` where it, or its statistics, is no JSON object of strings,
    /// `MissingField` where one of the five members is not there, `Number`
    /// where a count is no numeral or the baseline no number, `DigraphKey`
    /// where a name in the statistics is not a digraph's key.
    pub fn deserialize(serialized: &str) -> (read: Result<UserProfile, ParseError>)
        ensures
            match parsed_profile(serialized@) {
                Ok(view) => read matches Ok(profile) && profile@ == view,
                Err(e) => read matches Err(error) && error == e,
            },
    {
        match read_object(serialized) {
            Ok(members) => profile_from_members(&members),
            Err(_) => Err(ParseError::Json),
        }
    }
}

} // verus!
