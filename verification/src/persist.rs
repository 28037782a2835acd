//! Digraph statistics as they are persisted: one JSON object with a member
//! for each digraph, named by the digraph's key and holding, as a string,
//! the JSON text of that digraph's timing.

use crate::codec::{
    format_digraph_key, key_text, lemma_key_round_trip, parse_digraph_key, parsed_key,
};
use crate::digraph::Digraph;
use crate::events::KeystrokeLogger;
use crate::json::{
    distinct_names, json_object_members, json_object_text, members_view, read_object, write_object,
};
use crate::table::DigraphMap;
use vstd::prelude::*;

verus! {

/// Why a persisted text could not be read.
#[derive(Clone, Copy, Debug, PartialEq, Eq, Structural)]
pub enum ParseError {
    /// The text is not one JSON object whose values are all strings.
    Json,
    /// A member of the profile is missing.
    MissingField,
    /// A count is not a decimal numeral that fits 32 bits, or the baseline
    /// is not a number.
    Number,
    /// A name in the statistics is not the key of a digraph.
    DigraphKey,
}

/// The member that stands for a digraph.
pub open spec fn member_of(texts: Map<Digraph, Seq<char>>) -> spec_fn(Digraph) -> (
    Seq<char>,
    Seq<char>,
) {
    |d: Digraph| (key_text(d), texts[d])
}

/// The members that stand for the statistics `texts`, walked as `keys`.
pub open spec fn statistics_members(keys: Seq<Digraph>, texts: Map<Digraph, Seq<char>>) -> Seq<
    (Seq<char>, Seq<char>),
> {
    keys.map_values(member_of(texts))
}

/// The statistics that `members` stand for, where every name is the key of
/// a digraph; of two members with one name the later counts.
pub open spec fn statistics_of_members(members: Seq<(Seq<char>, Seq<char>)>) -> Option<
    Map<Digraph, Seq<char>>,
>
    decreases members.len(),
{
    if members.len() == 0 {
        Some(Map::empty())
    } else {
        match (statistics_of_members(members.drop_last()), parsed_key(members.last().0)) {
            (Some(earlier), Some(d)) => Some(earlier.insert(d, members.last().1)),
            _ => None,
        }
    }
}

/// Statistics read back from their own members are the same statistics,
/// provided no digraph begins with `-`. One that does has a key that is cut
/// before its first character, and the members cannot be read at all.
pub proof fn lemma_statistics_round_trip(keys: Seq<Digraph>, texts: Map<Digraph, Seq<char>>)
    requires
        keys.to_set() == texts.dom(),
    ensures
        (forall|i: int| 0 <= i < keys.len() ==> (#[trigger] keys[i]).0 != '-')
            ==> statistics_of_members(statistics_members(keys, texts)) == Some(texts),
        (exists|i: int| 0 <= i < keys.len() && (#[trigger] keys[i]).0 == '-')
            ==> statistics_of_members(statistics_members(keys, texts)) is None,
{
    lemma_members_read_back(keys, texts, keys.len() as int);
    assert(keys.take(keys.len() as int) =~= keys);
    assert(texts.restrict(keys.to_set()) =~= texts);
}

/// The first `n` members read back as the statistics of the first `n` keys.
proof fn lemma_members_read_back(keys: Seq<Digraph>, texts: Map<Digraph, Seq<char>>, n: int)
    requires
        0 <= n <= keys.len(),
        keys.to_set().subset_of(texts.dom()),
    ensures
        (forall|i: int| 0 <= i < n ==> (#[trigger] keys[i]).0 != '-') ==> statistics_of_members(
            statistics_members(keys.take(n), texts),
        ) == Some(texts.restrict(keys.take(n).to_set())),
        (exists|i: int| 0 <= i < n && (#[trigger] keys[i]).0 == '-') ==> statistics_of_members(
            statistics_members(keys.take(n), texts),
        ) is None,
    decreases n,
{
    let members = statistics_members(keys.take(n), texts);
    if n == 0 {
        assert(texts.restrict(keys.take(0).to_set()) =~= Map::<Digraph, Seq<char>>::empty());
    } else {
        let d = keys[n - 1];
        lemma_members_read_back(keys, texts, n - 1);
        lemma_key_round_trip(d);
        assert(keys.take(n).drop_last() =~= keys.take(n - 1));
        assert(members.drop_last() =~= statistics_members(keys.take(n - 1), texts));
        assert(members.last() == (key_text(d), texts[d]));
        assert(keys.to_set().contains(d));
        if forall|i: int| 0 <= i < n ==> (#[trigger] keys[i]).0 != '-' {
            let shorter = keys.take(n - 1);
            let longer = keys.take(n);
            assert(longer =~= shorter.push(d));
            assert(longer.to_set() =~= shorter.to_set().insert(d)) by {
                broadcast use Seq::lemma_push_to_set_commute;

            }
            assert(texts.restrict(longer.to_set()) =~= texts.restrict(shorter.to_set()).insert(
                d,
                texts[d],
            ));
        } else {
            let i = choose|i: int| 0 <= i < n && (#[trigger] keys[i]).0 == '-';
            if i < n - 1 {
                assert(keys[i].0 == '-');
            }
        }
    }
}

/// The members that stand for `stats`, in ascending order of digraph.
pub fn statistics_members_of(stats: &DigraphMap<String>) -> (members: Vec<(String, String)>)
    ensures
        members_view(members@) == statistics_members(stats.keys(), stats.texts()),
        distinct_names(members_view(members@)),
{
    let n = stats.len();
    let ghost keys = stats.keys();
    let ghost texts = stats.texts();
    let mut members: Vec<(String, String)> = Vec::new();
    let mut i: usize = 0;
    assert(members_view(members@) =~= statistics_members(keys.take(0), texts));
    while i < n
        invariant
            i <= n,
            n == keys.len(),
            keys == stats.keys(),
            texts == stats.texts(),
            keys.no_duplicates(),
            members_view(members@) == statistics_members(keys.take(i as int), texts),
        decreases n - i,
    {
        let (d, text) = stats.entry_at(i);
        let ghost written = members@;
        members.push((format_digraph_key(d), text.clone()));
        proof {
            assert(keys.take(i + 1) =~= keys.take(i as int).push(d));
            assert(members_view(members@) =~= members_view(written).push((key_text(d), texts[d])));
            assert(statistics_members(keys.take(i + 1), texts) =~= statistics_members(
                keys.take(i as int),
                texts,
            ).push((key_text(d), texts[d])));
        }
        i += 1;
    }
    proof {
        assert(keys.take(n as int) =~= keys);
        let view = members_view(members@);
        assert forall|a: int, b: int| 0 <= a < b < view.len() implies (#[trigger] view[a]).0 != (
        #[trigger] view[b]).0 by {
            assert(view[a].0 == key_text(keys[a]));
            assert(view[b].0 == key_text(keys[b]));
            assert(keys[a] != keys[b]);
            assert(key_text(keys[a])[0] == keys[a].0 && key_text(keys[a])[2] == keys[a].1);
            assert(key_text(keys[b])[0] == keys[b].0 && key_text(keys[b])[2] == keys[b].1);
        }
    }
    members
}

/// The statistics that `members` stand for, or `DigraphKey` where a name
/// is not the key of a digraph.
pub fn statistics_from_members(members: &Vec<(String, String)>) -> (read: Result<
    DigraphMap<String>,
    ParseError,
>)
    ensures
        match statistics_of_members(members_view(members@)) {
            Some(texts) => read matches Ok(stats) && stats.texts() == texts,
            None => read == Err::<DigraphMap<String>, ParseError>(ParseError::DigraphKey),
        },
{
    let ghost view = members_view(members@);
    let mut stats: DigraphMap<String> = DigraphMap::new();
    let mut i: usize = 0;
    assert(view.take(0) =~= Seq::<(Seq<char>, Seq<char>)>::empty());
    assert(stats.texts() =~= Map::<Digraph, Seq<char>>::empty());
    while i < members.len()
        invariant
            i <= members@.len(),
            view == members_view(members@),
            statistics_of_members(view.take(i as int)) == Some(stats.texts()),
        decreases members.len() - i,
    {
        let ghost earlier = stats.texts();
        assert(view.take(i + 1).drop_last() =~= view.take(i as int));
        assert(view.take(i + 1).last() == (members@[i as int].0@, members@[i as int].1@));
        match parse_digraph_key(members[i].0.as_str()) {
            Some(d) => {
                stats.insert(d, members[i].1.clone());
                assert(stats.texts() =~= earlier.insert(d, members@[i as int].1@));
            },
            None => {
                proof {
                    lemma_unreadable_stays_unreadable(view, i + 1);
                }
                return Err(ParseError::DigraphKey);
            },
        }
        i += 1;
    }
    assert(view.take(members@.len() as int) =~= view);
    Ok(stats)
}

/// Members that cannot be read cannot be read with more members after them.
proof fn lemma_unreadable_stays_unreadable(members: Seq<(Seq<char>, Seq<char>)>, n: int)
    requires
        0 <= n <= members.len(),
        statistics_of_members(members.take(n)) is None,
    ensures
        statistics_of_members(members) is None,
    decreases members.len() - n,
{
    if n == members.len() {
        assert(members.take(n) =~= members);
    } else {
        assert(members.drop_last().take(n) =~= members.take(n));
        lemma_unreadable_stays_unreadable(members.drop_last(), n);
    }
}

impl KeystrokeLogger {
    /// The persisted text of `stats`, each value of which is the JSON text
    /// of one digraph's timing.
    pub fn serialize_digraph_statistics(stats: &DigraphMap<String>) -> (text: String)
        ensures
            text@ == json_object_text(statistics_members(stats.keys(), stats.texts())),
    {
        let members = statistics_members_of(stats);
        write_object(&members)
    }

    /// The statistics persisted as `serialized`: `Json` where the text is no
    /// JSON object of strings, `DigraphKey` where a name is not a digraph's key.
    pub fn deserialize_digraph_statistics(serialized: &str) -> (read: Result<
        DigraphMap<String>,
        ParseError,
    >)
        ensures
            match json_object_members(serialized@) {
                Some(members) => match statistics_of_members(members) {
                    Some(texts) => read matches Ok(stats) && stats.texts() == texts,
                    None => read == Err::<DigraphMap<String>, ParseError>(ParseError::DigraphKey),
                },
                None => read == Err::<DigraphMap<String>, ParseError>(ParseError::Json),
            },
    {
        match read_object(serialized) {
            Ok(members) => statistics_from_members(&members),
            Err(_) => Err(ParseError::Json),
        }
    }
}

} // verus!
