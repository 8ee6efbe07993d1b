//! Narrowing the candidates down to those that contain the query.

use vstd::prelude::*;
use crate::text::{
    is_substring, lemma_empty_is_substring, lemma_shorter_is_substring, lowercase_of, str_contains,
    to_lowercase,
};

verus! {

/// A candidate matches a query when the query occurs in it as a run of
/// consecutive characters. Where letter case is ignored, both are compared in
/// their lowercase forms.
pub open spec fn is_match(candidate: Seq<char>, query: Seq<char>, case_insensitive: bool) -> bool {
    if case_insensitive {
        is_substring(lowercase_of(query), lowercase_of(candidate))
    } else {
        is_substring(query, candidate)
    }
}

/// The candidates that match the query, in the order in which they stand
/// among the candidates.
pub open spec fn filtered(
    candidates: Seq<Seq<char>>,
    query: Seq<char>,
    case_insensitive: bool,
) -> Seq<Seq<char>> {
    candidates.filter(|candidate: Seq<char>| is_match(candidate, query, case_insensitive))
}

/// Adding one candidate at the end adds it to the matches exactly when it
/// matches.
pub proof fn lemma_filtered_push(
    candidates: Seq<Seq<char>>,
    last: Seq<char>,
    query: Seq<char>,
    case_insensitive: bool,
)
    ensures
        filtered(candidates.push(last), query, case_insensitive) == if is_match(
            last,
            query,
            case_insensitive,
        ) {
            filtered(candidates, query, case_insensitive).push(last)
        } else {
            filtered(candidates, query, case_insensitive)
        },
{
    reveal(Seq::filter);
    assert(candidates.push(last).drop_last() =~= candidates);
}

/// Where letter case matters, a query without its last character matches at
/// least the candidates that the query matches.
pub proof fn lemma_shorter_query_matches_more(candidates: Seq<Seq<char>>, query: Seq<char>)
    requires
        query.len() > 0,
    ensures
        filtered(candidates, query, false).len() <= filtered(
            candidates,
            query.drop_last(),
            false,
        ).len(),
    decreases candidates.len(),
{
    if candidates.len() == 0 {
        reveal(Seq::filter);
    } else {
        let init = candidates.drop_last();
        let last = candidates.last();
        lemma_shorter_query_matches_more(init, query);
        assert(candidates =~= init.push(last));
        lemma_filtered_push(init, last, query, false);
        lemma_filtered_push(init, last, query.drop_last(), false);
        if is_match(last, query, false) {
            lemma_shorter_is_substring(query, last);
        }
    }
}

/// Ignoring letter case is matching in lowercase: the candidates that match
/// a query when case is ignored are those whose lowercase forms match the
/// lowercase query when it is not, and the two lists of matches differ in the
/// spelling of the matches only.
pub proof fn lemma_case_insensitive_is_lowercase(candidates: Seq<Seq<char>>, query: Seq<char>)
    ensures
        forall|candidate: Seq<char>|
            is_match(candidate, query, true) <==> is_match(
                lowercase_of(candidate),
                lowercase_of(query),
                false,
            ),
        filtered(
            candidates.map_values(|candidate: Seq<char>| lowercase_of(candidate)),
            lowercase_of(query),
            false,
        ) == filtered(candidates, query, true).map_values(
            |candidate: Seq<char>| lowercase_of(candidate),
        ),
    decreases candidates.len(),
{
    let lower = |candidate: Seq<char>| lowercase_of(candidate);
    if candidates.len() == 0 {
        reveal(Seq::filter);
        assert(candidates.map_values(lower) =~= Seq::<Seq<char>>::empty());
        assert(filtered(candidates, query, true).map_values(lower) =~= Seq::<Seq<char>>::empty());
    } else {
        let init = candidates.drop_last();
        let last = candidates.last();
        lemma_case_insensitive_is_lowercase(init, query);
        assert(candidates =~= init.push(last));
        assert(candidates.map_values(lower) =~= init.map_values(lower).push(lowercase_of(last)));
        lemma_filtered_push(init, last, query, true);
        lemma_filtered_push(init.map_values(lower), lowercase_of(last), lowercase_of(query), false);
        if is_match(last, query, true) {
            assert(filtered(init, query, true).push(last).map_values(lower) =~= filtered(
                init,
                query,
                true,
            ).map_values(lower).push(lowercase_of(last)));
        }
    }
}

/// The candidates, in their order, whose key contains the query. The key of
/// a candidate is the entry of `keys` at the candidate's index; a candidate
/// without a key is left out.
pub open spec fn selected(
    candidates: Seq<Seq<char>>,
    keys: Seq<Seq<char>>,
    query: Seq<char>,
) -> Seq<Seq<char>>
    decreases candidates.len(),
{
    if candidates.len() == 0 {
        Seq::empty()
    } else {
        let before = selected(candidates.drop_last(), keys, query);
        let last = candidates.len() - 1;
        if last < keys.len() && is_substring(query, keys[last]) {
            before.push(candidates.last())
        } else {
            before
        }
    }
}

/// Selecting by the candidates themselves, or by their lowercase forms with
/// the query in its own, is filtering.
pub proof fn lemma_selected_is_filtered(
    candidates: Seq<Seq<char>>,
    query: Seq<char>,
    case_insensitive: bool,
)
    ensures
        !case_insensitive ==> selected(candidates, candidates, query) == filtered(
            candidates,
            query,
            false,
        ),
        case_insensitive ==> selected(
            candidates,
            candidates.map_values(|candidate: Seq<char>| lowercase_of(candidate)),
            lowercase_of(query),
        ) == filtered(candidates, query, true),
    decreases candidates.len(),
{
    let lower = |candidate: Seq<char>| lowercase_of(candidate);
    if candidates.len() == 0 {
        reveal(Seq::filter);
    } else {
        let init = candidates.drop_last();
        lemma_selected_is_filtered(init, query, case_insensitive);
        lemma_selected_ignores_further_keys(init, candidates, init, query);
        lemma_selected_ignores_further_keys(
            init,
            candidates.map_values(lower),
            init.map_values(lower),
            lowercase_of(query),
        );
        assert(candidates =~= init.push(candidates.last()));
        lemma_filtered_push(init, candidates.last(), query, case_insensitive);
    }
}

/// Keys beyond the last candidate play no part.
proof fn lemma_selected_ignores_further_keys(
    candidates: Seq<Seq<char>>,
    keys: Seq<Seq<char>>,
    fewer_keys: Seq<Seq<char>>,
    query: Seq<char>,
)
    requires
        fewer_keys.len() <= keys.len(),
        candidates.len() <= fewer_keys.len(),
        forall|i: int| 0 <= i < fewer_keys.len() ==> fewer_keys[i] == keys[i],
    ensures
        selected(candidates, keys, query) == selected(candidates, fewer_keys, query),
    decreases candidates.len(),
{
    if candidates.len() > 0 {
        lemma_selected_ignores_further_keys(candidates.drop_last(), keys, fewer_keys, query);
    }
}

/// With an empty query every candidate that has a key is selected.
pub proof fn lemma_selected_all(candidates: Seq<Seq<char>>, keys: Seq<Seq<char>>, query: Seq<char>)
    requires
        query.len() == 0,
        candidates.len() <= keys.len(),
    ensures
        selected(candidates, keys, query) == candidates,
    decreases candidates.len(),
{
    if candidates.len() > 0 {
        lemma_selected_all(candidates.drop_last(), keys, query);
        lemma_empty_is_substring(query, keys[candidates.len() - 1]);
        assert(candidates.drop_last().push(candidates.last()) =~= candidates);
    }
}

/// The candidates whose key contains `query`, in the order in which they
/// were given. `keys[i]` is the key of `candidates[i]`; a candidate without a
/// key is left out.
pub fn select<'a>(candidates: &'a Vec<String>, keys: &Vec<String>, query: &str) -> (found: Vec<
    &'a String,
>)
    ensures
        found.deep_view() == selected(candidates.deep_view(), keys.deep_view(), query@),
{
    let ghost all = candidates.deep_view();
    let mut found: Vec<&'a String> = Vec::new();
    assert(found.deep_view() =~= selected(all.take(0), keys.deep_view(), query@));
    for i in 0..candidates.len()
        invariant
            all == candidates.deep_view(),
            found.deep_view() == selected(all.take(i as int), keys.deep_view(), query@),
    {
        let candidate = &candidates[i];
        let hit = i < keys.len() && str_contains(keys[i].as_str(), query);
        proof {
            assert(all.take(i as int + 1).drop_last() =~= all.take(i as int));
        }
        let ghost before = found.deep_view();
        if hit {
            found.push(candidate);
            assert(found.deep_view() =~= before.push(all[i as int]));
        }
    }
    assert(all.take(candidates.len() as int) =~= all);
    found
}

/// The lowercase forms of `names`, each at the index of its name.
fn lowercase_all(names: &Vec<String>) -> (lowered: Vec<String>)
    ensures
        lowered.deep_view() == names.deep_view().map_values(
            |name: Seq<char>| lowercase_of(name),
        ),
{
    let mut lowered: Vec<String> = Vec::new();
    for i in 0..names.len()
        invariant
            lowered.deep_view() == names.deep_view().take(i as int).map_values(
                |name: Seq<char>| lowercase_of(name),
            ),
    {
        let ghost before = lowered.deep_view();
        lowered.push(to_lowercase(names[i].as_str()));
        assert(lowered.deep_view() =~= before.push(lowercase_of(names.deep_view()[i as int])));
    }
    assert(names.deep_view().take(names.len() as int) =~= names.deep_view());
    lowered
}

/// The candidates that match `query`, in the order and the spelling in which
/// they were given. An empty query keeps every candidate.
pub fn filter<'a>(candidates: &'a Vec<String>, query: &str, case_insensitive: bool) -> (found: Vec<
    &'a String,
>)
    ensures
        found.deep_view() == filtered(candidates.deep_view(), query@, case_insensitive),
        query@.len() == 0 ==> found.deep_view() == candidates.deep_view(),
{
    proof {
        lemma_selected_is_filtered(candidates.deep_view(), query@, case_insensitive);
    }
    if case_insensitive {
        let lowered_query = to_lowercase(query);
        let keys = lowercase_all(candidates);
        proof {
            if query@.len() == 0 {
                lemma_selected_all(candidates.deep_view(), keys.deep_view(), lowered_query@);
            }
        }
        select(candidates, &keys, lowered_query.as_str())
    } else {
        proof {
            if query@.len() == 0 {
                lemma_selected_all(candidates.deep_view(), candidates.deep_view(), query@);
            }
        }
        select(candidates, candidates, query)
    }
}

} // verus!
