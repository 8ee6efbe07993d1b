//! The programs to choose from: the names found under the directories of the
//! search path.

use vstd::prelude::*;
use crate::order::{lemma_sorted_listing_is_unique, same_names, sort_unique, strictly_sorted};
use crate::split::{split, split_on};

verus! {

/// The character that stands between two directories of a search path.
pub const PATH_SEPARATOR: char = ':';

/// `name` stands in one of the listings.
pub open spec fn listed(listings: Seq<Seq<Seq<char>>>, name: Seq<char>) -> bool {
    exists|d: int| 0 <= d < listings.len() && (#[trigger] listings[d]).contains(name)
}

/// The directories that a search path names, in strictly increasing order,
/// each once: a directory that the path names twice is scanned once.
pub fn search_directories(path: &str) -> (directories: Vec<String>)
    ensures
        strictly_sorted(directories.deep_view()),
        directories.deep_view().no_duplicates(),
        same_names(directories.deep_view(), split_on(path@, PATH_SEPARATOR)),
{
    sort_unique(split(path, PATH_SEPARATOR))
}

/// The programs to choose from, given the names found under each directory of
/// the search path: every name that was found, in strictly increasing order,
/// each once, however the listings were ordered.
pub fn get_programs(listings: Vec<Vec<String>>) -> (programs: Vec<String>)
    ensures
        strictly_sorted(programs.deep_view()),
        programs.deep_view().no_duplicates(),
        forall|name: Seq<char>|
            programs.deep_view().contains(name) <==> listed(listings.deep_view(), name),
{
    let ghost all = listings.deep_view();
    let mut rest = listings;
    let mut names: Vec<String> = Vec::new();
    while rest.len() > 0
        invariant
            rest.len() <= all.len(),
            rest.deep_view() =~= all.take(rest.len() as int),
            forall|name: Seq<char>|
                names.deep_view().contains(name) <==> exists|d: int|
                    rest.len() <= d < all.len() && (#[trigger] all[d]).contains(name),
        decreases rest.len(),
    {
        let ghost before = names.deep_view();
        let ghost d = rest.len() - 1;
        let ghost left = rest.deep_view();
        let mut listing = rest.pop().unwrap();
        let ghost added = listing.deep_view();
        assert(added == left[d]);
        names.append(&mut listing);
        proof {
            let after = names.deep_view();
            assert(after =~= before + added);
            assert forall|name: Seq<char>| after.contains(name) <==> exists|e: int|
                d <= e < all.len() && (#[trigger] all[e]).contains(name) by {
                if after.contains(name) {
                    let i = choose|i: int| 0 <= i < after.len() && after[i] == name;
                    if i < before.len() {
                        assert(before[i] == name);
                        assert(before.contains(name));
                    } else {
                        assert(added[i - before.len()] == name);
                        assert(all[d].contains(name));
                    }
                }
                if exists|e: int| d <= e < all.len() && (#[trigger] all[e]).contains(name) {
                    let e = choose|e: int| d <= e < all.len() && (#[trigger] all[e]).contains(name);
                    if e == d {
                        let i = choose|i: int| 0 <= i < added.len() && added[i] == name;
                        assert(after[before.len() + i] == name);
                    } else {
                        assert(before.contains(name));
                        let i = choose|i: int| 0 <= i < before.len() && before[i] == name;
                        assert(after[i] == name);
                    }
                }
            }
        }
    }
    sort_unique(names)
}

/// Discovery is deterministic: what `get_programs` returns depends on
/// nothing but which names the listings hold. Two results for listings that
/// hold the same names, in whatever order and however often, are the same
/// list.
pub proof fn lemma_programs_are_determined(
    first_listings: Seq<Seq<Seq<char>>>,
    first: Seq<Seq<char>>,
    second_listings: Seq<Seq<Seq<char>>>,
    second: Seq<Seq<char>>,
)
    requires
        strictly_sorted(first),
        forall|name: Seq<char>| first.contains(name) <==> listed(first_listings, name),
        strictly_sorted(second),
        forall|name: Seq<char>| second.contains(name) <==> listed(second_listings, name),
        forall|name: Seq<char>| listed(first_listings, name) <==> listed(second_listings, name),
    ensures
        first == second,
{
    lemma_sorted_listing_is_unique(first, second);
}

} // verus!
