//! The order in which names are listed, and lists that are sorted by it
//! without repetition.

use vstd::prelude::*;
use vstd::std_specs::iter::IteratorSpec;

verus! {

/// `a` and `b` agree on their first `k` characters and part ways there in
/// favour of `a`: either `a` ends at `k` and `b` goes on, or the character of
/// `a` at `k` has the smaller code point.
pub open spec fn precedes_at(a: Seq<char>, b: Seq<char>, k: int) -> bool {
    &&& 0 <= k <= a.len()
    &&& k < b.len()
    &&& a.take(k) == b.take(k)
    &&& k < a.len() ==> a[k] < b[k]
}

/// `a` comes before `b` in lexicographic order, characters compared by code
/// point.
pub open spec fn lex_lt(a: Seq<char>, b: Seq<char>) -> bool {
    exists|k: int| precedes_at(a, b, k)
}

/// How one string stands to another in lexicographic order.
#[derive(Debug, Clone, Copy, PartialEq, Eq)]
pub enum Rank {
    Before,
    Same,
    After,
}

/// Where two strings agree up to `k`, no parting of ways lies before `k`.
proof fn lemma_no_parting_before(a: Seq<char>, b: Seq<char>, k: int, j: int)
    requires
        0 <= k <= a.len(),
        k <= b.len(),
        a.take(k) == b.take(k),
        0 <= j < k,
    ensures
        !precedes_at(a, b, j),
{
    assert(a.take(k)[j] == a[j]);
    assert(b.take(k)[j] == b[j]);
}

/// Where two strings differ at `k`, no parting of ways lies behind `k`.
proof fn lemma_no_parting_behind(a: Seq<char>, b: Seq<char>, k: int, j: int)
    requires
        0 <= k < a.len(),
        k < b.len(),
        a[k] != b[k],
        k < j,
    ensures
        !precedes_at(a, b, j),
{
    if 0 <= j <= a.len() && j < b.len() && a.take(j) == b.take(j) {
        assert(a.take(j)[k] == a[k]);
        assert(b.take(j)[k] == b[k]);
    }
}

/// Compares two strings in lexicographic order, character by character.
pub fn lex_order(a: &str, b: &str) -> (rank: Rank)
    ensures
        rank == Rank::Before <==> lex_lt(a@, b@),
        rank == Rank::Same <==> a@ == b@,
        rank == Rank::After <==> lex_lt(b@, a@),
{
    broadcast use vstd::string::group_string_axioms;

    let mut rest_a = a.chars();
    let mut rest_b = b.chars();
    let ghost mut k: int = 0;
    loop
        invariant
            0 <= k <= a@.len(),
            k <= b@.len(),
            rest_a.remaining() == a@.skip(k),
            rest_b.remaining() == b@.skip(k),
            a@.take(k) == b@.take(k),
        decreases a@.len() - k,
    {
        let next_a = rest_a.next();
        let next_b = rest_b.next();
        proof {
            assert forall|j: int| 0 <= j < k implies !precedes_at(a@, b@, j) && !precedes_at(
                b@,
                a@,
                j,
            ) by {
                lemma_no_parting_before(a@, b@, k, j);
                lemma_no_parting_before(b@, a@, k, j);
            }
        }
        match (next_a, next_b) {
            (None, None) => {
                proof {
                    assert(a@ =~= a@.take(k));
                    assert(b@ =~= b@.take(k));
                }
                return Rank::Same;
            },
            (None, Some(_)) => {
                proof {
                    assert(precedes_at(a@, b@, k));
                }
                return Rank::Before;
            },
            (Some(_), None) => {
                proof {
                    assert(precedes_at(b@, a@, k));
                }
                return Rank::After;
            },
            (Some(x), Some(y)) => {
                proof {
                    assert(x == a@[k]);
                    assert(y == b@[k]);
                }
                if x < y {
                    proof {
                        assert(precedes_at(a@, b@, k));
                        assert forall|j: int| !precedes_at(b@, a@, j) by {
                            if j > k {
                                lemma_no_parting_behind(b@, a@, k, j);
                            }
                        }
                    }
                    return Rank::Before;
                } else if y < x {
                    proof {
                        assert(precedes_at(b@, a@, k));
                        assert forall|j: int| !precedes_at(a@, b@, j) by {
                            if j > k {
                                lemma_no_parting_behind(a@, b@, k, j);
                            }
                        }
                    }
                    return Rank::After;
                } else {
                    proof {
                        assert(a@.take(k + 1) =~= a@.take(k).push(a@[k]));
                        assert(b@.take(k + 1) =~= b@.take(k).push(b@[k]));
                        assert(a@.skip(k).drop_first() =~= a@.skip(k + 1));
                        assert(b@.skip(k).drop_first() =~= b@.skip(k + 1));
                        k = k + 1;
                    }
                }
            },
        }
    }
}


/// No string comes before itself.
pub proof fn lemma_lex_irreflexive(a: Seq<char>)
    ensures
        !lex_lt(a, a),
{
}

/// The order is transitive.
pub proof fn lemma_lex_transitive(a: Seq<char>, b: Seq<char>, c: Seq<char>)
    requires
        lex_lt(a, b),
        lex_lt(b, c),
    ensures
        lex_lt(a, c),
{
    let k1 = choose|k: int| precedes_at(a, b, k);
    let k2 = choose|k: int| precedes_at(b, c, k);
    let k = if k1 <= k2 { k1 } else { k2 };
    assert(a.take(k) =~= c.take(k)) by {
        assert forall|i: int| 0 <= i < k implies a.take(k)[i] == c.take(k)[i] by {
            assert(a.take(k1)[i] == a[i]);
            assert(b.take(k1)[i] == b[i]);
            assert(b.take(k2)[i] == b[i]);
            assert(c.take(k2)[i] == c[i]);
        }
    }
    if k < a.len() {
        if k1 < k2 {
            assert(b.take(k2)[k1] == b[k1]);
            assert(c.take(k2)[k1] == c[k1]);
        } else if k2 < k1 {
            assert(a.take(k1)[k2] == a[k2]);
            assert(b.take(k1)[k2] == b[k2]);
        }
    }
    assert(precedes_at(a, c, k));
}

/// The names stand in strictly increasing order: each comes before all that
/// follow it.
pub open spec fn strictly_sorted(names: Seq<Seq<char>>) -> bool {
    forall|i: int, j: int| 0 <= i < j < names.len() ==> lex_lt(names[i], names[j])
}

/// The names stand in strictly decreasing order.
pub open spec fn strictly_descending(names: Seq<Seq<char>>) -> bool {
    forall|i: int, j: int| 0 <= i < j < names.len() ==> lex_lt(names[j], names[i])
}

/// Two lists hold the same names, whatever their order and however often.
pub open spec fn same_names(a: Seq<Seq<char>>, b: Seq<Seq<char>>) -> bool {
    forall|name: Seq<char>| a.contains(name) <==> b.contains(name)
}

/// A list in strictly increasing order holds no name twice.
pub proof fn lemma_sorted_has_no_duplicates(names: Seq<Seq<char>>)
    requires
        strictly_sorted(names),
    ensures
        names.no_duplicates(),
{
    assert forall|i: int, j: int|
        0 <= i < names.len() && 0 <= j < names.len() && i != j implies names[i] != names[j] by {
        lemma_lex_irreflexive(names[i]);
        if i < j {
            assert(lex_lt(names[i], names[j]));
        } else {
            assert(lex_lt(names[j], names[i]));
        }
    }
}

/// A set of names has one sorted listing only: two lists in strictly
/// increasing order that hold the same names are the same list.
pub proof fn lemma_sorted_listing_is_unique(a: Seq<Seq<char>>, b: Seq<Seq<char>>)
    requires
        strictly_sorted(a),
        strictly_sorted(b),
        same_names(a, b),
    ensures
        a == b,
    decreases a.len(),
{
    if a.len() == 0 {
        if b.len() > 0 {
            assert(b.contains(b[0]));
            assert(a.contains(b[0]));
        }
        assert(a =~= b);
    } else {
        assert(a.contains(a[0]));
        assert(b.contains(a[0]));
        let j = choose|j: int| 0 <= j < b.len() && b[j] == a[0];
        assert(b.contains(b[0]));
        assert(a.contains(b[0]));
        let i = choose|i: int| 0 <= i < a.len() && a[i] == b[0];
        if i > 0 {
            assert(lex_lt(a[0], a[i]));
            if j > 0 {
                assert(lex_lt(b[0], b[j]));
                lemma_lex_transitive(a[0], b[0], a[0]);
            }
            lemma_lex_irreflexive(a[0]);
        }
        assert(a[0] == b[0]);
        let a_rest = a.drop_first();
        let b_rest = b.drop_first();
        assert forall|name: Seq<char>| a_rest.contains(name) <==> b_rest.contains(name) by {
            lemma_lex_irreflexive(a[0]);
            if a_rest.contains(name) {
                let m = choose|m: int| 0 <= m < a_rest.len() && a_rest[m] == name;
                assert(a[m + 1] == name);
                assert(lex_lt(a[0], a[m + 1]));
                assert(a.contains(name));
                assert(b.contains(name));
                let n = choose|n: int| 0 <= n < b.len() && b[n] == name;
                assert(n > 0);
                assert(b_rest[n - 1] == name);
            }
            if b_rest.contains(name) {
                let m = choose|m: int| 0 <= m < b_rest.len() && b_rest[m] == name;
                assert(b[m + 1] == name);
                assert(lex_lt(b[0], b[m + 1]));
                assert(b.contains(name));
                assert(a.contains(name));
                let n = choose|n: int| 0 <= n < a.len() && a[n] == name;
                assert(n > 0);
                assert(a_rest[n - 1] == name);
            }
        }
        assert(strictly_sorted(a_rest)) by {
            assert forall|p: int, q: int| 0 <= p < q < a_rest.len() implies lex_lt(
                a_rest[p],
                a_rest[q],
            ) by {
                assert(lex_lt(a[p + 1], a[q + 1]));
            }
        }
        assert(strictly_sorted(b_rest)) by {
            assert forall|p: int, q: int| 0 <= p < q < b_rest.len() implies lex_lt(
                b_rest[p],
                b_rest[q],
            ) by {
                assert(lex_lt(b[p + 1], b[q + 1]));
            }
        }
        lemma_sorted_listing_is_unique(a_rest, b_rest);
        assert(a =~= seq![a[0]] + a_rest);
        assert(b =~= seq![b[0]] + b_rest);
    }
}

/// The names of `names` in the opposite order.
fn reversed(names: Vec<String>) -> (out: Vec<String>)
    ensures
        out.deep_view().len() == names.deep_view().len(),
        forall|i: int|
            0 <= i < out.deep_view().len() ==> out.deep_view()[i] == names.deep_view()[
                names.deep_view().len() - 1 - i
            ],
{
    let ghost all = names.deep_view();
    let mut rest = names;
    let mut out: Vec<String> = Vec::new();
    while rest.len() > 0
        invariant
            rest.deep_view() =~= all.take(rest.len() as int),
            rest.len() <= all.len(),
            out.deep_view().len() == all.len() - rest.len(),
            forall|i: int|
                0 <= i < out.deep_view().len() ==> out.deep_view()[i] == all[all.len() - 1 - i],
        decreases rest.len(),
    {
        let ghost before = rest.deep_view();
        let ghost done = out.deep_view();
        let name = rest.pop().unwrap();
        assert(name@ == before[before.len() - 1]);
        out.push(name);
        assert(out.deep_view() =~= done.push(name@));
    }
    out
}

/// Merges two lists that are in strictly increasing order into one such list
/// that holds the names of both; a name that both hold is kept once.
fn merge_unique(left: Vec<String>, right: Vec<String>) -> (out: Vec<String>)
    requires
        strictly_sorted(left.deep_view()),
        strictly_sorted(right.deep_view()),
    ensures
        strictly_sorted(out.deep_view()),
        forall|name: Seq<char>|
            out.deep_view().contains(name) <==> left.deep_view().contains(name)
                || right.deep_view().contains(name),
{
    let ghost all_left = left.deep_view();
    let ghost all_right = right.deep_view();
    let mut left = left;
    let mut right = right;
    // The names are taken from the back, the greatest first.
    let mut taken: Vec<String> = Vec::new();
    while left.len() > 0 || right.len() > 0
        invariant
            strictly_sorted(all_left),
            strictly_sorted(all_right),
            left.len() <= all_left.len(),
            right.len() <= all_right.len(),
            left.deep_view() =~= all_left.take(left.len() as int),
            right.deep_view() =~= all_right.take(right.len() as int),
            strictly_descending(taken.deep_view()),
            forall|i: int, j: int|
                0 <= i < left.len() && 0 <= j < taken.len() ==> lex_lt(
                    #[trigger] all_left[i],
                    #[trigger] taken.deep_view()[j],
                ),
            forall|i: int, j: int|
                0 <= i < right.len() && 0 <= j < taken.len() ==> lex_lt(
                    #[trigger] all_right[i],
                    #[trigger] taken.deep_view()[j],
                ),
            forall|j: int|
                0 <= j < taken.len() ==> all_left.contains(#[trigger] taken.deep_view()[j])
                    || all_right.contains(taken.deep_view()[j]),
            forall|i: int|
                left.len() <= i < all_left.len() ==> taken.deep_view().contains(
                    #[trigger] all_left[i],
                ),
            forall|i: int|
                right.len() <= i < all_right.len() ==> taken.deep_view().contains(
                    #[trigger] all_right[i],
                ),
        decreases left.len() + right.len(),
    {
        let ghost done = taken.deep_view();
        let ghost l = left.len() as int;
        let ghost r = right.len() as int;
        let rank = if right.len() == 0 {
            Rank::After
        } else if left.len() == 0 {
            Rank::Before
        } else {
            lex_order(left[left.len() - 1].as_str(), right[right.len() - 1].as_str())
        };
        proof {
            if l > 0 {
                assert(left.deep_view()[l - 1] == all_left[l - 1]);
            }
            if r > 0 {
                assert(right.deep_view()[r - 1] == all_right[r - 1]);
            }
        }
        match rank {
            Rank::After => {
                let name = left.pop().unwrap();
                taken.push(name);
                proof {
                    assert(name@ == all_left[l - 1]);
                    assert(taken.deep_view() =~= done.push(all_left[l - 1]));
                    lemma_taken_grows(all_left, all_right, l - 1, r, done, all_left[l - 1]);
                    lemma_still_taken(all_left, l, l - 1, done, all_left[l - 1]);
                    lemma_still_taken(all_right, r, r, done, all_left[l - 1]);
                    assert forall|j: int| 0 <= j < taken.len() implies all_left.contains(
                        #[trigger] taken.deep_view()[j],
                    ) || all_right.contains(taken.deep_view()[j]) by {
                        if j == done.len() {
                            assert(all_left.contains(all_left[l - 1]));
                        } else {
                            assert(taken.deep_view()[j] == done[j]);
                        }
                    }
                }
            },
            Rank::Before => {
                let name = right.pop().unwrap();
                taken.push(name);
                proof {
                    assert(name@ == all_right[r - 1]);
                    assert(taken.deep_view() =~= done.push(all_right[r - 1]));
                    lemma_taken_grows(all_right, all_left, r - 1, l, done, all_right[r - 1]);
                    lemma_still_taken(all_left, l, l, done, all_right[r - 1]);
                    lemma_still_taken(all_right, r, r - 1, done, all_right[r - 1]);
                    assert forall|j: int| 0 <= j < taken.len() implies all_left.contains(
                        #[trigger] taken.deep_view()[j],
                    ) || all_right.contains(taken.deep_view()[j]) by {
                        if j == done.len() {
                            assert(all_right.contains(all_right[r - 1]));
                        } else {
                            assert(taken.deep_view()[j] == done[j]);
                        }
                    }
                }
            },
            Rank::Same => {
                let _ = left.pop();
                let name = right.pop().unwrap();
                taken.push(name);
                proof {
                    assert(name@ == all_right[r - 1]);
                    assert(all_left[l - 1] == all_right[r - 1]);
                    assert(taken.deep_view() =~= done.push(all_right[r - 1]));
                    lemma_taken_grows(all_right, all_left, r - 1, l - 1, done, all_right[r - 1]);
                    lemma_still_taken(all_left, l, l - 1, done, all_right[r - 1]);
                    lemma_still_taken(all_right, r, r - 1, done, all_right[r - 1]);
                    assert forall|j: int| 0 <= j < taken.len() implies all_left.contains(
                        #[trigger] taken.deep_view()[j],
                    ) || all_right.contains(taken.deep_view()[j]) by {
                        if j == done.len() {
                            assert(all_right.contains(all_right[r - 1]));
                        } else {
                            assert(taken.deep_view()[j] == done[j]);
                        }
                    }
                }
            },
        }
    }
    let ghost taken_all = taken.deep_view();
    let out = reversed(taken);
    proof {
        let result = out.deep_view();
        assert forall|i: int, j: int| 0 <= i < j < result.len() implies lex_lt(
            result[i],
            result[j],
        ) by {
            assert(lex_lt(taken_all[result.len() - 1 - i], taken_all[result.len() - 1 - j]));
        }
        assert forall|name: Seq<char>|
            result.contains(name) <==> all_left.contains(name) || all_right.contains(name) by {
            if result.contains(name) {
                let i = choose|i: int| 0 <= i < result.len() && result[i] == name;
                assert(taken_all[result.len() - 1 - i] == name);
            }
            if all_left.contains(name) {
                let i = choose|i: int| 0 <= i < all_left.len() && all_left[i] == name;
                assert(taken_all.contains(all_left[i]));
                let j = choose|j: int| 0 <= j < taken_all.len() && taken_all[j] == name;
                assert(result[result.len() - 1 - j] == name);
            }
            if all_right.contains(name) {
                let i = choose|i: int| 0 <= i < all_right.len() && all_right[i] == name;
                assert(taken_all.contains(all_right[i]));
                let j = choose|j: int| 0 <= j < taken_all.len() && taken_all[j] == name;
                assert(result[result.len() - 1 - j] == name);
            }
        }
    }
    out
}

/// The names of `all` from `old_len` on have been taken already, and those
/// from `new_len` up to there are `name`: once `name` is taken too, all from
/// `new_len` on have been taken.
proof fn lemma_still_taken(
    all: Seq<Seq<char>>,
    old_len: int,
    new_len: int,
    done: Seq<Seq<char>>,
    name: Seq<char>,
)
    requires
        0 <= new_len <= old_len <= all.len(),
        forall|i: int| old_len <= i < all.len() ==> done.contains(#[trigger] all[i]),
        forall|i: int| new_len <= i < old_len ==> #[trigger] all[i] == name,
    ensures
        forall|i: int| new_len <= i < all.len() ==> done.push(name).contains(#[trigger] all[i]),
{
    let grown = done.push(name);
    assert forall|i: int| new_len <= i < all.len() implies grown.contains(#[trigger] all[i]) by {
        if i < old_len {
            assert(grown[done.len() as int] == all[i]);
        } else {
            let j = choose|j: int| 0 <= j < done.len() && done[j] == all[i];
            assert(grown[j] == all[i]);
        }
    }
}

/// One step of the merge: `name`, the last of the first `from_len + 1` names
/// of `from`, joins the names taken so far. It is no smaller than any of the
/// first `other_len` names of `other` that are left, so the names taken stay
/// in strictly decreasing order and above all that are left.
proof fn lemma_taken_grows(
    from: Seq<Seq<char>>,
    other: Seq<Seq<char>>,
    from_len: int,
    other_len: int,
    done: Seq<Seq<char>>,
    name: Seq<char>,
)
    requires
        strictly_sorted(from),
        strictly_sorted(other),
        0 <= from_len < from.len(),
        0 <= other_len <= other.len(),
        name == from[from_len],
        strictly_descending(done),
        forall|j: int| 0 <= j < done.len() ==> lex_lt(name, #[trigger] done[j]),
        forall|i: int, j: int|
            0 <= i < other_len && 0 <= j < done.len() ==> lex_lt(
                #[trigger] other[i],
                #[trigger] done[j],
            ),
        forall|i: int, j: int|
            0 <= i < from_len && 0 <= j < done.len() ==> lex_lt(
                #[trigger] from[i],
                #[trigger] done[j],
            ),
        other_len > 0 ==> lex_lt(other[other_len - 1], name),
    ensures
        strictly_descending(done.push(name)),
        forall|i: int, j: int|
            0 <= i < from_len && 0 <= j < done.push(name).len() ==> lex_lt(
                #[trigger] from[i],
                #[trigger] done.push(name)[j],
            ),
        forall|i: int, j: int|
            0 <= i < other_len && 0 <= j < done.push(name).len() ==> lex_lt(
                #[trigger] other[i],
                #[trigger] done.push(name)[j],
            ),
{
    let grown = done.push(name);
    assert forall|i: int, j: int| 0 <= i < j < grown.len() implies lex_lt(grown[j], grown[i]) by {
        if j == done.len() {
            assert(grown[i] == done[i]);
        } else {
            assert(lex_lt(done[j], done[i]));
        }
    }
    assert forall|i: int, j: int| 0 <= i < from_len && 0 <= j < grown.len() implies lex_lt(
        #[trigger] from[i],
        #[trigger] grown[j],
    ) by {
        if j == done.len() {
            assert(lex_lt(from[i], from[from_len]));
        } else {
            assert(grown[j] == done[j]);
        }
    }
    assert forall|i: int, j: int| 0 <= i < other_len && 0 <= j < grown.len() implies lex_lt(
        #[trigger] other[i],
        #[trigger] grown[j],
    ) by {
        if j == done.len() {
            if i < other_len - 1 {
                assert(lex_lt(other[i], other[other_len - 1]));
                lemma_lex_transitive(other[i], other[other_len - 1], name);
            }
        } else {
            assert(grown[j] == done[j]);
        }
    }
}


/// The names of `names` in strictly increasing order, each once.
pub fn sort_unique(names: Vec<String>) -> (out: Vec<String>)
    ensures
        strictly_sorted(out.deep_view()),
        out.deep_view().no_duplicates(),
        same_names(out.deep_view(), names.deep_view()),
    decreases names.len(),
{
    let ghost all = names.deep_view();
    let mut left = names;
    if left.len() <= 1 {
        proof {
            lemma_sorted_has_no_duplicates(all);
        }
        return left;
    }
    let mid = left.len() / 2;
    let right = left.split_off(mid);
    let ghost lower = left.deep_view();
    let ghost upper = right.deep_view();
    proof {
        assert(lower =~= all.subrange(0, mid as int));
        assert(upper =~= all.subrange(mid as int, all.len() as int));
    }
    let left = sort_unique(left);
    let right = sort_unique(right);
    let out = merge_unique(left, right);
    proof {
        lemma_sorted_has_no_duplicates(out.deep_view());
        assert forall|name: Seq<char>| out.deep_view().contains(name) <==> all.contains(name) by {
            if lower.contains(name) {
                let i = choose|i: int| 0 <= i < lower.len() && lower[i] == name;
                assert(all[i] == name);
            }
            if upper.contains(name) {
                let i = choose|i: int| 0 <= i < upper.len() && upper[i] == name;
                assert(all[mid + i] == name);
            }
            if all.contains(name) {
                let i = choose|i: int| 0 <= i < all.len() && all[i] == name;
                if i < mid {
                    assert(lower[i] == name);
                } else {
                    assert(upper[i - mid] == name);
                }
            }
        }
    }
    out
}

} // verus!
