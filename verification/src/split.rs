//! Cutting a text into pieces at a separator, into lines and into words.

use vstd::prelude::*;
use crate::text::{pop_char, push_char};

verus! {

/// The pieces into which `s` falls when it is cut at every character of which
/// `cut` holds, in order and without those characters. There is one piece
/// more than there are such characters; a piece is empty where two of them
/// meet and where `s` starts or ends with one.
pub open spec fn split_where(s: Seq<char>, cut: spec_fn(char) -> bool) -> Seq<Seq<char>>
    decreases s.len(),
{
    if s.len() == 0 {
        seq![Seq::empty()]
    } else {
        let before = split_where(s.drop_last(), cut);
        if cut(s.last()) {
            before.push(Seq::empty())
        } else {
            before.drop_last().push(before.last().push(s.last()))
        }
    }
}

/// What holds of the character `sep` and of no other.
pub open spec fn is_char(sep: char) -> spec_fn(char) -> bool {
    |c: char| c == sep
}

/// The pieces into which the occurrences of `sep` cut `s`, in order.
pub open spec fn split_on(s: Seq<char>, sep: char) -> Seq<Seq<char>> {
    split_where(s, is_char(sep))
}

/// The pieces put together again, with `sep` between each two.
pub open spec fn join(pieces: Seq<Seq<char>>, sep: char) -> Seq<char>
    decreases pieces.len(),
{
    if pieces.len() == 0 {
        Seq::empty()
    } else if pieces.len() == 1 {
        pieces[0]
    } else {
        join(pieces.drop_last(), sep).push(sep) + pieces.last()
    }
}

/// What one more character does to the pieces.
pub proof fn lemma_split_push(s: Seq<char>, c: char, cut: spec_fn(char) -> bool)
    ensures
        split_where(s, cut).len() >= 1,
        split_where(s.push(c), cut) == if cut(c) {
            split_where(s, cut).push(Seq::empty())
        } else {
            split_where(s, cut).drop_last().push(split_where(s, cut).last().push(c))
        },
    decreases s.len(),
{
    if s.len() > 0 {
        lemma_split_push(s.drop_last(), s.last(), cut);
        assert(s.drop_last().push(s.last()) =~= s);
    }
    assert(s.push(c).drop_last() =~= s);
}

/// Cutting at a separator loses nothing: there is always a piece, no piece
/// holds the separator, and the pieces joined by the separator are the text
/// again.
pub proof fn lemma_split_then_join(s: Seq<char>, sep: char)
    ensures
        split_on(s, sep).len() >= 1,
        forall|i: int|
            0 <= i < split_on(s, sep).len() ==> !(#[trigger] split_on(s, sep)[i]).contains(sep),
        join(split_on(s, sep), sep) == s,
    decreases s.len(),
{
    let pieces = split_on(s, sep);
    if s.len() == 0 {
        assert(join(pieces, sep) =~= s);
    } else {
        let shorter = s.drop_last();
        let before = split_on(shorter, sep);
        lemma_split_then_join(shorter, sep);
        assert(shorter.push(s.last()) =~= s);
        if s.last() == sep {
            assert(pieces.drop_last() =~= before);
            assert(join(pieces, sep) =~= s);
        } else {
            let grown = before.last().push(s.last());
            assert forall|i: int| 0 <= i < pieces.len() implies !(#[trigger] pieces[i]).contains(
                sep,
            ) by {
                if i == pieces.len() - 1 {
                    if grown.contains(sep) {
                        let j = choose|j: int| 0 <= j < grown.len() && grown[j] == sep;
                        assert(before.last()[j] == sep);
                        assert(before[before.len() - 1].contains(sep));
                    }
                } else {
                    assert(pieces[i] == before[i]);
                }
            }
            assert(pieces.drop_last() =~= before.drop_last());
            assert(join(pieces, sep) =~= s);
        }
    }
}

/// Cuts `s` at every occurrence of `sep`. There is always a piece, no piece
/// holds the separator, and the pieces joined by the separator are `s` again.
pub fn split(s: &str, sep: char) -> (pieces: Vec<String>)
    ensures
        pieces.deep_view() == split_on(s@, sep),
        pieces.len() >= 1,
        forall|i: int| 0 <= i < pieces.len() ==> !(#[trigger] pieces.deep_view()[i]).contains(sep),
        join(pieces.deep_view(), sep) == s@,
{
    broadcast use vstd::string::group_string_axioms;

    let mut pieces: Vec<String> = Vec::new();
    let mut current = String::new();
    assert(pieces.deep_view().push(current@) =~= split_on(s@.take(0), sep));
    for c in it: s.chars()
        invariant
            it.seq() == s@,
            pieces.deep_view().push(current@) == split_on(s@.take(it.index()), sep),
    {
        let ghost done = pieces.deep_view();
        let ghost open = current@;
        proof {
            lemma_split_push(s@.take(it.index()), c, is_char(sep));
            assert(s@.take(it.index() + 1) =~= s@.take(it.index()).push(c));
            assert(done.push(open).drop_last() =~= done);
        }
        if c == sep {
            pieces.push(current);
            current = String::new();
            assert(pieces.deep_view() =~= done.push(open));
        } else {
            push_char(&mut current, c);
        }
    }
    proof {
        assert(s@.take(s@.len() as int) =~= s@);
    }
    let ghost done = pieces.deep_view();
    let ghost open = current@;
    pieces.push(current);
    proof {
        assert(pieces.deep_view() =~= done.push(open));
        lemma_split_then_join(s@, sep);
    }
    pieces
}

/// A line without the carriage return that stood before its line feed.
pub open spec fn without_carriage_return(line: Seq<char>) -> Seq<char> {
    if line.len() > 0 && line.last() == '\r' {
        line.drop_last()
    } else {
        line
    }
}

/// The lines of a text. A line ends with a line feed, which is left out, as
/// is a carriage return just before it. What follows the last line feed is a
/// line too, unless it is empty.
pub open spec fn lines_of(s: Seq<char>) -> Seq<Seq<char>> {
    let pieces = split_on(s, '\n');
    let ended = pieces.drop_last().map_values(|line: Seq<char>| without_carriage_return(line));
    if pieces.last().len() == 0 {
        ended
    } else {
        ended.push(pieces.last())
    }
}

/// The lines of `s`, in the order in which they stand in it.
pub fn lines(s: &str) -> (found: Vec<String>)
    ensures
        found.deep_view() == lines_of(s@),
{
    broadcast use vstd::string::group_string_axioms;

    let mut found: Vec<String> = Vec::new();
    let mut current = String::new();
    assert(found.deep_view() =~= split_on(s@.take(0), '\n').drop_last().map_values(
        |line: Seq<char>| without_carriage_return(line),
    ));
    for c in it: s.chars()
        invariant
            it.seq() == s@,
            split_on(s@.take(it.index()), '\n').len() >= 1,
            found.deep_view() == split_on(s@.take(it.index()), '\n').drop_last().map_values(
                |line: Seq<char>| without_carriage_return(line),
            ),
            current@ == split_on(s@.take(it.index()), '\n').last(),
    {
        let ghost before = split_on(s@.take(it.index()), '\n');
        let ghost done = found.deep_view();
        proof {
            lemma_split_push(s@.take(it.index()), c, is_char('\n'));
            assert(s@.take(it.index() + 1) =~= s@.take(it.index()).push(c));
        }
        if c == '\n' {
            let ghost line = current@;
            match pop_char(&mut current) {
                Some(last) => {
                    if last != '\r' {
                        push_char(&mut current, last);
                        assert(current@ =~= line);
                    }
                },
                None => {},
            }
            assert(current@ == without_carriage_return(line));
            found.push(current);
            current = String::new();
            proof {
                let after = before.push(Seq::empty());
                assert(after.drop_last() =~= before);
                assert(found.deep_view() =~= done.push(without_carriage_return(line)));
                assert(found.deep_view() =~= after.drop_last().map_values(
                    |line: Seq<char>| without_carriage_return(line),
                ));
            }
        } else {
            push_char(&mut current, c);
            proof {
                let after = before.drop_last().push(before.last().push(c));
                assert(after.drop_last() =~= before.drop_last());
            }
        }
    }
    proof {
        assert(s@.take(s@.len() as int) =~= s@);
    }
    if !current.as_str().is_empty() {
        let ghost done = found.deep_view();
        let ghost open = current@;
        found.push(current);
        assert(found.deep_view() =~= done.push(open));
    }
    found
}


/// The white space characters: the space, the tab and the other characters
/// to which Unicode gives the property White_Space.
pub open spec fn is_whitespace(c: char) -> bool {
    ||| '\u{9}' <= c && c <= '\u{d}'
    ||| c == ' '
    ||| c == '\u{85}'
    ||| c == '\u{a0}'
    ||| c == '\u{1680}'
    ||| '\u{2000}' <= c && c <= '\u{200a}'
    ||| c == '\u{2028}'
    ||| c == '\u{2029}'
    ||| c == '\u{202f}'
    ||| c == '\u{205f}'
    ||| c == '\u{3000}'
}

/// What holds of the white space characters and of no other.
pub open spec fn whitespace() -> spec_fn(char) -> bool {
    |c: char| is_whitespace(c)
}

/// What holds of every text but the empty one.
pub open spec fn not_empty() -> spec_fn(Seq<char>) -> bool {
    |piece: Seq<char>| piece.len() > 0
}

/// The words of a text, in order: what is left between its white space
/// characters. White space at either end and several such characters in a
/// row make no word.
pub open spec fn words_of(s: Seq<char>) -> Seq<Seq<char>> {
    split_where(s, whitespace()).filter(not_empty())
}

/// Whether `c` is a white space character.
pub fn is_space(c: char) -> (space: bool)
    ensures
        space == is_whitespace(c),
{
    ('\u{9}' <= c && c <= '\u{d}') || c == ' ' || c == '\u{85}' || c == '\u{a0}' || c == '\u{1680}'
        || ('\u{2000}' <= c && c <= '\u{200a}') || c == '\u{2028}' || c == '\u{2029}' || c
        == '\u{202f}' || c == '\u{205f}' || c == '\u{3000}'
}

/// The words found so far, once the piece that was open has come to its end.
proof fn lemma_words_push(pieces: Seq<Seq<char>>, piece: Seq<char>)
    ensures
        pieces.push(piece).filter(not_empty()) == if piece.len() > 0 {
            pieces.filter(not_empty()).push(piece)
        } else {
            pieces.filter(not_empty())
        },
{
    reveal(Seq::filter);
    assert(pieces.push(piece).drop_last() =~= pieces);
}

/// The words of `s`, in the order in which they stand in it.
pub fn words(s: &str) -> (found: Vec<String>)
    ensures
        found.deep_view() == words_of(s@),
{
    broadcast use vstd::string::group_string_axioms;

    let mut found: Vec<String> = Vec::new();
    let mut current = String::new();
    proof {
        reveal(Seq::filter);
        assert(split_where(s@.take(0), whitespace()).drop_last() =~= Seq::<Seq<char>>::empty());
        assert(found.deep_view() =~= Seq::<Seq<char>>::empty());
    }
    for c in it: s.chars()
        invariant
            it.seq() == s@,
            split_where(s@.take(it.index()), whitespace()).len() >= 1,
            found.deep_view() == split_where(s@.take(it.index()), whitespace()).drop_last().filter(
                not_empty(),
            ),
            current@ == split_where(s@.take(it.index()), whitespace()).last(),
    {
        let ghost before = split_where(s@.take(it.index()), whitespace());
        let ghost done = found.deep_view();
        proof {
            lemma_split_push(s@.take(it.index()), c, whitespace());
            assert(s@.take(it.index() + 1) =~= s@.take(it.index()).push(c));
        }
        if is_space(c) {
            proof {
                let after = before.push(Seq::empty());
                assert(after.drop_last() =~= before);
                assert(before =~= before.drop_last().push(before.last()));
                lemma_words_push(before.drop_last(), before.last());
            }
            if !current.as_str().is_empty() {
                found.push(current);
                current = String::new();
                assert(found.deep_view() =~= done.push(before.last()));
            }
        } else {
            push_char(&mut current, c);
            proof {
                let after = before.drop_last().push(before.last().push(c));
                assert(after.drop_last() =~= before.drop_last());
            }
        }
    }
    proof {
        let pieces = split_where(s@, whitespace());
        assert(s@.take(s@.len() as int) =~= s@);
        assert(pieces =~= pieces.drop_last().push(pieces.last()));
        lemma_words_push(pieces.drop_last(), pieces.last());
    }
    if !current.as_str().is_empty() {
        let ghost done = found.deep_view();
        let ghost open = current@;
        found.push(current);
        assert(found.deep_view() =~= done.push(open));
    }
    found
}

} // verus!
