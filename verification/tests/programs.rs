use rmenu::order::{lex_order, sort_unique, Rank};
use rmenu::programs::{get_programs, search_directories};
use rmenu::split::{is_space, lines, split, words};

fn strings(items: &[&str]) -> Vec<String> {
    items.iter().map(|item| item.to_string()).collect()
}

#[test]
fn programs_are_sorted_and_listed_once() {
    let listings = vec![
        strings(&["bin", "ls", "cat", "zsh"]),
        strings(&["bin", "awk", "ls"]),
        Vec::new(),
        strings(&["Xorg", "awk"]),
    ];
    assert_eq!(get_programs(listings), strings(&["Xorg", "awk", "bin", "cat", "ls", "zsh"]));
}

#[test]
fn programs_do_not_depend_on_the_order_of_the_listings() {
    let first = vec![strings(&["b", "a", "c"]), strings(&["d", "a"])];
    let second = vec![strings(&["a", "d", "d"]), Vec::new(), strings(&["c", "b", "a"])];
    let found = get_programs(first.clone());
    assert_eq!(found, strings(&["a", "b", "c", "d"]));
    assert_eq!(get_programs(second), found);
    assert_eq!(get_programs(first), found);
}

#[test]
fn programs_of_no_listing_are_none() {
    assert!(get_programs(Vec::new()).is_empty());
    assert!(get_programs(vec![Vec::new(), Vec::new()]).is_empty());
}

#[test]
fn programs_are_ordered_as_the_standard_library_orders_strings() {
    let names = strings(&[
        "zeta", "Zeta", "alpha", "", "alpha", "alp", "alphabet", "été", "etc", "日本", "日",
        "a b", "a", "A", "_x", "10", "9", "été", "\u{10000}", "\u{ffff}",
    ]);
    let mut expected = names.clone();
    expected.sort_unstable();
    expected.dedup();
    assert_eq!(get_programs(vec![names.clone()]), expected);
    assert_eq!(sort_unique(names), expected);
}

#[test]
fn many_programs_are_sorted() {
    let mut names = Vec::new();
    let mut seed: u32 = 7;
    for _ in 0..2000 {
        seed = seed.wrapping_mul(1664525).wrapping_add(1013904223);
        names.push(format!("prog{}", seed % 700));
    }
    let mut expected = names.clone();
    expected.sort_unstable();
    expected.dedup();
    assert_eq!(get_programs(vec![names]), expected);
}

#[test]
fn search_directories_are_sorted_and_named_once() {
    assert_eq!(
        search_directories("/usr/local/bin:/usr/bin:/bin:/usr/bin"),
        strings(&["/bin", "/usr/bin", "/usr/local/bin"])
    );
    assert_eq!(search_directories("/bin"), strings(&["/bin"]));
}

#[test]
fn search_directories_keep_an_empty_entry() {
    assert_eq!(search_directories(""), strings(&[""]));
    assert_eq!(search_directories("/bin::/bin:"), strings(&["", "/bin"]));
}

#[test]
fn sorting_keeps_one_of_each() {
    assert_eq!(
        sort_unique(strings(&["e", "c", "a", "f", "d", "c", "b", "c"])),
        strings(&["a", "b", "c", "d", "e", "f"])
    );
    assert_eq!(sort_unique(strings(&["x"])), strings(&["x"]));
    assert_eq!(sort_unique(strings(&["x", "x"])), strings(&["x"]));
    assert_eq!(sort_unique(strings(&["b", "a"])), strings(&["a", "b"]));
    assert!(sort_unique(Vec::new()).is_empty());
}

#[test]
fn strings_are_ordered_by_their_characters() {
    assert_eq!(lex_order("", ""), Rank::Same);
    assert_eq!(lex_order("", "a"), Rank::Before);
    assert_eq!(lex_order("a", ""), Rank::After);
    assert_eq!(lex_order("abc", "abc"), Rank::Same);
    assert_eq!(lex_order("abc", "abd"), Rank::Before);
    assert_eq!(lex_order("abd", "abc"), Rank::After);
    assert_eq!(lex_order("ab", "abc"), Rank::Before);
    assert_eq!(lex_order("abc", "ab"), Rank::After);
    assert_eq!(lex_order("Z", "a"), Rank::Before);
    assert_eq!(lex_order("z", "é"), Rank::Before);
    assert_eq!(lex_order("\u{ffff}", "\u{10000}"), Rank::Before);
}

#[test]
fn the_order_agrees_with_the_standard_library() {
    let samples =
        ["", "a", "A", "ab", "b", "é", "e", "日本", "日", "\u{ffff}", "\u{10000}", "~"];
    for a in samples {
        for b in samples {
            let expected = if a < b {
                Rank::Before
            } else if a == b {
                Rank::Same
            } else {
                Rank::After
            };
            assert_eq!(lex_order(a, b), expected);
        }
    }
}

#[test]
fn split_cuts_at_every_separator() {
    assert_eq!(split("a:b:c", ':'), strings(&["a", "b", "c"]));
    assert_eq!(split("abc", ':'), strings(&["abc"]));
    assert_eq!(split("", ':'), strings(&[""]));
    assert_eq!(split(":", ':'), strings(&["", ""]));
    assert_eq!(split("a::b:", ':'), strings(&["a", "", "b", ""]));
    assert_eq!(split(":a", ':'), strings(&["", "a"]));
    assert_eq!(split("é é", ' '), strings(&["é", "é"]));
}

#[test]
fn split_agrees_with_the_standard_library() {
    for text in ["", " ", "a b", "  a  b  ", "ls -l /tmp", "x", "é  日本 "] {
        let expected: Vec<String> = text.split(' ').map(|piece| piece.to_string()).collect();
        assert_eq!(split(text, ' '), expected);
    }
}

#[test]
fn lines_end_at_line_feeds() {
    assert_eq!(lines("foo\nbar\n"), strings(&["foo", "bar"]));
    assert_eq!(lines("foo\nbar"), strings(&["foo", "bar"]));
    assert_eq!(lines("foo"), strings(&["foo"]));
    assert!(lines("").is_empty());
    assert_eq!(lines("\n"), strings(&[""]));
    assert_eq!(lines("a\n\nb\n"), strings(&["a", "", "b"]));
    assert_eq!(lines("\n\n"), strings(&["", ""]));
}

#[test]
fn lines_drop_the_carriage_return_before_a_line_feed() {
    assert_eq!(lines("foo\r\nbar\r\n"), strings(&["foo", "bar"]));
    assert_eq!(lines("foo\r\r\nbar"), strings(&["foo\r", "bar"]));
    assert_eq!(lines("fo\ro\n"), strings(&["fo\ro"]));
    assert_eq!(lines("\r\n"), strings(&[""]));
    assert_eq!(lines("foo\nbar\r"), strings(&["foo", "bar\r"]));
    assert_eq!(lines("\r"), strings(&["\r"]));
}

#[test]
fn lines_agree_with_the_standard_library() {
    let texts =
        ["", "\n", "a", "a\n", "a\r\n", "a\nb", "a\r\nb\r", "\r\n\r\n", "x\n\ny", "é\n日本\r\n"];
    for text in texts {
        let expected: Vec<String> = text.lines().map(|line| line.to_string()).collect();
        assert_eq!(lines(text), expected);
    }
}

#[test]
fn lines_are_neither_sorted_nor_deduplicated() {
    assert_eq!(
        lines("zeta\nalpha\nzeta\n\nbeta"),
        strings(&["zeta", "alpha", "zeta", "", "beta"])
    );
}

#[test]
fn words_are_what_white_space_leaves() {
    assert_eq!(words("ls -l /tmp"), strings(&["ls", "-l", "/tmp"]));
    assert_eq!(words("  ls \t -l\n"), strings(&["ls", "-l"]));
    assert_eq!(words("zzz"), strings(&["zzz"]));
    assert_eq!(words("a\u{a0}b\u{3000}c"), strings(&["a", "b", "c"]));
    assert!(words("").is_empty());
    assert!(words(" \t\r\n").is_empty());
}

#[test]
fn words_agree_with_the_standard_library() {
    let texts =
        ["", " ", "a", " a", "a ", "a b", "a  b", "\ta\nb\r\nc ", "é  日本\u{2003}語", "x\u{85}y"];
    for text in texts {
        let expected: Vec<String> =
            text.split_whitespace().map(|word| word.to_string()).collect();
        assert_eq!(words(text), expected);
    }
}

#[test]
fn white_space_is_what_the_standard_library_takes_for_it() {
    for code in 0..=0x10ffff_u32 {
        if let Some(c) = char::from_u32(code) {
            assert_eq!(is_space(c), c.is_whitespace());
        }
    }
}
