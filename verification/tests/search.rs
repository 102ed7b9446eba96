use minigrep::lines::{split_first_line, split_lines};
use minigrep::search::contains;
use minigrep::{search, search_alternative};

const POEM: &str = "\
Rust:
safe, fast, productive.
Pick three.";

/// Texts that exercise every kind of line ending, empty lines, repeated
/// lines and characters of one to four bytes.
const TEXTS: [&str; 24] = [
    "",
    "\n",
    "\n\n",
    "\r",
    "\r\n",
    "\r\r\n",
    "\n\r",
    "a",
    "a\n",
    "a\r",
    "a\r\n",
    "a\r\r\n",
    "a\rb\nc",
    "a\nb",
    "a\n\nb\n",
    "ab\nxx\nab\nab",
    "one\r\ntwo\r\nthree\r\n",
    "tab\tand space \nline two\n",
    "h\u{e9}llo\nw\u{f6}rld\nhello\n",
    "\u{65e5}\u{672c}\u{8a9e}\n\u{30c6}\u{30ad}\u{30b9}\u{30c8}\r\n\u{65e5}",
    "\u{1f600}\n\u{1f600}\u{1f601}\r\n\u{e9}\u{1f600}",
    "\u{a}\u{10a}\u{a0a}\n\u{10a0a}",
    "\u{d}\u{10d}\u{d0d}\r\n\u{10d0d}\r",
    "aaa\nbaab\naba\n",
];

const QUERIES: [&str; 20] = [
    "",
    "a",
    "aa",
    "aaa",
    "ab",
    "b",
    "\n",
    "\r",
    "\r\n",
    "a\r",
    " ",
    "two",
    "hello",
    "\u{e9}",
    "\u{f6}rld",
    "\u{672c}",
    "\u{1f600}",
    "\u{1f600}\u{1f601}",
    "\u{10a}",
    "\u{10d0d}",
];

#[test]
fn one_result() {
    let query = "duct";
    let contents = "\
Rust:
safe, fast, productive.
Pick three.";

    assert_eq!(vec!["safe, fast, productive."], search(query, contents));
}

#[test]
fn query_in_last_line() {
    assert_eq!(vec!["Pick three."], search("Pick", POEM));
}

#[test]
fn query_in_no_line() {
    let expected: Vec<&str> = Vec::new();
    assert_eq!(expected, search("nomatch", POEM));
}

#[test]
fn search_is_case_sensitive() {
    let expected: Vec<&str> = Vec::new();
    assert_eq!(expected, search("rust", POEM));
    assert_eq!(vec!["Rust:"], search("Rust", POEM));
}

#[test]
fn search_has_no_word_boundaries() {
    assert_eq!(vec!["safe, fast, productive."], search("e, f", POEM));
    assert_eq!(vec!["Rust:", "safe, fast, productive."], search("st", POEM));
}

#[test]
fn empty_query_returns_every_line() {
    assert_eq!(vec!["Rust:", "safe, fast, productive.", "Pick three."], search("", POEM));
    assert_eq!(vec!["", "x", ""], search("", "\nx\r\n\n"));
    for text in TEXTS {
        let all: Vec<&str> = text.lines().collect();
        assert_eq!(all, search("", text));
    }
}

#[test]
fn empty_contents_have_no_match() {
    let expected: Vec<&str> = Vec::new();
    for query in QUERIES {
        assert_eq!(expected, search(query, ""));
    }
}

#[test]
fn every_result_contains_the_query_and_no_match_is_left_out() {
    for text in TEXTS {
        for query in QUERIES {
            let found = search(query, text);
            for line in &found {
                assert!(line.contains(query));
            }
            for line in text.lines() {
                assert_eq!(line.contains(query), found.contains(&line));
            }
        }
    }
}

#[test]
fn results_keep_the_order_of_the_lines() {
    assert_eq!(vec!["b1", "b2", "b3"], search("b", "b1\na\nb2\nc\nb3"));
    assert_eq!(vec!["zb", "ab"], search("b", "zb\nab"));
    for text in TEXTS {
        for query in QUERIES {
            let all: Vec<&str> = text.lines().collect();
            let found = search(query, text);
            let mut next = 0;
            for line in found {
                while all[next] != line {
                    next += 1;
                }
                next += 1;
            }
        }
    }
}

#[test]
fn repeated_lines_are_all_returned() {
    assert_eq!(vec!["ab", "ab", "ab"], search("ab", "ab\nxx\nab\nab"));
}

#[test]
fn line_with_several_occurrences_is_returned_once() {
    assert_eq!(vec!["aaa"], search("a", "aaa"));
    assert_eq!(vec!["abcabc", "xabc"], search("abc", "abcabc\nxabc\nab\n"));
}

#[test]
fn line_endings_are_not_part_of_a_line() {
    assert_eq!(vec!["one", "two"], search("o", "one\r\ntwo\nthree"));
    let expected: Vec<&str> = Vec::new();
    assert_eq!(expected, search("\n", "one\ntwo\n"));
    assert_eq!(expected, search("\r", "one\r\ntwo\r\n"));
}

#[test]
fn lone_carriage_return_stays_in_its_line() {
    assert_eq!(vec!["a\rb"], search("\r", "a\rb\nc"));
    assert_eq!(vec!["end\r"], search("\r", "start\r\nend\r"));
    assert_eq!(vec!["a\r"], search("a\r", "a\r\r\nb"));
}

#[test]
fn query_longer_than_every_line_matches_nothing() {
    let expected: Vec<&str> = Vec::new();
    assert_eq!(expected, search("Pick three. And more", POEM));
}

#[test]
fn query_equal_to_a_line_matches_it() {
    assert_eq!(vec!["Pick three."], search("Pick three.", POEM));
}

#[test]
fn query_is_matched_by_characters_beyond_ascii() {
    let text = "h\u{e9}llo\nhello\n\u{65e5}\u{672c}\u{8a9e}\n";
    assert_eq!(vec!["h\u{e9}llo"], search("\u{e9}", text));
    assert_eq!(vec!["\u{65e5}\u{672c}\u{8a9e}"], search("\u{672c}\u{8a9e}", text));
    assert_eq!(vec!["h\u{e9}llo", "hello"], search("llo", text));
}

#[test]
fn search_agrees_with_the_standard_library() {
    for text in TEXTS {
        for query in QUERIES {
            let expected: Vec<&str> = text.lines().filter(|line| line.contains(query)).collect();
            assert_eq!(expected, search(query, text));
        }
    }
}

#[test]
fn search_alternative_agrees_with_search() {
    assert_eq!(vec!["safe, fast, productive."], search_alternative("duct", POEM));
    assert_eq!(vec!["Pick three."], search_alternative("Pick", POEM));
    for text in TEXTS {
        for query in QUERIES {
            assert_eq!(search(query, text), search_alternative(query, text));
        }
    }
}

#[test]
fn results_are_slices_of_the_contents() {
    let contents = String::from("first\r\nsecond\nthird");
    let begin = contents.as_ptr() as usize;
    let found = search("", &contents);
    assert_eq!(3, found.len());
    assert_eq!(begin, found[0].as_ptr() as usize);
    assert_eq!(begin + 7, found[1].as_ptr() as usize);
    assert_eq!(begin + 14, found[2].as_ptr() as usize);
}

#[test]
fn first_line_and_rest() {
    assert_eq!(("", ""), split_first_line(""));
    assert_eq!(("a", ""), split_first_line("a"));
    assert_eq!(("a", "b\nc"), split_first_line("a\nb\nc"));
    assert_eq!(("a", "b"), split_first_line("a\r\nb"));
    assert_eq!(("a\r", ""), split_first_line("a\r"));
    assert_eq!(("a\r", ""), split_first_line("a\r\r\n"));
    assert_eq!(("", "\n"), split_first_line("\n\n"));
    assert_eq!(("", "x"), split_first_line("\r\nx"));
    assert_eq!(("\u{e9}", "\u{1f600}"), split_first_line("\u{e9}\r\n\u{1f600}"));
}

#[test]
fn lines_agree_with_the_standard_library() {
    assert_eq!(vec!["foo", "bar", "", "baz\r"], split_lines("foo\nbar\n\r\nbaz\r"));
    for text in TEXTS {
        let expected: Vec<&str> = text.lines().collect();
        assert_eq!(expected, split_lines(text));
    }
}

#[test]
fn contains_agrees_with_the_standard_library() {
    assert!(contains("safe, fast, productive.", "duct"));
    assert!(!contains("Rust:", "duct"));
    assert!(contains("", ""));
    assert!(contains("abc", ""));
    assert!(!contains("", "a"));
    assert!(contains("abc", "abc"));
    assert!(contains("abc", "c"));
    assert!(!contains("abc", "abcd"));
    assert!(contains("aab", "ab"));
    assert!(!contains("\u{10a}", "\u{a}"));
    for text in TEXTS {
        for query in QUERIES {
            assert_eq!(text.contains(query), contains(text, query));
        }
    }
}
