use minigrep::matching::{search, search_case_insensitive};
use minigrep::text::{contains, lines, same_text};

#[test]
fn case_sensitive() {
    let query = "duct";
    let contents = "\
Rust:
safe, fast, productive.
Pick three.
Duct tape.";

    assert_eq!(
        vec!["safe, fast, productive."],
        search(query, contents)
    );
}

#[test]
fn case_insensitive() {
    let query = "rUsT";
    let contents = "\
Rust:
safe, fast, productive.
Pick three.
Trust me.";

    assert_eq!(
        vec!["Rust:", "Trust me."],
        search_case_insensitive(query, contents)
    );
}

#[test]
fn case_insensitive_does_not_take_duct_for_rust() {
    let contents = "Rust:\nsafe, fast, productive.\nPick three.\nDuct tape.";
    assert_eq!(vec!["Rust:"], search_case_insensitive("rUsT", contents));
}

#[test]
fn found_lines_hold_the_query_and_keep_their_order() {
    let contents = "one duct\ntwo\nthree duct\nfour\nduct five\n";
    let found = search("duct", contents);
    assert_eq!(vec!["one duct", "three duct", "duct five"], found);
    for line in &found {
        assert!(line.contains("duct"));
    }
    let wanted: Vec<&str> = contents.lines().filter(|line| line.contains("duct")).collect();
    assert_eq!(wanted, found);
}

#[test]
fn a_line_that_stands_twice_is_found_twice() {
    assert_eq!(vec!["ab", "ab"], search("a", "ab\ncd\nab"));
    assert_eq!(vec!["ab", "AB", "ab"], search_case_insensitive("a", "ab\nAB\ncd\nab"));
}

#[test]
fn found_lines_are_slices_of_the_contents() {
    let contents = String::from("alpha\nbeta\ngamma");
    let found = search("a", &contents);
    let begin = contents.as_ptr() as usize;
    let end = begin + contents.len();
    assert_eq!(3, found.len());
    for line in found {
        let at = line.as_ptr() as usize;
        assert!(begin <= at && at + line.len() <= end);
    }
}

#[test]
fn any_case_finds_no_fewer_lines_than_exact() {
    let contents = "Rust:\nsafe, fast, productive.\nPick three.\nTrust me.\nrust";
    for query in ["rust", "Rust", "t", "T", "e.", "Pick", "zzz", ""] {
        let exact = search(query, contents);
        let any = search_case_insensitive(query, contents);
        assert!(exact.len() <= any.len());
        for line in exact {
            assert!(any.contains(&line));
        }
    }
}

#[test]
fn final_sigma_is_lost_when_the_case_is_lowered() {
    let contents = "\u{391}\u{3a3}";
    assert_eq!(vec![contents], search("\u{3a3}", contents));
    assert_eq!(Vec::<&str>::new(), search_case_insensitive("\u{3a3}", contents));
}

#[test]
fn empty_query_finds_every_line() {
    let contents = "Rust:\n\nPick three.\n";
    assert_eq!(vec!["Rust:", "", "Pick three."], search("", contents));
    assert_eq!(vec!["Rust:", "", "Pick three."], search_case_insensitive("", contents));
}

#[test]
fn absent_query_finds_nothing() {
    let contents = "Rust:\nsafe, fast, productive.";
    assert_eq!(Vec::<&str>::new(), search("python", contents));
    assert_eq!(Vec::<&str>::new(), search_case_insensitive("PYTHON", contents));
    assert_eq!(Vec::<&str>::new(), search("Rust:\nsafe", contents));
}

#[test]
fn empty_contents_have_no_line() {
    assert_eq!(Vec::<&str>::new(), search("", ""));
    assert_eq!(Vec::<&str>::new(), search_case_insensitive("", ""));
    assert_eq!(Vec::<&str>::new(), search("a", ""));
}

#[test]
fn lines_are_cut_at_line_feeds() {
    assert_eq!(Vec::<&str>::new(), lines(""));
    assert_eq!(vec![""], lines("\n"));
    assert_eq!(vec!["a"], lines("a"));
    assert_eq!(vec!["a"], lines("a\n"));
    assert_eq!(vec!["a", "b"], lines("a\nb"));
    assert_eq!(vec!["a", "", "b"], lines("a\n\nb\n"));
    assert_eq!(vec!["", ""], lines("\n\n"));
}

#[test]
fn a_carriage_return_before_a_line_feed_ends_the_line_with_it() {
    assert_eq!(vec!["a", "b"], lines("a\r\nb\r\n"));
    assert_eq!(vec!["a\r"], lines("a\r"));
    assert_eq!(vec!["a\rb"], lines("a\rb\n"));
    assert_eq!(vec!["a\r", "b"], lines("a\r\r\nb"));
    assert_eq!(vec![""], lines("\r\n"));
}

#[test]
fn lines_are_those_of_the_standard_library() {
    let texts = [
        "",
        "\n",
        "\r",
        "\r\n",
        "a",
        "a\n",
        "a\r\n",
        "a\r",
        "a\n\r",
        "a\n\nb",
        "\n\na\n\n",
        "Rust:\nsafe, fast, productive.\nPick three.\nDuct tape.",
        "gr\u{fc}n\r\nbl\u{e5}\n\u{1f980}\n",
    ];
    for text in texts {
        let wanted: Vec<&str> = text.lines().collect();
        assert_eq!(wanted, lines(text));
    }
}

#[test]
fn lines_count_characters_not_bytes() {
    assert_eq!(vec!["\u{e9}t\u{e9}", "\u{1f980}\u{1f980}"], lines("\u{e9}t\u{e9}\n\u{1f980}\u{1f980}"));
    assert_eq!(vec!["bl\u{e5}b\u{e6}r"], search("\u{e5}b", "gr\u{f8}d\nbl\u{e5}b\u{e6}r"));
}

#[test]
fn contains_looks_for_one_unbroken_piece() {
    assert!(contains("safe, fast, productive.", "duct"));
    assert!(!contains("Duct tape.", "duct"));
    assert!(contains("abc", ""));
    assert!(contains("", ""));
    assert!(!contains("", "a"));
    assert!(contains("abc", "abc"));
    assert!(!contains("abc", "abcd"));
    assert!(!contains("abc", "ac"));
    assert!(contains("aab", "ab"));
}

#[test]
fn same_text_compares_character_by_character() {
    assert!(same_text("-i", "-i"));
    assert!(!same_text("-i", "-I"));
    assert!(!same_text("-i", "-ii"));
    assert!(same_text("", ""));
}

#[test]
fn characters_of_every_width_are_cut_where_they_end() {
    let contents = "a\u{e9}\u{20ac}\u{1f980}\n\u{65e5}\u{672c}\u{8a9e}\r\n\u{1f980}\u{20ac}\u{e9}a";
    assert_eq!(
        vec!["a\u{e9}\u{20ac}\u{1f980}", "\u{65e5}\u{672c}\u{8a9e}", "\u{1f980}\u{20ac}\u{e9}a"],
        lines(contents)
    );
    assert_eq!(
        vec!["a\u{e9}\u{20ac}\u{1f980}", "\u{1f980}\u{20ac}\u{e9}a"],
        search("\u{20ac}", contents)
    );
    assert_eq!(vec!["\u{65e5}\u{672c}\u{8a9e}"], search_case_insensitive("\u{672c}", contents));
}
