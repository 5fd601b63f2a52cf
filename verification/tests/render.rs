use ansi_term::Colour::Red;
use ansi_term::{ANSIString, ANSIStrings};
use minigrep::highlight::{render, render_case_insensitive};
use minigrep::matching::search_case_insensitive;

fn without_markers(shown: &str) -> String {
    shown.replace("\u{1b}[1;31m", "").replace("\u{1b}[0m", "")
}

#[test]
fn occurrences_at_both_ends_are_marked_once() {
    let shown = render("ducted dog duct", "duct");
    assert_eq!("\u{1b}[1;31mduct\u{1b}[0med dog \u{1b}[1;31mduct\u{1b}[0m", shown);
    assert_eq!(2, shown.matches("\u{1b}[1;31mduct\u{1b}[0m").count());
    assert!(shown.starts_with("\u{1b}[1;31mduct\u{1b}[0m"));
    assert!(shown.ends_with("\u{1b}[1;31mduct\u{1b}[0m"));
    assert!(shown.contains("\u{1b}[0med dog \u{1b}[1;31m"));
    assert_eq!("ducted dog duct", without_markers(&shown));
}

#[test]
fn an_occurrence_inside_the_line_is_marked() {
    assert_eq!(
        "safe, fast, pro\u{1b}[1;31mduct\u{1b}[0mive.",
        render("safe, fast, productive.", "duct")
    );
}

#[test]
fn a_line_without_the_query_is_shown_unchanged() {
    assert_eq!("Pick three.", render("Pick three.", "duct"));
    assert_eq!("", render("", "duct"));
    assert_eq!("Duct tape.", render("Duct tape.", "duct"));
}

#[test]
fn the_empty_query_marks_nothing() {
    assert_eq!("Pick three.", render("Pick three.", ""));
    assert_eq!("Pick three.", render_case_insensitive("Pick three.", ""));
    assert_eq!("", render("", ""));
}

#[test]
fn occurrences_do_not_overlap() {
    assert_eq!("\u{1b}[1;31maa\u{1b}[0ma", render("aaa", "aa"));
    assert_eq!(
        "\u{1b}[1;31maa\u{1b}[0m\u{1b}[1;31maa\u{1b}[0m",
        render("aaaa", "aa")
    );
    assert_eq!("\u{1b}[1;31mabc\u{1b}[0m", render("abc", "abc"));
}

#[test]
fn rendering_agrees_with_joined_ansi_strings() {
    let cases = [
        ("ducted dog duct", "duct"),
        ("safe, fast, productive.", "duct"),
        ("Pick three.", "duct"),
        ("aaaa", "aa"),
        ("x", "x"),
    ];
    for (line, query) in cases {
        let chunks: Vec<&str> = line.split(query).collect();
        let mut strings: Vec<ANSIString> = Vec::new();
        for (index, chunk) in chunks.iter().enumerate() {
            strings.push(ANSIString::from(*chunk));
            if index < chunks.len() - 1 {
                strings.push(Red.bold().paint(query));
            }
        }
        assert_eq!(ANSIStrings(&strings).to_string(), render(line, query));
    }
}

#[test]
fn stripping_the_markers_gives_the_line_back() {
    let cases = [
        ("ducted dog duct", "duct"),
        ("Rust:", "rUsT"),
        ("Trust me.", "t"),
        ("mmm[0m", "m"),
        ("\u{1b}[32mgreen\u{1b}[39m duct", "duct"),
        ("\u{1b}[1;31", "1"),
        ("gr\u{fc}n und bl\u{e5}", "\u{fc}n"),
        ("", "x"),
    ];
    for (line, query) in cases {
        assert_eq!(line, without_markers(&render(line, query)));
        assert_eq!(line, without_markers(&render_case_insensitive(line, query)));
    }
}

#[test]
fn a_line_with_a_marker_of_its_own_does_not_come_back() {
    let line = "a\u{1b}[0mb";
    assert_eq!(line, render(line, "x"));
    assert_eq!("ab", without_markers(&render(line, "x")));
}

#[test]
fn any_case_marks_the_piece_in_its_own_case() {
    assert_eq!(
        "\u{1b}[1;31mRust\u{1b}[0m:",
        render_case_insensitive("Rust:", "rUsT")
    );
    assert_eq!(
        "T\u{1b}[1;31mrust\u{1b}[0m me.",
        render_case_insensitive("Trust me.", "rUsT")
    );
    assert_eq!(
        "\u{1b}[1;31mDuct\u{1b}[0med dog \u{1b}[1;31mdUCT\u{1b}[0m",
        render_case_insensitive("Ducted dog dUCT", "duct")
    );
    assert_eq!("Pick three.", render_case_insensitive("Pick three.", "RUST"));
}

#[test]
fn exact_rendering_leaves_other_cases_unmarked() {
    assert_eq!("Rust:", render("Rust:", "rUsT"));
    assert_eq!(
        "Duct and \u{1b}[1;31mduct\u{1b}[0m",
        render("Duct and duct", "duct")
    );
}

#[test]
fn any_case_marks_characters_that_grow_when_lowered() {
    assert_eq!(
        "x\u{1b}[1;31m\u{130}\u{1b}[0my",
        render_case_insensitive("x\u{130}y", "i\u{307}")
    );
    assert_eq!(
        "\u{1b}[1;31m\u{c4}RGER\u{1b}[0m!",
        render_case_insensitive("\u{c4}RGER!", "\u{e4}rger")
    );
}

#[test]
fn characters_of_every_width_keep_their_bytes() {
    assert_eq!(
        "a\u{e9}\u{1b}[1;31m\u{20ac}\u{1f980}\u{1b}[0m\u{65e5}\u{1b}[1;31m\u{20ac}\u{1f980}\u{1b}[0m",
        render("a\u{e9}\u{20ac}\u{1f980}\u{65e5}\u{20ac}\u{1f980}", "\u{20ac}\u{1f980}")
    );
    assert_eq!(
        "\u{65e5}\u{1b}[1;31m\u{c9}\u{20ac}\u{1b}[0m\u{1f980}",
        render_case_insensitive("\u{65e5}\u{c9}\u{20ac}\u{1f980}", "\u{e9}\u{20ac}")
    );
}

#[test]
fn a_line_found_in_any_case_may_hold_no_piece_to_mark() {
    let line = "\u{391}\u{3a3}";
    assert_eq!(vec![line], search_case_insensitive("\u{3c2}", line));
    assert_eq!(line, render_case_insensitive(line, "\u{3c2}"));
    assert_eq!(
        "\u{1b}[1;31m\u{391}\u{3a3}\u{1b}[0m",
        render_case_insensitive(line, "\u{3b1}\u{3c2}")
    );
}
