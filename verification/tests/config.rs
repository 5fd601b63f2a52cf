use minigrep::config::{ArgumentError, Config};
use minigrep::run;

fn tokens(words: &[&str]) -> Vec<String> {
    words.iter().map(|word| word.to_string()).collect()
}

#[test]
fn query_and_filename_are_read_in_order() {
    let config = Config::new(&tokens(&["minigrep", "duct", "poem.txt"])).unwrap();
    assert_eq!("duct", config.query);
    assert_eq!("poem.txt", config.filename);
    assert!(config.case_sensitive);
}

#[test]
fn the_flag_may_stand_anywhere() {
    for words in [
        ["minigrep", "-i", "duct", "poem.txt"],
        ["minigrep", "duct", "-i", "poem.txt"],
        ["minigrep", "duct", "poem.txt", "-i"],
        ["minigrep", "--ignore-case", "duct", "poem.txt"],
        ["minigrep", "duct", "poem.txt", "--ignore-case"],
    ] {
        let config = Config::new(&tokens(&words)).unwrap();
        assert_eq!(
            Config {
                query: "duct".to_string(),
                filename: "poem.txt".to_string(),
                case_sensitive: false,
            },
            config
        );
    }
}

#[test]
fn missing_filename_is_an_error() {
    assert_eq!(
        Err(ArgumentError::MissingFilename),
        Config::new(&tokens(&["minigrep", "duct"]))
    );
    assert_eq!(
        Err(ArgumentError::MissingFilename),
        Config::new(&tokens(&["minigrep", "-i", "duct", "--ignore-case"]))
    );
}

#[test]
fn missing_query_is_an_error() {
    assert_eq!(Err(ArgumentError::MissingQuery), Config::new(&tokens(&["minigrep"])));
    assert_eq!(Err(ArgumentError::MissingQuery), Config::new(&tokens(&["minigrep", "-i"])));
    assert_eq!(Err(ArgumentError::MissingQuery), Config::new(&tokens(&[])));
}

#[test]
fn the_name_of_the_program_is_not_read() {
    assert_eq!(
        Err(ArgumentError::MissingFilename),
        Config::new(&tokens(&["duct", "poem.txt"]))
    );
    let config = Config::new(&tokens(&["-i", "duct", "poem.txt"])).unwrap();
    assert!(config.case_sensitive);
}

#[test]
fn further_tokens_are_not_read() {
    let config = Config::new(&tokens(&["minigrep", "duct", "poem.txt", "other.txt", "more"])).unwrap();
    assert_eq!("duct", config.query);
    assert_eq!("poem.txt", config.filename);
}

#[test]
fn an_empty_token_is_a_query_like_any_other() {
    let config = Config::new(&tokens(&["minigrep", "", "poem.txt"])).unwrap();
    assert_eq!("", config.query);
    assert_eq!("poem.txt", config.filename);
}

#[test]
fn only_the_two_spellings_are_the_flag() {
    let config = Config::new(&tokens(&["minigrep", "-I", "--ignore"])).unwrap();
    assert_eq!("-I", config.query);
    assert_eq!("--ignore", config.filename);
    assert!(config.case_sensitive);
}

#[test]
fn errors_have_messages() {
    assert_eq!(
        "not enough arguments: no query was given",
        ArgumentError::MissingQuery.message()
    );
    assert_eq!(
        "not enough arguments: no file name was given",
        ArgumentError::MissingFilename.message()
    );
}

#[test]
fn run_shows_the_lines_found_with_the_query_marked() {
    let contents = "Rust:\nsafe, fast, productive.\nPick three.\nDuct tape.";
    let config = Config::new(&tokens(&["minigrep", "duct", "poem.txt"])).unwrap();
    assert_eq!(
        vec!["safe, fast, pro\u{1b}[1;31mduct\u{1b}[0mive.".to_string()],
        run(&config, contents)
    );
}

#[test]
fn run_without_regard_to_case_marks_each_piece_in_its_own_case() {
    let contents = "Rust:\nsafe, fast, productive.\nPick three.\nDuct tape.";
    let config = Config::new(&tokens(&["minigrep", "-i", "DUCT", "poem.txt"])).unwrap();
    assert_eq!(
        vec![
            "safe, fast, pro\u{1b}[1;31mduct\u{1b}[0mive.".to_string(),
            "\u{1b}[1;31mDuct\u{1b}[0m tape.".to_string(),
        ],
        run(&config, contents)
    );
}

#[test]
fn run_with_the_empty_query_shows_every_line_unmarked() {
    let config = Config::new(&tokens(&["minigrep", "", "poem.txt"])).unwrap();
    assert_eq!(
        vec!["a".to_string(), "".to_string(), "b".to_string()],
        run(&config, "a\n\nb\n")
    );
}

#[test]
fn run_shows_nothing_where_nothing_is_found() {
    let config = Config::new(&tokens(&["minigrep", "zzz", "poem.txt"])).unwrap();
    assert_eq!(Vec::<String>::new(), run(&config, "a\nb"));
}
