//! The configuration of one run, read from the tokens of a command line.

use crate::text::{same_text, texts_of};
use vstd::prelude::*;
use vstd::string::*;

verus! {

/// What one run works with.
#[derive(Debug, PartialEq, Eq)]
pub struct Config {
    /// The piece of text that is looked for.
    pub query: String,
    /// The name of the file whose lines are searched.
    pub filename: String,
    /// Whether case counts in the search. It does unless a flag says otherwise.
    pub case_sensitive: bool,
}

/// Why a command line gives no configuration.
#[derive(Debug, Clone, Copy, PartialEq, Eq)]
pub enum ArgumentError {
    /// No query was given, and so no file name either.
    MissingQuery,
    /// A query was given, but no file name.
    MissingFilename,
}

/// The short spelling of the flag that asks for a search without regard to case.
pub open spec fn short_flag() -> Seq<char> {
    seq!['-', 'i']
}

/// The long spelling of the same flag.
pub open spec fn long_flag() -> Seq<char> {
    seq!['-', '-', 'i', 'g', 'n', 'o', 'r', 'e', '-', 'c', 'a', 's', 'e']
}

/// `token` is the flag that asks for a search without regard to case, in one of
/// its two spellings.
pub open spec fn is_flag(token: Seq<char>) -> bool {
    token == short_flag() || token == long_flag()
}

/// The test that a token passes when it is no flag.
pub open spec fn is_positional() -> spec_fn(Seq<char>) -> bool {
    |token: Seq<char>| !is_flag(token)
}

/// The tokens that a command line gives: all but the first, which is the name
/// under which the program was started.
pub open spec fn tokens_given(args: Seq<Seq<char>>) -> Seq<Seq<char>> {
    if args.len() == 0 {
        args
    } else {
        args.skip(1)
    }
}

/// The tokens among `tokens` that are no flag, in order.
pub open spec fn positionals(tokens: Seq<Seq<char>>) -> Seq<Seq<char>> {
    tokens.filter(is_positional())
}

/// One of `tokens` is the flag.
pub open spec fn asks_to_ignore_case(tokens: Seq<Seq<char>>) -> bool {
    exists|i: int| 0 <= i < tokens.len() && is_flag(#[trigger] tokens[i])
}

/// Whether `token` is the flag.
fn token_is_flag(token: &str) -> (flag: bool)
    ensures
        flag == is_flag(token@),
{
    proof {
        reveal_strlit("-i");
        reveal_strlit("--ignore-case");
        assert("-i"@ =~= short_flag());
        assert("--ignore-case"@ =~= long_flag());
    }
    same_text(token, "-i") || same_text(token, "--ignore-case")
}

impl ArgumentError {
    /// What to tell the user, as characters.
    pub open spec fn message_text(self) -> Seq<char> {
        match self {
            ArgumentError::MissingQuery => "not enough arguments: no query was given"@,
            ArgumentError::MissingFilename => "not enough arguments: no file name was given"@,
        }
    }

    /// What to tell the user.
    pub fn message(&self) -> (text: &'static str)
        ensures
            text@ == self.message_text(),
    {
        match self {
            ArgumentError::MissingQuery => "not enough arguments: no query was given",
            ArgumentError::MissingFilename => "not enough arguments: no file name was given",
        }
    }
}

impl Config {
    /// The configuration that the command line `args` asks for.
    ///
    /// The first token of `args` is the name of the program and is not read. Of
    /// the others, each one that is the flag, `-i` or `--ignore-case`, turns the
    /// regard to case off, wherever it stands. The first token that is no flag is
    /// the query and the second is the file name; further ones are not read. A
    /// command line with fewer than two such tokens gives an error that says
    /// which of the two is the first to be missing.
    pub fn new(args: &[String]) -> (parsed: Result<Config, ArgumentError>)
        ensures
            match parsed {
                Ok(config) => {
                    &&& positionals(tokens_given(texts_of(args@))).len() >= 2
                    &&& config.query@ == positionals(tokens_given(texts_of(args@)))[0]
                    &&& config.filename@ == positionals(tokens_given(texts_of(args@)))[1]
                    &&& config.case_sensitive == !asks_to_ignore_case(
                        tokens_given(texts_of(args@)),
                    )
                },
                Err(ArgumentError::MissingQuery) => positionals(
                    tokens_given(texts_of(args@)),
                ).len() == 0,
                Err(ArgumentError::MissingFilename) => positionals(
                    tokens_given(texts_of(args@)),
                ).len() == 1,
            },
    {
        let ghost tokens = tokens_given(texts_of(args@));
        let mut query: Option<String> = None;
        let mut filename: Option<String> = None;
        let mut case_sensitive: bool = true;
        let mut i: usize = 1;
        assert(positionals(tokens.take(0)) =~= Seq::empty()) by {
            reveal(Seq::filter);
        }
        if args.len() == 0 {
            assert(tokens.take(0) =~= tokens);
            return Err(ArgumentError::MissingQuery);
        }
        while i < args.len()
            invariant
                1 <= i <= args.len(),
                tokens == tokens_given(texts_of(args@)),
                case_sensitive == !asks_to_ignore_case(tokens.take(i - 1)),
                query is Some <==> positionals(tokens.take(i - 1)).len() >= 1,
                filename is Some <==> positionals(tokens.take(i - 1)).len() >= 2,
                query is Some ==> query->0@ == positionals(tokens)[0],
                filename is Some ==> filename->0@ == positionals(tokens)[1],
                positionals(tokens.take(i - 1)).is_prefix_of(positionals(tokens)),
            decreases args.len() - i,
        {
            let arg: &String = &args[i];
            let ghost seen = tokens.take(i - 1);
            let ghost kept = positionals(seen);
            proof {
                assert(tokens[i - 1] == arg@);
                assert(tokens.take(i as int) =~= seen.push(arg@));
                seen.lemma_filter_push(arg@, is_positional());
                tokens.take(i as int).lemma_filter_monotone(tokens, is_positional());
            }
            if token_is_flag(arg.as_str()) {
                case_sensitive = false;
                assert(is_flag(tokens.take(i as int)[i - 1]));
            } else {
                proof {
                    assert(positionals(tokens.take(i as int)) == kept.push(arg@));
                    assert(kept.push(arg@)[kept.len() as int] == arg@);
                    assert(positionals(tokens)[kept.len() as int] == arg@);
                    if asks_to_ignore_case(tokens.take(i as int)) {
                        let j = choose|j: int|
                            0 <= j < tokens.take(i as int).len() && is_flag(
                                #[trigger] tokens.take(i as int)[j],
                            );
                        assert(is_flag(seen[j]));
                    }
                }
                if query.is_none() {
                    query = Some(arg.clone());
                } else if filename.is_none() {
                    filename = Some(arg.clone());
                }
            }
            i += 1;
        }
        assert(tokens.take(i - 1) =~= tokens);
        match (query, filename) {
            (Some(query), Some(filename)) => Ok(Config { query, filename, case_sensitive }),
            (Some(_), None) => Err(ArgumentError::MissingFilename),
            _ => Err(ArgumentError::MissingQuery),
        }
    }
}

} // verus!
