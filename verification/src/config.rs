//! The two positional arguments of a search: the query and the file path.

use vstd::prelude::*;

verus! {

/// The message of the one error of [`Config::build`]: fewer than two
/// arguments follow the program's name.
pub const INSUFFICIENT_ARGUMENTS: &'static str = "not enough arguments";

/// What to search for, and in which file.
pub struct Config {
    pub query: String,
    pub file_path: String,
}

/// A [`Config`] as two character sequences.
pub ghost struct ConfigView {
    pub query: Seq<char>,
    pub file_path: Seq<char>,
}

impl View for Config {
    type V = ConfigView;

    open spec fn view(&self) -> ConfigView {
        ConfigView { query: self.query@, file_path: self.file_path@ }
    }
}

/// The configuration that an argument list stands for: argument 1 is the
/// query and argument 2 the file path; argument 0 and whatever follows
/// argument 2 are not read. A list of fewer than three stands for none.
pub open spec fn parse_arguments(args: Seq<Seq<char>>) -> Option<ConfigView> {
    if args.len() < 3 {
        None
    } else {
        Some(ConfigView { query: args[1], file_path: args[2] })
    }
}

/// The arguments of a list as character sequences.
pub open spec fn argument_views(args: Seq<String>) -> Seq<Seq<char>> {
    args.map_values(|a: String| a@)
}

impl Config {
    /// Reads the query and the file path from an argument list whose first
    /// entry is the program's name.
    pub fn build(args: &[String]) -> (result: Result<Config, &'static str>)
        ensures
            result is Err <==> args@.len() < 3,
            match result {
                Ok(config) => parse_arguments(argument_views(args@)) == Some(config@),
                Err(message) => parse_arguments(argument_views(args@)) is None
                    && message@ == INSUFFICIENT_ARGUMENTS@,
            },
    {
        if args.len() < 3 {
            return Err(INSUFFICIENT_ARGUMENTS);
        }
        let query = args[1].clone();
        let file_path = args[2].clone();
        Ok(Config { query, file_path })
    }
}

/// Only arguments 1 and 2 count: two lists of three or more arguments that
/// agree in both stand for the same configuration, whatever their first
/// argument is and whatever follows the third.
pub proof fn lemma_only_query_and_path_count(left: Seq<Seq<char>>, right: Seq<Seq<char>>)
    requires
        left.len() >= 3,
        right.len() >= 3,
        left[1] == right[1],
        left[2] == right[2],
    ensures
        parse_arguments(left) is Some,
        parse_arguments(left) == parse_arguments(right),
{
}

} // verus!
