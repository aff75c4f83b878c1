//! The command line: which action it asks for, with which options.

use vstd::prelude::*;
use crate::entry::{default_options, Options};

verus! {

/// What the command line asks for.
#[derive(Clone, Copy, Debug, PartialEq, Eq, Structural)]
pub enum Command {
    /// Print the usage text.
    Help,
    /// Print the version.
    Version,
    /// Print the tree of the current directory under these options.
    Run(Options),
}

/// Reads `args[i..]` with `o` the options set so far. `--help` and
/// `--version` decide at once; `-a` shows hidden entries, `-d` directories
/// only, `-l` is accepted and changes nothing; any other word is refused.
pub open spec fn parse_from(args: Seq<String>, i: int, o: Options) -> Result<Command, Seq<char>>
    decreases args.len() - i,
{
    if i >= args.len() {
        Ok(Command::Run(o))
    } else if args[i]@ == "--help"@ {
        Ok(Command::Help)
    } else if args[i]@ == "--version"@ {
        Ok(Command::Version)
    } else if args[i]@ == "-a"@ {
        parse_from(args, i + 1, Options { show_hidden: true, directories_only: o.directories_only })
    } else if args[i]@ == "-d"@ {
        parse_from(args, i + 1, Options { show_hidden: o.show_hidden, directories_only: true })
    } else if args[i]@ == "-l"@ {
        parse_from(args, i + 1, o)
    } else {
        Err(args[i]@)
    }
}

fn is_word(a: &String, w: &str) -> (r: bool)
    ensures
        r == (a@ == w@),
{
    *a == String::from_str(w)
}

/// Reads the command line `args`, whose first word is the program's name.
/// On a word it does not know, returns that word as the error.
pub fn parse_args(args: &Vec<String>) -> (r: Result<Command, String>)
    ensures
        match r {
            Ok(c) => parse_from(args@, 1, default_options()) == Ok::<Command, Seq<char>>(c),
            Err(w) => parse_from(args@, 1, default_options()) == Err::<Command, Seq<char>>(w@),
        },
{
    let mut o = Options::new(false, false);
    let mut i: usize = 1;
    while i < args.len()
        invariant
            1 <= i,
            parse_from(args@, 1, default_options()) == parse_from(args@, i as int, o),
        decreases args@.len() - i,
    {
        let a = &args[i];
        if is_word(a, "--help") {
            return Ok(Command::Help);
        } else if is_word(a, "--version") {
            return Ok(Command::Version);
        } else if is_word(a, "-a") {
            o = Options::new(true, o.directories_only);
        } else if is_word(a, "-d") {
            o = Options::new(o.show_hidden, true);
        } else if !is_word(a, "-l") {
            return Err(a.clone());
        }
        i = i + 1;
    }
    Ok(Command::Run(o))
}

} // verus!
