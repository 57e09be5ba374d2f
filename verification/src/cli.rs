//! Command lines of the collector and the agent.

use crate::events::{KW_RUNDOWN, MASK_CORRELATION};
use crate::query::{integer_value, parse_integer};
use crate::split::{first_at, split_once};
use crate::text::same_text;
use vstd::prelude::*;

verus! {

/// Where the collector listens by default.
pub const DEFAULT_BIND: &'static str = "0.0.0.0:2742";

/// Where the collector keeps documents by default.
pub const DEFAULT_ARCHIVE_DIR: &'static str = "./archive";

/// Where a flag first stands among the arguments after the program's name.
pub open spec fn flag_at(args: Seq<String>, flag: Seq<char>, from: int) -> Option<int>
    decreases args.len() - from,
{
    if from >= args.len() {
        None
    } else if args[from]@ == flag {
        Some(from)
    } else {
        flag_at(args, flag, from + 1)
    }
}

/// The value after a flag: nothing without the flag, and an error where the flag is
/// the last argument.
pub open spec fn flag_value(args: Seq<String>, flag: Seq<char>) -> Result<
    Option<Seq<char>>,
    Seq<char>,
> {
    match flag_at(args, flag, 1) {
        None => Ok(None),
        Some(i) => if i + 1 < args.len() {
            Ok(Some(args[i + 1]@))
        } else {
            Err(flag + " needs a value"@)
        },
    }
}

/// Find the value after a flag.
pub fn parse_value<'a>(args: &'a [String], flag: &str) -> (r: Result<Option<&'a str>, String>)
    ensures
        match r {
            Ok(v) => flag_value(args@, flag@) == Ok::<Option<Seq<char>>, Seq<char>>(
                crate::db::opt_str(v),
            ),
            Err(e) => flag_value(args@, flag@) == Err::<Option<Seq<char>>, Seq<char>>(e@),
        },
{
    let mut i: usize = 1;
    while i < args.len()
        invariant
            1 <= i,
            flag_at(args@, flag@, 1) == flag_at(args@, flag@, i as int),
        decreases args@.len() - i,
    {
        if same_text(args[i].as_str(), flag) {
            if i < args.len() - 1 {
                return Ok(Some(args[i + 1].as_str()));
            }
            let mut e = flag.to_owned();
            e.append(" needs a value");
            return Err(e);
        }
        i = i + 1;
    }
    Ok(None)
}

fn value_or(args: &[String], flag: &str, default: &str) -> (r: Result<String, String>)
    ensures
        match r {
            Ok(v) => match flag_value(args@, flag@) {
                Ok(Some(x)) => v@ == x,
                Ok(None) => v@ == default@,
                Err(_) => false,
            },
            Err(e) => flag_value(args@, flag@) == Err::<Option<Seq<char>>, Seq<char>>(e@),
        },
{
    match parse_value(args, flag) {
        Ok(Some(v)) => Ok(v.to_owned()),
        Ok(None) => Ok(default.to_owned()),
        Err(e) => Err(e),
    }
}

/// `--bind <ip:port>`: where to listen.
pub fn parse_bind(args: &[String]) -> (r: Result<String, String>)
    ensures
        match r {
            Ok(v) => match flag_value(args@, "--bind"@) {
                Ok(Some(x)) => v@ == x,
                Ok(None) => v@ == DEFAULT_BIND@,
                Err(_) => false,
            },
            Err(e) => flag_value(args@, "--bind"@) == Err::<Option<Seq<char>>, Seq<char>>(e@),
        },
{
    value_or(args, "--bind", DEFAULT_BIND)
}

/// `--archive-dir <path>`: where to keep documents.
pub fn parse_archive_dir(args: &[String]) -> (r: Result<String, String>)
    ensures
        match r {
            Ok(v) => match flag_value(args@, "--archive-dir"@) {
                Ok(Some(x)) => v@ == x,
                Ok(None) => v@ == DEFAULT_ARCHIVE_DIR@,
                Err(_) => false,
            },
            Err(e) => flag_value(args@, "--archive-dir"@) == Err::<Option<Seq<char>>, Seq<char>>(
                e@,
            ),
        },
{
    value_or(args, "--archive-dir", DEFAULT_ARCHIVE_DIR)
}

/// `--db <path>`: the database; without it documents are only archived.
pub fn parse_db(args: &[String]) -> (r: Result<Option<String>, String>)
    ensures
        match r {
            Ok(v) => flag_value(args@, "--db"@) == Ok::<Option<Seq<char>>, Seq<char>>(
                crate::text::opt_text(v),
            ),
            Err(e) => flag_value(args@, "--db"@) == Err::<Option<Seq<char>>, Seq<char>>(e@),
        },
{
    match parse_value(args, "--db") {
        Ok(Some(v)) => Ok(Some(v.to_owned())),
        Ok(None) => Ok(None),
        Err(e) => Err(e),
    }
}

/// What the agent's trace does.
#[derive(Debug, Clone, Copy, PartialEq, Eq, Structural)]
pub enum Mode {
    /// Print the fields of target events.
    Discover,
    /// Resolve shares and count heat.
    Resolve,
}

/// What the agent is told to do.
#[derive(Debug, Clone)]
pub enum Command {
    /// Take the inventory of a directory for a share.
    Walk { share: String, root: String },
    /// A walk without its share or its directory.
    WalkUsage,
    /// Trace with a mode and a keyword mask.
    Trace { mode: Mode, mask: u64 },
    /// A mode that there is not.
    UnknownMode(String),
}

/// The mathematical value of a command.
pub enum CommandView {
    Walk { share: Seq<char>, root: Seq<char> },
    WalkUsage,
    Trace { mode: Mode, mask: u64 },
    UnknownMode(Seq<char>),
}

impl View for Command {
    type V = CommandView;

    open spec fn view(&self) -> CommandView {
        match self {
            Command::Walk { share, root } => CommandView::Walk { share: share@, root: root@ },
            Command::WalkUsage => CommandView::WalkUsage,
            Command::Trace { mode, mask } => CommandView::Trace { mode: *mode, mask: *mask },
            Command::UnknownMode(m) => CommandView::UnknownMode(m@),
        }
    }
}

/// A word stands among the arguments.
pub open spec fn has_word(args: Seq<String>, word: Seq<char>) -> bool {
    exists|i: int| 0 <= i < args.len() && (#[trigger] args[i])@ == word
}

/// The keyword mask of a trace: the correlation backbone and, where asked for, the
/// enumeration of what existed before.
pub open spec fn trace_mask(rundown: bool) -> u64 {
    if rundown {
        MASK_CORRELATION | KW_RUNDOWN
    } else {
        MASK_CORRELATION
    }
}

/// What the agent's arguments say. Without a mode it resolves.
pub open spec fn command_of(args: Seq<String>) -> CommandView {
    let mask = trace_mask(has_word(args, "--rundown"@));
    if args.len() <= 1 {
        CommandView::Trace { mode: Mode::Resolve, mask }
    } else if args[1]@ == "walk"@ {
        if args.len() > 3 {
            CommandView::Walk { share: args[2]@, root: args[3]@ }
        } else {
            CommandView::WalkUsage
        }
    } else if args[1]@ == "discover"@ {
        CommandView::Trace { mode: Mode::Discover, mask }
    } else if args[1]@ == "resolve"@ {
        CommandView::Trace { mode: Mode::Resolve, mask }
    } else {
        CommandView::UnknownMode(args[1]@)
    }
}

fn contains_word(args: &[String], word: &str) -> (r: bool)
    ensures
        r == has_word(args@, word@),
{
    let mut i: usize = 0;
    while i < args.len()
        invariant
            i <= args@.len(),
            forall|j: int| 0 <= j < i ==> (#[trigger] args@[j])@ != word@,
        decreases args@.len() - i,
    {
        if same_text(args[i].as_str(), word) {
            assert(args@[i as int]@ == word@);
            return true;
        }
        i = i + 1;
    }
    false
}

/// Read the agent's arguments.
pub fn parse_command(args: &[String]) -> (r: Command)
    ensures
        r@ == command_of(args@),
{
    let mask: u64 = if contains_word(args, "--rundown") {
        MASK_CORRELATION | KW_RUNDOWN
    } else {
        MASK_CORRELATION
    };
    proof {
        reveal_strlit("walk");
        reveal_strlit("discover");
        reveal_strlit("resolve");
    }
    if args.len() <= 1 {
        Command::Trace { mode: Mode::Resolve, mask }
    } else if same_text(args[1].as_str(), "walk") {
        if args.len() > 3 {
            Command::Walk { share: args[2].clone(), root: args[3].clone() }
        } else {
            Command::WalkUsage
        }
    } else if same_text(args[1].as_str(), "discover") {
        Command::Trace { mode: Mode::Discover, mask }
    } else if same_text(args[1].as_str(), "resolve") {
        Command::Trace { mode: Mode::Resolve, mask }
    } else {
        Command::UnknownMode(args[1].clone())
    }
}

/// A share to walk, from `NAME=PATH`: the name in lower case is the caller's to make.
pub fn parse_share(text: &str) -> (r: Option<(String, String)>)
    ensures
        match r {
            Some((name, path)) => {
                &&& first_at(text@, '=') < text@.len()
                &&& name@ == text@.take(first_at(text@, '='))
                &&& path@ == text@.skip(first_at(text@, '=') + 1)
            },
            None => first_at(text@, '=') == text@.len(),
        },
{
    match split_once(text, '=') {
        Some((name, path)) => Some((name.to_owned(), path.to_owned())),
        None => None,
    }
}

/// `--flush-secs <n>`: seconds between flushes.
pub fn parse_flush_secs(args: &[String], default: u64) -> (r: Result<u64, String>)
    ensures
        match r {
            Ok(n) => match flag_value(args@, "--flush-secs"@) {
                Ok(Some(x)) => integer_value(x) == Some(n as int) && n > 0,
                Ok(None) => n == default,
                Err(_) => false,
            },
            Err(e) => match flag_value(args@, "--flush-secs"@) {
                Ok(Some(x)) => {
                    &&& integer_value(x) is Some ==> integer_value(x)->0 <= 0
                    &&& e@ == "--flush-secs needs a positive number"@
                },
                Ok(None) => false,
                Err(reason) => e@ == reason,
            },
        },
{
    match parse_value(args, "--flush-secs") {
        Ok(Some(v)) => match parse_integer(v) {
            Some(n) => if n > 0 {
                Ok(n as u64)
            } else {
                Err("--flush-secs needs a positive number".to_owned())
            },
            None => Err("--flush-secs needs a positive number".to_owned()),
        },
        Ok(None) => Ok(default),
        Err(e) => Err(e),
    }
}

} // verus!
