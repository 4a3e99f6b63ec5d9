//! What the command line asks for.

use crate::config::Suite;
use crate::storage::{variant_named, Variant};
use crate::text::{number_in, parse_u64, parse_usize, same_text, text_view, texts};
use crate::workload::WorkloadConfig;
use vstd::prelude::*;
use vstd::string::*;

verus! {

/// What is to be done with a suite.
#[derive(Debug)]
pub enum Command {
    /// Show where the time of one query goes.
    Profile { suite: Suite, query: usize },
    /// Count the requests that each variant makes.
    Stats { suite: Suite },
    /// Fire a stream of queries.
    Workload { suite: Suite, config: WorkloadConfig },
    /// Run the whole suite.
    Bench { suite: Suite },
}

/// Why a command line cannot be understood.
#[derive(Debug)]
pub enum UsageError {
    /// There is no suite with the name.
    UnknownBenchmark(String),
    /// The number of the query is missing, or is none.
    ProfileUsage(Suite),
    /// There is no variant with the letter.
    UnknownVariant(Suite, String),
}

/// The argument at a place.
pub open spec fn arg(args: Seq<Seq<char>>, i: int) -> Option<Seq<char>> {
    if 0 <= i < args.len() {
        Some(args[i])
    } else {
        None
    }
}

/// The argument at a place, or else the default.
pub open spec fn arg_or(args: Seq<Seq<char>>, i: int, default: Seq<char>) -> Seq<char> {
    match arg(args, i) {
        Some(text) => text,
        None => default,
    }
}

/// The number at a place; `None` if there is no argument or it is no number up
/// to `max`.
pub open spec fn number_arg(args: Seq<Seq<char>>, i: int, max: nat) -> Option<nat> {
    match arg(args, i) {
        Some(text) => number_in(text, max),
        None => None,
    }
}

/// The suite with a name.
pub open spec fn suite_named(name: Seq<char>) -> Option<Suite> {
    if name == "tpch"@ {
        Some(Suite::Tpch)
    } else if name == "tpcds"@ {
        Some(Suite::Tpcds)
    } else {
        None
    }
}

/// The name of a suite names it.
pub proof fn law_names_name_suites(suite: Suite)
    ensures
        suite_named(suite.title()) == Some(suite),
{
    reveal_strlit("tpch");
    reveal_strlit("tpcds");
    assert("tpch"@.len() == 4);
    assert("tpcds"@.len() == 5);
}

/// The workload that the arguments ask for, in a variant.
pub open spec fn workload_asked(
    args: Seq<Seq<char>>,
    variant: Variant,
    config: WorkloadConfig,
) -> bool {
    &&& config.variant == variant
    &&& text_view(config.avg_interval) == arg(args, 4)
    &&& text_view(config.duration) == arg(args, 5)
    &&& config.dist@ == arg_or(args, 6, "uniform"@)
    &&& config.arrival@ == arg_or(args, 7, "fixed"@)
    &&& config.seed == match number_arg(args, 8, u64::MAX as nat) {
        Some(seed) => seed as int,
        None => 42,
    }
}

/// What the arguments ask for.
pub open spec fn understood(args: Seq<Seq<char>>, command: Result<Command, UsageError>) -> bool {
    match suite_named(arg_or(args, 1, "tpch"@)) {
        None => command matches Err(UsageError::UnknownBenchmark(name)) && name@ == arg_or(
            args,
            1,
            "tpch"@,
        ),
        Some(suite) => if arg(args, 2) == Some("profile"@) {
            match number_arg(args, 3, usize::MAX as nat) {
                Some(n) => command == Ok::<Command, UsageError>(
                    Command::Profile { suite, query: n as usize },
                ),
                None => command == Err::<Command, UsageError>(UsageError::ProfileUsage(suite)),
            }
        } else if arg(args, 2) == Some("stats"@) {
            command == Ok::<Command, UsageError>(Command::Stats { suite })
        } else if arg(args, 2) == Some("workload"@) {
            match variant_named(arg_or(args, 3, "a"@)) {
                Some(variant) => command matches Ok(Command::Workload { suite: s, config }) && s
                    == suite && workload_asked(args, variant, config),
                None => command matches Err(UsageError::UnknownVariant(s, letter)) && s == suite
                    && letter@ == arg_or(args, 3, "a"@),
            }
        } else {
            command == Ok::<Command, UsageError>(Command::Bench { suite })
        },
    }
}

/// The argument at a place.
fn get(args: &Vec<String>, i: usize) -> (text: Option<String>)
    ensures
        text_view(text) == arg(texts(args@), i as int),
{
    if i < args.len() {
        Some(String::from_str(args[i].as_str()))
    } else {
        None
    }
}

/// The argument at a place, or else the default.
fn get_or(args: &Vec<String>, i: usize, default: &str) -> (text: String)
    ensures
        text@ == arg_or(texts(args@), i as int, default@),
{
    match get(args, i) {
        Some(text) => text,
        None => String::from_str(default),
    }
}

/// Whether the argument at a place is a word.
fn is_word(args: &Vec<String>, i: usize, word: &str) -> (same: bool)
    ensures
        same == (arg(texts(args@), i as int) == Some(word@)),
{
    match get(args, i) {
        Some(text) => same_text(text.as_str(), word),
        None => false,
    }
}

/// The workload that the arguments ask for, in a variant.
fn workload_config(args: &Vec<String>, variant: Variant) -> (config: WorkloadConfig)
    ensures
        workload_asked(texts(args@), variant, config),
{
    let seed: u64 = match get(args, 8) {
        Some(text) => match parse_u64(text.as_str()) {
            Some(seed) => seed,
            None => 42,
        },
        None => 42,
    };
    WorkloadConfig {
        variant,
        avg_interval: get(args, 4),
        duration: get(args, 5),
        dist: get_or(args, 6, "uniform"),
        arrival: get_or(args, 7, "fixed"),
        seed,
    }
}

/// What the arguments, of which the first is the name of the program, ask for.
pub fn parse_args(args: &Vec<String>) -> (command: Result<Command, UsageError>)
    ensures
        understood(texts(args@), command),
{
    let name: String = get_or(args, 1, "tpch");
    let suite: Suite = if same_text(name.as_str(), "tpch") {
        Suite::Tpch
    } else if same_text(name.as_str(), "tpcds") {
        Suite::Tpcds
    } else {
        return Err(UsageError::UnknownBenchmark(name));
    };
    if is_word(args, 2, "profile") {
        return match get(args, 3) {
            Some(text) => match parse_usize(text.as_str()) {
                Some(query) => Ok(Command::Profile { suite, query }),
                None => Err(UsageError::ProfileUsage(suite)),
            },
            None => Err(UsageError::ProfileUsage(suite)),
        };
    }
    if is_word(args, 2, "stats") {
        return Ok(Command::Stats { suite });
    }
    if is_word(args, 2, "workload") {
        let letter: String = get_or(args, 3, "a");
        return match Variant::parse(letter.as_str()) {
            Some(variant) => Ok(
                Command::Workload { suite, config: workload_config(args, variant) },
            ),
            None => Err(UsageError::UnknownVariant(suite, letter)),
        };
    }
    Ok(Command::Bench { suite })
}

impl UsageError {
    /// What is said of a command line that cannot be understood.
    pub open spec fn said(self) -> Seq<char> {
        match self {
            UsageError::UnknownBenchmark(name) => "unknown benchmark '"@ + name@
                + "'; use 'tpch' or 'tpcds'"@,
            UsageError::ProfileUsage(suite) => "usage: "@ + suite.title()
                + " profile <query_number>"@,
            UsageError::UnknownVariant(_, letter) => "unknown variant '"@ + letter@
                + "'; use a, b, or c"@,
        }
    }

    /// The suite that was asked for, if it is known.
    pub fn suite(&self) -> (suite: Option<Suite>)
        ensures
            suite == match *self {
                UsageError::UnknownBenchmark(_) => None,
                UsageError::ProfileUsage(s) => Some(s),
                UsageError::UnknownVariant(s, _) => Some(s),
            },
    {
        match self {
            UsageError::UnknownBenchmark(_) => None,
            UsageError::ProfileUsage(suite) => Some(*suite),
            UsageError::UnknownVariant(suite, _) => Some(*suite),
        }
    }

    /// What is said of a command line that cannot be understood.
    pub fn message(&self) -> (text: String)
        ensures
            text@ == self.said(),
    {
        match self {
            UsageError::UnknownBenchmark(name) => {
                let mut text: String = String::from_str("unknown benchmark '");
                text.append(name.as_str());
                text.append("'; use 'tpch' or 'tpcds'");
                text
            },
            UsageError::ProfileUsage(suite) => {
                let mut text: String = String::from_str("usage: ");
                text.append(suite.name().as_str());
                text.append(" profile <query_number>");
                text
            },
            UsageError::UnknownVariant(_, letter) => {
                let mut text: String = String::from_str("unknown variant '");
                text.append(letter.as_str());
                text.append("'; use a, b, or c");
                text
            },
        }
    }
}

/// Only the names of suites name one.
pub proof fn law_only_names_name_suites(name: Seq<char>)
    ensures
        suite_named(name) matches Some(suite) ==> name == suite.title(),
        (forall|suite: Suite| name != #[trigger] suite.title()) ==> suite_named(name) is None,
{
    if suite_named(name) is Some {
        assert(name == (suite_named(name)->0).title());
    }
}

/// A default can as well be written out: the suite, the variant of a workload, the
/// distribution of its queries and how they arrive.
pub proof fn law_defaults_can_be_written_out(
    args: Seq<Seq<char>>,
    command: Result<Command, UsageError>,
)
    ensures
        args.len() == 1 ==> (understood(args, command) <==> understood(
            args.push("tpch"@),
            command,
        )),
        args.len() == 3 && args[2] == "workload"@ ==> (understood(args, command) <==> understood(
            args.push("a"@),
            command,
        )),
        args.len() == 6 && args[2] == "workload"@ ==> (understood(args, command) <==> understood(
            args.push("uniform"@),
            command,
        )),
        args.len() == 7 && args[2] == "workload"@ ==> (understood(args, command) <==> understood(
            args.push("fixed"@),
            command,
        )),
        args.len() >= 9 ==> (understood(args, command) <==> understood(
            args.push("more"@),
            command,
        )),
{
    reveal_strlit("profile");
    reveal_strlit("stats");
    reveal_strlit("workload");
    assert("profile"@.len() == 7 && "stats"@.len() == 5 && "workload"@.len() == 8);
    assert forall|more: Seq<char>, i: int| 0 <= i < args.len() implies #[trigger] arg(
        args.push(more),
        i,
    ) == arg(args, i) by {}
}

/// What is understood stands in the arguments: the suite, what is to be done, the number
/// of a query, and how a workload is to be run.
pub proof fn law_commands_stand_in_the_arguments(args: Seq<Seq<char>>, command: Command)
    requires
        understood(args, Ok(command)),
    ensures
        ({
            let suite = match command {
                Command::Profile { suite, .. } => suite,
                Command::Stats { suite } => suite,
                Command::Workload { suite, .. } => suite,
                Command::Bench { suite } => suite,
            };
            if args.len() > 1 {
                args[1] == suite.title()
            } else {
                suite is Tpch
            }
        }),
        command is Profile <==> args.len() > 2 && args[2] == "profile"@,
        command is Stats <==> args.len() > 2 && args[2] == "stats"@,
        command is Workload <==> args.len() > 2 && args[2] == "workload"@,
        command matches Command::Profile { query, .. } ==> args.len() > 3 && number_in(
            args[3],
            usize::MAX as nat,
        ) == Some(query as nat),
        command matches Command::Workload { config, .. } ==> {
            &&& if args.len() > 3 {
                args[3] == config.variant.letter()
            } else {
                config.variant is A
            }
            &&& config.avg_interval is Some <==> args.len() > 4
            &&& config.avg_interval matches Some(text) ==> text@ == args[4]
            &&& config.duration is Some <==> args.len() > 5
            &&& config.duration matches Some(text) ==> text@ == args[5]
            &&& config.dist@ == if args.len() > 6 {
                args[6]
            } else {
                "uniform"@
            }
            &&& config.arrival@ == if args.len() > 7 {
                args[7]
            } else {
                "fixed"@
            }
            &&& args.len() > 8 && number_in(args[8], u64::MAX as nat) is Some ==> number_in(
                args[8],
                u64::MAX as nat,
            ) == Some(config.seed as nat)
            &&& !(args.len() > 8 && number_in(args[8], u64::MAX as nat) is Some) ==> config.seed
                == 42
        },
{
    reveal_strlit("profile");
    reveal_strlit("stats");
    reveal_strlit("workload");
    reveal_strlit("tpch");
    reveal_strlit("tpcds");
    reveal_strlit("a");
    reveal_strlit("b");
    reveal_strlit("c");
    assert("profile"@.len() == 7 && "stats"@.len() == 5 && "workload"@.len() == 8);
    assert("tpch"@.len() == 4 && "tpcds"@.len() == 5);
    assert("a"@[0] == 'a' && "b"@[0] == 'b' && "c"@[0] == 'c');
    law_only_names_name_suites(arg_or(args, 1, "tpch"@));
    crate::storage::law_only_letters_name_variants(arg_or(args, 3, "a"@));
}

} // verus!
