//! What a command line asks for.
//!
//! The surface is four subcommands and a dozen flags: a plain walk over the
//! arguments. Whether a text is a number with a fraction is for the caller to
//! say.

use crate::number::{decimal, parse_u64, parse_usize, spelled_within};
use crate::path::{path_of, FieldPath, PathReading};
use crate::tally::texts;
use crate::text;
use vstd::prelude::*;
use vstd::string::StringExecFns;

verus! {

/// A subcommand.
#[derive(Debug, Clone, Copy, PartialEq, Eq, Structural)]
pub enum Command {
    Head,
    Sample,
    Stats,
    Schema,
}

/// A flag of a subcommand.
#[derive(Debug, Clone, Copy, PartialEq, Eq, Structural)]
pub enum Flag {
    /// `-n N`: how many lines.
    Lines,
    /// `--seed S`: the seed of a sample.
    Seed,
    /// `--field PATH`: a field to profile; may be repeated.
    Field,
    /// `--top N`: how many values to list per field.
    Top,
    /// `--max-errors N`: how many broken lines to list.
    MaxErrors,
    /// `--depth N`: how many path segments to descend.
    Depth,
    /// `--min-rate R`: how often a path has to be present.
    MinRate,
    /// `--json`: machine-readable output.
    Json,
}

/// The name of a subcommand.
pub open spec fn command_name(command: Command) -> Seq<char> {
    match command {
        Command::Head => "head"@,
        Command::Sample => "sample"@,
        Command::Stats => "stats"@,
        Command::Schema => "schema"@,
    }
}

/// How a flag is written.
pub open spec fn flag_name(flag: Flag) -> Seq<char> {
    match flag {
        Flag::Lines => "-n"@,
        Flag::Seed => "--seed"@,
        Flag::Field => "--field"@,
        Flag::Top => "--top"@,
        Flag::MaxErrors => "--max-errors"@,
        Flag::Depth => "--depth"@,
        Flag::MinRate => "--min-rate"@,
        Flag::Json => "--json"@,
    }
}

/// A subcommand has a flag.
pub open spec fn has_flag(command: Command, flag: Flag) -> bool {
    match command {
        Command::Head => flag is Lines,
        Command::Sample => flag is Lines || flag is Seed,
        Command::Stats => flag is Field || flag is Top || flag is MaxErrors || flag is Json,
        Command::Schema => flag is Depth || flag is MinRate || flag is Json,
    }
}

/// The flag of a subcommand that a word is.
pub open spec fn flag_of(command: Command, word: Seq<char>) -> Option<Flag> {
    if has_flag(command, Flag::Lines) && word == "-n"@ {
        Some(Flag::Lines)
    } else if has_flag(command, Flag::Seed) && word == "--seed"@ {
        Some(Flag::Seed)
    } else if has_flag(command, Flag::Field) && word == "--field"@ {
        Some(Flag::Field)
    } else if has_flag(command, Flag::Top) && word == "--top"@ {
        Some(Flag::Top)
    } else if has_flag(command, Flag::MaxErrors) && word == "--max-errors"@ {
        Some(Flag::MaxErrors)
    } else if has_flag(command, Flag::Depth) && word == "--depth"@ {
        Some(Flag::Depth)
    } else if has_flag(command, Flag::MinRate) && word == "--min-rate"@ {
        Some(Flag::MinRate)
    } else if has_flag(command, Flag::Json) && word == "--json"@ {
        Some(Flag::Json)
    } else {
        None
    }
}

/// A word asks for help.
pub open spec fn is_help(word: Seq<char>) -> bool {
    word == "-h"@ || word == "--help"@
}

/// What a subcommand was given, as mathematics.
#[verifier::ext_equal]
pub struct Settings {
    pub lines: nat,
    pub seed: Option<nat>,
    pub fields: Seq<Seq<char>>,
    pub top: nat,
    pub max_errors: nat,
    pub depth: nat,
    pub min_rate: Option<Seq<char>>,
    pub json: bool,
    pub file: Option<Seq<char>>,
}

/// What holds where nothing is given.
pub open spec fn defaults() -> Settings {
    Settings {
        lines: 10,
        seed: None,
        fields: Seq::empty(),
        top: 10,
        max_errors: 10,
        depth: 3,
        min_rate: None,
        json: false,
        file: None,
    }
}

/// What the arguments of a subcommand come to: settings, a call for help, or a
/// mistake and its description.
pub enum Reply {
    Run(Settings),
    Help,
    Mistake(Seq<char>),
}

/// A value that a flag cannot take.
pub open spec fn invalid_value(flag: Flag, value: Seq<char>) -> Seq<char> {
    "invalid value for "@ + flag_name(flag) + ": '"@ + value + "'"@
}

/// A number that fits a machine word.
pub open spec fn as_size(value: Seq<char>) -> Option<int> {
    spelled_within(value, false, 0, usize::MAX as int)
}

/// The settings after a flag with its value. `is_rate` says whether the value
/// is a number that may have a fraction.
pub open spec fn set(
    settings: Settings,
    flag: Flag,
    value: Seq<char>,
    is_rate: bool,
) -> Result<Settings, Seq<char>> {
    match flag {
        Flag::Lines => match as_size(value) {
            Some(n) => Ok((Settings { lines: n as nat, ..settings })),
            None => Err(invalid_value(flag, value)),
        },
        Flag::Seed => match spelled_within(value, false, 0, u64::MAX as int) {
            Some(n) => Ok((Settings { seed: Some(n as nat), ..settings })),
            None => Err(invalid_value(flag, value)),
        },
        Flag::Field => match path_of(value) {
            PathReading::Path(_) => Ok((Settings { fields: settings.fields.push(value), ..settings })),
            PathReading::Bad(p, message) => Err(
                "invalid --field '"@ + value + "': "@ + ("at position "@ + decimal(p) + ": "@
                    + message),
            ),
        },
        Flag::Top => match as_size(value) {
            Some(n) => Ok((Settings { top: n as nat, ..settings })),
            None => Err(invalid_value(flag, value)),
        },
        Flag::MaxErrors => match as_size(value) {
            Some(n) => Ok((Settings { max_errors: n as nat, ..settings })),
            None => Err(invalid_value(flag, value)),
        },
        Flag::Depth => match as_size(value) {
            Some(n) => Ok((Settings { depth: n as nat, ..settings })),
            None => Err(invalid_value(flag, value)),
        },
        Flag::MinRate => if is_rate {
            Ok((Settings { min_rate: Some(value), ..settings }))
        } else {
            Err(invalid_value(flag, value))
        },
        Flag::Json => Ok(settings),
    }
}

/// What the arguments of a subcommand from `i` on come to, given the settings
/// so far. `rates` says of each argument whether it is a number that may have a
/// fraction.
pub open spec fn reply_from(
    command: Command,
    args: Seq<Seq<char>>,
    rates: Seq<bool>,
    i: nat,
    settings: Settings,
) -> Reply
    decreases args.len() - i,
{
    if i >= args.len() {
        Reply::Run(settings)
    } else {
        let word = args[i as int];
        match flag_of(command, word) {
            Some(Flag::Json) => reply_from(
                command,
                args,
                rates,
                i + 1,
                Settings { json: true, ..settings },
            ),
            Some(flag) => if i + 1 >= args.len() {
                Reply::Mistake(word + " requires a value"@)
            } else {
                match set(settings, flag, args[i as int + 1], rates[i as int + 1]) {
                    Ok(next) => reply_from(command, args, rates, i + 2, next),
                    Err(message) => Reply::Mistake(message),
                }
            },
            None => if is_help(word) {
                Reply::Help
            } else if settings.file is None && !(word.len() > 0 && word[0] == '-') {
                reply_from(
                    command,
                    args,
                    rates,
                    i + 1,
                    Settings { file: Some(word), ..settings },
                )
            } else {
                Reply::Mistake("unexpected argument '"@ + word + "'"@)
            },
        }
    }
}

/// What the arguments of a subcommand come to.
pub open spec fn reply_to(command: Command, args: Seq<Seq<char>>, rates: Seq<bool>) -> Reply {
    reply_from(command, args, rates, 0, defaults())
}

/// What a subcommand was given.
#[derive(Debug)]
pub struct Options {
    /// How many lines to show.
    pub lines: usize,
    /// The seed of a sample.
    pub seed: Option<u64>,
    /// The fields to profile.
    pub fields: Vec<FieldPath>,
    /// How many values to list per field.
    pub top: usize,
    /// How many broken lines to list.
    pub max_errors: usize,
    /// How many path segments to descend.
    pub depth: usize,
    /// How often a path has to be present, as it was written.
    pub min_rate: Option<String>,
    /// Whether to write JSON.
    pub json: bool,
    /// The input, if it is not standard input.
    pub file: Option<String>,
}

/// The text of an optional string.
pub open spec fn text_of(s: Option<String>) -> Option<Seq<char>> {
    match s {
        Some(s) => Some(s@),
        None => None,
    }
}

/// How some paths are written.
pub open spec fn path_texts(paths: Seq<FieldPath>) -> Seq<Seq<char>> {
    paths.map_values(|p: FieldPath| p.text())
}

impl View for Options {
    type V = Settings;

    open spec fn view(&self) -> Settings {
        Settings {
            lines: self.lines as nat,
            seed: match self.seed {
                Some(s) => Some(s as nat),
                None => None,
            },
            fields: path_texts(self.fields@),
            top: self.top as nat,
            max_errors: self.max_errors as nat,
            depth: self.depth as nat,
            min_rate: text_of(self.min_rate),
            json: self.json,
            file: text_of(self.file),
        }
    }
}

impl Options {
    /// The fields have the steps that their texts spell.
    pub open spec fn wf(&self) -> bool {
        forall|i: int|
            0 <= i < self.fields@.len() ==> path_of((#[trigger] self.fields@[i]).text())
                == PathReading::Path(self.fields@[i].steps())
    }
}

impl Default for Options {
    fn default() -> (options: Self)
        ensures
            options@ == defaults(),
            options.wf(),
    {
        let options = Options {
            lines: 10,
            seed: None,
            fields: Vec::new(),
            top: 10,
            max_errors: 10,
            depth: 3,
            min_rate: None,
            json: false,
            file: None,
        };
        assert(options@ =~= defaults());
        options
    }
}

/// What the arguments of a subcommand come to.
#[derive(Debug)]
pub enum Parsed {
    /// Run with these options.
    Run(Options),
    /// Show how the subcommand is used.
    Help,
    /// Report a mistake.
    Mistake(String),
}

impl Command {
    /// The name of the subcommand.
    pub fn name(self) -> (name: &'static str)
        ensures
            name@ == command_name(self),
    {
        match self {
            Command::Head => "head",
            Command::Sample => "sample",
            Command::Stats => "stats",
            Command::Schema => "schema",
        }
    }

    /// The subcommand with the given name.
    pub fn named(word: &str) -> (command: Option<Command>)
        ensures
            match command {
                Some(c) => word@ == command_name(c),
                None => forall|c: Command| word@ != #[trigger] command_name(c),
            },
    {
        if text::same(word, "head") {
            Some(Command::Head)
        } else if text::same(word, "sample") {
            Some(Command::Sample)
        } else if text::same(word, "stats") {
            Some(Command::Stats)
        } else if text::same(word, "schema") {
            Some(Command::Schema)
        } else {
            assert forall|c: Command| word@ != #[trigger] command_name(c) by {
                match c {
                    Command::Head => {},
                    Command::Sample => {},
                    Command::Stats => {},
                    Command::Schema => {},
                }
            }
            None
        }
    }

    /// The flag of the subcommand that a word is.
    fn flag(self, word: &str) -> (flag: Option<Flag>)
        ensures
            flag == flag_of(self, word@),
    {
        let head: bool = matches!(self, Command::Head);
        let sample: bool = matches!(self, Command::Sample);
        let stats: bool = matches!(self, Command::Stats);
        let schema: bool = matches!(self, Command::Schema);
        if (head || sample) && text::same(word, "-n") {
            Some(Flag::Lines)
        } else if sample && text::same(word, "--seed") {
            Some(Flag::Seed)
        } else if stats && text::same(word, "--field") {
            Some(Flag::Field)
        } else if stats && text::same(word, "--top") {
            Some(Flag::Top)
        } else if stats && text::same(word, "--max-errors") {
            Some(Flag::MaxErrors)
        } else if schema && text::same(word, "--depth") {
            Some(Flag::Depth)
        } else if schema && text::same(word, "--min-rate") {
            Some(Flag::MinRate)
        } else if (stats || schema) && text::same(word, "--json") {
            Some(Flag::Json)
        } else {
            None
        }
    }

    /// Reads the arguments of the subcommand. `rates` says of each of them
    /// whether it is a number that may have a fraction.
    pub fn parse(self, args: &[String], rates: &[bool]) -> (parsed: Parsed)
        requires
            args@.len() == rates@.len(),
        ensures
            match (parsed, reply_to(self, texts(args@), rates@)) {
                (Parsed::Run(options), Reply::Run(settings)) => {
                    &&& options@ == settings
                    &&& options.wf()
                    &&& options.lines == settings.lines
                    &&& options.top == settings.top
                    &&& options.max_errors == settings.max_errors
                    &&& options.depth == settings.depth
                    &&& options.json == settings.json
                    &&& options.seed is Some == settings.seed is Some
                    &&& options.seed matches Some(seed) ==> seed == settings.seed->0
                    &&& options.file is Some == settings.file is Some
                    &&& options.file matches Some(file) ==> file@ == settings.file->0
                    &&& options.min_rate is Some == settings.min_rate is Some
                    &&& options.min_rate matches Some(rate) ==> rate@ == settings.min_rate->0
                    &&& options.fields@.len() == settings.fields.len()
                    &&& forall|i: int|
                        0 <= i < options.fields@.len() ==> (#[trigger] options.fields@[i]).text()
                            == settings.fields[i]
                },
                (Parsed::Help, Reply::Help) => true,
                (Parsed::Mistake(message), Reply::Mistake(m)) => message@ == m,
                _ => false,
            },
    {
        let ghost words = texts(args@);
        let mut options: Options = Options::default();
        let mut i: usize = 0;
        while i < args.len()
            invariant
                i <= args@.len() == rates@.len(),
                words == texts(args@),
                options.wf(),
                reply_to(self, words, rates@) == reply_from(
                    self,
                    words,
                    rates@,
                    i as nat,
                    options@,
                ),
            decreases args@.len() - i,
        {
            let word: &str = args[i].as_str();
            assert(words[i as int] == word@);
            match self.flag(word) {
                Some(Flag::Json) => {
                    let ghost before = options@;
                    options.json = true;
                    assert(options@ =~= (Settings { json: true, ..before }));
                    i = i + 1;
                },
                Some(flag) => {
                    if args.len() - i < 2 {
                        let mut message: String = word.to_owned();
                        message.append(" requires a value");
                        return Parsed::Mistake(message);
                    }
                    assert(words[i as int + 1] == args@[i as int + 1]@);
                    match options.apply(flag, args[i + 1].as_str(), rates[i + 1]) {
                        Ok(()) => {},
                        Err(message) => {
                            return Parsed::Mistake(message);
                        },
                    }
                    i = i + 2;
                },
                None => {
                    if text::same(word, "-h") || text::same(word, "--help") {
                        return Parsed::Help;
                    }
                    if options.file.is_none() && !starts_with_dash(word) {
                        let ghost before = options@;
                        options.file = Some(word.to_owned());
                        assert(options@ =~= (Settings { file: Some(word@), ..before }));
                        i = i + 1;
                    } else {
                        let mut message: String = "unexpected argument '".to_owned();
                        message.append(word);
                        message.append("'");
                        return Parsed::Mistake(message);
                    }
                },
            }
        }
        Parsed::Run(options)
    }
}

/// What the first word of a command line calls for.
#[derive(Debug)]
pub enum Start {
    /// There is no word.
    Nothing,
    /// A call for help.
    Help,
    /// A subcommand.
    Command(Command),
    /// A mistake.
    Mistake(String),
}

/// Looks at the first word of a command line.
pub fn start(args: &[String]) -> (start: Start)
    ensures
        match start {
            Start::Nothing => args@.len() == 0,
            Start::Help => args@.len() > 0 && is_help(args@[0]@),
            Start::Command(command) => args@.len() > 0 && args@[0]@ == command_name(command),
            Start::Mistake(message) => args@.len() > 0 && !is_help(args@[0]@) && (forall|
                c: Command,
            |
                args@[0]@ != #[trigger] command_name(c)) && message@ == "unknown command '"@
                + args@[0]@ + "'"@,
        },
{
    if args.len() == 0 {
        return Start::Nothing;
    }
    let word: &str = args[0].as_str();
    match Command::named(word) {
        Some(command) => Start::Command(command),
        None => {
            if text::same(word, "-h") || text::same(word, "--help") {
                return Start::Help;
            }
            let mut message: String = "unknown command '".to_owned();
            message.append(word);
            message.append("'");
            Start::Mistake(message)
        },
    }
}

/// Whether a word starts with a dash.
fn starts_with_dash(word: &str) -> (dashed: bool)
    ensures
        dashed == (word@.len() > 0 && word@[0] == '-'),
{
    if word.is_empty() {
        assert(word@ =~= Seq::empty());
        false
    } else {
        word.get_char(0) == '-'
    }
}

impl Flag {
    /// How the flag is written.
    fn name(self) -> (name: &'static str)
        ensures
            name@ == flag_name(self),
    {
        match self {
            Flag::Lines => "-n",
            Flag::Seed => "--seed",
            Flag::Field => "--field",
            Flag::Top => "--top",
            Flag::MaxErrors => "--max-errors",
            Flag::Depth => "--depth",
            Flag::MinRate => "--min-rate",
            Flag::Json => "--json",
        }
    }
}

/// A value that a flag cannot take.
fn invalid(flag: Flag, value: &str) -> (message: String)
    ensures
        message@ == invalid_value(flag, value@),
{
    let mut message: String = "invalid value for ".to_owned();
    message.append(flag.name());
    message.append(": '");
    message.append(value);
    message.append("'");
    message
}

/// A number that fits a machine word, or the complaint that there is none.
fn size_of(flag: Flag, value: &str) -> (n: Result<usize, String>)
    ensures
        match n {
            Ok(n) => as_size(value@) == Some(n as int),
            Err(message) => as_size(value@) is None && message@ == invalid_value(flag, value@),
        },
{
    match parse_usize(value) {
        Some(n) => Ok(n),
        None => Err(invalid(flag, value)),
    }
}

impl Options {
    /// Takes in a flag with its value.
    fn apply(&mut self, flag: Flag, value: &str, is_rate: bool) -> (applied: Result<(), String>)
        requires
            old(self).wf(),
        ensures
            final(self).wf(),
            match (applied, set(old(self)@, flag, value@, is_rate)) {
                (Ok(()), Ok(settings)) => final(self)@ == settings,
                (Err(message), Err(m)) => message@ == m,
                _ => false,
            },
    {
        match flag {
            Flag::Lines => match size_of(flag, value) {
                Ok(n) => {
                    self.lines = n;
                    Ok(())
                },
                Err(message) => Err(message),
            },
            Flag::Seed => match parse_u64(value) {
                Some(n) => {
                    self.seed = Some(n);
                    Ok(())
                },
                None => Err(invalid(flag, value)),
            },
            Flag::Field => match FieldPath::parse(value) {
                Ok(path) => {
                    let ghost before = self.fields@;
                    self.fields.push(path);
                    assert(path_texts(self.fields@) =~= path_texts(before).push(value@));
                    Ok(())
                },
                Err(error) => {
                    let mut message: String = "invalid --field '".to_owned();
                    message.append(value);
                    message.append("': ");
                    message.append(error.to_text().as_str());
                    Err(message)
                },
            },
            Flag::Top => match size_of(flag, value) {
                Ok(n) => {
                    self.top = n;
                    Ok(())
                },
                Err(message) => Err(message),
            },
            Flag::MaxErrors => match size_of(flag, value) {
                Ok(n) => {
                    self.max_errors = n;
                    Ok(())
                },
                Err(message) => Err(message),
            },
            Flag::Depth => match size_of(flag, value) {
                Ok(n) => {
                    self.depth = n;
                    Ok(())
                },
                Err(message) => Err(message),
            },
            Flag::MinRate => if is_rate {
                self.min_rate = Some(value.to_owned());
                Ok(())
            } else {
                Err(invalid(flag, value))
            },
            Flag::Json => Ok(()),
        }
    }
}

/// A word that a subcommand reads together with the word after it.
pub open spec fn takes_value(command: Command, word: Seq<char>) -> bool {
    match command {
        Command::Head => word == "-n"@,
        Command::Sample => word == "-n"@ || word == "--seed"@,
        Command::Stats => word == "--field"@ || word == "--top"@ || word == "--max-errors"@,
        Command::Schema => word == "--depth"@ || word == "--min-rate"@,
    }
}

/// The argument at `k` stands on its own: it is not the value of the one before
/// it.
pub open spec fn stands_alone(command: Command, args: Seq<Seq<char>>, k: int) -> bool
    decreases k,
{
    k <= 0 || !(stands_alone(command, args, k - 1) && takes_value(command, args[k - 1]))
}

/// The argument at `k` is the given flag, with its value after it.
pub open spec fn flag_at(
    command: Command,
    args: Seq<Seq<char>>,
    flag: Seq<char>,
    k: int,
) -> bool {
    stands_alone(command, args, k) && takes_value(command, args[k]) && args[k] == flag
}

/// The argument at `k` asks for machine-readable output.
pub open spec fn json_at(command: Command, args: Seq<Seq<char>>, k: int) -> bool {
    stands_alone(command, args, k) && (command is Stats || command is Schema) && args[k]
        == "--json"@
}

/// The argument at `k` is no flag.
pub open spec fn operand_at(command: Command, args: Seq<Seq<char>>, k: int) -> bool {
    stands_alone(command, args, k) && !takes_value(command, args[k]) && !json_at(command, args, k)
}

/// The value that a flag has last among the first `n` arguments.
pub open spec fn last_value(
    command: Command,
    args: Seq<Seq<char>>,
    flag: Seq<char>,
    n: int,
) -> Option<Seq<char>>
    decreases n,
{
    if n <= 0 {
        None
    } else if flag_at(command, args, flag, n - 1) {
        Some(args[n])
    } else {
        last_value(command, args, flag, n - 1)
    }
}

/// The values that a flag has among the first `n` arguments, in order.
pub open spec fn all_values(
    command: Command,
    args: Seq<Seq<char>>,
    flag: Seq<char>,
    n: int,
) -> Seq<Seq<char>>
    decreases n,
{
    if n <= 0 {
        Seq::empty()
    } else if flag_at(command, args, flag, n - 1) {
        all_values(command, args, flag, n - 1).push(args[n])
    } else {
        all_values(command, args, flag, n - 1)
    }
}

/// What a number is set to: what the text spells that was given for it, or what
/// holds where none was given.
pub open spec fn set_by(given: Option<Seq<char>>, otherwise: nat, n: nat) -> bool {
    match given {
        None => n == otherwise,
        Some(text) => spelled_within(text, false, 0, usize::MAX as int) == Some(n as int),
    }
}

/// Settings are what the first `n` arguments give: for each flag the last value
/// that it has, all values for a field, and the one argument that is no flag.
pub open spec fn given_by(
    settings: Settings,
    command: Command,
    args: Seq<Seq<char>>,
    n: int,
) -> bool {
    &&& set_by(last_value(command, args, "-n"@, n), 10, settings.lines)
    &&& set_by(last_value(command, args, "--top"@, n), 10, settings.top)
    &&& set_by(last_value(command, args, "--max-errors"@, n), 10, settings.max_errors)
    &&& set_by(last_value(command, args, "--depth"@, n), 3, settings.depth)
    &&& match last_value(command, args, "--seed"@, n) {
        None => settings.seed is None,
        Some(text) => settings.seed is Some && spelled_within(text, false, 0, u64::MAX as int)
            == Some(settings.seed->0 as int),
    }
    &&& settings.min_rate == last_value(command, args, "--min-rate"@, n)
    &&& settings.fields == all_values(command, args, "--field"@, n)
    &&& settings.json <==> exists|k: int| 0 <= k < n && #[trigger] json_at(command, args, k)
    &&& match settings.file {
        None => forall|k: int| 0 <= k < n ==> !(#[trigger] operand_at(command, args, k)),
        Some(file) => exists|k: int|
            0 <= k < n && #[trigger] operand_at(command, args, k) && args[k] == file,
    }
}

/// A flag can have a value.
pub open spec fn can_have(flag: Seq<char>, value: Seq<char>, is_rate: bool) -> bool {
    if flag == "--seed"@ {
        spelled_within(value, false, 0, u64::MAX as int) is Some
    } else if flag == "--field"@ {
        path_of(value) is Path
    } else if flag == "--min-rate"@ {
        is_rate
    } else {
        spelled_within(value, false, 0, usize::MAX as int) is Some
    }
}

/// The argument at `k` is in order: a flag with a value that it can have, a call
/// for machine-readable output, or the first argument that is no flag and does not
/// look like one.
pub open spec fn in_order(
    command: Command,
    args: Seq<Seq<char>>,
    rates: Seq<bool>,
    k: int,
) -> bool {
    if takes_value(command, args[k]) {
        k + 1 < args.len() && can_have(args[k], args[k + 1], rates[k + 1])
    } else {
        json_at(command, args, k) || (!(args[k] == "-h"@ || args[k] == "--help"@) && !(
        args[k].len() > 0 && args[k][0] == '-') && forall|j: int|
            0 <= j < k ==> !(#[trigger] operand_at(command, args, j)))
    }
}

/// Each argument before `k` that stands on its own is in order.
pub open spec fn in_order_up_to(
    command: Command,
    args: Seq<Seq<char>>,
    rates: Seq<bool>,
    k: int,
) -> bool {
    forall|j: int|
        0 <= j < k && #[trigger] stands_alone(command, args, j) ==> in_order(
            command,
            args,
            rates,
            j,
        )
}

/// What is wrong with the argument at `k`.
pub open spec fn complaint(command: Command, args: Seq<Seq<char>>, k: int) -> Seq<char> {
    if !takes_value(command, args[k]) {
        "unexpected argument '"@ + args[k] + "'"@
    } else if k + 1 >= args.len() {
        args[k] + " requires a value"@
    } else if args[k] == "--field"@ {
        match path_of(args[k + 1]) {
            PathReading::Bad(p, message) => "invalid --field '"@ + args[k + 1] + "': "@ + (
            "at position "@ + decimal(p) + ": "@ + message),
            PathReading::Path(_) => Seq::empty(),
        }
    } else {
        "invalid value for "@ + args[k] + ": '"@ + args[k + 1] + "'"@
    }
}

/// The argument at `k` is the first that is not in order.
pub open spec fn first_out_of_order(
    command: Command,
    args: Seq<Seq<char>>,
    rates: Seq<bool>,
    k: int,
) -> bool {
    &&& 0 <= k < args.len()
    &&& stands_alone(command, args, k)
    &&& !in_order(command, args, rates, k)
    &&& in_order_up_to(command, args, rates, k)
}

/// What the arguments come to says of them what it should.
pub open spec fn is_reply(
    reply: Reply,
    command: Command,
    args: Seq<Seq<char>>,
    rates: Seq<bool>,
) -> bool {
    match reply {
        Reply::Run(settings) => in_order_up_to(command, args, rates, args.len() as int)
            && given_by(settings, command, args, args.len() as int),
        Reply::Help => exists|k: int| #[trigger]
            first_out_of_order(command, args, rates, k) && (args[k] == "-h"@ || args[k]
                == "--help"@),
        Reply::Mistake(message) => exists|k: int| #[trigger]
            first_out_of_order(command, args, rates, k) && !(args[k] == "-h"@ || args[k]
                == "--help"@) && message == complaint(command, args, k),
    }
}

/// The words of the command line are all different.
proof fn lemma_words_differ()
    ensures
        "-n"@ != "--seed"@,
        "-n"@ != "--field"@,
        "-n"@ != "--top"@,
        "-n"@ != "--max-errors"@,
        "-n"@ != "--depth"@,
        "-n"@ != "--min-rate"@,
        "-n"@ != "--json"@,
        "-n"@ != "-h"@,
        "-n"@ != "--help"@,
        "--seed"@ != "--field"@,
        "--seed"@ != "--top"@,
        "--seed"@ != "--max-errors"@,
        "--seed"@ != "--depth"@,
        "--seed"@ != "--min-rate"@,
        "--seed"@ != "--json"@,
        "--seed"@ != "--help"@,
        "--seed"@ != "-h"@,
        "--field"@ != "--top"@,
        "--field"@ != "--max-errors"@,
        "--field"@ != "--depth"@,
        "--field"@ != "--min-rate"@,
        "--field"@ != "--json"@,
        "--field"@ != "--help"@,
        "--field"@ != "-h"@,
        "--top"@ != "--max-errors"@,
        "--top"@ != "--depth"@,
        "--top"@ != "--min-rate"@,
        "--top"@ != "--json"@,
        "--top"@ != "--help"@,
        "--top"@ != "-h"@,
        "--max-errors"@ != "--depth"@,
        "--max-errors"@ != "--min-rate"@,
        "--max-errors"@ != "--json"@,
        "--max-errors"@ != "--help"@,
        "--max-errors"@ != "-h"@,
        "--depth"@ != "--min-rate"@,
        "--depth"@ != "--json"@,
        "--depth"@ != "--help"@,
        "--depth"@ != "-h"@,
        "--min-rate"@ != "--json"@,
        "--min-rate"@ != "--help"@,
        "--min-rate"@ != "-h"@,
        "--json"@ != "--help"@,
        "--json"@ != "-h"@,
{
    reveal_strlit("-n");
    reveal_strlit("--seed");
    reveal_strlit("--field");
    reveal_strlit("--top");
    reveal_strlit("--max-errors");
    reveal_strlit("--depth");
    reveal_strlit("--min-rate");
    reveal_strlit("--json");
    reveal_strlit("-h");
    reveal_strlit("--help");
    assert("-n"@.len() == 2 && "-h"@.len() == 2 && "-n"@[1] == 'n' && "-h"@[1] == 'h');
    assert("--seed"@.len() == 6 && "--json"@.len() == 6 && "--help"@.len() == 6);
    assert("--seed"@[2] == 's' && "--json"@[2] == 'j' && "--help"@[2] == 'h');
    assert("--field"@.len() == 7 && "--depth"@.len() == 7);
    assert("--field"@[2] == 'f' && "--depth"@[2] == 'd');
    assert("--top"@.len() == 5 && "--max-errors"@.len() == 12 && "--min-rate"@.len() == 10);
}

/// A flag that takes no value changes nothing that others give.
proof fn lemma_alone_gives(
    settings: Settings,
    command: Command,
    args: Seq<Seq<char>>,
    i: int,
)
    requires
        0 <= i < args.len(),
        stands_alone(command, args, i),
        !takes_value(command, args[i]),
        given_by(settings, command, args, i),
    ensures
        json_at(command, args, i) ==> given_by(
            Settings { json: true, ..settings },
            command,
            args,
            i + 1,
        ),
        !json_at(command, args, i) && settings.file is None ==> given_by(
            Settings { file: Some(args[i]), ..settings },
            command,
            args,
            i + 1,
        ),
        stands_alone(command, args, i + 1),
{
    if json_at(command, args, i) {
        let now = Settings { json: true, ..settings };
        assert(exists|k: int| 0 <= k < i + 1 && #[trigger] json_at(command, args, k));
        assert(!operand_at(command, args, i));
        assert(given_by(now, command, args, i + 1));
    } else if settings.file is None {
        let now = Settings { file: Some(args[i]), ..settings };
        assert(operand_at(command, args, i));
        assert(given_by(now, command, args, i + 1));
    }
}

/// A flag with its value gives what it says.
proof fn lemma_flag_gives(
    settings: Settings,
    command: Command,
    args: Seq<Seq<char>>,
    rates: Seq<bool>,
    i: int,
    flag: Flag,
    now: Settings,
)
    requires
        0 <= i < args.len() - 1,
        stands_alone(command, args, i),
        flag_of(command, args[i]) == Some(flag),
        !(flag is Json),
        set(settings, flag, args[i + 1], rates[i + 1]) == Ok::<Settings, Seq<char>>(now),
        given_by(settings, command, args, i),
    ensures
        given_by(now, command, args, i + 2),
        stands_alone(command, args, i + 2),
        !stands_alone(command, args, i + 1),
{
    lemma_words_differ();
    assert(takes_value(command, args[i]));
    assert(!stands_alone(command, args, i + 1));
    assert forall|f: Seq<char>| #[trigger] last_value(command, args, f, i + 2) == if f == args[i] {
        Some(args[i + 1])
    } else {
        last_value(command, args, f, i)
    } by {
        assert(last_value(command, args, f, i + 2) == last_value(command, args, f, i + 1));
    }
    assert(all_values(command, args, "--field"@, i + 2) == all_values(
        command,
        args,
        "--field"@,
        i + 1,
    ));
    assert(!json_at(command, args, i) && !json_at(command, args, i + 1));
    assert(!operand_at(command, args, i) && !operand_at(command, args, i + 1));
    assert(now.json == settings.json && now.file == settings.file);
    assert(given_by(now, command, args, i + 2));
}

/// What is wrong where an argument cannot be taken.
proof fn lemma_flag_fails(
    settings: Settings,
    command: Command,
    args: Seq<Seq<char>>,
    rates: Seq<bool>,
    i: int,
    flag: Flag,
)
    requires
        0 <= i < args.len() - 1,
        flag_of(command, args[i]) == Some(flag),
        !(flag is Json),
    ensures
        takes_value(command, args[i]),
        match set(settings, flag, args[i + 1], rates[i + 1]) {
            Ok(_) => can_have(args[i], args[i + 1], rates[i + 1]),
            Err(message) => !can_have(args[i], args[i + 1], rates[i + 1]) && message == complaint(
                command,
                args,
                i,
            ),
        },
{
    lemma_words_differ();
    assert(args[i] == flag_name(flag));
}

proof fn lemma_kinds_of_words(command: Command, word: Seq<char>)
    ensures
        match flag_of(command, word) {
            Some(flag) => if flag is Json {
                !takes_value(command, word) && (command is Stats || command is Schema) && word
                    == "--json"@
            } else {
                takes_value(command, word) && !(word == "-h"@ || word == "--help"@)
            },
            None => !takes_value(command, word) && !((command is Stats || command is Schema)
                && word == "--json"@),
        },
{
    lemma_words_differ();
}

proof fn lemma_in_order_so_far(
    command: Command,
    args: Seq<Seq<char>>,
    rates: Seq<bool>,
    i: int,
)
    requires
        0 <= i < args.len(),
        in_order_up_to(command, args, rates, i),
        in_order(command, args, rates, i),
    ensures
        in_order_up_to(command, args, rates, i + 1),
        !stands_alone(command, args, i + 1) ==> in_order_up_to(command, args, rates, i + 2),
{
    assert forall|j: int|
        0 <= j < i + 1 && #[trigger] stands_alone(command, args, j) implies in_order(
        command,
        args,
        rates,
        j,
    ) by {}
}

proof fn lemma_out_of_order(
    command: Command,
    args: Seq<Seq<char>>,
    rates: Seq<bool>,
    i: int,
    reply: Reply,
)
    requires
        first_out_of_order(command, args, rates, i),
        match reply {
            Reply::Run(_) => false,
            Reply::Help => args[i] == "-h"@ || args[i] == "--help"@,
            Reply::Mistake(message) => !(args[i] == "-h"@ || args[i] == "--help"@) && message
                == complaint(command, args, i),
        },
    ensures
        is_reply(reply, command, args, rates),
{
}

proof fn lemma_reply_from(
    command: Command,
    args: Seq<Seq<char>>,
    rates: Seq<bool>,
    i: nat,
    settings: Settings,
)
    requires
        i <= args.len(),
        stands_alone(command, args, i as int),
        in_order_up_to(command, args, rates, i as int),
        given_by(settings, command, args, i as int),
    ensures
        is_reply(reply_from(command, args, rates, i, settings), command, args, rates),
    decreases args.len() - i, 1nat,
{
    let k = i as int;
    if i < args.len() {
        lemma_kinds_of_words(command, args[k]);
        match flag_of(command, args[k]) {
            Some(flag) => {
                if flag is Json {
                    assert(json_at(command, args, k));
                    lemma_alone_gives(settings, command, args, k);
                    lemma_in_order_so_far(command, args, rates, k);
                    let asked = Settings { json: true, ..settings };
                    lemma_reply_from(
                        command,
                        args,
                        rates,
                        i + 1,
                        asked,
                    );
                } else {
                    lemma_reply_to_flag(command, args, rates, i, settings, flag);
                }
            },
            None => {
                lemma_reply_to_operand(command, args, rates, i, settings);
            },
        }
    }
}

proof fn lemma_reply_to_flag(
    command: Command,
    args: Seq<Seq<char>>,
    rates: Seq<bool>,
    i: nat,
    settings: Settings,
    flag: Flag,
)
    requires
        i < args.len(),
        stands_alone(command, args, i as int),
        in_order_up_to(command, args, rates, i as int),
        given_by(settings, command, args, i as int),
        flag_of(command, args[i as int]) == Some(flag),
        !(flag is Json),
    ensures
        is_reply(reply_from(command, args, rates, i, settings), command, args, rates),
    decreases args.len() - i, 0nat,
{
    let k = i as int;
    let reply = reply_from(command, args, rates, i, settings);
    lemma_kinds_of_words(command, args[k]);
    if i + 1 >= args.len() {
        assert(first_out_of_order(command, args, rates, k));
        lemma_out_of_order(command, args, rates, k, reply);
    } else {
        lemma_flag_fails(settings, command, args, rates, k, flag);
        match set(settings, flag, args[k + 1], rates[k + 1]) {
            Ok(now) => {
                lemma_flag_gives(settings, command, args, rates, k, flag, now);
                lemma_in_order_so_far(command, args, rates, k);
                lemma_reply_from(command, args, rates, i + 2, now);
            },
            Err(_) => {
                assert(first_out_of_order(command, args, rates, k));
                lemma_out_of_order(command, args, rates, k, reply);
            },
        }
    }
}

proof fn lemma_reply_to_operand(
    command: Command,
    args: Seq<Seq<char>>,
    rates: Seq<bool>,
    i: nat,
    settings: Settings,
)
    requires
        i < args.len(),
        stands_alone(command, args, i as int),
        in_order_up_to(command, args, rates, i as int),
        given_by(settings, command, args, i as int),
        flag_of(command, args[i as int]) is None,
    ensures
        is_reply(reply_from(command, args, rates, i, settings), command, args, rates),
    decreases args.len() - i, 0nat,
{
    let k = i as int;
    let word = args[k];
    let reply = reply_from(command, args, rates, i, settings);
    lemma_kinds_of_words(command, word);
    assert(!json_at(command, args, k));
    if !is_help(word) && settings.file is None && !(word.len() > 0 && word[0] == '-') {
        lemma_alone_gives(settings, command, args, k);
        assert(in_order(command, args, rates, k));
        lemma_in_order_so_far(command, args, rates, k);
        lemma_reply_from(
            command,
            args,
            rates,
            i + 1,
            Settings { file: Some(word), ..settings },
        );
    } else {
        assert(!in_order(command, args, rates, k));
        assert(first_out_of_order(command, args, rates, k));
        lemma_out_of_order(command, args, rates, k, reply);
    }
}

/// What the arguments of a subcommand come to. If each that stands on its own is in
/// order, the subcommand runs with what they give: the last value of each flag,
/// every field, machine-readable output if and only if some argument asks for it,
/// and the input that is named. Otherwise the first argument out of order is a call
/// for help or a mistake, which is named.
pub proof fn law_arguments_give_the_settings(
    command: Command,
    args: Seq<Seq<char>>,
    rates: Seq<bool>,
)
    ensures
        is_reply(reply_to(command, args, rates), command, args, rates),
{
    assert(given_by(defaults(), command, args, 0));
    lemma_reply_from(command, args, rates, 0, defaults());
}

/// Where the arguments are accepted, `--json` is heeded: the output is to be
/// machine-readable exactly if `--json` stands among them on its own, not as the
/// value of another flag.
pub proof fn law_json_is_heeded(
    command: Command,
    args: Seq<Seq<char>>,
    rates: Seq<bool>,
    settings: Settings,
)
    requires
        command is Stats || command is Schema,
        reply_to(command, args, rates) == Reply::Run(settings),
    ensures
        settings.json <==> exists|k: int|
            0 <= k < args.len() && #[trigger] stands_alone(command, args, k) && args[k]
                == "--json"@,
{
    law_arguments_give_the_settings(command, args, rates);
    if exists|k: int|
        0 <= k < args.len() && #[trigger] stands_alone(command, args, k) && args[k] == "--json"@ {
        let k = choose|k: int|
            0 <= k < args.len() && #[trigger] stands_alone(command, args, k) && args[k]
                == "--json"@;
        assert(json_at(command, args, k));
    }
    if settings.json {
        let k = choose|k: int| 0 <= k < args.len() && #[trigger] json_at(command, args, k);
        assert(stands_alone(command, args, k));
    }
}

/// There are four subcommands, and each is called by its own name.
pub proof fn law_subcommands_have_names(command: Command, word: Seq<char>)
    ensures
        command_name(command) == match command {
            Command::Head => "head"@,
            Command::Sample => "sample"@,
            Command::Stats => "stats"@,
            Command::Schema => "schema"@,
        },
        is_help(word) <==> word == "-h"@ || word == "--help"@,
{
}

} // verus!
