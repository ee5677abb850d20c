use jsonl_peek::cli::{start, Command, Options, Parsed, Start};

fn words(args: &[&str]) -> Vec<String> {
    args.iter().map(|arg| arg.to_string()).collect()
}

fn parse(command: Command, args: &[&str]) -> Parsed {
    let args = words(args);
    let rates: Vec<bool> = args.iter().map(|arg| arg.parse::<f64>().is_ok()).collect();
    command.parse(&args, &rates)
}

fn options(command: Command, args: &[&str]) -> Options {
    match parse(command, args) {
        Parsed::Run(options) => options,
        other => panic!("{other:?}"),
    }
}

fn mistake(command: Command, args: &[&str]) -> String {
    match parse(command, args) {
        Parsed::Mistake(message) => message,
        other => panic!("{other:?}"),
    }
}

#[test]
fn the_first_word_picks_the_command() {
    assert!(matches!(start(&words(&[])), Start::Nothing));
    assert!(matches!(start(&words(&["-h", "head"])), Start::Help));
    assert!(matches!(start(&words(&["--help"])), Start::Help));
    assert!(matches!(start(&words(&["head"])), Start::Command(Command::Head)));
    assert!(matches!(start(&words(&["sample"])), Start::Command(Command::Sample)));
    assert!(matches!(start(&words(&["stats"])), Start::Command(Command::Stats)));
    assert!(matches!(start(&words(&["schema"])), Start::Command(Command::Schema)));
    match start(&words(&["bogus"])) {
        Start::Mistake(message) => assert_eq!(message, "unknown command 'bogus'"),
        other => panic!("{other:?}"),
    }
}

#[test]
fn commands_have_names() {
    for command in [Command::Head, Command::Sample, Command::Stats, Command::Schema] {
        assert_eq!(Command::named(command.name()), Some(command));
    }
    assert_eq!(Command::named("heads"), None);
}

#[test]
fn defaults_hold_where_nothing_is_given() {
    let options = options(Command::Stats, &[]);
    assert_eq!(options.lines, 10);
    assert_eq!(options.seed, None);
    assert!(options.fields.is_empty());
    assert_eq!(options.top, 10);
    assert_eq!(options.max_errors, 10);
    assert_eq!(options.depth, 3);
    assert_eq!(options.min_rate, None);
    assert!(!options.json);
    assert_eq!(options.file, None);
}

#[test]
fn flags_take_their_values() {
    let head = options(Command::Head, &["-n", "2", "data.jsonl"]);
    assert_eq!((head.lines, head.file.as_deref()), (2, Some("data.jsonl")));
    let sample = options(Command::Sample, &["f", "--seed", "42", "-n", "+7"]);
    assert_eq!((sample.seed, sample.lines), (Some(42), 7));
    let stats = options(
        Command::Stats,
        &["--field", "a.b", "--json", "--top", "3", "--max-errors", "0", "--field", "c[]"],
    );
    assert_eq!((stats.top, stats.max_errors, stats.json), (3, 0, true));
    let fields: Vec<&str> = stats.fields.iter().map(|path| path.as_text()).collect();
    assert_eq!(fields, ["a.b", "c[]"]);
    let schema = options(Command::Schema, &["--depth", "5", "--min-rate", "0.25"]);
    assert_eq!((schema.depth, schema.min_rate.as_deref()), (5, Some("0.25")));
}

#[test]
fn the_last_of_repeated_flags_holds() {
    assert_eq!(options(Command::Head, &["-n", "1", "-n", "2"]).lines, 2);
}

#[test]
fn help_stops_the_reading() {
    assert!(matches!(parse(Command::Head, &["x", "--help", "y"]), Parsed::Help));
    assert!(matches!(parse(Command::Stats, &["-h"]), Parsed::Help));
}

#[test]
fn mistakes_are_described() {
    assert_eq!(mistake(Command::Head, &["-n"]), "-n requires a value");
    assert_eq!(mistake(Command::Head, &["-n", "x"]), "invalid value for -n: 'x'");
    assert_eq!(mistake(Command::Sample, &["--seed", "-1"]), "invalid value for --seed: '-1'");
    assert_eq!(mistake(Command::Stats, &["--top", "1.5"]), "invalid value for --top: '1.5'");
    assert_eq!(
        mistake(Command::Stats, &["--max-errors", ""]),
        "invalid value for --max-errors: ''"
    );
    assert_eq!(
        mistake(Command::Schema, &["--min-rate", "half"]),
        "invalid value for --min-rate: 'half'"
    );
    assert_eq!(mistake(Command::Schema, &["--depth", "-3"]), "invalid value for --depth: '-3'");
    assert_eq!(
        mistake(Command::Stats, &["--field", "a..b"]),
        "invalid --field 'a..b': at position 2: empty path segment"
    );
    assert_eq!(mistake(Command::Head, &["a", "b"]), "unexpected argument 'b'");
    assert_eq!(mistake(Command::Head, &["-"]), "unexpected argument '-'");
    assert_eq!(mistake(Command::Head, &["--json"]), "unexpected argument '--json'");
    assert_eq!(mistake(Command::Schema, &["-n", "1"]), "unexpected argument '-n'");
}

#[test]
fn the_first_mistake_is_reported() {
    assert_eq!(
        mistake(Command::Schema, &["--min-rate", "x", "--depth", "y"]),
        "invalid value for --min-rate: 'x'"
    );
}
