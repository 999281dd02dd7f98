use thesis::cli::Parameter::{Optional, Required};
use thesis::cli::{Arg, Command};
use thesis::error::ErrorKind;

#[test]
fn command_match_with_1() {
    let mut command = Command::new("cli-test", "");
    command.add_arg(
        Arg::new("--help")
            .short_id('h')
            .parameterize(Optional("\"\""))
            .interrupt(),
    );
    command.add_arg(Arg::new("--version").short_id('v').interrupt());
    let mut map: Vec<(String, String)>;
    map = command.match_with(vec!["--help".into(), "test".into()]).unwrap();
    assert_eq!(map, vec![("help".to_string(), "test".to_string())]);
    map = command.match_with(vec!["--help".into()]).unwrap();
    assert_eq!(map, vec![("help".to_string(), "\"\"".to_string())]);
    map = command.match_with(vec!["--version".into(), "--help".into()]).unwrap();
    assert_eq!(map, vec![("version".to_string(), "".to_string())]);
}

#[test]
fn command_match_with_2() {
    let mut command = Command::new("cli-test", "");
    command.add_arg(Arg::new("--version").short_id('v').interrupt());
    command.add_arg(Arg::new("script"));
    assert_eq!(
        command.match_with(vec![]).unwrap_err().message(),
        "Error: Required argument 'script' was not found."
    );
}

#[test]
fn command_missing_argument_kind() {
    let mut command = Command::new("cli-test", "");
    command.add_arg(Arg::new("script"));
    let err = command.match_with(vec![]).unwrap_err();
    assert_eq!(err.kind(), ErrorKind::CommandFailed);
}

#[test]
fn command_short_ids_and_parameters() {
    let mut command = Command::new("cli-test", "");
    command.add_arg(
        Arg::new("--output")
            .short_id('o')
            .parameterize(Required),
    );
    let map = command
        .match_with(vec!["-o".into(), "out.txt".into()])
        .unwrap();
    assert_eq!(map, vec![("output".to_string(), "out.txt".to_string())]);
}

#[test]
fn command_positional_fill_in_order() {
    let mut command = Command::new("cli-test", "");
    command.add_arg(Arg::new("first"));
    command.add_arg(Arg::new("second").parameterize(Optional("-")));
    let map = command
        .match_with(vec!["a".into(), "b".into()])
        .unwrap();
    assert_eq!(
        map,
        vec![("first".to_string(), "a".to_string()), ("second".to_string(), "b".to_string())]
    );
}

#[test]
fn arg_try_get_parameter() {
    let no = Arg::new("--quiet");
    assert_eq!(no.try_get_parameter(Some(&"x".to_string())), "");
    let opt = Arg::new("--target").parameterize(Optional("\"ast\""));
    assert_eq!(opt.try_get_parameter(None), "\"ast\"");
    assert_eq!(opt.try_get_parameter(Some(&"lib".to_string())), "lib");
    let req = Arg::new("--output").parameterize(Required);
    assert_eq!(req.try_get_parameter(Some(&"out".to_string())), "out");
}

#[test]
fn arg_help_entry() {
    let help = Arg::new("--help")
        .short_id('h')
        .description("Print the help message.")
        .help();
    assert_eq!(help, "--help, -h \n      Print the help message. ");
    let with_default = Arg::new("--target")
        .parameterize(Optional("\"ast\""))
        .description("Specify the output target.")
        .help();
    assert_eq!(
        with_default,
        "--target [default: \"ast\"]\n      Specify the output target. "
    );
}

#[test]
fn command_help_text() {
    let mut command = Command::new("demo", "A demo command.");
    command.add_arg(Arg::new("--help").short_id('h').description("Print the help message."));
    command.add_arg(Arg::new("script").parameterize(Optional("-")));
    let text = command.help_text();
    assert_eq!(
        text,
        "Usage: demo [options] <script> \n      A demo command.\n\nOptions:\n   --help, -h \n      Print the help message. "
    );
}
