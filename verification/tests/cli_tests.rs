use todo_store::cli::{parse_args, parse_show_command, parse_usize, Cli, CliError};
use todo_store::mutate::Command;

fn args(list: &[&str]) -> Vec<String> {
    list.iter().map(|s| s.to_string()).collect()
}

fn parse(list: &[&str]) -> Result<Cli, CliError> {
    parse_args(&args(list))
}

#[test]
fn no_arguments_means_listing() {
    let cli = parse(&[]).unwrap();
    assert!(!cli.verbose);
    assert!(cli.paths.is_empty());
    assert!(matches!(cli.command, Command::ShowItems));
}

#[test]
fn show_command_is_listing() {
    assert!(matches!(parse_show_command(), Command::ShowItems));
}

#[test]
fn verbose_and_paths_and_message() {
    let cli = parse(&["-v", "--path", "/tmp", "-p", "/home", "buy", "milk"]).unwrap();
    assert!(cli.verbose);
    assert_eq!(cli.paths, vec!["/tmp".to_string(), "/home".to_string()]);
    match cli.command {
        Command::AddItem { message } => assert_eq!(message, b"buy milk".to_vec()),
        _ => panic!("expected an add command"),
    }
}

#[test]
fn message_words_join_with_single_spaces() {
    let cli = parse(&["one"]).unwrap();
    match cli.command {
        Command::AddItem { message } => assert_eq!(message, b"one".to_vec()),
        _ => panic!("expected an add command"),
    }
}

#[test]
fn delete_takes_an_index() {
    let cli = parse(&["--delete", "3"]).unwrap();
    assert!(matches!(cli.command, Command::DeleteItem { index: 3 }));
    let cli = parse(&["-c", "1"]).unwrap();
    assert!(matches!(cli.command, Command::CompleteItem { index: 1 }));
}

#[test]
fn delete_without_index_is_an_error() {
    assert_eq!(parse(&["--delete"]).err(), Some(CliError::MissingIndex));
}

#[test]
fn delete_with_bad_index_is_an_error() {
    assert_eq!(parse(&["--delete", "three"]).err(), Some(CliError::InvalidIndex));
    assert_eq!(parse(&["-d", "-3"]).err(), Some(CliError::InvalidIndex));
    assert_eq!(parse(&["-d", ""]).err(), Some(CliError::InvalidIndex));
}

#[test]
fn trailing_arguments_after_index_are_an_error() {
    assert_eq!(parse(&["--delete", "3", "oops"]).err(), Some(CliError::UnexpectedArguments));
    assert_eq!(parse(&["-c", "1", "x", "y"]).err(), Some(CliError::UnexpectedArguments));
}

#[test]
fn path_without_argument_is_an_error() {
    assert_eq!(parse(&["--path"]).err(), Some(CliError::MissingPathArgument));
}

#[test]
fn unknown_double_dash_flag_is_an_error() {
    assert_eq!(parse(&["--frobnicate"]).err(), Some(CliError::UnknownFlag));
}

#[test]
fn single_dash_word_is_a_message() {
    let cli = parse(&["-x", "marks", "the", "spot"]).unwrap();
    match cli.command {
        Command::AddItem { message } => assert_eq!(message, b"-x marks the spot".to_vec()),
        _ => panic!("expected an add command"),
    }
}

#[test]
fn usize_parsing() {
    assert_eq!(parse_usize(&"0".to_string()), Some(0));
    assert_eq!(parse_usize(&"42".to_string()), Some(42));
    assert_eq!(parse_usize(&"+7".to_string()), Some(7));
    assert_eq!(parse_usize(&"007".to_string()), Some(7));
    assert_eq!(parse_usize(&"".to_string()), None);
    assert_eq!(parse_usize(&"+".to_string()), None);
    assert_eq!(parse_usize(&"4 2".to_string()), None);
    assert_eq!(parse_usize(&"99999999999999999999999".to_string()), None);
    assert_eq!(parse_usize(&usize::MAX.to_string()), Some(usize::MAX));
}
