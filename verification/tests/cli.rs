use gups::cli::{choose_mode, parse_args, Command, Mode, Options};

fn command(args: &[&str]) -> Command {
    let mut all = vec![String::from("gups")];
    all.extend(args.iter().map(|a| String::from(*a)));
    parse_args(&all)
}

fn options(table_size_log: Option<u64>, num_updates: Option<u64>, single: bool) -> Command {
    Command::Run(Options { table_size_log, num_updates, single })
}

#[test]
fn options_are_read() {
    assert_eq!(command(&[]), options(None, None, false));
    assert_eq!(
        command(&["--single", "-t", "20", "-u", "1000000"]),
        options(Some(20), Some(1000000), true)
    );
    assert_eq!(
        command(&["--table-size", "24", "--updates", "+7"]),
        options(Some(24), Some(7), false)
    );
    assert_eq!(command(&["-t", "1", "-t", "2"]), options(Some(2), None, false));
    assert_eq!(parse_args(&vec![]), options(None, None, false));
}

#[test]
fn a_missing_number_is_ignored() {
    assert_eq!(command(&["--single", "-t"]), options(None, None, true));
    assert_eq!(command(&["-u"]), options(None, None, false));
}

#[test]
fn bad_arguments_are_refused() {
    assert_eq!(command(&["-t", "x"]), Command::InvalidTableSize(2));
    assert_eq!(command(&["--single", "-u", "-1"]), Command::InvalidUpdates(3));
    assert_eq!(command(&["-u", "18446744073709551616"]), Command::InvalidUpdates(2));
    assert_eq!(command(&["-u", "18446744073709551615"]), options(None, Some(u64::MAX), false));
    assert_eq!(command(&["-t", ""]), Command::InvalidTableSize(2));
    assert_eq!(command(&["-t", "+"]), Command::InvalidTableSize(2));
    assert_eq!(command(&["-t", "1", "what", "-h"]), Command::UnknownOption(3));
}

#[test]
fn help_comes_first() {
    assert_eq!(command(&["-h", "what"]), Command::Help);
    assert_eq!(command(&["--single", "--help"]), Command::Help);
    assert_eq!(command(&["-t", "-h"]), Command::InvalidTableSize(2));
}

#[test]
fn mode_follows_the_process_manager() {
    assert_eq!(choose_mode(false, false), Mode::Single);
    assert_eq!(choose_mode(false, true), Mode::Multi);
    assert_eq!(choose_mode(true, true), Mode::Single);
    assert_eq!(choose_mode(true, false), Mode::Single);
}
