use rfindfiles::{parse_cli, parse_cli_with, parse_date, CliError};

fn args(v: &[&str]) -> Vec<String> {
    v.iter().map(|s| s.to_string()).collect()
}

fn message(text: &str) -> CliError {
    CliError::Message(text.to_string())
}

#[test]
fn help_is_requested() {
    assert_eq!(parse_cli(&args(&["-h"])), Err(CliError::HelpRequested));
    assert_eq!(parse_cli(&args(&[".", "--help", "--bogus"])), Err(CliError::HelpRequested));
}

#[test]
fn option_values_are_taken_whatever_they_look_like() {
    // `-h` after `--ext` is the extension list, not a request for help.
    assert_eq!(
        parse_cli(&args(&["--ext", "-h"])),
        Err(message("Musíš zadat alespoň jednu složku."))
    );
}

#[test]
fn refused_command_lines() {
    assert_eq!(parse_cli(&args(&[])), Err(message("Musíš zadat alespoň jednu složku.")));
    assert_eq!(parse_cli(&args(&[".", "--ext"])), Err(message("Chybí hodnota za --ext")));
    assert_eq!(parse_cli(&args(&["--date-from"])), Err(message("Chybí hodnota za --date-from")));
    assert_eq!(parse_cli(&args(&["--date-to"])), Err(message("Chybí hodnota za --date-to")));
    assert_eq!(parse_cli(&args(&["--bogus", "."])), Err(message("Neznámý přepínač: --bogus")));
    assert_eq!(
        parse_cli(&args(&["/definitely/missing"])),
        Err(message("Složka neexistuje nebo není adresář: /definitely/missing"))
    );
    assert_eq!(
        parse_cli(&args(&["-x"])),
        Err(message("Složka neexistuje nebo není adresář: -x"))
    );
    assert_eq!(
        parse_cli(&args(&["--date-from", "2026-13-01", "."])),
        Err(message("Neplatné datum '2026-13-01', očekávaný formát je YYYY-MM-DD."))
    );
}

#[test]
fn accepted_command_line() {
    let config = parse_cli(&args(&[
        "--ext", "pdf,TXT", ".", "--ext", "rs", "--date-from", "2026-01-01", "--date-to",
        " 2026-01-31 ", ".",
    ]))
    .unwrap();
    assert_eq!(config.folders, args(&[".", "."]));
    assert_eq!(config.extensions, args(&[".pdf", ".txt", ".rs"]));
    assert_eq!(config.date_from, Some(parse_date("2026-01-01", false).unwrap()));
    assert_eq!(config.date_to, Some(parse_date("2026-01-31", true).unwrap()));
}

#[test]
fn folder_checks_come_from_the_given_answers() {
    let line = args(&["a", "--ext", "x", "b"]);
    let config = parse_cli_with(&line, &vec![true, false, false, true]).unwrap();
    assert_eq!(config.folders, args(&["a", "b"]));
    assert_eq!(config.extensions, args(&[".x"]));
    assert_eq!(config.date_from, None);
    assert_eq!(
        parse_cli_with(&line, &vec![true, false, false, false]),
        Err(message("Složka neexistuje nebo není adresář: b"))
    );
}
