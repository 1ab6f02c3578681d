//! The command line: `[--ext LIST] [--date-from DATE] [--date-to DATE]
//! FOLDER...`, and `-h`/`--help`.
use vstd::prelude::*;
use crate::date::{Timestamp, date_seconds, invalid_date_text, parse_date, ymd_of};
use crate::error::{CliError, is_message, message};
use crate::search::{Config, parse_extensions, parse_extensions_spec, path_is_dir};
use crate::text::{has_prefix, same_text, strings_view, trim};

verus! {

/// What the options read so far ask for.
pub struct ArgsState {
    pub folders: Seq<Seq<char>>,
    pub extensions: Seq<Seq<char>>,
    pub date_from: Option<Timestamp>,
    pub date_to: Option<Timestamp>,
}

/// Why the command line is refused.
pub enum ArgsFailure {
    Help,
    Text(Seq<char>),
}

pub open spec fn empty_args_state() -> ArgsState {
    ArgsState {
        folders: Seq::empty(),
        extensions: Seq::empty(),
        date_from: None,
        date_to: None,
    }
}

/// The point in time that a date option names, or the message refusing it.
pub open spec fn date_point(raw: Seq<char>, end_of_day: bool) -> Result<Timestamp, Seq<char>> {
    match ymd_of(trim(raw)) {
        Some((y, m, d)) => Ok(Timestamp { secs: date_seconds(y, m, d, end_of_day) as i64, nanos: 0 }),
        None => Err(invalid_date_text(trim(raw))),
    }
}

/// The outcome of reading `args` from position `i` on, in state `st`,
/// where `is_dir[k]` tells whether `args[k]` names an existing folder.
pub open spec fn args_from(args: Seq<Seq<char>>, is_dir: Seq<bool>, i: int, st: ArgsState) -> Result<
    ArgsState,
    ArgsFailure,
>
    decreases args.len() - i,
{
    if i < 0 || i >= args.len() {
        if st.folders.len() == 0 {
            Err(ArgsFailure::Text("Musíš zadat alespoň jednu složku."@))
        } else {
            Ok(st)
        }
    } else {
        let a = args[i];
        if a == "-h"@ || a == "--help"@ {
            Err(ArgsFailure::Help)
        } else if a == "--ext"@ {
            if i + 1 >= args.len() {
                Err(ArgsFailure::Text("Chybí hodnota za --ext"@))
            } else {
                args_from(
                    args,
                    is_dir,
                    i + 2,
                    ArgsState {
                        folders: st.folders,
                        extensions: st.extensions + parse_extensions_spec(args[i + 1]),
                        date_from: st.date_from,
                        date_to: st.date_to,
                    },
                )
            }
        } else if a == "--date-from"@ {
            if i + 1 >= args.len() {
                Err(ArgsFailure::Text("Chybí hodnota za --date-from"@))
            } else {
                match date_point(args[i + 1], false) {
                    Err(t) => Err(ArgsFailure::Text(t)),
                    Ok(t) => args_from(
                        args,
                        is_dir,
                        i + 2,
                        ArgsState {
                            folders: st.folders,
                            extensions: st.extensions,
                            date_from: Some(t),
                            date_to: st.date_to,
                        },
                    ),
                }
            }
        } else if a == "--date-to"@ {
            if i + 1 >= args.len() {
                Err(ArgsFailure::Text("Chybí hodnota za --date-to"@))
            } else {
                match date_point(args[i + 1], true) {
                    Err(t) => Err(ArgsFailure::Text(t)),
                    Ok(t) => args_from(
                        args,
                        is_dir,
                        i + 2,
                        ArgsState {
                            folders: st.folders,
                            extensions: st.extensions,
                            date_from: st.date_from,
                            date_to: Some(t),
                        },
                    ),
                }
            }
        } else if a.len() >= 2 && a.take(2) == "--"@ {
            Err(ArgsFailure::Text("Neznámý přepínač: "@ + a))
        } else if !is_dir[i] {
            Err(ArgsFailure::Text("Složka neexistuje nebo není adresář: "@ + a))
        } else {
            args_from(
                args,
                is_dir,
                i + 1,
                ArgsState {
                    folders: st.folders.push(a),
                    extensions: st.extensions,
                    date_from: st.date_from,
                    date_to: st.date_to,
                },
            )
        }
    }
}

/// `r` is the executable form of the outcome `o`.
pub open spec fn outcome_matches(r: Result<Config, CliError>, o: Result<ArgsState, ArgsFailure>) -> bool {
    match o {
        Ok(st) => r matches Ok(c) && strings_view(c.folders@) == st.folders && strings_view(
            c.extensions@,
        ) == st.extensions && c.date_from == st.date_from && c.date_to == st.date_to,
        Err(ArgsFailure::Help) => r matches Err(CliError::HelpRequested),
        Err(ArgsFailure::Text(t)) => r matches Err(e) && is_message(e, t),
    }
}

pub open spec fn state_of(
    folders: Seq<String>,
    extensions: Seq<String>,
    date_from: Option<Timestamp>,
    date_to: Option<Timestamp>,
) -> ArgsState {
    ArgsState {
        folders: strings_view(folders),
        extensions: strings_view(extensions),
        date_from,
        date_to,
    }
}

/// A date option's value as a point in time.
fn read_date(raw: &str, end_of_day: bool) -> (r: Result<Timestamp, CliError>)
    ensures
        match date_point(raw@, end_of_day) {
            Ok(t) => r == Ok::<Timestamp, CliError>(t),
            Err(text) => r matches Err(e) && is_message(e, text),
        },
{
    parse_date(raw, end_of_day)
}

/// Appends copies of `src` to `dst`.
fn append_strings(dst: &mut Vec<String>, src: &Vec<String>)
    ensures
        strings_view(final(dst)@) == strings_view(old(dst)@) + strings_view(src@),
{
    let ghost start = strings_view(dst@);
    let mut k: usize = 0;
    while k < src.len()
        invariant
            k <= src.len(),
            strings_view(dst@) == start + strings_view(src@).take(k as int),
        decreases src.len() - k,
    {
        let item = src[k].clone();
        let ghost before = strings_view(dst@);
        dst.push(item);
        assert(strings_view(dst@) =~= before.push(src[k as int]@));
        assert(strings_view(src@).take(k + 1) =~= strings_view(src@).take(k as int).push(
            src[k as int]@,
        ));
        k = k + 1;
    }
    assert(strings_view(src@).take(k as int) =~= strings_view(src@));
}

/// Reads the command line, given for each argument whether it names an
/// existing folder.
pub fn parse_cli_with(args: &Vec<String>, is_dir: &Vec<bool>) -> (r: Result<Config, CliError>)
    requires
        is_dir.len() == args.len(),
    ensures
        outcome_matches(r, args_from(strings_view(args@), is_dir@, 0, empty_args_state())),
{
    let ghost av = strings_view(args@);
    let mut folders: Vec<String> = Vec::new();
    let mut extensions: Vec<String> = Vec::new();
    let mut date_from: Option<Timestamp> = None;
    let mut date_to: Option<Timestamp> = None;
    let mut i: usize = 0;
    assert(strings_view(folders@) =~= Seq::<Seq<char>>::empty());
    assert(strings_view(extensions@) =~= Seq::<Seq<char>>::empty());
    assert(state_of(folders@, extensions@, date_from, date_to) == empty_args_state());
    while i < args.len()
        invariant
            av == strings_view(args@),
            is_dir.len() == args.len(),
            i <= args.len(),
            args_from(av, is_dir@, 0, empty_args_state()) == args_from(
                av,
                is_dir@,
                i as int,
                state_of(folders@, extensions@, date_from, date_to),
            ),
        decreases args.len() - i,
    {
        let arg = args[i].as_str();
        let ghost st = state_of(folders@, extensions@, date_from, date_to);
        assert(av[i as int] == arg@);
        if same_text(arg, "-h") || same_text(arg, "--help") {
            return Err(CliError::HelpRequested);
        } else if same_text(arg, "--ext") {
            if i + 1 >= args.len() {
                return Err(message("Chybí hodnota za --ext"));
            }
            let found = parse_extensions(args[i + 1].as_str());
            append_strings(&mut extensions, &found);
            assert(av[i + 1] == args[i + 1 as int]@);
            i = i + 2;
        } else if same_text(arg, "--date-from") {
            if i + 1 >= args.len() {
                return Err(message("Chybí hodnota za --date-from"));
            }
            assert(av[i + 1] == args[i + 1 as int]@);
            match read_date(args[i + 1].as_str(), false) {
                Ok(t) => date_from = Some(t),
                Err(e) => return Err(e),
            }
            i = i + 2;
        } else if same_text(arg, "--date-to") {
            if i + 1 >= args.len() {
                return Err(message("Chybí hodnota za --date-to"));
            }
            assert(av[i + 1] == args[i + 1 as int]@);
            match read_date(args[i + 1].as_str(), true) {
                Ok(t) => date_to = Some(t),
                Err(e) => return Err(e),
            }
            i = i + 2;
        } else if has_prefix(arg, "--") {
            proof {
                reveal_strlit("--");
            }
            let mut text = String::from_str("Neznámý přepínač: ");
            text.append(arg);
            return Err(CliError::Message(text));
        } else if !is_dir[i] {
            proof {
                reveal_strlit("--");
            }
            let mut text = String::from_str("Složka neexistuje nebo není adresář: ");
            text.append(arg);
            return Err(CliError::Message(text));
        } else {
            proof {
                reveal_strlit("--");
            }
            folders.push(args[i].clone());
            assert(strings_view(folders@) =~= st.folders.push(arg@));
            i = i + 1;
        }
    }
    if folders.len() == 0 {
        return Err(message("Musíš zadat alespoň jednu složku."));
    }
    Ok(Config { folders, extensions, date_from, date_to })
}

/// Reads the command line; which arguments name existing folders is
/// decided by the file system when the call is made.
pub fn parse_cli(args: &Vec<String>) -> (r: Result<Config, CliError>)
    ensures
        exists|is_dir: Seq<bool>|
            is_dir.len() == args.len() && outcome_matches(
                r,
                args_from(strings_view(args@), is_dir, 0, empty_args_state()),
            ),
{
    let mut is_dir: Vec<bool> = Vec::new();
    let mut i: usize = 0;
    while i < args.len()
        invariant
            i <= args.len(),
            is_dir.len() == i,
        decreases args.len() - i,
    {
        let arg = args[i].as_str();
        let takes_value = same_text(arg, "--ext") || same_text(arg, "--date-from") || same_text(
            arg,
            "--date-to",
        );
        if takes_value {
            is_dir.push(false);
            if i + 1 < args.len() {
                is_dir.push(false);
            }
            i = if i + 1 < args.len() {
                i + 2
            } else {
                i + 1
            };
        } else {
            let is_option = same_text(arg, "-h") || has_prefix(arg, "--");
            is_dir.push(!is_option && path_is_dir(arg));
            i = i + 1;
        }
    }
    parse_cli_with(args, &is_dir)
}

} // verus!
