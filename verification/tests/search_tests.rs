use rfindfiles::paths::{expand_home, matches_extension};
use rfindfiles::search::{folder_candidates, retain_directories};
use rfindfiles::text::trimmed;
use rfindfiles::{find_files, parse_extensions, parse_folders, Config, EntryKind, FileEntry, Timestamp};
use std::path::{Path, PathBuf};

fn strings(v: &[&str]) -> Vec<String> {
    v.iter().map(|s| s.to_string()).collect()
}

#[test]
fn trimming_follows_str_trim() {
    for s in ["", "  ", " a ", "\u{3000}x\u{a0}", "\u{200b}x\u{200b}", "\t\n a b \r\n", "\u{85}é\u{2028}"] {
        assert_eq!(trimmed(s), s.trim());
    }
}

#[test]
fn extensions_edge_cases() {
    assert_eq!(parse_extensions("\u{3000}Md\u{a0},\t,  .CSV "), vec![".md", ".csv"]);
    assert_eq!(parse_extensions(""), Vec::<String>::new());
    assert_eq!(parse_extensions(" , ,"), Vec::<String>::new());
    assert_eq!(parse_extensions("ÄB"), vec![".Äb"]);
    assert_eq!(parse_extensions("."), vec!["."]);
    assert_eq!(parse_extensions("tar.GZ\n"), vec![".tar.gz"]);
}

#[test]
fn extension_normalization_is_idempotent() {
    for raw in ["PDF, txt,.Rs", " a ,, B ", "x", ""] {
        let once = parse_extensions(raw);
        assert_eq!(parse_extensions(&once.join(",")), once);
    }
}

#[test]
fn extension_matching_follows_path_extension() {
    let extensions = strings(&[".rs", ".", ".c"]);
    for p in [
        "a.rs", "A.RS", ".bashrc", "dir/.hidden", "a.", "a.b.c", "noext", "dir.d/file", "x/..",
        "/", "", "a/b.rs/", "a/./b.Rs", "...", "dir/.rs", "a.rs/.", "./.", "..",
    ] {
        let expected = Path::new(p)
            .extension()
            .and_then(|e| e.to_str())
            .map(|e| extensions.contains(&format!(".{}", e.to_ascii_lowercase())))
            .unwrap_or(false);
        assert_eq!(matches_extension(p, &extensions), expected, "{p:?}");
    }
    assert!(matches_extension("noext", &Vec::new()));
}

fn file(path: &str, secs: i64, nanos: u32) -> FileEntry {
    FileEntry {
        path: path.to_string(),
        kind: EntryKind::File,
        modified: Some(Timestamp { secs, nanos }),
    }
}

fn all_files() -> Config {
    Config { folders: strings(&["."]), extensions: Vec::new(), date_from: None, date_to: None }
}

#[test]
fn found_files_sort_like_pathbuf() {
    let paths = [
        "b", "a/b", "a-b", "a", "a//b", "./a", "/x", "a/./c", "a/../c", "A", "é", "z", "a/b/",
        "/", "./", ".", "a b", "a/b.c", "a.b/c", "a", "..", "../a", "/a/b", "x/.y", "x/y",
    ];
    let entries: Vec<FileEntry> = paths.iter().map(|p| file(p, 0, 0)).collect();
    let found = find_files(&all_files(), &entries);
    let mut expected: Vec<PathBuf> = paths.iter().map(PathBuf::from).collect();
    expected.sort();
    let found_paths: Vec<PathBuf> = found.iter().map(PathBuf::from).collect();
    assert_eq!(found_paths, expected);
    assert_eq!(found.len(), paths.len());
}

#[test]
fn equal_paths_keep_their_order() {
    let entries = vec![file("a//b", 0, 0), file("a/b", 0, 0), file("a", 0, 0), file("a/b/", 0, 0)];
    assert_eq!(find_files(&all_files(), &entries), strings(&["a", "a//b", "a/b", "a/b/"]));
}

#[test]
fn only_matching_files_are_found() {
    let day_start = Timestamp { secs: 1000, nanos: 0 };
    let day_end = Timestamp { secs: 2000, nanos: 0 };
    let config = Config {
        folders: strings(&["/d"]),
        extensions: strings(&[".txt"]),
        date_from: Some(day_start),
        date_to: Some(day_end),
    };
    let entries = vec![
        file("/d/z.TXT", 1500, 0),
        file("/d/a.txt", 1000, 0),
        file("/d/b.txt", 2000, 0),
        file("/d/late.txt", 2000, 1),
        file("/d/early.txt", 999, 999_999_999),
        file("/d/x.pdf", 1500, 0),
        FileEntry { path: "/d/sub.txt".to_string(), kind: EntryKind::Directory, modified: Some(day_start) },
        FileEntry { path: "/d/link.txt".to_string(), kind: EntryKind::Other, modified: Some(day_start) },
        FileEntry { path: "/d/unknown.txt".to_string(), kind: EntryKind::File, modified: None },
    ];
    assert_eq!(find_files(&config, &entries), strings(&["/d/a.txt", "/d/b.txt", "/d/z.TXT"]));
}

#[test]
fn folder_lists_are_split_trimmed_and_expanded() {
    assert_eq!(
        folder_candidates(" a \n~,~/b,~x,  ,~//c,\r\n", Some("/home/u")),
        strings(&["a", "/home/u", "/home/u/b", "~x", "/c"])
    );
    assert_eq!(folder_candidates("~/b", Some("/home/u/")), strings(&["/home/u/b"]));
    assert_eq!(folder_candidates("~,~/b", None), strings(&["~", "~/b"]));
    assert_eq!(expand_home("~/b", Some("")), "b");
    assert_eq!(expand_home("~/", Some("/h")), "/h/");
    assert_eq!(expand_home("~user", Some("/h")), "~user");
}

#[test]
fn only_existing_folders_are_kept() {
    assert_eq!(
        parse_folders(".,~/definitely-missing-path, /definitely/missing ,", Some("/")),
        strings(&["."])
    );
    assert_eq!(parse_folders("~", Some("/")), strings(&["/"]));
}

#[test]
fn extension_typed_in_any_case_selects_its_files() {
    for (ext, typed) in [("pdf", "PdF"), ("Md", "mD"), ("txt", "txt"), ("JPG", "jpg")] {
        let path = format!("dir/name.{ext}");
        assert!(matches_extension(&path, &parse_extensions(typed)), "{path} {typed}");
        assert!(matches_extension(&path, &parse_extensions(&format!(".{typed}"))), "{path} .{typed}");
    }
    assert!(!matches_extension("dir/name.pdf", &parse_extensions("pd")));
}

#[test]
fn joined_entry_lists_report_the_sorted_union() {
    let config = Config { folders: Vec::new(), extensions: Vec::new(), date_from: None, date_to: None };
    let first = vec![file("b/x", 0, 0), file("a//y", 0, 0), file("c", 0, 0)];
    let second = vec![file("a/y", 0, 0), file("b/w", 0, 0), file("./a/y", 0, 0)];
    let mut joined = first.clone();
    joined.extend(second.iter().cloned());
    let mut expected = find_files(&config, &first);
    expected.extend(find_files(&config, &second));
    expected.sort_by(|a, b| Path::new(a).cmp(Path::new(b)));
    assert_eq!(find_files(&config, &joined), expected);
    assert_eq!(expected, strings(&["./a/y", "a//y", "a/y", "b/w", "b/x", "c"]));
}

#[test]
fn extension_lists_ignore_letter_case() {
    for raw in ["PDF, txt,.Rs", " mD ,,.CsV", "ÄbC,x", "", " . "] {
        let once = parse_extensions(raw);
        assert_eq!(parse_extensions(&raw.to_ascii_uppercase()), once, "{raw:?}");
        assert_eq!(parse_extensions(&raw.to_ascii_lowercase()), once, "{raw:?}");
    }
}

#[test]
fn joined_folder_lists_name_both_lists() {
    let home = Some("/home/u");
    for (a, b) in [(" a \n~", "~/b, ,c"), ("", "x"), ("a,", "\nb"), ("", "")] {
        let mut expected = folder_candidates(a, home);
        expected.extend(folder_candidates(b, home));
        assert_eq!(folder_candidates(&format!("{a},{b}"), home), expected);
        assert_eq!(folder_candidates(&format!("{a}\n{b}"), home), expected);
    }
    let joined = folder_candidates("p,q\nr", None);
    let kept = retain_directories(joined, &vec![true, false, true]);
    let mut expected = retain_directories(folder_candidates("p,q", None), &vec![true, false]);
    expected.extend(retain_directories(folder_candidates("r", None), &vec![true]));
    assert_eq!(kept, expected);
}

#[test]
fn weaker_filters_report_more() {
    let entries = vec![
        file("a.rs", 100, 0),
        file("b.md", 200, 0),
        file("c.RS", 300, 0),
        file("d.txt", 400, 0),
    ];
    let at = |secs| Some(Timestamp { secs, nanos: 0 });
    let strong = Config {
        folders: Vec::new(),
        extensions: strings(&[".rs"]),
        date_from: at(150),
        date_to: at(350),
    };
    let weaker = Config {
        folders: Vec::new(),
        extensions: strings(&[".rs", ".md"]),
        date_from: at(50),
        date_to: None,
    };
    let few = find_files(&strong, &entries);
    let many = find_files(&weaker, &entries);
    assert_eq!(few, strings(&["c.RS"]));
    assert_eq!(many, strings(&["a.rs", "b.md", "c.RS"]));
    assert!(few.iter().all(|p| many.contains(p)));
    let backwards = Config { date_from: at(300), date_to: at(200), ..weaker.clone() };
    assert!(find_files(&backwards, &entries).is_empty());
}
