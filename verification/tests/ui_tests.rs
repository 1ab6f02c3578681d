use rfindfiles::ui::{
    append_folder, build_config, button_date_value, button_label_is_date_placeholder,
    collect_extensions, config_from_parts, known_theme, page_label, saved_language_text,
    saved_theme_text, settings_path, theme_from_saved, themes, translated_status, Language,
    PaginationState, ValidationError,
};
use rfindfiles::parse_date;
use std::path::PathBuf;

fn strings(v: &[&str]) -> Vec<String> {
    v.iter().map(|s| s.to_string()).collect()
}

fn numbered(n: usize) -> Vec<String> {
    (0..n).map(|i| format!("/r/{i:04}")).collect()
}

#[test]
fn pagination_of_no_results() {
    let state = PaginationState::new();
    assert_eq!(state.total_pages(), 0);
    assert!(state.visible_items().is_empty());
    assert!(!state.can_go_previous());
    assert!(!state.can_go_next());
    assert_eq!(page_label(Language::En, &state), "Page 0 / 0");
    assert_eq!(page_label(Language::Cs, &state), "Strana 0 / 0");
}

#[test]
fn pages_cover_all_results() {
    let mut state = PaginationState::new();
    state.set_results(numbered(120));
    assert_eq!(state.total_pages(), 3);
    let mut seen = Vec::new();
    let mut sizes = Vec::new();
    loop {
        let page = state.visible_items();
        sizes.push(page.len());
        seen.extend(page);
        if !state.can_go_next() {
            break;
        }
        state.go_next();
    }
    assert_eq!(sizes, vec![50, 50, 20]);
    assert_eq!(seen, numbered(120));
    assert_eq!(page_label(Language::En, &state), "Page 3 / 3");
    state.go_next();
    assert_eq!(state.current_page(), 2);
    state.go_previous();
    state.go_previous();
    state.go_previous();
    assert_eq!(state.current_page(), 0);
    assert_eq!(page_label(Language::Cs, &state), "Strana 1 / 3");
    state.go_next();
    state.go_previous();
    assert_eq!(state.current_page(), 0);
    state.set_results(numbered(50));
    assert_eq!(state.total_pages(), 1);
    assert_eq!(state.result_count(), 50);
    assert!(!state.can_go_next());
}

#[test]
fn language_texts() {
    assert_eq!(Language::En.found_files(0), "Files found: 0");
    assert_eq!(Language::Cs.found_files(1234), "Nalezeno souboru: 1234");
    assert_eq!(Language::En.page(10, 107), "Page 10 / 107");
    assert_eq!(Language::Cs.validation(ValidationError::InvalidDateRange), "Pole 'Od' musi byt mensi nebo rovno poli 'Do'.");
    assert_eq!(Language::En.validation(ValidationError::MissingFolder), "Select at least one existing folder.");
    assert_eq!(Language::from_code(" cs\n"), Language::Cs);
    assert_eq!(Language::from_code("CS"), Language::En);
    assert_eq!(Language::from_code(""), Language::En);
    for language in [Language::En, Language::Cs] {
        assert_eq!(Language::from_code(&saved_language_text(language)), language);
    }
}

#[test]
fn status_follows_language() {
    assert_eq!(translated_status("Files found: 3", Language::Cs, 3), Some("Nalezeno souboru: 3".to_string()));
    assert_eq!(translated_status("Nalezeno souboru: 7", Language::En, 9), Some("Files found: 9".to_string()));
    assert_eq!(translated_status("Select at least one file type.", Language::Cs, 3), None);
    assert_eq!(translated_status("", Language::Cs, 3), None);
}

#[test]
fn folder_field_appending() {
    assert_eq!(append_folder("", "/a"), "/a");
    assert_eq!(append_folder("   ", "/a"), "/a");
    assert_eq!(append_folder("/a", "/b"), "/a, /b");
    assert_eq!(append_folder("/a,  /b ", "/b"), "/a,  /b ");
    assert_eq!(append_folder("/a, /b", "/a"), "/a, /b");
    for current in ["", "/x", "/x, /y", " ,"] {
        let once = append_folder(current, "/new dir");
        assert_eq!(append_folder(&once, "/new dir"), once);
    }
}

#[test]
fn extension_field_collection() {
    let boxes = vec![
        ("pdf".to_string(), true),
        ("docx".to_string(), false),
        ("txt".to_string(), true),
    ];
    assert_eq!(collect_extensions(&boxes, " md "), "pdf,txt, md ");
    assert_eq!(collect_extensions(&boxes, "  "), "pdf,txt");
    assert_eq!(collect_extensions(&vec![("pdf".to_string(), false)], "x"), "x");
    assert_eq!(collect_extensions(&Vec::new(), ""), "");
}

#[test]
fn date_buttons() {
    assert_eq!(button_date_value(Some("Pick date"), Language::En), "");
    assert_eq!(button_date_value(Some("Pick date"), Language::Cs), "Pick date");
    assert_eq!(button_date_value(Some("2026-01-02"), Language::Cs), "2026-01-02");
    assert_eq!(button_date_value(None, Language::En), "");
    assert!(button_label_is_date_placeholder(Some("Vybrat datum")));
    assert!(button_label_is_date_placeholder(Some("Pick date")));
    assert!(!button_label_is_date_placeholder(Some("2026-01-02")));
    assert!(!button_label_is_date_placeholder(None));
}

#[test]
fn search_form_validation() {
    let folders = strings(&["/a"]);
    assert_eq!(config_from_parts(Vec::new(), "pdf", "", ""), Err(ValidationError::MissingFolder));
    assert_eq!(config_from_parts(folders.clone(), " , ", "", ""), Err(ValidationError::MissingExtension));
    assert_eq!(config_from_parts(folders.clone(), "pdf", "2026-02-30", ""), Err(ValidationError::InvalidDate));
    assert_eq!(config_from_parts(folders.clone(), "pdf", "", "x"), Err(ValidationError::InvalidDate));
    assert_eq!(
        config_from_parts(folders.clone(), "pdf", "2026-02-01", "2026-01-01"),
        Err(ValidationError::InvalidDateRange)
    );
    let same_day = config_from_parts(folders.clone(), "pdf,TXT", "2026-02-01", "2026-02-01").unwrap();
    assert_eq!(same_day.folders, folders);
    assert_eq!(same_day.extensions, strings(&[".pdf", ".txt"]));
    assert_eq!(same_day.date_from, Some(parse_date("2026-02-01", false).unwrap()));
    assert_eq!(same_day.date_to, Some(parse_date("2026-02-01", true).unwrap()));
    let open = config_from_parts(folders, "pdf", " ", "").unwrap();
    assert_eq!(open.date_from, None);
    assert_eq!(open.date_to, None);
    assert_eq!(build_config("/definitely/missing", None, "pdf", "", ""), Err(ValidationError::MissingFolder));
    assert_eq!(build_config(".", None, "pdf", "", "").unwrap().folders, strings(&["."]));
}

#[test]
fn theme_choice_and_round_trip() {
    let all = themes();
    assert_eq!(all.len(), 4);
    assert_eq!(all[1].id, "theme-forest");
    assert_eq!(all[1].label(Language::Cs), "Les");
    assert_eq!(all[3].label(Language::En), "Ink");
    assert_eq!(known_theme("theme-ink"), "theme-ink");
    assert_eq!(known_theme("bogus"), "theme-sand");
    assert_eq!(known_theme(" theme-ink"), "theme-sand");
    assert_eq!(theme_from_saved(" theme-night\n"), "theme-night");
    assert_eq!(theme_from_saved(""), "theme-sand");
    for theme in all {
        assert_eq!(theme_from_saved(&saved_theme_text(theme.id)), theme.id);
    }
}

#[test]
fn settings_locations() {
    let join = |parts: &[&str]| -> String {
        let mut p = PathBuf::from(parts[0]);
        for part in &parts[1..] {
            p = p.join(part);
        }
        p.to_str().unwrap().to_string()
    };
    assert_eq!(
        settings_path("theme.txt", Some("/appdata"), Some("/xdg"), Some("/h")),
        join(&["/appdata", "rfindfiles", "theme.txt"])
    );
    assert_eq!(
        settings_path("theme.txt", None, Some("/xdg/"), Some("/h")),
        join(&["/xdg/", "rfindfiles", "theme.txt"])
    );
    assert_eq!(
        settings_path("language.txt", None, None, Some("/h")),
        join(&["/h", ".config", "rfindfiles", "language.txt"])
    );
    assert_eq!(settings_path("language.txt", None, None, None), "language.txt");
    assert_eq!(settings_path("theme.txt", Some(""), None, None), join(&["", "rfindfiles", "theme.txt"]));
}
