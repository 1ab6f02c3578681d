use rfindfiles::{parse_date, parse_extensions};

#[test]
fn parse_extensions_adds_dot_and_normalizes_case() {
    assert_eq!(
        parse_extensions("PDF, txt,.Rs"),
        vec![".pdf", ".txt", ".rs"]
    );
}

#[test]
fn parse_date_accepts_valid_date() {
    assert!(parse_date("2026-03-23", false).is_ok());
}

#[test]
fn parse_date_rejects_invalid_date() {
    let error = parse_date("2026-02-30", false).unwrap_err();
    assert_eq!(
        error.to_string(),
        "Neplatné datum '2026-02-30', očekávaný formát je YYYY-MM-DD."
    );
}
