use bootkit::single_line_check;
use bootkit::valid_key_check;
use bootkit::ConfigError;
use bootkit::DirectiveDocument;

#[test]
fn round_trip_preserves_text() {
    let text = "# GRUB defaults\n\nGRUB_DEFAULT=0\nGRUB_CMDLINE_LINUX=\"quiet splash\"\nGRUB_TERMINAL='console serial'\nstray line !\nGRUB_TIMEOUT=5\n";
    let doc = DirectiveDocument::parse(text).unwrap();
    let out = doc.serialize();
    assert_eq!(out, text);
    let doc2 = DirectiveDocument::parse(&out).unwrap();
    assert_eq!(doc2.serialize(), out);
}

#[test]
fn empty_text_round_trips() {
    let doc = DirectiveDocument::parse("").unwrap();
    assert_eq!(doc.serialize(), "");
}

#[test]
fn trailing_newline_is_kept() {
    let doc = DirectiveDocument::parse("GRUB_TIMEOUT=5\n").unwrap();
    assert_eq!(doc.serialize(), "GRUB_TIMEOUT=5\n");
    let doc2 = DirectiveDocument::parse("GRUB_TIMEOUT=5").unwrap();
    assert_eq!(doc2.serialize(), "GRUB_TIMEOUT=5");
}

#[test]
fn unterminated_quote_is_parse_error() {
    let r = DirectiveDocument::parse("GRUB_CMDLINE_LINUX=\"quiet\nGRUB_TIMEOUT=5\n");
    assert!(matches!(r, Err(ConfigError::ParseError)));
    let r2 = DirectiveDocument::parse("GRUB_X='oops\n");
    assert!(matches!(r2, Err(ConfigError::ParseError)));
}

#[test]
fn quotes_are_stripped_and_restored() {
    let doc = DirectiveDocument::parse("GRUB_CMDLINE_LINUX=\"quiet splash\"\nGRUB_TERMINAL='console'\n").unwrap();
    assert_eq!(doc.get("GRUB_CMDLINE_LINUX").unwrap(), "quiet splash");
    assert_eq!(doc.get("GRUB_TERMINAL").unwrap(), "console");
    assert_eq!(
        doc.serialize(),
        "GRUB_CMDLINE_LINUX=\"quiet splash\"\nGRUB_TERMINAL='console'\n"
    );
}

#[test]
fn get_returns_first_occurrence_of_duplicate_key() {
    let doc = DirectiveDocument::parse("GRUB_DEFAULT=0\nGRUB_DEFAULT=2\n").unwrap();
    assert_eq!(doc.get("GRUB_DEFAULT").unwrap(), "0");
}

#[test]
fn get_missing_key_is_none() {
    let doc = DirectiveDocument::parse("GRUB_DEFAULT=0\n").unwrap();
    assert!(doc.get("GRUB_TIMEOUT").is_none());
}

#[test]
fn set_updates_first_occurrence_in_place() {
    let mut doc = DirectiveDocument::parse("GRUB_DEFAULT=0\nGRUB_TIMEOUT=5\nGRUB_DEFAULT=2\n").unwrap();
    doc.set("GRUB_DEFAULT", "9");
    assert_eq!(doc.serialize(), "GRUB_DEFAULT=9\nGRUB_TIMEOUT=5\nGRUB_DEFAULT=2\n");
    assert_eq!(doc.get("GRUB_DEFAULT").unwrap(), "9");
}

#[test]
fn set_appends_when_key_is_absent() {
    let mut doc = DirectiveDocument::parse("GRUB_DEFAULT=0").unwrap();
    doc.set("GRUB_TIMEOUT", "10");
    assert_eq!(doc.serialize(), "GRUB_DEFAULT=0\nGRUB_TIMEOUT=10");
}

#[test]
fn set_quotes_values_with_whitespace() {
    let mut doc = DirectiveDocument::parse("GRUB_DEFAULT=0").unwrap();
    doc.set("GRUB_CMDLINE_LINUX", "quiet splash");
    assert_eq!(
        doc.serialize(),
        "GRUB_DEFAULT=0\nGRUB_CMDLINE_LINUX=\"quiet splash\""
    );
    assert_eq!(doc.get("GRUB_CMDLINE_LINUX").unwrap(), "quiet splash");
}

#[test]
fn set_leaves_plain_values_unquoted() {
    let mut doc = DirectiveDocument::parse("GRUB_DEFAULT=0").unwrap();
    doc.set("GRUB_TIMEOUT", "30");
    assert_eq!(doc.serialize(), "GRUB_DEFAULT=0\nGRUB_TIMEOUT=30");
}

#[test]
fn comments_and_blanks_survive_set() {
    let mut doc = DirectiveDocument::parse("# keep me\n\nGRUB_DEFAULT=0\n").unwrap();
    doc.set("GRUB_DEFAULT", "1");
    assert_eq!(doc.serialize(), "# keep me\n\nGRUB_DEFAULT=1\n");
}

#[test]
fn all_pairs_in_document_order_with_duplicates() {
    let doc = DirectiveDocument::parse("# c\nGRUB_DEFAULT=0\nbare\nGRUB_TIMEOUT=5\nGRUB_DEFAULT=2\n").unwrap();
    let pairs = doc.all_pairs();
    let want = vec![
        ("GRUB_DEFAULT", "0"),
        ("GRUB_TIMEOUT", "5"),
        ("GRUB_DEFAULT", "2"),
    ];
    assert_eq!(pairs.len(), want.len());
    for (got, want) in pairs.iter().zip(want.iter()) {
        assert_eq!(got.0, want.0);
        assert_eq!(got.1, want.1);
    }
}

#[test]
fn non_ascii_values_round_trip() {
    let text = "GRUB_DISTRIBUTOR=\"openSUSE Tumbleweed\u{2122}\"\nGRUB_X=\u{e4}\n";
    let doc = DirectiveDocument::parse(text).unwrap();
    assert_eq!(doc.serialize(), text);
    assert_eq!(doc.get("GRUB_X").unwrap(), "\u{e4}");
}

#[test]
fn malformed_lines_are_preserved_verbatim() {
    let text = "=nokey\n  indented KEY=V\n9starts_with_digit=1\n";
    let doc = DirectiveDocument::parse(text).unwrap();
    assert_eq!(doc.serialize(), text);
    assert!(doc.get("KEY").is_none());
    assert!(doc.get("9starts_with_digit").is_none());
}

#[test]
fn key_and_value_checks() {
    assert!(valid_key_check("GRUB_DEFAULT"));
    assert!(valid_key_check("_x9"));
    assert!(!valid_key_check(""));
    assert!(!valid_key_check("9X"));
    assert!(!valid_key_check("A-B"));
    assert!(single_line_check("quiet splash"));
    assert!(!single_line_check("a\nb"));
}
