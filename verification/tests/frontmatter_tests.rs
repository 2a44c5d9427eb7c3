use clog::frontmatter::date_prefix;
use clog::frontmatter::epoch_date;
use clog::frontmatter::FrontMatter;
use clog::frontmatter::ParseError;
use clog::config::Config;
use clog::counter::Sequential;

#[test]
fn date_prefix_rule() {
    // trailing content after the leading date is ignored
    assert_eq!(date_prefix("2024-03-01-extra-text"), Some("2024-03-01".to_string()));
    assert_eq!(date_prefix("2024-03-01"), Some("2024-03-01".to_string()));
    assert_eq!(date_prefix("yesterday"), None);
    assert_eq!(date_prefix("2024-3-1"), None);
    assert_eq!(date_prefix(""), None);
}

#[test]
fn date_prefix_through_header() {
    let fm = FrontMatter::try_from_yaml("post", 0, Some("date: 2024-03-01-extra-text")).unwrap();
    assert_eq!(fm.date, "2024-03-01");
}

#[test]
fn no_header_falls_back() {
    // 1709251200 is 2024-03-01T00:00:00 UTC
    let fm = FrontMatter::try_from_yaml("My Post", 1709251200, None).unwrap();
    assert_eq!(fm.title, "My Post");
    assert_eq!(fm.date, "2024-03-01");
    assert_eq!(fm.draft, false);
    assert!(fm.authors.is_empty());
    assert!(fm.tags.is_empty());
    assert_eq!(fm.published, None);
    assert_eq!(fm.link, None);
}

#[test]
fn epoch_date_formats() {
    assert_eq!(epoch_date(0), "1970-01-01");
    assert_eq!(epoch_date(1709251200), "2024-03-01");
}

#[test]
fn date_field_precedence() {
    let yaml = "modified: 2024-05-05\ncreated: 2024-04-04\ndate: 2024-03-03";
    let fm = FrontMatter::try_from_yaml("p", 0, Some(yaml)).unwrap();
    assert_eq!(fm.date, "2024-05-05");
    let yaml = "created: 2024-04-04\ndate: 2024-03-03";
    let fm = FrontMatter::try_from_yaml("p", 0, Some(yaml)).unwrap();
    assert_eq!(fm.date, "2024-04-04");
    // an unparsable field is passed over, not an error
    let yaml = "modified: recently\ndate: 2024-03-03";
    let fm = FrontMatter::try_from_yaml("p", 0, Some(yaml)).unwrap();
    assert_eq!(fm.date, "2024-03-03");
}

#[test]
fn draft_is_case_insensitive() {
    let fm = FrontMatter::try_from_yaml("p", 0, Some("draft: \"TRUE\"")).unwrap();
    assert!(fm.draft);
    let fm = FrontMatter::try_from_yaml("p", 0, Some("draft: \"TrUe\"")).unwrap();
    assert!(fm.draft);
    let fm = FrontMatter::try_from_yaml("p", 0, Some("draft: \"no\"")).unwrap();
    assert!(!fm.draft);
    let fm = FrontMatter::try_from_yaml("p", 0, Some("draft: true")).unwrap();
    assert!(fm.draft);
}

#[test]
fn authors_accept_string_or_list() {
    let fm = FrontMatter::try_from_yaml("p", 0, Some("authors: Alice")).unwrap();
    assert_eq!(fm.authors, vec!["Alice".to_string()]);
    let fm = FrontMatter::try_from_yaml("p", 0, Some("authors: [Alice, Bob]")).unwrap();
    assert_eq!(fm.authors, vec!["Alice".to_string(), "Bob".to_string()]);
    let fm = FrontMatter::try_from_yaml("p", 0, Some("tags: [a, b]")).unwrap();
    assert_eq!(fm.tags, vec!["a".to_string(), "b".to_string()]);
}

#[test]
fn published_has_no_fallback() {
    let fm = FrontMatter::try_from_yaml("p", 0, Some("published: 2024-02-02 midday")).unwrap();
    assert_eq!(fm.published, Some("2024-02-02".to_string()));
    let fm = FrontMatter::try_from_yaml("p", 0, Some("published: someday")).unwrap();
    assert_eq!(fm.published, None);
}

#[test]
fn header_errors() {
    // not YAML at all
    let r = FrontMatter::try_from_yaml("p", 0, Some("a: [unclosed"));
    assert_eq!(r.unwrap_err(), ParseError::Syntax);
    // well-formed YAML, but no mapping
    let r = FrontMatter::try_from_yaml("p", 0, Some("just a string"));
    assert_eq!(r.unwrap_err(), ParseError::NotAMapping);
    // a field of the wrong shape
    let r = FrontMatter::try_from_yaml("p", 0, Some("title: [1, 2]"));
    assert_eq!(r.unwrap_err(), ParseError::BadField("title".to_string()));
    let r = FrontMatter::try_from_yaml("p", 0, Some("authors: 42"));
    assert_eq!(r.unwrap_err(), ParseError::BadField("authors".to_string()));
}

#[test]
fn bad_field_names_the_first_offender() {
    // fields are read in a fixed order; the error names the first one
    // of the wrong shape
    let r = FrontMatter::try_from_yaml("p", 0, Some("tags: 1\ndate: [2]"));
    assert_eq!(r.unwrap_err(), ParseError::BadField("date".to_string()));
    let r = FrontMatter::try_from_yaml("p", 0, Some("draft: [x]\nauthors: 1"));
    assert_eq!(r.unwrap_err(), ParseError::BadField("draft".to_string()));
}

#[test]
fn config_parsing() {
    let cfg = Config::try_from_yaml("ignored_folders: [\"Drafts\", \"Old/Stuff\"]").unwrap();
    assert!(cfg.is_ignored("Drafts"));
    assert!(cfg.is_ignored("Old/Stuff"));
    assert!(!cfg.is_ignored("Posts"));
    let cfg = Config::try_from_yaml("{}").unwrap();
    assert!(!cfg.is_ignored("Drafts"));
    let r = Config::try_from_yaml("ignored_folders: notalist");
    assert!(r.is_err());
}

#[test]
fn counter_assigns_first_seen_ordinals() {
    let mut ctr = Sequential::default();
    assert_eq!(ctr.value("a"), 0);
    assert_eq!(ctr.value("b"), 1);
    assert_eq!(ctr.value("a"), 0);
    assert_eq!(ctr.value("c"), 2);
    assert_eq!(ctr.len(), 3);
    assert_eq!(ctr.key_at(1), "b");
}
