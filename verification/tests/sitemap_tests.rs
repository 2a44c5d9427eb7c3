use clog::config::Config;
use clog::frontmatter::FrontMatter;
use clog::sitemap::BuildError;
use clog::sitemap::FileKind;
use clog::sitemap::Page;
use clog::sitemap::ScanFile;
use clog::sitemap::SiteMap;
use clog::sitemap::classify;
use clog::sitemap::is_static_extension;
use clog::sitemap::sort_page_indices;
use clog::sitemap::strip_prefix;
use clog::sitemap::translate;

fn doc(path: &str, yaml: Option<&str>) -> ScanFile {
    ScanFile {
        path: path.to_string(),
        yaml: yaml.map(|y| y.to_string()),
        mtime_epoch: 1709251200,
    }
}

fn empty_config() -> Config {
    Config { ignored_folders: Vec::new(), list_folders: Vec::new() }
}

fn page(date: &str, title: &str) -> Page {
    Page {
        name: title.to_string(),
        link: format!("/{title}.html"),
        front_matter: FrontMatter {
            title: title.to_string(),
            draft: false,
            date: date.to_string(),
            authors: Vec::new(),
            published: None,
            link: None,
            tags: Vec::new(),
        },
        in_path: format!("c/{title}.md"),
        out_path: format!("o/{title}.html"),
    }
}

#[test]
fn classification() {
    assert_eq!(classify("c/a.png"), FileKind::Asset);
    assert_eq!(classify("c/a.jpg"), FileKind::Asset);
    assert_eq!(classify("c/a.md"), FileKind::Document);
    assert_eq!(classify("c/a.txt"), FileKind::Skipped);
    assert_eq!(classify("c/noext"), FileKind::Skipped);
    assert!(is_static_extension("png"));
    assert!(!is_static_extension("gif"));
}

#[test]
fn path_helpers() {
    assert_eq!(strip_prefix("c", "c/a/b.md"), Some("a/b.md".to_string()));
    assert_eq!(strip_prefix("c", "d/a.md"), None);
    assert_eq!(strip_prefix("", "a.md"), Some("a.md".to_string()));
    assert_eq!(translate("c", "out", "c/a/b.md"), Some("out/a/b.md".to_string()));
    assert_eq!(translate("c", "out", "d/b.md"), None);
}

#[test]
fn build_derives_paths_and_links() {
    let files = vec![doc("c/Posts/My Post.md", None), doc("c/pic.png", None)];
    let (sm, warnings) = SiteMap::build(&empty_config(), "c", "o", &files).unwrap();
    assert!(warnings.is_empty());
    let pages = sm.pages();
    assert_eq!(pages.len(), 1);
    assert_eq!(pages[0].name, "My Post");
    assert_eq!(pages[0].link, "/Posts/My Post.html");
    assert_eq!(pages[0].in_path, "c/Posts/My Post.md");
    assert_eq!(pages[0].out_path, "o/Posts/My Post.html");
    assert_eq!(pages[0].front_matter.title, "My Post");
    let statics = sm.statics();
    assert_eq!(statics.len(), 1);
    assert_eq!(statics[0].in_path, "c/pic.png");
    assert_eq!(statics[0].out_path, "o/pic.png");
    // the file is in the folder bucket for "Posts"
    let folders = sm.folders();
    assert_eq!(folders.len(), 1);
    assert_eq!(folders[0].key, "Posts");
    assert_eq!(folders[0].idxs, vec![0]);
}

#[test]
fn duplicate_names_warn_and_first_wins() {
    let files = vec![doc("c/a/Post.md", None), doc("c/b/Post.md", None)];
    let (sm, warnings) = SiteMap::build(&empty_config(), "c", "o", &files).unwrap();
    assert_eq!(warnings.len(), 1);
    assert_eq!(warnings[0].key, "Post");
    assert_eq!(warnings[0].idxs, vec![0, 1]);
    let found = sm.page_by_name("Post").unwrap();
    assert_eq!(found.in_path, "c/a/Post.md");
    assert!(sm.page_by_name("Missing").is_none());
}

#[test]
fn tag_buckets_sort_newest_first() {
    let files = vec![
        doc("c/b.md", Some("title: B\ndate: 2024-01-01\ntags: [t]")),
        doc("c/a.md", Some("title: A\ndate: 2024-06-01\ntags: [t]")),
    ];
    let (sm, _) = SiteMap::build(&empty_config(), "c", "o", &files).unwrap();
    let tags = sm.pages_by_tag();
    assert_eq!(tags.len(), 1);
    assert_eq!(tags[0].key, "t");
    // the 2024-06-01 page comes first: date descending is the primary key
    assert_eq!(tags[0].idxs, vec![1, 0]);
}

#[test]
fn sorting_breaks_date_ties_by_title_descending() {
    let pages = vec![page("2024-01-01", "B"), page("2024-06-01", "A"), page("2024-06-01", "Z")];
    let mut idxs = vec![0, 1, 2];
    sort_page_indices(&pages, &mut idxs);
    assert_eq!(idxs, vec![2, 1, 0]);
}

#[test]
fn drafts_leave_listings() {
    let files = vec![
        doc("c/p/Live.md", Some("date: 2024-01-01")),
        doc("c/p/Hidden.md", Some("date: 2024-01-02\ndraft: \"TRUE\"")),
    ];
    let (sm, _) = SiteMap::build(&empty_config(), "c", "o", &files).unwrap();
    assert!(sm.pages()[1].front_matter.draft);
    let folders = sm.folders();
    assert_eq!(folders[0].key, "p");
    assert_eq!(folders[0].idxs, vec![1, 0]);
    // the draft page leaves the listing; the rest keep their order
    let listing = sm.non_draft(&folders[0].idxs);
    assert_eq!(listing, vec![0]);
}

#[test]
fn ignored_folders_prune_whole_subtrees() {
    let cfg = Config::try_from_yaml("ignored_folders: [\"Drafts\"]").unwrap();
    let files = vec![doc("c/Drafts/Deep/x.md", None), doc("c/Keep/y.md", None)];
    let (sm, _) = SiteMap::build(&cfg, "c", "o", &files).unwrap();
    assert_eq!(sm.pages().len(), 1);
    assert_eq!(sm.pages()[0].name, "y");
}

#[test]
fn build_errors() {
    let files = vec![doc("elsewhere/x.md", None)];
    let err = SiteMap::build(&empty_config(), "c", "o", &files).unwrap_err();
    assert_eq!(err, BuildError::Path("elsewhere/x.md".to_string()));
    let files = vec![doc("c/x.md", Some("a: [unclosed"))];
    let err = SiteMap::build(&empty_config(), "c", "o", &files).unwrap_err();
    match err {
        BuildError::Parse(path, _) => assert_eq!(path, "c/x.md"),
        other => panic!("unexpected error {other:?}"),
    }
}

#[test]
fn backlinks_reverse_resolved_references() {
    let files = vec![doc("c/A.md", None), doc("c/B.md", None)];
    let (mut sm, _) = SiteMap::build(&empty_config(), "c", "o", &files).unwrap();
    let targets = sm.resolve_targets("see [[B]], again [[B|twice]], and [[Missing]]");
    assert_eq!(targets, vec![1]);
    sm.register_links(0, &targets);
    assert_eq!(sm.backlinks(1), vec![0]);
    assert!(sm.backlinks(0).is_empty());
}

#[test]
fn page_folder() {
    let p = page("2024-01-01", "T");
    assert_eq!(p.folder("c").unwrap(), Some("".to_string()));
    let mut q = page("2024-01-01", "U");
    q.in_path = "c/sub/dir/U.md".to_string();
    assert_eq!(q.folder("c").unwrap(), Some("sub/dir".to_string()));
    assert!(q.folder("other").is_err());
}
