use clog::config::Config;
use clog::markdown::Log;
use clog::markdown::Node;
use clog::markdown::RenderError;
use clog::markdown::find_yaml_frontmatter;
use clog::markdown::math_markup;
use clog::markdown::write_md_ast;
use clog::sitemap::ScanFile;
use clog::sitemap::SiteMap;

const EMPTY_FOOTNOTES: &str = "<section class=\"footnotes\">\n<ol>\n</ol>\n</section>\n";

fn empty_site() -> SiteMap {
    let cfg = Config { ignored_folders: Vec::new(), list_folders: Vec::new() };
    let (sm, _) = SiteMap::build(&cfg, "c", "o", &Vec::new()).unwrap();
    sm
}

fn site_with_real() -> SiteMap {
    let cfg = Config { ignored_folders: Vec::new(), list_folders: Vec::new() };
    let files = vec![ScanFile {
        path: "c/Real.md".to_string(),
        yaml: None,
        mtime_epoch: 1709251200,
    }];
    let (sm, _) = SiteMap::build(&cfg, "c", "o", &files).unwrap();
    sm
}

fn text(s: &str) -> Node {
    Node::Text { value: s.to_string() }
}

#[test]
fn plain_text_renders_verbatim() {
    let sm = empty_site();
    let (html, log) = write_md_ast(&sm, &text("hello")).unwrap();
    assert_eq!(html, format!("hello{EMPTY_FOOTNOTES}"));
    assert!(!log.math);
    assert!(log.warnings.is_empty());
}

#[test]
fn references_resolve_or_degrade() {
    let sm = site_with_real();
    let (html, _) = write_md_ast(&sm, &text("See [[Missing]] and [[Real|Click]]")).unwrap();
    assert_eq!(
        html,
        format!(
            "See <em>Missing</em> and <a href=\"/Real.html\">Click</a>{EMPTY_FOOTNOTES}"
        )
    );
}

#[test]
fn containers_nest() {
    let sm = empty_site();
    let ast = Node::Root {
        children: vec![
            Node::Paragraph { children: vec![text("a "), Node::Emphasis { children: vec![text("b")] }] },
            Node::Heading { depth: 2, children: vec![text("t")] },
            Node::ThematicBreak,
        ],
    };
    let (html, _) = write_md_ast(&sm, &ast).unwrap();
    assert_eq!(html, format!("\n<p>a <em>b</em></p>\n<h2>t</h2>\n<hr />{EMPTY_FOOTNOTES}"));
}

#[test]
fn tight_list_items_unwrap_their_paragraph() {
    let sm = empty_site();
    let tight = Node::List {
        ordered: false,
        children: vec![Node::ListItem {
            spread: false,
            children: vec![Node::Paragraph { children: vec![text("one")] }],
        }],
    };
    let (html, _) = write_md_ast(&sm, &tight).unwrap();
    assert_eq!(html, format!("\n<ul><li>one</li></ul>{EMPTY_FOOTNOTES}"));
    let loose = Node::List {
        ordered: true,
        children: vec![Node::ListItem {
            spread: true,
            children: vec![Node::Paragraph { children: vec![text("one")] }],
        }],
    };
    let (html, _) = write_md_ast(&sm, &loose).unwrap();
    assert_eq!(html, format!("\n<ol><li>\n<p>one</p></li></ol>{EMPTY_FOOTNOTES}"));
}

#[test]
fn leaves_render_their_fixed_markup() {
    let sm = empty_site();
    let ast = Node::Root {
        children: vec![
            Node::InlineCode { value: "x".to_string() },
            Node::Break,
            Node::Code { value: "let y".to_string() },
            Node::Html { value: "<aside/>".to_string() },
            Node::Image { url: "u.png".to_string(), alt: "alt".to_string(), title: None },
            Node::Image {
                url: "v.png".to_string(),
                alt: "a".to_string(),
                title: Some("T".to_string()),
            },
            Node::Link { url: "http://x".to_string(), children: vec![text("lnk")] },
        ],
    };
    let (html, _) = write_md_ast(&sm, &ast).unwrap();
    assert_eq!(
        html,
        format!(
            "<code>x</code>\n<br/>\n<pre><code>let y</code></pre><aside/>\n<img src=u.png alt=alt />\n<img src=v.png alt=a title=T/><a href=http://x>lnk</a>{EMPTY_FOOTNOTES}"
        )
    );
}

#[test]
fn tables_and_inline_spans() {
    let sm = empty_site();
    let ast = Node::Root {
        children: vec![
            Node::Table {
                children: vec![Node::TableRow {
                    children: vec![Node::TableCell { children: vec![text("c")] }],
                }],
            },
            Node::Blockquote { children: vec![text("q")] },
            Node::Delete { children: vec![text("d")] },
            Node::Strong { children: vec![text("s")] },
        ],
    };
    let (html, _) = write_md_ast(&sm, &ast).unwrap();
    assert_eq!(
        html,
        format!(
            "\n<table>\n<tr>\n<th>c</th>\n</tr>\n</table>\n<blockquote>q</blockquote><del>d</del><strong>s</strong>{EMPTY_FOOTNOTES}"
        )
    );
}

#[test]
fn footnotes_number_in_first_seen_order() {
    let sm = empty_site();
    let ast = Node::Root {
        children: vec![
            text("x"),
            Node::FootnoteReference { identifier: "a".to_string() },
            Node::FootnoteReference { identifier: "a".to_string() },
            Node::FootnoteDefinition {
                identifier: "a".to_string(),
                children: vec![text("hello")],
            },
        ],
    };
    let (html, _) = write_md_ast(&sm, &ast).unwrap();
    let reference = "<sup><a href=\"#fn-a\">1</a></sup>";
    let expected = format!(
        "x{reference}{reference}<section class=\"footnotes\">\n<ol>\n<li id=\"fn-a\">hello{EMPTY_FOOTNOTES}</li>\n</ol>\n</section>\n"
    );
    assert_eq!(html, expected);
}

#[test]
fn missing_footnote_definition_gets_a_placeholder() {
    let sm = empty_site();
    let ast = Node::Root {
        children: vec![Node::FootnoteReference { identifier: "b".to_string() }],
    };
    let (html, _) = write_md_ast(&sm, &ast).unwrap();
    let expected = format!(
        "<sup><a href=\"#fn-b\">1</a></sup><section class=\"footnotes\">\n<ol>\n<li>???</li>\n</ol>\n</section>\n"
    );
    assert_eq!(html, expected);
}

#[test]
fn yaml_is_skipped_and_found() {
    let sm = empty_site();
    let ast = Node::Root {
        children: vec![Node::Yaml { value: "title: X".to_string() }, text("body")],
    };
    let (html, _) = write_md_ast(&sm, &ast).unwrap();
    assert_eq!(html, format!("body{EMPTY_FOOTNOTES}"));
    assert_eq!(find_yaml_frontmatter(&ast), Some(&"title: X".to_string()));
    assert_eq!(find_yaml_frontmatter(&text("no")), None);
}

#[test]
fn math_fallback_form() {
    assert_eq!(math_markup("x^2", false, None), "<code>$x^2$</code>");
    assert_eq!(math_markup("x^2", true, None), "<pre><code>$$x^2$$</code></pre>");
    assert_eq!(math_markup("e", false, Some("<mark/>")), "<span class=\"katex-wrapper\"><mark/></span>");
}

#[test]
fn math_renders_or_falls_back() {
    let sm = empty_site();
    // a valid expression goes through the service and comes back wrapped
    let (html, log) = write_md_ast(&sm, &Node::InlineMath { value: "x^2".to_string() }).unwrap();
    assert!(log.math);
    assert!(log.warnings.is_empty());
    assert!(html.starts_with("<span class=\"katex-wrapper\">"));
    assert!(html.contains("katex"));
    // a rejected expression degrades to the verbatim fallback and warns
    let (html, log) = write_md_ast(
        &sm,
        &Node::Math { value: "\\undefinedmacro{".to_string() },
    )
    .unwrap();
    assert!(log.math);
    assert_eq!(log.warnings, vec!["\\undefinedmacro{".to_string()]);
    assert_eq!(
        html,
        format!("<pre><code>$$\\undefinedmacro{{$$</code></pre>{EMPTY_FOOTNOTES}")
    );
}

#[test]
fn unsupported_constructs_are_hard_errors() {
    let sm = empty_site();
    let ast = Node::Root {
        children: vec![text("fine"), Node::Unsupported { kind: "Toml".to_string() }],
    };
    let err = write_md_ast(&sm, &ast).unwrap_err();
    assert_eq!(err, RenderError::Unsupported("Toml".to_string()));
}

#[test]
fn log_merge_combines() {
    let mut a = Log { math: false, warnings: vec!["w1".to_string()] };
    let b = Log { math: true, warnings: vec!["w2".to_string()] };
    a.merge(&b);
    assert!(a.math);
    assert_eq!(a.warnings, vec!["w1".to_string(), "w2".to_string()]);
}
