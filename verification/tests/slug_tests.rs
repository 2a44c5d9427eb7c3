use clog::slug::slugify;
use clog::slug::slugify_path;

#[test]
fn basic_slugify() {
    assert_eq!(slugify("Hello World"), "hello-world");
    assert_eq!(slugify("hello world"), "hello-world");
    assert_eq!(slugify("HELLO WORLD"), "hello-world");
}

#[test]
fn special_characters() {
    assert_eq!(slugify("What's Up?"), "whats-up");
    assert_eq!(slugify("Hello: World!"), "hello-world");
    assert_eq!(slugify("foo \"bar\" baz"), "foo-bar-baz");
    assert_eq!(slugify("test@example#hash"), "testexamplehash");
}

#[test]
fn underscores_and_hyphens() {
    assert_eq!(slugify("foo_bar"), "foo-bar");
    assert_eq!(slugify("foo-bar"), "foo-bar");
    assert_eq!(slugify("foo--bar"), "foo-bar");
    assert_eq!(slugify("foo___bar"), "foo-bar");
    assert_eq!(slugify("foo - bar"), "foo-bar");
}

#[test]
fn leading_trailing() {
    assert_eq!(slugify(" hello "), "hello");
    assert_eq!(slugify("-hello-"), "hello");
    assert_eq!(slugify("--hello--"), "hello");
}

#[test]
fn preserves_periods() {
    assert_eq!(slugify("file.html"), "file.html");
    assert_eq!(slugify("My File.html"), "my-file.html");
}

#[test]
fn numbers() {
    assert_eq!(slugify("Post 123"), "post-123");
    assert_eq!(slugify("2024-01-15"), "2024-01-15");
}

#[test]
fn path_slugify() {
    assert_eq!(slugify_path("Posts/My Cool Post.html"), "posts/my-cool-post.html");
    assert_eq!(
        slugify_path("Category Name/Sub Category/File Name.html"),
        "category-name/sub-category/file-name.html"
    );
}

#[test]
fn transliterates_to_ascii() {
    // the transliteration table is really consulted for non-ASCII input
    assert_eq!(slugify("Héllo Wörld"), "hello-world");
    assert_eq!(slugify("Æther"), "aether");
}

#[test]
fn slugify_is_idempotent_on_samples() {
    let samples = ["Hello World", "What's Up?", "--a--b--", "Crème Brûlée", "", "..."];
    for s in samples {
        let once = slugify(s);
        assert_eq!(slugify(&once), once);
    }
}

#[test]
fn slug_shape_no_stray_hyphens() {
    let samples = [" -x- ", "a  b", "___", "A--B--C-"];
    for s in samples {
        let slug = slugify(s);
        assert!(!slug.starts_with('-'));
        assert!(!slug.ends_with('-'));
        assert!(!slug.contains("--"));
    }
}
