use zone_builder::article::Article;
use zone_builder::processor::capitalize_first;
use zone_builder::strutil::{file_name, is_document_path, parent_dir_name, str_le};

#[test]
fn test_extract_frontmatter() {
    let content = "+++\ntitle = \"Test Article\"\ndate = \"2023-01-01\"\nupdate = \"2023-01-02\"\nsummary = \"This is a test article\"\npath = \"test-article.md\"\n+++\n\nThis is the content of the test article.";

    if let Some((article, content_part)) = Article::extract_frontmatter(content) {
        assert_eq!(article.title, "Test Article");
        assert_eq!(article.date, "2023-01-01");
        assert_eq!(article.update, "2023-01-02");
        assert_eq!(article.summary, "This is a test article");
        assert_eq!(article.path, "test-article.md");
        assert!(content_part.contains("This is the content"));
    } else {
        panic!("Failed to extract frontmatter");
    }
}

#[test]
fn test_extract_frontmatter_invalid_format() {
    let content = "---\ntitle = \"Invalid Format\"\ndate = \"2023-01-01\"\n---\nContent";

    let result = Article::extract_frontmatter(content);
    assert!(result.is_none());
}

#[test]
fn extract_frontmatter_missing_required_field_is_none() {
    let content = "+++\ntitle = \"No Date\"\n+++\nbody";
    assert!(Article::extract_frontmatter(content).is_none());
}

#[test]
fn extract_frontmatter_without_closing_delimiter_is_none() {
    // The whole remainder is treated as the metadata block; it does not
    // decode as a record, so the document is skipped.
    let content = "+++\ntitle = \"Test\"\n";
    assert!(Article::extract_frontmatter(content).is_none());
}

#[test]
fn extract_frontmatter_optional_collection() {
    let content = "+++\ntitle = \"T\"\ndate = \"2024-01-01\"\nupdate = \"2024-01-01\"\nsummary = \"s\"\npath = \"t.md\"\ncollection = \"notes\"\n+++\nbody";
    let (article, body) = Article::extract_frontmatter(content).expect("should extract");
    assert_eq!(article.collection.as_deref(), Some("notes"));
    assert_eq!(body, "body");
}

#[test]
fn file_name_takes_last_segment() {
    assert_eq!(file_name("a/b/c.md"), "c.md");
    assert_eq!(file_name("c.md"), "c.md");
}

#[test]
fn parent_dir_name_takes_segment_before_last() {
    assert_eq!(parent_dir_name("tutorials/foo.md").as_deref(), Some("tutorials"));
    assert_eq!(parent_dir_name("a/b/c.md").as_deref(), Some("b"));
    assert_eq!(parent_dir_name("foo.md"), None);
}

#[test]
fn is_document_path_checks_md_extension() {
    assert!(is_document_path("a/b.md"));
    assert!(is_document_path("b.md"));
    assert!(!is_document_path("a/b.txt"));
    assert!(!is_document_path("a/.md"));
}

#[test]
fn str_le_is_lexicographic() {
    assert!(str_le("2024-01-15", "2024-02-10"));
    assert!(!str_le("2024-03-01", "2024-02-10"));
    assert!(str_le("abc", "abc"));
}

#[test]
fn capitalize_first_uppercases_one_character() {
    assert_eq!(capitalize_first("tutorials"), "Tutorials");
    assert_eq!(capitalize_first(""), "");
    assert_eq!(capitalize_first("Already"), "Already");
}
