use zone_builder::article::Article;
use zone_builder::processor::{BlogProcessor, Doc, GroupFile, RootFiles, SubdirListing};

fn record(title: &str, date: &str, path: &str, collection: Option<&str>) -> Article {
    Article {
        title: title.to_string(),
        date: date.to_string(),
        update: "2023-01-02".to_string(),
        summary: "Test summary".to_string(),
        path: path.to_string(),
        collection: collection.map(|c| c.to_string()),
    }
}

fn parse(s: &str) -> serde_json::Value {
    serde_json::from_str(s).expect("output should be valid JSON")
}

#[test]
fn test_update_category_meta() {
    let article = record(
        "Test Article",
        "2023-01-01",
        "test-article.md",
        Some("test-category"),
    );
    let processor = BlogProcessor::new("blog".to_string());
    let text = processor.update_category_meta("test-category", &article, None);
    let v = parse(&text);
    let arr = v.as_array().expect("meta should be an array");
    assert_eq!(arr.len(), 1);
    assert_eq!(arr[0]["title"].as_str(), Some("Test Article"));
}

#[test]
fn test_update_root_json_files() {
    let article = record(
        "Test Article",
        "2023-01-01",
        "test-category/test-article.md",
        Some("test-category"),
    );
    let processor = BlogProcessor::new("blog".to_string());
    let roots = RootFiles { latest: None, recommended: None, index: None };
    let subdirs: Vec<SubdirListing> = Vec::new();
    let writes = processor
        .update_root_json_files(&article, &roots, &subdirs)
        .expect("Failed to update root JSON files");
    for text in [&writes.latest, &writes.recommended] {
        let v = parse(text);
        let arr = v.as_array().expect("root list should be an array");
        assert_eq!(arr.len(), 1);
        assert_eq!(arr[0]["title"].as_str(), Some("Test Article"));
    }
    let idx = parse(&writes.index);
    assert_eq!(idx["list"].as_array().map(|l| l.len()), Some(1));
    assert!(parse(&writes.notebooks).as_array().is_some());
}

#[test]
fn test_process_directory() {
    let md_content = "+++\ntitle = \"Test Article\"\ndate = \"2023-01-01\"\nupdate = \"2023-01-02\"\nsummary = \"This is a test article\"\npath = \"test-article.md\"\n+++\n\nThis is the content of the test article.";
    let docs = vec![Doc {
        rel_path: "test-category/test-article.md".to_string(),
        content: md_content.to_string(),
    }];
    let groups: Vec<GroupFile> = Vec::new();
    let roots = RootFiles { latest: None, recommended: None, index: None };
    let subdirs = vec![SubdirListing {
        name: "test-category".to_string(),
        files: vec!["test-article.md".to_string()],
    }];
    let processor = BlogProcessor::new("blog".to_string());
    let out = processor
        .process_directory(&docs, "blog", &groups, &roots, &subdirs)
        .expect("Failed to process directory");

    assert_eq!(out.group_writes.len(), 1);
    assert_eq!(out.group_writes[0].name, "test-category");
    let meta = parse(&out.group_writes[0].text);
    let arr = meta.as_array().expect("meta should be an array");
    assert_eq!(arr.len(), 1);
    assert_eq!(arr[0]["title"].as_str(), Some("Test Article"));

    let writes = out.roots.expect("root files should be written");
    for text in [&writes.latest, &writes.recommended, &writes.notebooks, &writes.index] {
        assert!(parse(text).is_array() || parse(text).is_object());
    }
}

#[test]
fn group_derivation_from_parent_directory() {
    let md = "+++\ntitle = \"A\"\ndate = \"2024-01-01\"\nupdate = \"2024-01-02\"\nsummary = \"s\"\npath = \"foo.md\"\n+++\nbody";
    let docs = vec![
        Doc { rel_path: "tutorials/foo.md".to_string(), content: md.to_string() },
        Doc {
            rel_path: "images/pic.md".to_string(),
            content: md.replace("foo.md", "pic.md"),
        },
    ];
    let records = zone_builder::processor::collect_records(&docs, "blog");
    assert_eq!(records.len(), 2);
    assert_eq!(records[0].collection.as_deref(), Some("tutorials"));
    assert_eq!(records[1].collection, None);
}

#[test]
fn corruption_asymmetry() {
    let md = "+++\ntitle = \"A\"\ndate = \"2024-01-01\"\nupdate = \"2024-01-02\"\nsummary = \"s\"\npath = \"a.md\"\n+++\nbody";
    let docs = vec![Doc { rel_path: "tutorials/a.md".to_string(), content: md.to_string() }];
    let groups: Vec<GroupFile> = Vec::new();
    let subdirs: Vec<SubdirListing> = Vec::new();
    let processor = BlogProcessor::new("blog".to_string());

    // A corrupted global index aborts the run.
    let bad_index = RootFiles {
        latest: None,
        recommended: None,
        index: Some("not json at all".to_string()),
    };
    assert!(processor.process_directory(&docs, "blog", &groups, &bad_index, &subdirs).is_err());

    // A corrupted plain-list aggregate self-heals: the run succeeds and the
    // file ends up holding only the newly processed records.
    let bad_latest = RootFiles {
        latest: Some("not json at all".to_string()),
        recommended: None,
        index: None,
    };
    let out = processor
        .process_directory(&docs, "blog", &groups, &bad_latest, &subdirs)
        .expect("corrupted latest list is recoverable");
    let writes = out.roots.expect("roots written");
    let latest = parse(&writes.latest);
    let arr = latest.as_array().expect("latest should be an array");
    assert_eq!(arr.len(), 1);
    assert_eq!(arr[0]["title"].as_str(), Some("A"));
}

#[test]
fn scenario_single_document() {
    let md = "+++\ntitle = \"A\"\ndate = \"2024-01-01\"\nupdate = \"2024-01-02\"\nsummary = \"s\"\npath = \"a.md\"\n+++\nbody";
    let docs = vec![Doc { rel_path: "tutorials/a.md".to_string(), content: md.to_string() }];
    let groups: Vec<GroupFile> = Vec::new();
    let roots = RootFiles { latest: None, recommended: None, index: None };
    let subdirs = vec![SubdirListing {
        name: "tutorials".to_string(),
        files: vec!["a.md".to_string()],
    }];
    let processor = BlogProcessor::new("blog".to_string());
    let out = processor
        .process_directory(&docs, "blog", &groups, &roots, &subdirs)
        .expect("run should succeed");

    assert_eq!(out.group_writes.len(), 1);
    assert_eq!(out.group_writes[0].name, "tutorials");
    let meta = parse(&out.group_writes[0].text);
    assert_eq!(meta.as_array().map(|a| a.len()), Some(1));
    assert_eq!(meta[0]["title"].as_str(), Some("A"));

    let writes = out.roots.expect("roots written");
    assert_eq!(parse(&writes.latest).as_array().map(|a| a.len()), Some(1));
    assert_eq!(parse(&writes.recommended).as_array().map(|a| a.len()), Some(1));

    let idx = parse(&writes.index);
    assert_eq!(idx["meta"]["title"].as_str(), Some("Gerald's Blog"));
    assert_eq!(idx["list"].as_array().map(|l| l.len()), Some(1));
    assert_eq!(idx["list"][0]["title"].as_str(), Some("A"));

    let nb = parse(&writes.notebooks);
    let entries = nb.as_array().expect("notebooks should be an array");
    assert_eq!(entries.len(), 1);
    assert_eq!(entries[0]["id"].as_u64(), Some(0));
    assert_eq!(entries[0]["title"].as_str(), Some("Tutorials"));
    assert_eq!(entries[0]["dir"].as_str(), Some("tutorials"));
}

#[test]
fn idempotence_second_run_is_byte_identical() {
    let md_a = "+++\ntitle = \"A\"\ndate = \"2024-01-01\"\nupdate = \"2024-01-02\"\nsummary = \"s\"\npath = \"a.md\"\n+++\nbody";
    let md_b = "+++\ntitle = \"B\"\ndate = \"2024-02-01\"\nupdate = \"2024-02-02\"\nsummary = \"s\"\npath = \"b.md\"\n+++\nbody";
    let docs = vec![
        Doc { rel_path: "tutorials/a.md".to_string(), content: md_a.to_string() },
        Doc { rel_path: "notes/b.md".to_string(), content: md_b.to_string() },
    ];
    let subdirs = vec![
        SubdirListing { name: "tutorials".to_string(), files: vec!["a.md".to_string()] },
        SubdirListing { name: "notes".to_string(), files: vec!["b.md".to_string()] },
    ];
    let processor = BlogProcessor::new("blog".to_string());

    let groups1: Vec<GroupFile> = Vec::new();
    let roots1 = RootFiles { latest: None, recommended: None, index: None };
    let out1 = processor
        .process_directory(&docs, "blog", &groups1, &roots1, &subdirs)
        .expect("first run should succeed");
    let w1 = out1.roots.expect("roots written");

    // Feed the first run's outputs back in as the existing files.
    let groups2: Vec<GroupFile> = out1
        .group_writes
        .iter()
        .map(|g| GroupFile { name: g.name.clone(), existing: Some(g.text.clone()) })
        .collect();
    let roots2 = RootFiles {
        latest: Some(w1.latest.clone()),
        recommended: Some(w1.recommended.clone()),
        index: Some(w1.index.clone()),
    };
    let out2 = processor
        .process_directory(&docs, "blog", &groups2, &roots2, &subdirs)
        .expect("second run should succeed");
    let w2 = out2.roots.expect("roots written");

    assert_eq!(w1.latest, w2.latest);
    assert_eq!(w1.recommended, w2.recommended);
    assert_eq!(w1.index, w2.index);
    assert_eq!(w1.notebooks, w2.notebooks);
    assert_eq!(out1.group_writes.len(), out2.group_writes.len());
    for (g1, g2) in out1.group_writes.iter().zip(out2.group_writes.iter()) {
        assert_eq!(g1.name, g2.name);
        assert_eq!(g1.text, g2.text);
    }
}

#[test]
fn empty_tree_writes_nothing() {
    let docs: Vec<Doc> = Vec::new();
    let groups: Vec<GroupFile> = Vec::new();
    let roots = RootFiles { latest: None, recommended: None, index: None };
    let subdirs: Vec<SubdirListing> = Vec::new();
    let processor = BlogProcessor::new("blog".to_string());
    let out = processor
        .process_directory(&docs, "blog", &groups, &roots, &subdirs)
        .expect("empty run should succeed");
    assert!(out.records.is_empty());
    assert!(out.group_writes.is_empty());
    assert!(out.roots.is_none());
}

#[test]
fn duplicate_file_names_first_occurrence_wins() {
    let md1 = "+++\ntitle = \"First\"\ndate = \"2024-01-01\"\nupdate = \"2024-01-02\"\nsummary = \"s\"\npath = \"same.md\"\n+++\nbody";
    let md2 = "+++\ntitle = \"Second\"\ndate = \"2024-02-01\"\nupdate = \"2024-02-02\"\nsummary = \"s\"\npath = \"same.md\"\n+++\nbody";
    let docs = vec![
        Doc { rel_path: "one/same.md".to_string(), content: md1.to_string() },
        Doc { rel_path: "two/same.md".to_string(), content: md2.to_string() },
    ];
    let records = zone_builder::processor::collect_records(&docs, "blog");
    assert_eq!(records.len(), 1);
    assert_eq!(records[0].title, "First");
}

#[test]
fn index_error_variant() {
    let article = record("A", "2024-01-01", "a.md", None);
    let processor = BlogProcessor::new("blog".to_string());
    let result = processor.update_index_json(&article, Some("{\"meta\": 3}"));
    assert!(result.is_err());
}

#[test]
fn notebooks_skip_assets_and_empty_dirs() {
    let processor = BlogProcessor::new("blog".to_string());
    let subdirs = vec![
        SubdirListing { name: "images".to_string(), files: vec!["a.md".to_string()] },
        SubdirListing { name: "drafts".to_string(), files: vec!["readme.txt".to_string()] },
        SubdirListing { name: "notes".to_string(), files: vec!["n.md".to_string()] },
    ];
    let text = processor.update_notebooks_json(&subdirs);
    let v: serde_json::Value = serde_json::from_str(&text).unwrap();
    let arr = v.as_array().unwrap();
    assert_eq!(arr.len(), 1);
    assert_eq!(arr[0]["dir"].as_str(), Some("notes"));
    assert_eq!(arr[0]["title"].as_str(), Some("Notes"));
    assert_eq!(arr[0]["remark"].as_str(), Some("Notes articles"));
    assert_eq!(arr[0]["id"].as_u64(), Some(0));
}
