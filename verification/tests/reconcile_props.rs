use zone_builder::article::Article;
use zone_builder::reconcile::reconcile_list;

fn record(title: &str, date: &str, path: &str) -> Article {
    Article {
        title: title.to_string(),
        date: date.to_string(),
        update: date.to_string(),
        summary: "s".to_string(),
        path: path.to_string(),
        collection: None,
    }
}

#[test]
fn recency_ordering_scenario() {
    let mut list: Vec<Article> = Vec::new();
    reconcile_list(&mut list, &record("a", "2024-03-01", "a.md"), None);
    reconcile_list(&mut list, &record("b", "2024-01-15", "b.md"), None);
    reconcile_list(&mut list, &record("c", "2024-02-10", "c.md"), None);
    let dates: Vec<&str> = list.iter().map(|a| a.date.as_str()).collect();
    assert_eq!(dates, vec!["2024-03-01", "2024-02-10", "2024-01-15"]);
}

#[test]
fn upsert_replaces_matching_path() {
    let mut list: Vec<Article> = Vec::new();
    reconcile_list(&mut list, &record("old", "2024-01-01", "x.md"), None);
    reconcile_list(&mut list, &record("new", "2024-01-02", "x.md"), None);
    assert_eq!(list.len(), 1);
    assert_eq!(list[0].title, "new");
    assert_eq!(list[0].date, "2024-01-02");
}

#[test]
fn upsert_matches_by_file_name_across_directories() {
    let mut list: Vec<Article> = Vec::new();
    reconcile_list(&mut list, &record("old", "2024-01-01", "dir1/x.md"), None);
    reconcile_list(&mut list, &record("new", "2024-01-02", "dir2/x.md"), None);
    assert_eq!(list.len(), 1);
    assert_eq!(list[0].title, "new");
}

#[test]
fn cap_enforcement_keeps_five_most_recent_of_seven() {
    let mut list: Vec<Article> = Vec::new();
    let dates = [
        "2024-01-01", "2024-01-02", "2024-01-03", "2024-01-04", "2024-01-05", "2024-01-06",
        "2024-01-07",
    ];
    for (i, d) in dates.iter().enumerate() {
        let path = format!("p{}.md", i);
        reconcile_list(&mut list, &record("t", d, &path), Some(5));
    }
    assert_eq!(list.len(), 5);
    let got: Vec<&str> = list.iter().map(|a| a.date.as_str()).collect();
    assert_eq!(
        got,
        vec!["2024-01-07", "2024-01-06", "2024-01-05", "2024-01-04", "2024-01-03"]
    );
}

#[test]
fn equal_dates_keep_insertion_order() {
    let mut list: Vec<Article> = Vec::new();
    reconcile_list(&mut list, &record("first", "2024-01-01", "a.md"), None);
    reconcile_list(&mut list, &record("second", "2024-01-01", "b.md"), None);
    assert_eq!(list.len(), 2);
    assert_eq!(list[0].title, "first");
    assert_eq!(list[1].title, "second");
}
