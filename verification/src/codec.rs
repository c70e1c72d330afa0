//! The persisted form of the aggregates: encoding to and decoding from the
//! structured-data texts, through the external JSON crate.
use vstd::prelude::*;
use crate::article::{Article, ArticleView, views_of};
use crate::models::{NotebookEntry, NotebookView, notebook_views_of};

verus! {

/// The text that the external JSON encoder produces for a record list.
pub uninterp spec fn json_of_articles(l: Seq<ArticleView>) -> Seq<char>;

/// The record list that a text decodes to, if it is a well-formed encoding
/// of one.
pub uninterp spec fn articles_of_json(s: Seq<char>) -> Option<Seq<ArticleView>>;

/// Relies on `serde_json::to_string_pretty` over an array of JSON objects
/// built from the records' fields: the text is a function of the records
/// alone, and decoding it yields the same records.
#[verifier::external_body]
pub(crate) fn articles_to_json(list: &Vec<Article>) -> (r: String)
    ensures
        r@ == json_of_articles(views_of(list@)),
        articles_of_json(r@) == Some(views_of(list@)),
{
    let mut vals: Vec<std::collections::BTreeMap<&str, Option<String>>> = Vec::new();
    for a in list.iter() {
        let mut m = std::collections::BTreeMap::new();
        m.insert("title", Some(a.title.clone()));
        m.insert("date", Some(a.date.clone()));
        m.insert("update", Some(a.update.clone()));
        m.insert("summary", Some(a.summary.clone()));
        m.insert("path", Some(a.path.clone()));
        m.insert("collection", a.collection.clone());
        vals.push(m);
    }
    serde_json::to_string_pretty(&vals).unwrap_or_default()
}

/// Relies on `serde_json::from_str::<Vec<serde_json::Value>>` and the JSON
/// object shape: decodes a record-list text. The five string fields are
/// required; `collection` may be absent or null. The result is a function
/// of the text alone.
#[verifier::external_body]
pub(crate) fn parse_articles_json(s: &str) -> (r: Option<Vec<Article>>)
    ensures
        (r is Some) == (articles_of_json(s@) is Some),
        r matches Some(v) ==> articles_of_json(s@) == Some(views_of(v@)),
{
    let vals: Vec<std::collections::BTreeMap<String, serde_json::Value>> = serde_json::from_str(s).ok()?;
    let mut out: Vec<Article> = Vec::new();
    for m in vals {
        let g = |k: &str| match m.get(k) { Some(serde_json::Value::String(x)) => Some(x.clone()), _ => None };
        let collection = match m.get("collection") { None | Some(serde_json::Value::Null) => None, Some(serde_json::Value::String(x)) => Some(x.clone()), Some(_) => return None };
        out.push(Article { title: g("title")?, date: g("date")?, update: g("update")?, summary: g("summary")?, path: g("path")?, collection });
    }
    Some(out)
}

/// The title and the re-encoded record-list slot that a global-index text
/// decodes to, if it is a well-formed index document.
pub uninterp spec fn index_parts_of(s: Seq<char>) -> Option<(Seq<char>, Seq<char>)>;

/// The text that the external JSON encoder produces for a global index with
/// the given title and encoded record list.
pub uninterp spec fn json_of_index(title: Seq<char>, list_json: Seq<char>) -> Seq<char>;

/// Relies on `serde_json::from_str::<serde_json::Value>` and
/// `serde_json::to_string`: splits a global-index text into its title and
/// its record-list slot re-encoded as text. The result is a function of the
/// text alone.
#[verifier::external_body]
pub(crate) fn split_index_json(s: &str) -> (r: Option<(String, String)>)
    ensures
        (r is Some) == (index_parts_of(s@) is Some),
        r matches Some(p) ==> index_parts_of(s@) == Some((p.0@, p.1@)),
{
    let v: serde_json::Value = serde_json::from_str(s).ok()?;
    let m = v.as_object()?;
    let title = m.get("meta")?.as_object()?.get("title")?.as_str()?.to_string();
    let list = serde_json::to_string(m.get("list")?).ok()?;
    Some((title, list))
}

/// Relies on `serde_json::to_string_pretty`: joins a title and an encoded
/// record list into the global-index document. Splitting the result yields
/// the same title and a list slot that decodes to the same records; a list
/// slot that does not decode as a record list is written as null, which
/// likewise decodes to no record list.
#[verifier::external_body]
pub(crate) fn join_index_json(title: &str, list_json: &str) -> (r: String)
    ensures
        r@ == json_of_index(title@, list_json@),
        index_parts_of(r@) is Some,
        index_parts_of(r@) matches Some(p) ==> p.0 == title@,
        index_parts_of(r@) matches Some(p) ==> articles_of_json(p.1) == articles_of_json(
            list_json@,
        ),
{
    let l: serde_json::Value = serde_json::from_str(list_json).unwrap_or(serde_json::Value::Null);
    let mut meta = serde_json::Map::new();
    meta.insert("title".to_string(), serde_json::Value::String(title.to_string()));
    let mut m = serde_json::Map::new();
    m.insert("meta".to_string(), serde_json::Value::Object(meta));
    m.insert("list".to_string(), l);
    serde_json::to_string_pretty(&serde_json::Value::Object(m)).unwrap_or_default()
}

/// The text that the external JSON encoder produces for a collections list.
pub uninterp spec fn json_of_notebooks(l: Seq<NotebookView>) -> Seq<char>;

/// Relies on `serde_json::to_string_pretty` over an array of JSON objects
/// built from the entries' fields: the text is a function of the entries
/// alone.
#[verifier::external_body]
pub(crate) fn notebooks_to_json(list: &Vec<NotebookEntry>) -> (r: String)
    ensures
        r@ == json_of_notebooks(notebook_views_of(list@)),
{
    let mut vals: Vec<serde_json::Value> = Vec::new();
    for e in list.iter() {
        let mut m = serde_json::Map::new();
        m.insert("id".to_string(), serde_json::Value::from(e.id as u64));
        m.insert("title".to_string(), serde_json::Value::String(e.title.clone()));
        m.insert("remark".to_string(), serde_json::Value::String(e.remark.clone()));
        m.insert("dir".to_string(), serde_json::Value::String(e.dir.clone()));
        vals.push(serde_json::Value::Object(m));
    }
    serde_json::to_string_pretty(&vals).unwrap_or_default()
}

} // verus!
