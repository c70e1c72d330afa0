//! The document record: one document's extracted metadata, and the extractor
//! that reads it from a document's leading delimited metadata block.
use vstd::prelude::*;

verus! {

/// One document's extracted metadata.
pub struct Article {
    pub title: String,
    pub date: String,
    pub update: String,
    pub summary: String,
    pub path: String,
    pub collection: Option<String>,
}

/// The mathematical model of an [`Article`]: its fields as character sequences.
pub ghost struct ArticleView {
    pub title: Seq<char>,
    pub date: Seq<char>,
    pub update: Seq<char>,
    pub summary: Seq<char>,
    pub path: Seq<char>,
    pub collection: Option<Seq<char>>,
}

impl View for Article {
    type V = ArticleView;

    open spec fn view(&self) -> ArticleView {
        ArticleView {
            title: self.title@,
            date: self.date@,
            update: self.update@,
            summary: self.summary@,
            path: self.path@,
            collection: match self.collection {
                Option::Some(c) => Option::Some(c@),
                Option::None => Option::None,
            },
        }
    }
}

/// The models of a sequence of records.
pub open spec fn views_of(l: Seq<Article>) -> Seq<ArticleView> {
    Seq::new(l.len(), |i: int| l[i]@)
}

impl Article {
    /// Copies a record.
    pub fn duplicate(&self) -> (r: Article)
        ensures
            r == *self,
    {
        Article {
            title: self.title.clone(),
            date: self.date.clone(),
            update: self.update.clone(),
            summary: self.summary.clone(),
            path: self.path.clone(),
            collection: match &self.collection {
                Some(c) => Some(c.clone()),
                None => None,
            },
        }
    }
}

/// The record that the key-value metadata text denotes, if any. This names
/// the result of the external TOML decoder applied to the block's text.
pub uninterp spec fn toml_record_of(s: Seq<char>) -> Option<ArticleView>;

/// Relies on `toml::Table`'s `FromStr` parse and `toml::Value::as_str`:
/// decodes the key-value metadata block into a record. The five string
/// fields are required and must be strings; `collection` may be absent.
/// The result is a function of the text alone.
#[verifier::external_body]
fn parse_toml_record(s: &str) -> (r: Option<Article>)
    ensures
        (r is Some) == (toml_record_of(s@) is Some),
        r matches Some(a) ==> toml_record_of(s@) == Some(a@),
{
    let t: toml::Table = match s.parse() { Ok(t) => t, Err(_) => return None };
    let g = |k: &str| match t.get(k) { Some(toml::Value::String(v)) => Some(v.clone()), _ => None };
    let collection = match t.get("collection") { None => None, Some(toml::Value::String(v)) => Some(v.clone()), Some(_) => return None };
    Some(Article { title: g("title")?, date: g("date")?, update: g("update")?, summary: g("summary")?, path: g("path")?, collection })
}

/// The three-character marker that opens a metadata block.
pub open spec fn marker_seq() -> Seq<char> {
    seq!['+', '+', '+']
}

/// The marker on a line of its own, which closes the metadata block.
pub open spec fn delim_seq() -> Seq<char> {
    seq!['\n', '+', '+', '+', '\n']
}

/// The position of the first occurrence of the block-closing delimiter in
/// `s` at or after `i`, if any.
pub open spec fn find_delim_from(s: Seq<char>, i: int) -> Option<int>
    decreases s.len() - i,
{
    if i + 5 > s.len() {
        None
    } else if s.subrange(i, i + 5) == delim_seq() {
        Some(i)
    } else {
        find_delim_from(s, i + 1)
    }
}

proof fn lemma_find_delim_some(s: Seq<char>, i: int, j: int)
    requires
        0 <= i,
        find_delim_from(s, i) == Some(j),
    ensures
        i <= j,
        j + 5 <= s.len(),
    decreases s.len() - i,
{
    if i + 5 > s.len() {
    } else if s.subrange(i, i + 5) == delim_seq() {
    } else {
        lemma_find_delim_some(s, i + 1, j);
    }
}

/// Finds the first occurrence of the block-closing delimiter in `s`.
fn find_delim(s: &str) -> (r: Option<usize>)
    ensures
        match r {
            Some(i) => find_delim_from(s@, 0) == Some(i as int),
            None => find_delim_from(s@, 0) is None,
        },
{
    let n = s.unicode_len();
    let mut i: usize = 0;
    loop
        invariant
            i <= n,
            n == s@.len(),
            find_delim_from(s@, 0) == find_delim_from(s@, i as int),
        decreases n - i,
    {
        if n - i < 5 {
            return None;
        }
        let hit = s.get_char(i) == '\n' && s.get_char(i + 1) == '+' && s.get_char(i + 2) == '+'
            && s.get_char(i + 3) == '+' && s.get_char(i + 4) == '\n';
        proof {
            let sub = s@.subrange(i as int, i as int + 5);
            assert(sub[0] == s@[i as int]);
            assert(sub[1] == s@[i as int + 1]);
            assert(sub[2] == s@[i as int + 2]);
            assert(sub[3] == s@[i as int + 3]);
            assert(sub[4] == s@[i as int + 4]);
            if hit {
                assert(sub =~= delim_seq());
            } else {
                assert(sub != delim_seq());
            }
        }
        if hit {
            return Some(i);
        }
        i = i + 1;
    }
}

/// What extraction yields on a document's text: the decoded record and the
/// body after the closing delimiter, or nothing when the document does not
/// open with the marker or its metadata block does not decode.
pub open spec fn extract_spec(content: Seq<char>) -> Option<(ArticleView, Seq<char>)> {
    if content.len() >= 3 && content.subrange(0, 3) == marker_seq() {
        let rest = content.skip(3);
        let fm = match find_delim_from(rest, 0) {
            Some(i) => rest.subrange(0, i),
            None => rest,
        };
        let body = match find_delim_from(rest, 0) {
            Some(i) => rest.skip(i + 5),
            None => Seq::<char>::empty(),
        };
        match toml_record_of(fm) {
            Some(a) => Some((a, body)),
            None => None,
        }
    } else {
        None
    }
}

impl Article {
    /// Extracts the leading metadata block of a document, if the document
    /// opens with the marker and the block decodes as a record; the second
    /// component is the body text after the block.
    pub fn extract_frontmatter<'a>(content: &'a str) -> (r: Option<(Article, &'a str)>)
        ensures
            (r is Some) == (extract_spec(content@) is Some),
            r matches Some(p) ==> extract_spec(content@) == Some((p.0@, p.1@)),
    {
        let n = content.unicode_len();
        if n < 3 {
            return None;
        }
        let opens = content.get_char(0) == '+' && content.get_char(1) == '+' && content.get_char(
            2,
        ) == '+';
        proof {
            let pre = content@.subrange(0, 3);
            assert(pre[0] == content@[0]);
            assert(pre[1] == content@[1]);
            assert(pre[2] == content@[2]);
            if opens {
                assert(pre =~= marker_seq());
            } else {
                assert(pre != marker_seq());
            }
        }
        if !opens {
            return None;
        }
        let rest = content.substring_char(3, n);
        proof {
            assert(rest@ =~= content@.skip(3));
        }
        let rest_len = rest.unicode_len();
        let (fm, body) = match find_delim(rest) {
            Some(i) => {
                proof {
                    lemma_find_delim_some(rest@, 0, i as int);
                }
                let fm = rest.substring_char(0, i);
                let body = rest.substring_char(i + 5, rest_len);
                proof {
                    assert(body@ =~= rest@.skip(i + 5));
                }
                (fm, body)
            },
            None => {
                let body = rest.substring_char(rest_len, rest_len);
                proof {
                    assert(body@ =~= Seq::<char>::empty());
                }
                (rest, body)
            },
        };
        match parse_toml_record(fm) {
            Some(a) => Some((a, body)),
            None => None,
        }
    }
}

} // verus!
