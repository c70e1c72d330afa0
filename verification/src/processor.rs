//! The orchestrator: classifies walked documents into records, reconciles
//! each record into the per-group and root aggregates, and rebuilds the
//! collections-directory listing.
use vstd::prelude::*;
use crate::article::{Article, ArticleView, views_of, extract_spec};
use crate::models::{IndexJson, MetaInfo, NotebookEntry, NotebookView, notebook_views_of};
use crate::strutil::{norm_path, parent_dir, parent_dir_name, is_doc_name, file_name, str_eq,
    is_document_path};
use crate::reconcile::{
    has_path, distinct_paths, reconcile_spec, fold_reconcile, cap_opt, reconcile_list,
    lemma_fold_reconcile_snoc, lemma_reconcile_idempotent,
};
use crate::codec::{
    json_of_articles, articles_of_json, json_of_index, index_parts_of, json_of_notebooks,
    articles_to_json, parse_articles_json, split_index_json, join_index_json, notebooks_to_json,
};

verus! {

/// The error of a run: the global index file was present but did not decode.
#[derive(Debug, PartialEq, Eq)]
pub enum ProcessError {
    IndexCorrupt,
}

/// The contents of an optional text.
pub open spec fn opt_text(s: Option<&str>) -> Option<Seq<char>> {
    match s {
        Some(t) => Some(t@),
        None => None,
    }
}

/// The contents of an optional owned text.
pub open spec fn opt_string(s: Option<String>) -> Option<Seq<char>> {
    match s {
        Some(t) => Some(t@),
        None => None,
    }
}

/// The record list persisted in an aggregate text: an absent or undecodable
/// text stands for the empty list.
pub open spec fn parse_or_empty(s: Option<Seq<char>>) -> Seq<ArticleView> {
    match s {
        None => Seq::<ArticleView>::empty(),
        Some(t) => match articles_of_json(t) {
            Some(l) => l,
            None => Seq::<ArticleView>::empty(),
        },
    }
}

/// Loads an aggregate text as a record list, substituting the empty list
/// for an absent or undecodable one.
fn load_or_empty(s: Option<&str>) -> (r: Vec<Article>)
    ensures
        views_of(r@) == parse_or_empty(opt_text(s)),
{
    match s {
        None => {
            let r = Vec::<Article>::new();
            proof {
                assert(views_of(r@) =~= Seq::<ArticleView>::empty());
            }
            r
        },
        Some(t) => match parse_articles_json(t) {
            Some(v) => v,
            None => {
                let r = Vec::<Article>::new();
                proof {
                    assert(views_of(r@) =~= Seq::<ArticleView>::empty());
                }
                r
            },
        },
    }
}

/// The uppercase mapping of a character, as the external Unicode case
/// mapping gives it.
pub uninterp spec fn upper_of(c: char) -> Seq<char>;

/// Relies on `char::to_uppercase`: the Unicode uppercase mapping of a
/// character, a function of the character alone; an ASCII lowercase letter
/// maps to the single corresponding uppercase letter.
#[verifier::external_body]
fn char_upper(c: char) -> (r: String)
    ensures
        r@ == upper_of(c),
        97 <= c as u32 <= 122 ==> r@ == seq![((c as u8) - 32) as char],
{
    c.to_uppercase().collect::<String>()
}

/// A word with its first character mapped to uppercase.
pub open spec fn capitalized(s: Seq<char>) -> Seq<char> {
    if s.len() == 0 {
        s
    } else {
        upper_of(s[0]) + s.skip(1)
    }
}

/// Capitalizes the first character of a word.
pub fn capitalize_first(s: &str) -> (r: String)
    ensures
        r@ == capitalized(s@),
{
    let n = s.unicode_len();
    if n == 0 {
        let r = String::new();
        proof {
            assert(r@ =~= s@);
        }
        return r;
    }
    let first = s.get_char(0);
    let mut r = char_upper(first);
    let rest = s.substring_char(1, n);
    proof {
        assert(rest@ =~= s@.skip(1));
    }
    r.append(rest);
    r
}

/// One immediate subdirectory of the root, with the names of the files it
/// directly holds.
pub struct SubdirListing {
    pub name: String,
    pub files: Vec<String>,
}

/// The model of a [`SubdirListing`].
pub ghost struct SubdirView {
    pub name: Seq<char>,
    pub files: Seq<Seq<char>>,
}

impl View for SubdirListing {
    type V = SubdirView;

    open spec fn view(&self) -> SubdirView {
        SubdirView { name: self.name@, files: Seq::new(self.files@.len(), |i: int| self.files@[i]@) }
    }
}

/// The models of a sequence of subdirectory listings.
pub open spec fn subdir_views_of(l: Seq<SubdirListing>) -> Seq<SubdirView> {
    Seq::new(l.len(), |i: int| l[i]@)
}

/// Whether a subdirectory directly holds at least one recognized document.
pub open spec fn has_doc_file(s: SubdirView) -> bool {
    exists|i: int| 0 <= i < s.files.len() && is_doc_name(s.files[i])
}

/// Whether a subdirectory is listed as a collection: it is not the reserved
/// assets directory and holds at least one recognized document.
pub open spec fn kept_subdir(s: SubdirView) -> bool {
    s.name != "images"@ && has_doc_file(s)
}

/// The collection entry derived from a kept subdirectory.
pub open spec fn notebook_entry_of(s: SubdirView, id: int) -> NotebookView {
    NotebookView {
        id: id,
        title: capitalized(s.name),
        remark: capitalized(s.name) + " articles"@,
        dir: s.name,
    }
}

/// The collection entries of the kept subdirectories in discovery order,
/// numbered from `next_id`.
pub open spec fn notebooks_from(subs: Seq<SubdirView>, next_id: int) -> Seq<NotebookView>
    decreases subs.len(),
{
    if subs.len() == 0 {
        Seq::<NotebookView>::empty()
    } else if kept_subdir(subs[0]) {
        seq![notebook_entry_of(subs[0], next_id)] + notebooks_from(subs.skip(1), next_id + 1)
    } else {
        notebooks_from(subs.skip(1), next_id)
    }
}

/// Decides whether a subdirectory holds at least one recognized document.
fn subdir_has_doc(s: &SubdirListing) -> (r: bool)
    ensures
        r == has_doc_file(s@),
{
    let mut i: usize = 0;
    while i < s.files.len()
        invariant
            i <= s.files.len(),
            forall|k: int| 0 <= k < i ==> !is_doc_name(s@.files[k]),
        decreases s.files.len() - i,
    {
        if is_document_path(s.files[i].as_str()) {
            proof {
                assert(s@.files[i as int] == s.files@[i as int]@);
            }
            return true;
        }
        i = i + 1;
    }
    false
}

/// The existing aggregate texts of the root files, as read by the caller;
/// an absent file is `None`.
pub struct RootFiles {
    pub latest: Option<String>,
    pub recommended: Option<String>,
    pub index: Option<String>,
}

/// The rewritten root aggregate texts of one run.
pub struct RootWrites {
    pub latest: String,
    pub recommended: String,
    pub notebooks: String,
    pub index: String,
}

/// The state that a global-index text denotes: its title and record list.
/// An absent text denotes the default site title and the empty list; a
/// present text that does not decode denotes no state.
pub open spec fn index_state_of(s: Option<Seq<char>>) -> Option<(Seq<char>, Seq<ArticleView>)> {
    match s {
        None => Some(("Gerald's Blog"@, Seq::<ArticleView>::empty())),
        Some(t) => match index_parts_of(t) {
            None => None,
            Some(p) => match articles_of_json(p.1) {
                None => None,
                Some(l) => Some((p.0, l)),
            },
        },
    }
}

/// The driver of one run over a root directory.
pub struct BlogProcessor {
    pub blog_dir: String,
}

impl BlogProcessor {
    /// Makes a processor for the given root directory.
    pub fn new(blog_dir: String) -> (r: Self)
        ensures
            r.blog_dir == blog_dir,
    {
        Self { blog_dir }
    }

    /// Rewrites one group aggregate (`<root>/<category>/meta.json`) for one
    /// record: the existing list (empty when absent or undecodable) with the
    /// record upserted, re-sorted by date descending, unbounded.
    pub fn update_category_meta(&self, category: &str, article: &Article, existing: Option<&str>)
        -> (r: String)
        ensures
            r@ == json_of_articles(
                reconcile_spec(parse_or_empty(opt_text(existing)), article@, None),
            ),
            articles_of_json(r@) == Some(
                reconcile_spec(parse_or_empty(opt_text(existing)), article@, None),
            ),
    {
        let _ = category;
        self.update_root_file(article, None, existing)
    }

    /// Rewrites one capped root aggregate for one record: the existing list
    /// (empty when absent or undecodable) with the record upserted,
    /// re-sorted by date descending, truncated to the cap.
    pub fn update_root_file(&self, article: &Article, max_count: Option<usize>, existing: Option<
        &str,
    >) -> (r: String)
        ensures
            r@ == json_of_articles(
                reconcile_spec(parse_or_empty(opt_text(existing)), article@, cap_opt(max_count)),
            ),
            articles_of_json(r@) == Some(
                reconcile_spec(parse_or_empty(opt_text(existing)), article@, cap_opt(max_count)),
            ),
    {
        let mut list = load_or_empty(existing);
        reconcile_list(&mut list, article, max_count);
        articles_to_json(&list)
    }

    /// Rewrites the global index for one record. An absent index starts from
    /// the default site title and the empty list; a present index that does
    /// not decode is a fatal corruption and surfaces as an error.
    pub fn update_index_json(&self, article: &Article, existing: Option<&str>) -> (r: Result<
        String,
        ProcessError,
    >)
        ensures
            (r is Ok) == (index_state_of(opt_text(existing)) is Some),
            r matches Ok(t) ==> (index_state_of(opt_text(existing)) matches Some(st) && t@
                == json_of_index(
                st.0,
                json_of_articles(reconcile_spec(st.1, article@, None)),
            )),
            r matches Ok(t) ==> (index_state_of(opt_text(existing)) matches Some(st)
                && index_state_of(Some(t@)) == Some(
                (st.0, reconcile_spec(st.1, article@, None)),
            )),
    {
        let (title, list): (String, Vec<Article>) = match existing {
            None => {
                let l = Vec::<Article>::new();
                proof {
                    assert(views_of(l@) =~= Seq::<ArticleView>::empty());
                }
                ("Gerald's Blog".to_owned(), l)
            },
            Some(t) => match split_index_json(t) {
                None => {
                    return Err(ProcessError::IndexCorrupt);
                },
                Some(parts) => match parse_articles_json(parts.1.as_str()) {
                    None => {
                        return Err(ProcessError::IndexCorrupt);
                    },
                    Some(l) => (parts.0, l),
                },
            },
        };
        let mut idx = IndexJson { meta: MetaInfo { title }, list };
        reconcile_list(&mut idx.list, article, None);
        let list_json = articles_to_json(&idx.list);
        let out = join_index_json(idx.meta.title.as_str(), list_json.as_str());
        Ok(out)
    }

    /// Rebuilds the collections-directory listing from the root's immediate
    /// subdirectories: every subdirectory other than the reserved assets
    /// directory that holds at least one recognized document, in discovery
    /// order, numbered from zero.
    pub fn update_notebooks_json(&self, subdirs: &Vec<SubdirListing>) -> (r: String)
        ensures
            r@ == json_of_notebooks(notebooks_from(subdir_views_of(subdirs@), 0)),
    {
        let mut out: Vec<NotebookEntry> = Vec::new();
        let mut i: usize = 0;
        proof {
            assert(subdir_views_of(subdirs@).skip(0) =~= subdir_views_of(subdirs@));
            assert(notebook_views_of(out@) =~= Seq::<NotebookView>::empty());
            assert(Seq::<NotebookView>::empty() + notebooks_from(subdir_views_of(subdirs@), 0)
                =~= notebooks_from(subdir_views_of(subdirs@), 0));
        }
        while i < subdirs.len()
            invariant
                i <= subdirs.len(),
                notebooks_from(subdir_views_of(subdirs@), 0) == notebook_views_of(out@)
                    + notebooks_from(
                    subdir_views_of(subdirs@).skip(i as int),
                    out@.len() as int,
                ),
            decreases subdirs.len() - i,
        {
            let ghost subs = subdir_views_of(subdirs@);
            proof {
                assert(subs.skip(i as int)[0] == subs[i as int]);
                assert(subs.skip(i as int).skip(1) =~= subs.skip(i as int + 1));
                assert(subs[i as int] == subdirs@[i as int]@);
            }
            let sd = &subdirs[i];
            if !str_eq(sd.name.as_str(), "images") && subdir_has_doc(sd) {
                let title = capitalize_first(sd.name.as_str());
                let remark = title.clone().concat(" articles");
                let entry = NotebookEntry {
                    id: out.len(),
                    title,
                    remark,
                    dir: sd.name.clone(),
                };
                proof {
                    assert(entry@ == notebook_entry_of(subs[i as int], out@.len() as int));
                }
                out.push(entry);
                proof {
                    assert(notebook_views_of(out@) =~= notebook_views_of(out@.drop_last()).push(
                        out@.last()@,
                    ));
                }
            }
            i = i + 1;
        }
        proof {
            assert(notebooks_from(subdir_views_of(subdirs@).skip(subdirs@.len() as int),
                out@.len() as int) =~= Seq::<NotebookView>::empty());
            assert(notebook_views_of(out@) + Seq::<NotebookView>::empty() =~= notebook_views_of(
                out@,
            ));
        }
        notebooks_to_json(&out)
    }

    /// Rewrites all root aggregate files for one record: the capped
    /// `latest.json` and `recommended.json` lists, the rebuilt
    /// `notebooks.json` listing, and the global `index.json`, in that order;
    /// a corrupted global index surfaces as the error.
    pub fn update_root_json_files(
        &self,
        article: &Article,
        roots: &RootFiles,
        subdirs: &Vec<SubdirListing>,
    ) -> (r: Result<RootWrites, ProcessError>)
        ensures
            (r is Ok) == (index_state_of(opt_string(roots.index)) is Some),
            r matches Ok(w) ==> w.latest@ == json_of_articles(
                reconcile_spec(parse_or_empty(opt_string(roots.latest)), article@, Some(5)),
            ),
            r matches Ok(w) ==> w.recommended@ == json_of_articles(
                reconcile_spec(parse_or_empty(opt_string(roots.recommended)), article@, Some(5)),
            ),
            r matches Ok(w) ==> w.notebooks@ == json_of_notebooks(
                notebooks_from(subdir_views_of(subdirs@), 0),
            ),
            r matches Ok(w) ==> (index_state_of(opt_string(roots.index)) matches Some(st)
                && w.index@ == json_of_index(
                st.0,
                json_of_articles(reconcile_spec(st.1, article@, None)),
            )),
    {
        let latest = self.update_root_file(
            article,
            Some(5),
            match &roots.latest {
                Some(s) => Some(s.as_str()),
                None => None,
            },
        );
        let recommended = self.update_root_file(
            article,
            Some(5),
            match &roots.recommended {
                Some(s) => Some(s.as_str()),
                None => None,
            },
        );
        let notebooks = self.update_notebooks_json(subdirs);
        let index = match self.update_index_json(
            article,
            match &roots.index {
                Some(s) => Some(s.as_str()),
                None => None,
            },
        ) {
            Ok(t) => t,
            Err(e) => {
                return Err(e);
            },
        };
        Ok(RootWrites { latest, recommended, notebooks, index })
    }
}

/// One walked document: its path relative to the root, and its full text.
pub struct Doc {
    pub rel_path: String,
    pub content: String,
}

/// The model of a [`Doc`].
pub ghost struct DocView {
    pub rel_path: Seq<char>,
    pub content: Seq<char>,
}

impl View for Doc {
    type V = DocView;

    open spec fn view(&self) -> DocView {
        DocView { rel_path: self.rel_path@, content: self.content@ }
    }
}

/// The models of a sequence of walked documents.
pub open spec fn doc_views_of(l: Seq<Doc>) -> Seq<DocView> {
    Seq::new(l.len(), |i: int| l[i]@)
}

/// The group that a document's location assigns: the name of its immediate
/// parent directory (the root's own name for a document directly under the
/// root), or none when that directory is the reserved assets directory.
pub open spec fn assigned_group(rel: Seq<char>, root: Seq<char>) -> Option<Seq<char>> {
    let p = match parent_dir(rel) {
        Some(d) => d,
        None => root,
    };
    if p == "images"@ {
        None
    } else {
        Some(p)
    }
}

/// A record with its group filled in from its location when it carries none.
pub open spec fn classify(a: ArticleView, rel: Seq<char>, root: Seq<char>) -> ArticleView {
    if a.collection is Some {
        a
    } else {
        ArticleView { collection: assigned_group(rel, root), ..a }
    }
}

/// The records collected from the documents in order, first occurrence of
/// each normalized path winning, starting from the already collected `acc`.
pub open spec fn collect_from(docs: Seq<DocView>, root: Seq<char>, acc: Seq<ArticleView>) -> Seq<
    ArticleView,
>
    decreases docs.len(),
{
    if docs.len() == 0 {
        acc
    } else {
        let next = match extract_spec(docs[0].content) {
            None => acc,
            Some(pr) => {
                let a = classify(pr.0, docs[0].rel_path, root);
                if has_path(acc, norm_path(a.path)) {
                    acc
                } else {
                    acc.push(a)
                }
            },
        };
        collect_from(docs.skip(1), root, next)
    }
}

/// The de-duplicated, classified record set of one walk.
pub open spec fn collect_spec(docs: Seq<DocView>, root: Seq<char>) -> Seq<ArticleView> {
    collect_from(docs, root, Seq::<ArticleView>::empty())
}

/// Whether some already collected record has the normalized path of `p`.
fn contains_path(list: &Vec<Article>, p: &str) -> (r: bool)
    ensures
        r == has_path(views_of(list@), norm_path(p@)),
{
    let pn = file_name(p);
    let mut i: usize = 0;
    while i < list.len()
        invariant
            i <= list.len(),
            pn@ == norm_path(p@),
            forall|k: int| 0 <= k < i ==> norm_path(views_of(list@)[k].path) != norm_path(p@),
        decreases list.len() - i,
    {
        let fi = file_name(list[i].path.as_str());
        if str_eq(fi.as_str(), pn.as_str()) {
            proof {
                assert(views_of(list@)[i as int] == list@[i as int]@);
                assert(has_path(views_of(list@), norm_path(p@)));
            }
            return true;
        }
        i = i + 1;
    }
    proof {
        assert(!has_path(views_of(list@), norm_path(p@)));
    }
    false
}

/// Collects the records of the walked documents: extracts each document's
/// metadata, fills in the group from the parent directory when absent, and
/// de-duplicates by normalized path, first occurrence winning.
pub fn collect_records(docs: &Vec<Doc>, root_name: &str) -> (r: Vec<Article>)
    ensures
        views_of(r@) == collect_spec(doc_views_of(docs@), root_name@),
{
    let mut out: Vec<Article> = Vec::new();
    let mut i: usize = 0;
    proof {
        assert(views_of(out@) =~= Seq::<ArticleView>::empty());
        assert(doc_views_of(docs@).skip(0) =~= doc_views_of(docs@));
    }
    while i < docs.len()
        invariant
            i <= docs.len(),
            collect_spec(doc_views_of(docs@), root_name@) == collect_from(
                doc_views_of(docs@).skip(i as int),
                root_name@,
                views_of(out@),
            ),
        decreases docs.len() - i,
    {
        let ghost dv = doc_views_of(docs@);
        let ghost before = views_of(out@);
        proof {
            assert(dv.skip(i as int)[0] == dv[i as int]);
            assert(dv.skip(i as int).skip(1) =~= dv.skip(i as int + 1));
            assert(dv[i as int] == docs@[i as int]@);
        }
        match Article::extract_frontmatter(docs[i].content.as_str()) {
            None => {
                proof {
                    assert(extract_spec(dv[i as int].content) is None);
                    assert(collect_from(dv.skip(i as int), root_name@, before) == collect_from(
                        dv.skip(i as int + 1),
                        root_name@,
                        before,
                    ));
                }
            },
            Some(pair) => {
                let (mut art, _body) = pair;
                let ghost a0 = art@;
                proof {
                    assert(extract_spec(dv[i as int].content) matches Some(pr) && pr.0 == a0);
                }
                if art.collection.is_none() {
                    let p: String = match parent_dir_name(docs[i].rel_path.as_str()) {
                        Some(d) => d,
                        None => root_name.to_owned(),
                    };
                    if !str_eq(p.as_str(), "images") {
                        art.collection = Some(p);
                    }
                }
                proof {
                    assert(art@ == classify(a0, dv[i as int].rel_path, root_name@));
                }
                if !contains_path(&out, art.path.as_str()) {
                    out.push(art);
                    proof {
                        assert(views_of(out@) =~= before.push(art@));
                        assert(collect_from(dv.skip(i as int), root_name@, before)
                            == collect_from(dv.skip(i as int + 1), root_name@, before.push(art@)));
                    }
                } else {
                    proof {
                        assert(collect_from(dv.skip(i as int), root_name@, before) == collect_from(
                            dv.skip(i as int + 1),
                            root_name@,
                            before,
                        ));
                    }
                }
            },
        }
        i = i + 1;
    }
    proof {
        assert(doc_views_of(docs@).skip(docs@.len() as int) =~= Seq::<DocView>::empty());
    }
    out
}

/// One per-group aggregate file as the caller found it: the group's name
/// and its existing text, absent when the file does not exist.
pub struct GroupFile {
    pub name: String,
    pub existing: Option<String>,
}

/// The model of a [`GroupFile`].
pub ghost struct GroupFileView {
    pub name: Seq<char>,
    pub existing: Option<Seq<char>>,
}

impl View for GroupFile {
    type V = GroupFileView;

    open spec fn view(&self) -> GroupFileView {
        GroupFileView {
            name: self.name@,
            existing: match self.existing {
                Option::Some(t) => Option::Some(t@),
                Option::None => Option::None,
            },
        }
    }
}

/// The models of a sequence of group files.
pub open spec fn group_file_views_of(l: Seq<GroupFile>) -> Seq<GroupFileView> {
    Seq::new(l.len(), |i: int| l[i]@)
}

/// One rewritten per-group aggregate: the group's name and its new text.
pub struct GroupWrite {
    pub name: String,
    pub text: String,
}

/// The model of a [`GroupWrite`].
pub ghost struct GroupWriteView {
    pub name: Seq<char>,
    pub text: Seq<char>,
}

impl View for GroupWrite {
    type V = GroupWriteView;

    open spec fn view(&self) -> GroupWriteView {
        GroupWriteView { name: self.name@, text: self.text@ }
    }
}

/// The models of a sequence of group writes.
pub open spec fn group_write_views_of(l: Seq<GroupWrite>) -> Seq<GroupWriteView> {
    Seq::new(l.len(), |i: int| l[i]@)
}

/// The names of a sequence of group writes.
pub open spec fn write_names(ws: Seq<GroupWriteView>) -> Seq<Seq<char>> {
    Seq::new(ws.len(), |i: int| ws[i].name)
}

/// The existing text of the group file named `name`, if the caller read one.
pub open spec fn existing_of(groups: Seq<GroupFileView>, name: Seq<char>) -> Option<Seq<char>>
    decreases groups.len(),
{
    if groups.len() == 0 {
        None
    } else if groups[0].name == name {
        groups[0].existing
    } else {
        existing_of(groups.skip(1), name)
    }
}

/// The fold of the records that belong to group `g`, in record order, into
/// the group's initial list.
pub open spec fn group_fold(rs: Seq<ArticleView>, g: Seq<char>, init: Seq<ArticleView>) -> Seq<
    ArticleView,
>
    decreases rs.len(),
{
    if rs.len() == 0 {
        init
    } else if rs[0].collection == Some(g) {
        group_fold(rs.skip(1), g, reconcile_spec(init, rs[0], None))
    } else {
        group_fold(rs.skip(1), g, init)
    }
}

/// The group names that the records touch, in first-touch order, after the
/// already touched `acc`.
pub open spec fn groups_acc(rs: Seq<ArticleView>, acc: Seq<Seq<char>>) -> Seq<Seq<char>>
    decreases rs.len(),
{
    if rs.len() == 0 {
        acc
    } else {
        match rs[0].collection {
            None => groups_acc(rs.skip(1), acc),
            Some(g) => if acc.contains(g) {
                groups_acc(rs.skip(1), acc)
            } else {
                groups_acc(rs.skip(1), acc.push(g))
            },
        }
    }
}

/// The group names that the records touch, in first-touch order.
pub open spec fn touched_groups(rs: Seq<ArticleView>) -> Seq<Seq<char>> {
    groups_acc(rs, Seq::<Seq<char>>::empty())
}

proof fn lemma_group_fold_snoc(
    rs: Seq<ArticleView>,
    g: Seq<char>,
    init: Seq<ArticleView>,
    a: ArticleView,
)
    ensures
        group_fold(rs.push(a), g, init) == if a.collection == Some(g) {
            reconcile_spec(group_fold(rs, g, init), a, None)
        } else {
            group_fold(rs, g, init)
        },
    decreases rs.len(),
{
    let one = rs.push(a);
    if rs.len() == 0 {
        assert(one[0] == a);
        assert(one.skip(1) =~= Seq::<ArticleView>::empty());
        if a.collection == Some(g) {
            assert(group_fold(one, g, init) == group_fold(
                one.skip(1),
                g,
                reconcile_spec(init, a, None),
            ));
        } else {
            assert(group_fold(one, g, init) == group_fold(one.skip(1), g, init));
        }
    } else {
        assert(one[0] == rs[0]);
        assert(one.skip(1) =~= rs.skip(1).push(a));
        if rs[0].collection == Some(g) {
            lemma_group_fold_snoc(rs.skip(1), g, reconcile_spec(init, rs[0], None), a);
            assert(group_fold(one, g, init) == group_fold(
                one.skip(1),
                g,
                reconcile_spec(init, rs[0], None),
            ));
        } else {
            lemma_group_fold_snoc(rs.skip(1), g, init, a);
            assert(group_fold(one, g, init) == group_fold(one.skip(1), g, init));
        }
    }
}

proof fn lemma_groups_acc_snoc(rs: Seq<ArticleView>, acc: Seq<Seq<char>>, a: ArticleView)
    ensures
        groups_acc(rs.push(a), acc) == match a.collection {
            None => groups_acc(rs, acc),
            Some(g) => if groups_acc(rs, acc).contains(g) {
                groups_acc(rs, acc)
            } else {
                groups_acc(rs, acc).push(g)
            },
        },
    decreases rs.len(),
{
    let one = rs.push(a);
    if rs.len() == 0 {
        assert(one[0] == a);
        assert(one.skip(1) =~= Seq::<ArticleView>::empty());
        match a.collection {
            None => {
                assert(groups_acc(one, acc) == groups_acc(one.skip(1), acc));
                assert(groups_acc(one.skip(1), acc) == acc);
            },
            Some(g) => {
                if acc.contains(g) {
                    assert(groups_acc(one, acc) == groups_acc(one.skip(1), acc));
                    assert(groups_acc(one.skip(1), acc) == acc);
                } else {
                    assert(groups_acc(one, acc) == groups_acc(one.skip(1), acc.push(g)));
                    assert(groups_acc(one.skip(1), acc.push(g)) == acc.push(g));
                }
            },
        }
    } else {
        assert(one[0] == rs[0]);
        assert(one.skip(1) =~= rs.skip(1).push(a));
        match rs[0].collection {
            None => {
                lemma_groups_acc_snoc(rs.skip(1), acc, a);
                assert(groups_acc(one, acc) == groups_acc(one.skip(1), acc));
            },
            Some(g0) => {
                if acc.contains(g0) {
                    lemma_groups_acc_snoc(rs.skip(1), acc, a);
                    assert(groups_acc(one, acc) == groups_acc(one.skip(1), acc));
                } else {
                    lemma_groups_acc_snoc(rs.skip(1), acc.push(g0), a);
                    assert(groups_acc(one, acc) == groups_acc(one.skip(1), acc.push(g0)));
                }
            },
        }
    }
}

/// Whether a group write with this name was already produced.
fn contains_name(writes: &Vec<GroupWrite>, name: &str) -> (r: bool)
    ensures
        r == write_names(group_write_views_of(writes@)).contains(name@),
{
    let mut i: usize = 0;
    while i < writes.len()
        invariant
            i <= writes.len(),
            forall|k: int| 0 <= k < i ==> group_write_views_of(writes@)[k].name != name@,
        decreases writes.len() - i,
    {
        if str_eq(writes[i].name.as_str(), name) {
            proof {
                let ws = write_names(group_write_views_of(writes@));
                assert(ws[i as int] == name@);
                assert(ws.contains(name@));
            }
            return true;
        }
        i = i + 1;
    }
    proof {
        let ws = write_names(group_write_views_of(writes@));
        assert(forall|k: int| 0 <= k < ws.len() ==> ws[k] != name@);
        assert(!ws.contains(name@));
    }
    false
}

/// The existing text of the group file named `name`, as the caller read it.
fn find_existing(groups: &Vec<GroupFile>, name: &str) -> (r: Option<String>)
    ensures
        opt_string(r) == existing_of(group_file_views_of(groups@), name@),
{
    let mut i: usize = 0;
    proof {
        assert(group_file_views_of(groups@).skip(0) =~= group_file_views_of(groups@));
    }
    while i < groups.len()
        invariant
            i <= groups.len(),
            existing_of(group_file_views_of(groups@), name@) == existing_of(
                group_file_views_of(groups@).skip(i as int),
                name@,
            ),
        decreases groups.len() - i,
    {
        let ghost gv = group_file_views_of(groups@);
        proof {
            assert(gv.skip(i as int)[0] == gv[i as int]);
            assert(gv.skip(i as int).skip(1) =~= gv.skip(i as int + 1));
            assert(gv[i as int] == groups@[i as int]@);
        }
        if str_eq(groups[i].name.as_str(), name) {
            return match &groups[i].existing {
                Some(t) => Some(t.clone()),
                None => None,
            };
        }
        i = i + 1;
    }
    proof {
        assert(group_file_views_of(groups@).skip(groups@.len() as int) =~= Seq::<
            GroupFileView,
        >::empty());
    }
    None
}

/// Everything one run writes: the collected records, the rewritten
/// per-group aggregates in first-touch order, and (when any record was
/// found) the rewritten root files.
pub struct ProcessOutput {
    pub records: Vec<Article>,
    pub group_writes: Vec<GroupWrite>,
    pub roots: Option<RootWrites>,
}


/// The record list of a root aggregate after one run: the existing list
/// (empty when absent or undecodable) with every record reconciled in, in
/// record order, under the cap.
pub open spec fn root_list_after(
    existing: Option<Seq<char>>,
    rs: Seq<ArticleView>,
    cap: Option<int>,
) -> Seq<ArticleView> {
    fold_reconcile(parse_or_empty(existing), rs, cap)
}

/// The record list of the group aggregate `g` after one run: its existing
/// list with the records of that group reconciled in, in record order,
/// unbounded.
pub open spec fn group_list_after(
    groups: Seq<GroupFileView>,
    g: Seq<char>,
    rs: Seq<ArticleView>,
) -> Seq<ArticleView> {
    group_fold(rs, g, parse_or_empty(existing_of(groups, g)))
}

impl BlogProcessor {
    /// Runs the whole pipeline over a walked tree: collects and classifies
    /// the records, reconciles each into its group aggregate and into all
    /// root aggregates, and rebuilds the collections listing. A present but
    /// undecodable global index aborts the run with the error; when no
    /// record is found, no aggregate is written.
    #[verifier::rlimit(60)]
    pub fn process_directory(
        &self,
        docs: &Vec<Doc>,
        root_name: &str,
        groups: &Vec<GroupFile>,
        roots: &RootFiles,
        subdirs: &Vec<SubdirListing>,
    ) -> (r: Result<ProcessOutput, ProcessError>)
        ensures
            (r is Err) == (collect_spec(doc_views_of(docs@), root_name@).len() > 0
                && index_state_of(opt_string(roots.index)) is None),
            r matches Ok(out) ==> views_of(out.records@) == collect_spec(
                doc_views_of(docs@),
                root_name@,
            ),
            r matches Ok(out) ==> ((out.roots is Some) <==> collect_spec(
                doc_views_of(docs@),
                root_name@,
            ).len() > 0),
            r matches Ok(out) ==> (out.roots matches Some(w) ==> w.latest@ == json_of_articles(
                root_list_after(
                    opt_string(roots.latest),
                    collect_spec(doc_views_of(docs@), root_name@),
                    Some(5),
                ),
            )),
            r matches Ok(out) ==> (out.roots matches Some(w) ==> articles_of_json(w.latest@)
                == Some(
                root_list_after(
                    opt_string(roots.latest),
                    collect_spec(doc_views_of(docs@), root_name@),
                    Some(5),
                ),
            )),
            r matches Ok(out) ==> (out.roots matches Some(w) ==> w.recommended@
                == json_of_articles(
                root_list_after(
                    opt_string(roots.recommended),
                    collect_spec(doc_views_of(docs@), root_name@),
                    Some(5),
                ),
            )),
            r matches Ok(out) ==> (out.roots matches Some(w) ==> articles_of_json(w.recommended@)
                == Some(
                root_list_after(
                    opt_string(roots.recommended),
                    collect_spec(doc_views_of(docs@), root_name@),
                    Some(5),
                ),
            )),
            r matches Ok(out) ==> (out.roots matches Some(w) ==> w.notebooks@ == json_of_notebooks(
                notebooks_from(subdir_views_of(subdirs@), 0),
            )),
            r matches Ok(out) ==> (out.roots matches Some(w) ==> (index_state_of(
                opt_string(roots.index),
            ) matches Some(st) && w.index@ == json_of_index(
                st.0,
                json_of_articles(
                    fold_reconcile(st.1, collect_spec(doc_views_of(docs@), root_name@), None),
                ),
            ))),
            r matches Ok(out) ==> (out.roots matches Some(w) ==> (index_state_of(
                opt_string(roots.index),
            ) matches Some(st) && index_state_of(Some(w.index@)) == Some(
                (st.0, fold_reconcile(st.1, collect_spec(doc_views_of(docs@), root_name@), None)),
            ))),
            r matches Ok(out) ==> write_names(group_write_views_of(out.group_writes@))
                == touched_groups(collect_spec(doc_views_of(docs@), root_name@)),
            r matches Ok(out) ==> forall|k: int|
                0 <= k < out.group_writes@.len()
                    ==> (#[trigger] group_write_views_of(out.group_writes@)[k]).text
                    == json_of_articles(
                    group_list_after(
                        group_file_views_of(groups@),
                        group_write_views_of(out.group_writes@)[k].name,
                        collect_spec(doc_views_of(docs@), root_name@),
                    ),
                ),
            r matches Ok(out) ==> forall|k: int|
                0 <= k < out.group_writes@.len() ==> articles_of_json(
                    (#[trigger] group_write_views_of(out.group_writes@)[k]).text,
                ) == Some(
                    group_list_after(
                        group_file_views_of(groups@),
                        group_write_views_of(out.group_writes@)[k].name,
                        collect_spec(doc_views_of(docs@), root_name@),
                    ),
                ),
    {
        let records = collect_records(docs, root_name);
        let ghost rv = views_of(records@);
        if records.len() == 0 {
            let out = ProcessOutput { records, group_writes: Vec::new(), roots: None };
            proof {
                assert(write_names(group_write_views_of(out.group_writes@)) =~= touched_groups(
                    rv,
                ));
            }
            return Ok(out);
        }
        let (title, index_init): (String, Vec<Article>) = match &roots.index {
            None => {
                let l = Vec::<Article>::new();
                proof {
                    assert(views_of(l@) =~= Seq::<ArticleView>::empty());
                }
                ("Gerald's Blog".to_owned(), l)
            },
            Some(t) => match split_index_json(t.as_str()) {
                None => {
                    return Err(ProcessError::IndexCorrupt);
                },
                Some(parts) => match parse_articles_json(parts.1.as_str()) {
                    None => {
                        return Err(ProcessError::IndexCorrupt);
                    },
                    Some(l) => (parts.0, l),
                },
            },
        };
        let ghost ilist0 = views_of(index_init@);
        let ghost title0 = title@;
        proof {
            assert(index_state_of(opt_string(roots.index)) == Some((title0, ilist0)));
        }
        let mut writes: Vec<GroupWrite> = Vec::new();
        let mut i: usize = 0;
        proof {
            assert(rv.take(0) =~= Seq::<ArticleView>::empty());
            assert(write_names(group_write_views_of(writes@)) =~= groups_acc(
                rv.take(0),
                Seq::<Seq<char>>::empty(),
            ));
        }
        while i < records.len()
            invariant
                i <= records.len(),
                rv == views_of(records@),
                write_names(group_write_views_of(writes@)) == groups_acc(
                    rv.take(i as int),
                    Seq::<Seq<char>>::empty(),
                ),
                forall|k: int|
                    0 <= k < writes@.len()
                        ==> (#[trigger] group_write_views_of(writes@)[k]).text == json_of_articles(
                        group_list_after(
                            group_file_views_of(groups@),
                            group_write_views_of(writes@)[k].name,
                            rv,
                        ),
                    ),
                forall|k: int|
                    0 <= k < writes@.len() ==> articles_of_json(
                        (#[trigger] group_write_views_of(writes@)[k]).text,
                    ) == Some(
                        group_list_after(
                            group_file_views_of(groups@),
                            group_write_views_of(writes@)[k].name,
                            rv,
                        ),
                    ),
            decreases records.len() - i,
        {
            let ghost acc0 = groups_acc(rv.take(i as int), Seq::<Seq<char>>::empty());
            proof {
                assert(rv.take(i as int + 1) =~= rv.take(i as int).push(rv[i as int]));
                lemma_groups_acc_snoc(rv.take(i as int), Seq::<Seq<char>>::empty(), rv[i as int]);
                assert(rv[i as int] == records@[i as int]@);
            }
            match &records[i].collection {
                None => {},
                Some(c) => {
                    if !contains_name(&writes, c.as_str()) {
                        let existing = find_existing(groups, c.as_str());
                        let ghost init = parse_or_empty(
                            existing_of(group_file_views_of(groups@), c@),
                        );
                        let mut gl = load_or_empty(
                            match &existing {
                                Some(t) => Some(t.as_str()),
                                None => None,
                            },
                        );
                        proof {
                            assert(views_of(gl@) == init);
                            assert(rv.take(0) =~= Seq::<ArticleView>::empty());
                            assert(group_fold(rv.take(0), c@, init) == init);
                        }
                        let mut j: usize = 0;
                        while j < records.len()
                            invariant
                                j <= records.len(),
                                rv == views_of(records@),
                                views_of(gl@) == group_fold(rv.take(j as int), c@, init),
                            decreases records.len() - j,
                        {
                            proof {
                                assert(rv.take(j as int + 1) =~= rv.take(j as int).push(
                                    rv[j as int],
                                ));
                                lemma_group_fold_snoc(rv.take(j as int), c@, init, rv[j as int]);
                                assert(rv[j as int] == records@[j as int]@);
                            }
                            let in_group = match &records[j].collection {
                                Some(d) => str_eq(d.as_str(), c.as_str()),
                                None => false,
                            };
                            if in_group {
                                reconcile_list(&mut gl, &records[j], None);
                            }
                            j = j + 1;
                        }
                        proof {
                            assert(rv.take(records@.len() as int) =~= rv);
                        }
                        let text = articles_to_json(&gl);
                        let name = c.clone();
                        let ghost ws0 = writes@;
                        writes.push(GroupWrite { name, text });
                        proof {
                            assert(writes@ == ws0.push(writes@.last()));
                            assert(forall|k: int|
                                0 <= k < ws0.len() ==> #[trigger] group_write_views_of(writes@)[k]
                                    == group_write_views_of(ws0)[k]);
                            assert(write_names(group_write_views_of(writes@)) =~= acc0.push(c@));
                            assert(group_write_views_of(writes@)[writes@.len() - 1]
                                == writes@.last()@);
                            assert(writes@.last()@.name == c@);
                            assert(group_list_after(group_file_views_of(groups@), c@, rv)
                                == group_fold(rv, c@, init));
                            assert(writes@.last()@.text == json_of_articles(
                                group_list_after(group_file_views_of(groups@), c@, rv),
                            ));
                            assert(articles_of_json(writes@.last()@.text) == Some(
                                group_list_after(group_file_views_of(groups@), c@, rv),
                            ));
                        }
                    }
                },
            }
            i = i + 1;
        }
        proof {
            assert(rv.take(records@.len() as int) =~= rv);
        }
        let mut latest = load_or_empty(
            match &roots.latest {
                Some(t) => Some(t.as_str()),
                None => None,
            },
        );
        let mut recommended = load_or_empty(
            match &roots.recommended {
                Some(t) => Some(t.as_str()),
                None => None,
            },
        );
        let ghost l0 = views_of(latest@);
        let ghost rec0 = views_of(recommended@);
        let mut index_list = index_init;
        let mut t: usize = 0;
        proof {
            assert(rv.take(0) =~= Seq::<ArticleView>::empty());
        }
        while t < records.len()
            invariant
                t <= records.len(),
                rv == views_of(records@),
                views_of(latest@) == fold_reconcile(l0, rv.take(t as int), Some(5)),
                views_of(recommended@) == fold_reconcile(rec0, rv.take(t as int), Some(5)),
                views_of(index_list@) == fold_reconcile(ilist0, rv.take(t as int), None),
            decreases records.len() - t,
        {
            proof {
                assert(rv.take(t as int + 1) =~= rv.take(t as int).push(rv[t as int]));
                lemma_fold_reconcile_snoc(l0, rv.take(t as int), rv[t as int], Some(5));
                lemma_fold_reconcile_snoc(rec0, rv.take(t as int), rv[t as int], Some(5));
                lemma_fold_reconcile_snoc(ilist0, rv.take(t as int), rv[t as int], None);
                assert(rv[t as int] == records@[t as int]@);
            }
            reconcile_list(&mut latest, &records[t], Some(5));
            reconcile_list(&mut recommended, &records[t], Some(5));
            reconcile_list(&mut index_list, &records[t], None);
            t = t + 1;
        }
        proof {
            assert(rv.take(records@.len() as int) =~= rv);
        }
        let latest_text = articles_to_json(&latest);
        let recommended_text = articles_to_json(&recommended);
        let notebooks_text = self.update_notebooks_json(subdirs);
        let list_json = articles_to_json(&index_list);
        let index_text = join_index_json(title.as_str(), list_json.as_str());
        let out = ProcessOutput {
            records,
            group_writes: writes,
            roots: Some(
                RootWrites {
                    latest: latest_text,
                    recommended: recommended_text,
                    notebooks: notebooks_text,
                    index: index_text,
                },
            ),
        };
        Ok(out)
    }
}


/// Law (idempotence at the file level): an aggregate file rewritten a second
/// time from the same records holds byte-identical text, provided the
/// records carry pairwise distinct normalized paths (the walker
/// de-duplicates) and the previously existing list shared no path with
/// them. `t1` is the text the first rewrite produced.
pub proof fn lemma_rewrite_idempotent(
    existing: Option<Seq<char>>,
    t1: Seq<char>,
    rs: Seq<ArticleView>,
    cap: Option<int>,
)
    requires
        distinct_paths(rs),
        distinct_paths(parse_or_empty(existing)),
        forall|k: int|
            0 <= k < rs.len() ==> !has_path(
                parse_or_empty(existing),
                norm_path((#[trigger] rs[k]).path),
            ),
        cap matches Some(c) ==> c >= 0,
        t1 == json_of_articles(root_list_after(existing, rs, cap)),
        articles_of_json(t1) == Some(root_list_after(existing, rs, cap)),
    ensures
        json_of_articles(root_list_after(Some(t1), rs, cap)) == t1,
{
    lemma_reconcile_idempotent(parse_or_empty(existing), rs, cap);
    assert(parse_or_empty(Some(t1)) == root_list_after(existing, rs, cap));
}


} // verus!
