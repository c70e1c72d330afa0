//! The aggregate container types: the global index wrapper and the
//! collections-directory entry.
use vstd::prelude::*;
use crate::article::{Article, ArticleView, views_of};

verus! {

/// The metadata of the global index: its site title.
pub struct MetaInfo {
    pub title: String,
}

/// The global index aggregate: a site title and the full ordered record list.
pub struct IndexJson {
    pub meta: MetaInfo,
    pub list: Vec<Article>,
}

/// The model of an [`IndexJson`].
pub ghost struct IndexView {
    pub title: Seq<char>,
    pub list: Seq<ArticleView>,
}

impl View for IndexJson {
    type V = IndexView;

    open spec fn view(&self) -> IndexView {
        IndexView { title: self.meta.title@, list: views_of(self.list@) }
    }
}

/// One discovered collection: a subdirectory of the root holding at least
/// one recognized document.
pub struct NotebookEntry {
    pub id: usize,
    pub title: String,
    pub remark: String,
    pub dir: String,
}

/// The model of a [`NotebookEntry`].
pub ghost struct NotebookView {
    pub id: int,
    pub title: Seq<char>,
    pub remark: Seq<char>,
    pub dir: Seq<char>,
}

impl View for NotebookEntry {
    type V = NotebookView;

    open spec fn view(&self) -> NotebookView {
        NotebookView {
            id: self.id as int,
            title: self.title@,
            remark: self.remark@,
            dir: self.dir@,
        }
    }
}

/// The models of a sequence of collection entries.
pub open spec fn notebook_views_of(l: Seq<NotebookEntry>) -> Seq<NotebookView> {
    Seq::new(l.len(), |i: int| l[i]@)
}

} // verus!
