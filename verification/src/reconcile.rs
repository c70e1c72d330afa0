//! The aggregate reconciler: upsert by normalized path identity, stable
//! re-sort by date descending, and an optional size cap.
use vstd::prelude::*;
use crate::article::{Article, ArticleView, views_of};
use crate::strutil::{lex_le, norm_path, file_name, str_eq, str_le, lemma_lex_le_total,
    lemma_lex_le_trans};

verus! {

/// Whether some entry of `l` has the normalized path `p`.
pub open spec fn has_path(l: Seq<ArticleView>, p: Seq<char>) -> bool {
    exists|i: int| 0 <= i < l.len() && norm_path(l[i].path) == p
}

/// No two entries of `l` share a normalized path.
pub open spec fn distinct_paths(l: Seq<ArticleView>) -> bool {
    forall|i: int, j: int|
        0 <= i < j < l.len() ==> norm_path(l[i].path) != norm_path(l[j].path)
}

/// The upsert of `a` into `l`: the first entry whose normalized path matches
/// `a`'s is replaced in place, and when none matches `a` is appended.
pub open spec fn upsert_spec(l: Seq<ArticleView>, a: ArticleView) -> Seq<ArticleView>
    decreases l.len(),
{
    if l.len() == 0 {
        seq![a]
    } else if norm_path(l[0].path) == norm_path(a.path) {
        seq![a] + l.skip(1)
    } else {
        seq![l[0]] + upsert_spec(l.skip(1), a)
    }
}

/// `a` is at least as recent as `b`.
pub open spec fn date_ge(a: ArticleView, b: ArticleView) -> bool {
    lex_le(b.date, a.date)
}

/// The list is ordered by date descending.
pub open spec fn sorted_desc(l: Seq<ArticleView>) -> bool {
    forall|i: int, j: int| 0 <= i < j < l.len() ==> date_ge(l[i], l[j])
}

/// Stable descending insertion: `a` goes after every entry at least as
/// recent as itself.
pub open spec fn insert_desc(l: Seq<ArticleView>, a: ArticleView) -> Seq<ArticleView>
    decreases l.len(),
{
    if l.len() == 0 {
        seq![a]
    } else if lex_le(a.date, l[0].date) {
        seq![l[0]] + insert_desc(l.skip(1), a)
    } else {
        seq![a] + l
    }
}

/// Stable insertion sort by date descending.
pub open spec fn sort_desc(l: Seq<ArticleView>) -> Seq<ArticleView>
    decreases l.len(),
{
    if l.len() == 0 {
        l
    } else {
        insert_desc(sort_desc(l.drop_last()), l.last())
    }
}

/// The model of an optional cap.
pub open spec fn cap_opt(c: Option<usize>) -> Option<int> {
    match c {
        Some(k) => Some(k as int),
        None => None,
    }
}

/// Truncation to the cap, keeping the first (most recent) entries.
pub open spec fn cap_spec(l: Seq<ArticleView>, cap: Option<int>) -> Seq<ArticleView> {
    match cap {
        None => l,
        Some(c) => if l.len() > c {
            l.take(c)
        } else {
            l
        },
    }
}

/// One reconciliation step: upsert, re-sort by recency, cap.
pub open spec fn reconcile_spec(l: Seq<ArticleView>, a: ArticleView, cap: Option<int>) -> Seq<
    ArticleView,
> {
    cap_spec(sort_desc(upsert_spec(l, a)), cap)
}

/// The reconciliation of a whole record sequence, one record at a time.
pub open spec fn fold_reconcile(l: Seq<ArticleView>, rs: Seq<ArticleView>, cap: Option<int>) -> Seq<
    ArticleView,
>
    decreases rs.len(),
{
    if rs.len() == 0 {
        l
    } else {
        fold_reconcile(reconcile_spec(l, rs[0], cap), rs.skip(1), cap)
    }
}

proof fn lemma_upsert_update(l: Seq<ArticleView>, a: ArticleView, i: int)
    requires
        0 <= i < l.len(),
        norm_path(l[i].path) == norm_path(a.path),
        forall|k: int| 0 <= k < i ==> norm_path(l[k].path) != norm_path(a.path),
    ensures
        upsert_spec(l, a) == l.update(i, a),
    decreases l.len(),
{
    if i == 0 {
        assert(seq![a] + l.skip(1) =~= l.update(0, a));
    } else {
        assert(forall|k: int|
            0 <= k < i - 1 ==> norm_path(l.skip(1)[k].path) != norm_path(a.path)) by {
            assert(forall|k: int| 0 <= k < i - 1 ==> l.skip(1)[k] == l[k + 1]);
        }
        lemma_upsert_update(l.skip(1), a, i - 1);
        assert(seq![l[0]] + l.skip(1).update(i - 1, a) =~= l.update(i, a));
    }
}

proof fn lemma_upsert_push(l: Seq<ArticleView>, a: ArticleView)
    requires
        !has_path(l, norm_path(a.path)),
    ensures
        upsert_spec(l, a) == l.push(a),
    decreases l.len(),
{
    if l.len() == 0 {
        assert(seq![a] =~= l.push(a));
    } else {
        assert(norm_path(l[0].path) != norm_path(a.path));
        assert(!has_path(l.skip(1), norm_path(a.path))) by {
            if has_path(l.skip(1), norm_path(a.path)) {
                let i = choose|i: int|
                    0 <= i < l.skip(1).len() && norm_path(l.skip(1)[i].path) == norm_path(a.path);
                assert(l.skip(1)[i] == l[i + 1]);
                assert(has_path(l, norm_path(a.path)));
            }
        }
        lemma_upsert_push(l.skip(1), a);
        assert(seq![l[0]] + l.skip(1).push(a) =~= l.push(a));
    }
}

/// Upserts `article` into `list` under normalized path identity.
pub fn upsert(list: &mut Vec<Article>, article: &Article)
    ensures
        views_of(final(list)@) == upsert_spec(views_of(old(list)@), article@),
{
    let an = file_name(article.path.as_str());
    let mut i: usize = 0;
    while i < list.len()
        invariant
            i <= list.len(),
            list@ == old(list)@,
            an@ == norm_path(article@.path),
            forall|k: int|
                0 <= k < i ==> norm_path(views_of(list@)[k].path) != norm_path(article@.path),
        decreases list.len() - i,
    {
        let fi = file_name(list[i].path.as_str());
        if str_eq(fi.as_str(), an.as_str()) {
            proof {
                assert(views_of(list@)[i as int] == list@[i as int]@);
                lemma_upsert_update(views_of(list@), article@, i as int);
            }
            let replacement = article.duplicate();
            list.remove(i);
            list.insert(i, replacement);
            proof {
                assert(views_of(list@) =~= views_of(old(list)@).update(i as int, article@));
            }
            return ;
        }
        i = i + 1;
    }
    proof {
        assert(!has_path(views_of(list@), norm_path(article@.path)));
        lemma_upsert_push(views_of(list@), article@);
    }
    list.push(article.duplicate());
    proof {
        assert(views_of(list@) =~= views_of(old(list)@).push(article@));
    }
}

proof fn lemma_insert_desc_at(l: Seq<ArticleView>, a: ArticleView, k: int)
    requires
        0 <= k <= l.len(),
        forall|i: int| 0 <= i < k ==> lex_le(a.date, l[i].date),
        k < l.len() ==> !lex_le(a.date, l[k].date),
    ensures
        insert_desc(l, a) == l.take(k) + seq![a] + l.skip(k),
    decreases l.len(),
{
    if l.len() == 0 {
        assert(seq![a] =~= l.take(0) + seq![a] + l.skip(0));
    } else if k == 0 {
        assert(!lex_le(a.date, l[0].date));
        assert(seq![a] + l =~= l.take(0) + seq![a] + l.skip(0));
    } else {
        assert(lex_le(a.date, l[0].date));
        assert(forall|i: int| 0 <= i < k - 1 ==> lex_le(a.date, l.skip(1)[i].date)) by {
            assert(forall|i: int| 0 <= i < k - 1 ==> l.skip(1)[i] == l[i + 1]);
        }
        assert(k - 1 < l.skip(1).len() ==> !lex_le(a.date, l.skip(1)[k - 1].date)) by {
            if k - 1 < l.skip(1).len() {
                assert(l.skip(1)[k - 1] == l[k]);
            }
        }
        lemma_insert_desc_at(l.skip(1), a, k - 1);
        assert(seq![l[0]] + (l.skip(1).take(k - 1) + seq![a] + l.skip(1).skip(k - 1)) =~= l.take(k)
            + seq![a] + l.skip(k));
    }
}

/// Inserts `article` into the sorted list `out` at its stable descending
/// position.
fn insert_sorted(out: &mut Vec<Article>, article: &Article)
    ensures
        views_of(final(out)@) == insert_desc(views_of(old(out)@), article@),
{
    let mut k: usize = 0;
    loop
        invariant_except_break
            k <= out.len(),
            out@ == old(out)@,
            forall|i: int| 0 <= i < k ==> lex_le(article@.date, views_of(out@)[i].date),
        ensures
            k <= out.len(),
            out@ == old(out)@,
            forall|i: int| 0 <= i < k ==> lex_le(article@.date, views_of(out@)[i].date),
            k < out.len() ==> !lex_le(article@.date, views_of(out@)[k as int].date),
        decreases out.len() - k,
    {
        if k == out.len() {
            break ;
        }
        proof {
            assert(views_of(out@)[k as int] == out@[k as int]@);
        }
        if !str_le(article.date.as_str(), out[k].date.as_str()) {
            break ;
        }
        k = k + 1;
    }
    proof {
        lemma_insert_desc_at(views_of(out@), article@, k as int);
    }
    out.insert(k, article.duplicate());
    proof {
        let prev = views_of(old(out)@);
        assert(views_of(out@) =~= prev.take(k as int) + seq![article@] + prev.skip(k as int));
    }
}

/// Sorts `list` by date descending, stably.
pub fn sort_by_date(list: &mut Vec<Article>)
    ensures
        views_of(final(list)@) == sort_desc(views_of(old(list)@)),
{
    let mut out: Vec<Article> = Vec::new();
    let mut idx: usize = 0;
    proof {
        assert(views_of(out@) =~= Seq::<ArticleView>::empty());
        assert(views_of(list@).take(0) =~= Seq::<ArticleView>::empty());
    }
    while idx < list.len()
        invariant
            idx <= list.len(),
            list@ == old(list)@,
            views_of(out@) == sort_desc(views_of(list@).take(idx as int)),
        decreases list.len() - idx,
    {
        insert_sorted(&mut out, &list[idx]);
        proof {
            let l = views_of(list@);
            assert(l.take(idx as int + 1).drop_last() =~= l.take(idx as int));
            assert(l.take(idx as int + 1).last() == list@[idx as int]@);
        }
        idx = idx + 1;
    }
    proof {
        assert(views_of(list@).take(list@.len() as int) =~= views_of(list@));
    }
    *list = out;
}

/// Truncates `list` to the cap, keeping the most recent entries.
pub fn apply_cap(list: &mut Vec<Article>, cap: Option<usize>)
    ensures
        views_of(final(list)@) == cap_spec(views_of(old(list)@), cap_opt(cap)),
{
    match cap {
        None => {},
        Some(c) => {
            if list.len() > c {
                list.truncate(c);
                proof {
                    assert(views_of(list@) =~= views_of(old(list)@).take(c as int));
                }
            }
        },
    }
}

/// One reconciliation step on an in-memory aggregate: upsert `article`,
/// re-sort by date descending, and apply the cap.
pub fn reconcile_list(list: &mut Vec<Article>, article: &Article, cap: Option<usize>)
    ensures
        views_of(final(list)@) == reconcile_spec(views_of(old(list)@), article@, cap_opt(cap)),
{
    upsert(list, article);
    sort_by_date(list);
    apply_cap(list, cap);
}

proof fn lemma_insert_desc_len(l: Seq<ArticleView>, a: ArticleView)
    ensures
        insert_desc(l, a).len() == l.len() + 1,
    decreases l.len(),
{
    if l.len() == 0 {
    } else if lex_le(a.date, l[0].date) {
        lemma_insert_desc_len(l.skip(1), a);
    }
}

proof fn lemma_insert_desc_contains(l: Seq<ArticleView>, a: ArticleView, x: ArticleView)
    ensures
        insert_desc(l, a).contains(x) == (l.contains(x) || x == a),
    decreases l.len(),
{
    lemma_insert_desc_len(l, a);
    if l.len() == 0 {
        assert(insert_desc(l, a) =~= seq![a]);
        assert(seq![a].contains(x) == (x == a)) by {
            if x == a {
                assert(seq![a][0] == x);
            }
        }
    } else if lex_le(a.date, l[0].date) {
        lemma_insert_desc_contains(l.skip(1), a, x);
        let res = seq![l[0]] + insert_desc(l.skip(1), a);
        assert(insert_desc(l, a) == res);
        if res.contains(x) {
            let i = choose|i: int| 0 <= i < res.len() && res[i] == x;
            if i == 0 {
                assert(l[0] == x);
                assert(l.contains(x));
            } else {
                assert(insert_desc(l.skip(1), a)[i - 1] == x);
                assert(insert_desc(l.skip(1), a).contains(x));
                if l.skip(1).contains(x) {
                    let j = choose|j: int| 0 <= j < l.skip(1).len() && l.skip(1)[j] == x;
                    assert(l[j + 1] == x);
                    assert(l.contains(x));
                }
            }
        }
        if l.contains(x) {
            let i = choose|i: int| 0 <= i < l.len() && l[i] == x;
            if i == 0 {
                assert(res[0] == x);
            } else {
                assert(l.skip(1)[i - 1] == x);
                assert(l.skip(1).contains(x));
                assert(insert_desc(l.skip(1), a).contains(x));
                let j = choose|j: int|
                    0 <= j < insert_desc(l.skip(1), a).len() && insert_desc(l.skip(1), a)[j] == x;
                assert(res[j + 1] == x);
            }
            assert(res.contains(x));
        }
        if x == a {
            assert(insert_desc(l.skip(1), a).contains(x));
            let j = choose|j: int|
                0 <= j < insert_desc(l.skip(1), a).len() && insert_desc(l.skip(1), a)[j] == x;
            assert(res[j + 1] == x);
            assert(res.contains(x));
        }
    } else {
        let res = seq![a] + l;
        assert(insert_desc(l, a) == res);
        if res.contains(x) {
            let i = choose|i: int| 0 <= i < res.len() && res[i] == x;
            if i == 0 {
                assert(x == a);
            } else {
                assert(l[i - 1] == x);
                assert(l.contains(x));
            }
        }
        if l.contains(x) {
            let i = choose|i: int| 0 <= i < l.len() && l[i] == x;
            assert(res[i + 1] == x);
            assert(res.contains(x));
        }
        if x == a {
            assert(res[0] == x);
            assert(res.contains(x));
        }
    }
}

proof fn lemma_sort_desc_contains(l: Seq<ArticleView>, x: ArticleView)
    ensures
        sort_desc(l).contains(x) == l.contains(x),
        sort_desc(l).len() == l.len(),
    decreases l.len(),
{
    if l.len() == 0 {
    } else {
        lemma_sort_desc_contains(l.drop_last(), x);
        lemma_insert_desc_contains(sort_desc(l.drop_last()), l.last(), x);
        lemma_insert_desc_len(sort_desc(l.drop_last()), l.last());
        assert(l.contains(x) == (l.drop_last().contains(x) || x == l.last())) by {
            if l.contains(x) {
                let i = choose|i: int| 0 <= i < l.len() && l[i] == x;
                if i < l.len() - 1 {
                    assert(l.drop_last()[i] == x);
                    assert(l.drop_last().contains(x));
                }
            }
            if l.drop_last().contains(x) {
                let i = choose|i: int| 0 <= i < l.drop_last().len() && l.drop_last()[i] == x;
                assert(l[i] == x);
                assert(l.contains(x));
            }
            if x == l.last() {
                assert(l[l.len() - 1] == x);
                assert(l.contains(x));
            }
        }
    }
}

proof fn lemma_insert_desc_sorted(l: Seq<ArticleView>, a: ArticleView)
    requires
        sorted_desc(l),
    ensures
        sorted_desc(insert_desc(l, a)),
    decreases l.len(),
{
    lemma_insert_desc_len(l, a);
    if l.len() == 0 {
    } else if lex_le(a.date, l[0].date) {
        assert(sorted_desc(l.skip(1))) by {
            assert(forall|i: int, j: int|
                0 <= i < j < l.skip(1).len() ==> l.skip(1)[i] == l[i + 1] && l.skip(1)[j] == l[j
                    + 1]);
        }
        lemma_insert_desc_sorted(l.skip(1), a);
        let rest = insert_desc(l.skip(1), a);
        let res = seq![l[0]] + rest;
        assert(insert_desc(l, a) == res);
        assert forall|j: int| 1 <= j < res.len() implies date_ge(res[0], res[j]) by {
            assert(res[j] == rest[j - 1]);
            lemma_insert_desc_contains(l.skip(1), a, rest[j - 1]);
            assert(rest.contains(rest[j - 1])) by {
                assert(0 <= j - 1 < rest.len());
            }
            if rest[j - 1] == a {
                assert(date_ge(l[0], a));
            } else {
                assert(l.skip(1).contains(rest[j - 1]));
                let m = choose|m: int|
                    0 <= m < l.skip(1).len() && l.skip(1)[m] == rest[j - 1];
                assert(l[m + 1] == rest[j - 1]);
                assert(date_ge(l[0], l[m + 1]));
            }
        }
        assert forall|i: int, j: int| 0 <= i < j < res.len() implies date_ge(res[i], res[j]) by {
            if i > 0 {
                assert(res[i] == rest[i - 1]);
                assert(res[j] == rest[j - 1]);
                assert(date_ge(rest[i - 1], rest[j - 1]));
            }
        }
    } else {
        lemma_lex_le_total(a.date, l[0].date);
        assert(lex_le(l[0].date, a.date));
        let res = seq![a] + l;
        assert(insert_desc(l, a) == res);
        assert forall|i: int, j: int| 0 <= i < j < res.len() implies date_ge(res[i], res[j]) by {
            if i == 0 {
                assert(res[j] == l[j - 1]);
                if j == 1 {
                    assert(date_ge(a, l[0]));
                } else {
                    assert(date_ge(l[0], l[j - 1]));
                    lemma_lex_le_trans(l[j - 1].date, l[0].date, a.date);
                }
            } else {
                assert(res[i] == l[i - 1]);
                assert(res[j] == l[j - 1]);
                assert(date_ge(l[i - 1], l[j - 1]));
            }
        }
    }
}

proof fn lemma_sort_desc_sorted(l: Seq<ArticleView>)
    ensures
        sorted_desc(sort_desc(l)),
    decreases l.len(),
{
    if l.len() > 0 {
        lemma_sort_desc_sorted(l.drop_last());
        lemma_insert_desc_sorted(sort_desc(l.drop_last()), l.last());
    }
}

proof fn lemma_sort_desc_of_sorted(l: Seq<ArticleView>)
    requires
        sorted_desc(l),
    ensures
        sort_desc(l) == l,
    decreases l.len(),
{
    if l.len() > 0 {
        assert(sorted_desc(l.drop_last())) by {
            assert(forall|i: int, j: int|
                0 <= i < j < l.drop_last().len() ==> l.drop_last()[i] == l[i] && l.drop_last()[j]
                    == l[j]);
        }
        lemma_sort_desc_of_sorted(l.drop_last());
        let d = l.drop_last();
        assert forall|i: int| 0 <= i < d.len() implies lex_le(l.last().date, d[i].date) by {
            assert(date_ge(l[i], l[l.len() - 1]));
            assert(d[i] == l[i]);
            assert(l.last() == l[l.len() - 1]);
        }
        lemma_insert_desc_at(d, l.last(), d.len() as int);
        assert(d.take(d.len() as int) =~= d);
        assert(d.skip(d.len() as int) =~= Seq::<ArticleView>::empty());
        assert(d + seq![l.last()] + Seq::<ArticleView>::empty() =~= l);
    }
}

/// Law (recency ordering): after any reconciliation step, the aggregate is
/// ordered by date descending, whatever the cap.
pub proof fn lemma_reconcile_sorted(l: Seq<ArticleView>, a: ArticleView, cap: Option<int>)
    requires
        cap matches Some(c) ==> c >= 0,
    ensures
        sorted_desc(reconcile_spec(l, a, cap)),
{
    lemma_sort_desc_sorted(upsert_spec(l, a));
    let v = sort_desc(upsert_spec(l, a));
    match cap {
        None => {},
        Some(c) => {
            if v.len() > c {
                assert forall|i: int, j: int|
                    0 <= i < j < v.take(c).len() implies date_ge(v.take(c)[i], v.take(c)[j]) by {
                    assert(v.take(c)[i] == v[i]);
                    assert(v.take(c)[j] == v[j]);
                    assert(date_ge(v[i], v[j]));
                }
            }
        },
    }
}

/// Law (upsert identity): reconciling a record whose normalized path
/// matches the entry at position `i` (and no earlier entry) replaces that
/// entry in place rather than duplicating it: the list keeps its length and
/// every other entry.
pub proof fn lemma_upsert_identity(l: Seq<ArticleView>, a: ArticleView, i: int)
    requires
        0 <= i < l.len(),
        norm_path(l[i].path) == norm_path(a.path),
        forall|k: int| 0 <= k < i ==> norm_path(l[k].path) != norm_path(a.path),
    ensures
        upsert_spec(l, a) == l.update(i, a),
        upsert_spec(l, a).len() == l.len(),
{
    lemma_upsert_update(l, a, i);
}

proof fn lemma_upsert_elems(l: Seq<ArticleView>, a: ArticleView, x: ArticleView)
    ensures
        upsert_spec(l, a).contains(x) ==> (l.contains(x) || x == a),
    decreases l.len(),
{
    if l.len() == 0 {
        if upsert_spec(l, a).contains(x) {
            let i = choose|i: int| 0 <= i < seq![a].len() && seq![a][i] == x;
            assert(x == a);
        }
    } else if norm_path(l[0].path) == norm_path(a.path) {
        let res = seq![a] + l.skip(1);
        if res.contains(x) {
            let i = choose|i: int| 0 <= i < res.len() && res[i] == x;
            if i == 0 {
                assert(x == a);
            } else {
                assert(l.skip(1)[i - 1] == x);
                assert(l[i] == x);
                assert(l.contains(x));
            }
        }
    } else {
        lemma_upsert_elems(l.skip(1), a, x);
        let res = seq![l[0]] + upsert_spec(l.skip(1), a);
        if res.contains(x) {
            let i = choose|i: int| 0 <= i < res.len() && res[i] == x;
            if i == 0 {
                assert(l[0] == x);
                assert(l.contains(x));
            } else {
                assert(upsert_spec(l.skip(1), a)[i - 1] == x);
                assert(upsert_spec(l.skip(1), a).contains(x));
                if l.skip(1).contains(x) {
                    let j = choose|j: int| 0 <= j < l.skip(1).len() && l.skip(1)[j] == x;
                    assert(l[j + 1] == x);
                    assert(l.contains(x));
                }
            }
        }
    }
}

proof fn lemma_upsert_contains_self(l: Seq<ArticleView>, a: ArticleView)
    ensures
        upsert_spec(l, a).contains(a),
    decreases l.len(),
{
    if l.len() == 0 {
        assert(upsert_spec(l, a)[0] == a);
    } else if norm_path(l[0].path) == norm_path(a.path) {
        assert(upsert_spec(l, a)[0] == a);
    } else {
        lemma_upsert_contains_self(l.skip(1), a);
        let j = choose|j: int|
            0 <= j < upsert_spec(l.skip(1), a).len() && upsert_spec(l.skip(1), a)[j] == a;
        assert(upsert_spec(l, a)[j + 1] == a);
    }
}


pub(crate) proof fn lemma_fold_reconcile_snoc(
    l: Seq<ArticleView>,
    rs: Seq<ArticleView>,
    a: ArticleView,
    cap: Option<int>,
)
    ensures
        fold_reconcile(l, rs.push(a), cap) == reconcile_spec(fold_reconcile(l, rs, cap), a, cap),
    decreases rs.len(),
{
    let one = rs.push(a);
    if rs.len() == 0 {
        assert(one[0] == a);
        assert(one.skip(1) =~= Seq::<ArticleView>::empty());
        assert(fold_reconcile(l, one, cap) == fold_reconcile(
            reconcile_spec(l, a, cap),
            one.skip(1),
            cap,
        ));
        assert(fold_reconcile(reconcile_spec(l, a, cap), one.skip(1), cap) == reconcile_spec(
            l,
            a,
            cap,
        ));
    } else {
        assert(one[0] == rs[0]);
        assert(one.skip(1) =~= rs.skip(1).push(a));
        lemma_fold_reconcile_snoc(reconcile_spec(l, rs[0], cap), rs.skip(1), a, cap);
        assert(fold_reconcile(l, one, cap) == fold_reconcile(
            reconcile_spec(l, rs[0], cap),
            one.skip(1),
            cap,
        ));
        assert(fold_reconcile(l, rs, cap) == fold_reconcile(
            reconcile_spec(l, rs[0], cap),
            rs.skip(1),
            cap,
        ));
    }
}


proof fn lemma_upsert_same(l: Seq<ArticleView>, a: ArticleView, i: int)
    requires
        distinct_paths(l),
        0 <= i < l.len(),
        l[i] == a,
    ensures
        upsert_spec(l, a) == l,
{
    assert(forall|k: int| 0 <= k < i ==> norm_path(l[k].path) != norm_path(a.path));
    lemma_upsert_update(l, a, i);
    assert(l.update(i, a) =~= l);
}

proof fn lemma_reconcile_noop(l: Seq<ArticleView>, a: ArticleView, cap: Option<int>)
    requires
        sorted_desc(l),
        distinct_paths(l),
        l.contains(a),
        cap matches Some(c) ==> l.len() <= c,
    ensures
        reconcile_spec(l, a, cap) == l,
{
    let i = choose|i: int| 0 <= i < l.len() && l[i] == a;
    lemma_upsert_same(l, a, i);
    lemma_sort_desc_of_sorted(l);
}

proof fn lemma_reconcile_evict(l: Seq<ArticleView>, a: ArticleView, c: int)
    requires
        sorted_desc(l),
        !has_path(l, norm_path(a.path)),
        l.len() == c,
        0 <= c,
        forall|i: int| 0 <= i < l.len() ==> lex_le(a.date, (#[trigger] l[i]).date),
    ensures
        reconcile_spec(l, a, Some(c)) == l,
{
    lemma_upsert_push(l, a);
    let u = l.push(a);
    assert(sorted_desc(u)) by {
        assert forall|i: int, j: int| 0 <= i < j < u.len() implies date_ge(u[i], u[j]) by {
            if j < l.len() {
                assert(u[i] == l[i]);
                assert(u[j] == l[j]);
            } else {
                assert(u[j] == a);
                assert(u[i] == l[i]);
            }
        }
    }
    lemma_sort_desc_of_sorted(u);
    assert(u.len() > c);
    assert(u.take(c) =~= l);
}

/// A record is accounted for in an aggregate: it stands in the list, or the
/// list is full to its cap and every entry is at least as recent.
pub open spec fn covered(r: ArticleView, l: Seq<ArticleView>, cap: Option<int>) -> bool {
    l.contains(r) || (match cap {
        Some(c) => l.len() == c && forall|i: int|
            0 <= i < l.len() ==> lex_le(r.date, (#[trigger] l[i]).date),
        None => false,
    })
}

/// The shape an aggregate has once a record sequence has been reconciled
/// into it: sorted by recency, path-distinct, within its cap, with every
/// record accounted for and every entry that shares a record's path equal
/// to that record.
pub open spec fn run_state_ok(rs: Seq<ArticleView>, l: Seq<ArticleView>, cap: Option<int>) -> bool {
    &&& sorted_desc(l)
    &&& distinct_paths(l)
    &&& match cap {
        Some(c) => l.len() <= c,
        None => true,
    }
    &&& forall|k: int| 0 <= k < rs.len() ==> covered(#[trigger] rs[k], l, cap)
    &&& forall|k: int, i: int|
        0 <= k < rs.len() && 0 <= i < l.len() && norm_path((#[trigger] l[i]).path) == norm_path(
            (#[trigger] rs[k]).path,
        ) ==> l[i] == rs[k]
}

proof fn lemma_upsert_distinct(l: Seq<ArticleView>, a: ArticleView)
    requires
        distinct_paths(l),
    ensures
        distinct_paths(upsert_spec(l, a)),
{
    if has_path(l, norm_path(a.path)) {
        let i = choose|i: int| 0 <= i < l.len() && norm_path(l[i].path) == norm_path(a.path);
        assert(forall|k: int| 0 <= k < i ==> norm_path(l[k].path) != norm_path(a.path)) by {
            assert(forall|k: int|
                0 <= k < i ==> norm_path(l[k].path) != norm_path(l[i].path));
        }
        lemma_upsert_update(l, a, i);
        let res = l.update(i, a);
        assert forall|p: int, q: int|
            0 <= p < q < res.len() implies norm_path(res[p].path) != norm_path(res[q].path) by {
            assert(norm_path(res[p].path) == norm_path(l[p].path));
            assert(norm_path(res[q].path) == norm_path(l[q].path));
        }
    } else {
        lemma_upsert_push(l, a);
        let res = l.push(a);
        assert forall|p: int, q: int|
            0 <= p < q < res.len() implies norm_path(res[p].path) != norm_path(res[q].path) by {
            if q == l.len() {
                assert(res[q] == a);
                assert(res[p] == l[p]);
                assert(!(norm_path(l[p].path) == norm_path(a.path))) by {
                    if norm_path(l[p].path) == norm_path(a.path) {
                        assert(has_path(l, norm_path(a.path)));
                    }
                }
            } else {
                assert(res[p] == l[p]);
                assert(res[q] == l[q]);
            }
        }
    }
}

proof fn lemma_has_path_from_contains(x: Seq<ArticleView>, y: Seq<ArticleView>, p: Seq<char>)
    requires
        forall|e: ArticleView| x.contains(e) == y.contains(e),
    ensures
        has_path(x, p) == has_path(y, p),
{
    if has_path(x, p) {
        let i = choose|i: int| 0 <= i < x.len() && norm_path(x[i].path) == p;
        assert(x.contains(x[i]));
        assert(y.contains(x[i]));
        let j = choose|j: int| 0 <= j < y.len() && y[j] == x[i];
        assert(has_path(y, p));
    }
    if has_path(y, p) {
        let i = choose|i: int| 0 <= i < y.len() && norm_path(y[i].path) == p;
        assert(y.contains(y[i]));
        assert(x.contains(y[i]));
        let j = choose|j: int| 0 <= j < x.len() && x[j] == y[i];
        assert(has_path(x, p));
    }
}

proof fn lemma_insert_desc_distinct(l: Seq<ArticleView>, a: ArticleView)
    requires
        distinct_paths(l),
        !has_path(l, norm_path(a.path)),
    ensures
        distinct_paths(insert_desc(l, a)),
    decreases l.len(),
{
    lemma_insert_desc_len(l, a);
    if l.len() == 0 {
    } else if lex_le(a.date, l[0].date) {
        assert(distinct_paths(l.skip(1))) by {
            assert(forall|i: int, j: int|
                0 <= i < j < l.skip(1).len() ==> l.skip(1)[i] == l[i + 1] && l.skip(1)[j] == l[j
                    + 1]);
        }
        assert(!has_path(l.skip(1), norm_path(a.path))) by {
            if has_path(l.skip(1), norm_path(a.path)) {
                let i = choose|i: int|
                    0 <= i < l.skip(1).len() && norm_path(l.skip(1)[i].path) == norm_path(a.path);
                assert(l.skip(1)[i] == l[i + 1]);
                assert(has_path(l, norm_path(a.path)));
            }
        }
        lemma_insert_desc_distinct(l.skip(1), a);
        let rest = insert_desc(l.skip(1), a);
        let res = seq![l[0]] + rest;
        assert(insert_desc(l, a) == res);
        assert forall|p: int, q: int|
            0 <= p < q < res.len() implies norm_path(res[p].path) != norm_path(res[q].path) by {
            if p == 0 {
                assert(res[q] == rest[q - 1]);
                assert(rest.contains(rest[q - 1])) by {
                    assert(0 <= q - 1 < rest.len());
                }
                lemma_insert_desc_contains(l.skip(1), a, rest[q - 1]);
                if rest[q - 1] == a {
                    assert(!(norm_path(l[0].path) == norm_path(a.path))) by {
                        if norm_path(l[0].path) == norm_path(a.path) {
                            assert(has_path(l, norm_path(a.path)));
                        }
                    }
                } else {
                    assert(l.skip(1).contains(rest[q - 1]));
                    let m = choose|m: int|
                        0 <= m < l.skip(1).len() && l.skip(1)[m] == rest[q - 1];
                    assert(l[m + 1] == rest[q - 1]);
                    assert(norm_path(l[0].path) != norm_path(l[m + 1].path));
                }
            } else {
                assert(res[p] == rest[p - 1]);
                assert(res[q] == rest[q - 1]);
                assert(norm_path(rest[p - 1].path) != norm_path(rest[q - 1].path));
            }
        }
    } else {
        let res = seq![a] + l;
        assert(insert_desc(l, a) == res);
        assert forall|p: int, q: int|
            0 <= p < q < res.len() implies norm_path(res[p].path) != norm_path(res[q].path) by {
            if p == 0 {
                assert(res[q] == l[q - 1]);
                assert(!(norm_path(a.path) == norm_path(l[q - 1].path))) by {
                    if norm_path(a.path) == norm_path(l[q - 1].path) {
                        assert(has_path(l, norm_path(a.path)));
                    }
                }
            } else {
                assert(res[p] == l[p - 1]);
                assert(res[q] == l[q - 1]);
            }
        }
    }
}

proof fn lemma_sort_desc_distinct(l: Seq<ArticleView>)
    requires
        distinct_paths(l),
    ensures
        distinct_paths(sort_desc(l)),
    decreases l.len(),
{
    if l.len() > 0 {
        let d = l.drop_last();
        assert(distinct_paths(d)) by {
            assert(forall|i: int, j: int|
                0 <= i < j < d.len() ==> d[i] == l[i] && d[j] == l[j]);
        }
        lemma_sort_desc_distinct(d);
        assert(forall|e: ArticleView| sort_desc(d).contains(e) == d.contains(e)) by {
            assert forall|e: ArticleView| sort_desc(d).contains(e) == d.contains(e) by {
                lemma_sort_desc_contains(d, e);
            }
        }
        lemma_has_path_from_contains(sort_desc(d), d, norm_path(l.last().path));
        assert(!has_path(d, norm_path(l.last().path))) by {
            if has_path(d, norm_path(l.last().path)) {
                let i = choose|i: int|
                    0 <= i < d.len() && norm_path(d[i].path) == norm_path(l.last().path);
                assert(d[i] == l[i]);
                assert(norm_path(l[i].path) != norm_path(l[l.len() - 1].path));
            }
        }
        lemma_insert_desc_distinct(sort_desc(d), l.last());
    }
}

/// Law (aggregate invariant): a reconciliation step preserves the aggregate
/// invariant that no two entries share a normalized path.
pub proof fn lemma_reconcile_distinct(l: Seq<ArticleView>, a: ArticleView, cap: Option<int>)
    requires
        distinct_paths(l),
        cap matches Some(c) ==> c >= 0,
    ensures
        distinct_paths(reconcile_spec(l, a, cap)),
{
    lemma_upsert_distinct(l, a);
    lemma_sort_desc_distinct(upsert_spec(l, a));
    let v = sort_desc(upsert_spec(l, a));
    match cap {
        None => {},
        Some(c) => {
            if v.len() > c {
                assert forall|p: int, q: int|
                    0 <= p < q < v.take(c).len() implies norm_path(v.take(c)[p].path) != norm_path(
                    v.take(c)[q].path,
                ) by {
                    assert(v.take(c)[p] == v[p]);
                    assert(v.take(c)[q] == v[q]);
                }
            }
        },
    }
}

proof fn lemma_reconcile_elems(l: Seq<ArticleView>, a: ArticleView, cap: Option<int>, x: ArticleView)
    requires
        cap matches Some(c) ==> c >= 0,
    ensures
        reconcile_spec(l, a, cap).contains(x) ==> (l.contains(x) || x == a),
{
    let u = upsert_spec(l, a);
    let v = sort_desc(u);
    if reconcile_spec(l, a, cap).contains(x) {
        let res = reconcile_spec(l, a, cap);
        let i = choose|i: int| 0 <= i < res.len() && res[i] == x;
        assert(v.contains(x)) by {
            match cap {
                None => {},
                Some(c) => {
                    if v.len() > c {
                        assert(res[i] == v[i]);
                    }
                },
            }
        }
        lemma_sort_desc_contains(u, x);
        lemma_upsert_elems(l, a, x);
    }
}

proof fn lemma_reconcile_len(l: Seq<ArticleView>, a: ArticleView, cap: Option<int>)
    requires
        cap matches Some(c) ==> c >= 0,
    ensures
        cap matches Some(c) ==> reconcile_spec(l, a, cap).len() <= c,
        !has_path(l, norm_path(a.path)) ==> reconcile_spec(l, a, cap).len() == (match cap {
            Some(c) => if l.len() + 1 <= c {
                l.len() + 1
            } else {
                c as nat
            },
            None => l.len() + 1,
        }),
{
    let u = upsert_spec(l, a);
    lemma_sort_desc_contains(u, a);
    if has_path(l, norm_path(a.path)) {
        let i = choose|i: int| 0 <= i < l.len() && norm_path(l[i].path) == norm_path(a.path);
        let j = choose|j: int|
            0 <= j <= i && norm_path(l[j].path) == norm_path(a.path) && forall|k: int|
                0 <= k < j ==> norm_path(l[k].path) != norm_path(a.path);
        assert(exists|j: int|
            0 <= j <= i && norm_path(l[j].path) == norm_path(a.path) && forall|k: int|
                0 <= k < j ==> norm_path(l[k].path) != norm_path(a.path)) by {
            lemma_first_match_exists(l, norm_path(a.path), i);
        }
        lemma_upsert_update(l, a, j);
    } else {
        lemma_upsert_push(l, a);
    }
}

proof fn lemma_first_match_exists(l: Seq<ArticleView>, p: Seq<char>, i: int)
    requires
        0 <= i < l.len(),
        norm_path(l[i].path) == p,
    ensures
        exists|j: int|
            0 <= j <= i && norm_path(l[j].path) == p && forall|k: int|
                0 <= k < j ==> norm_path(l[k].path) != p,
    decreases i,
{
    if forall|k: int| 0 <= k < i ==> norm_path(l[k].path) != p {
        assert(0 <= i <= i && norm_path(l[i].path) == p && forall|k: int|
            0 <= k < i ==> norm_path(l[k].path) != p);
    } else {
        let m = choose|m: int| 0 <= m < i && norm_path(l[m].path) == p;
        lemma_first_match_exists(l, p, m);
        let j = choose|j: int|
            0 <= j <= m && norm_path(l[j].path) == p && forall|k: int|
                0 <= k < j ==> norm_path(l[k].path) != p;
        assert(0 <= j <= i && norm_path(l[j].path) == p && forall|k: int|
            0 <= k < j ==> norm_path(l[k].path) != p);
    }
}


proof fn lemma_reconcile_covers(l: Seq<ArticleView>, q: ArticleView, cap: Option<int>, r: ArticleView)
    requires
        sorted_desc(l),
        distinct_paths(l),
        cap matches Some(c) ==> (c >= 0 && l.len() <= c),
        covered(r, l, cap),
        forall|i: int|
            0 <= i < l.len() && norm_path((#[trigger] l[i]).path) == norm_path(q.path) ==> l[i]
                == q,
    ensures
        covered(r, reconcile_spec(l, q, cap), cap),
{
    if has_path(l, norm_path(q.path)) {
        let i = choose|i: int| 0 <= i < l.len() && norm_path(l[i].path) == norm_path(q.path);
        assert(l[i] == q);
        assert(l.contains(q));
        lemma_reconcile_noop(l, q, cap);
    } else {
        lemma_upsert_push(l, q);
        let u = l.push(q);
        let v = sort_desc(u);
        lemma_sort_desc_sorted(u);
        lemma_upsert_distinct(l, q);
        lemma_sort_desc_distinct(u);
        lemma_sort_desc_contains(u, r);
        lemma_sort_desc_contains(u, q);
        match cap {
            None => {
                assert(l.contains(r));
                let m = choose|m: int| 0 <= m < l.len() && l[m] == r;
                assert(u[m] == r);
                assert(u.contains(r));
                assert(v.contains(r));
            },
            Some(c) => {
                if v.len() <= c {
                    assert(l.len() < c);
                    assert(l.contains(r));
                    let m = choose|m: int| 0 <= m < l.len() && l[m] == r;
                    assert(u[m] == r);
                    assert(u.contains(r));
                    assert(v.contains(r));
                } else {
                    assert(l.len() == c);
                    assert(v.len() == c + 1);
                    let res = v.take(c);
                    assert(reconcile_spec(l, q, cap) == res);
                    if exists|m: int| 0 <= m < c && v[m] == r {
                        let m = choose|m: int| 0 <= m < c && v[m] == r;
                        assert(res[m] == r);
                        assert(res.contains(r));
                    } else {
                        assert forall|i: int|
                            0 <= i < res.len() implies lex_le(r.date, (#[trigger] res[i]).date) by {
                            assert(res[i] == v[i]);
                            assert(v.contains(v[i])) by {
                                assert(0 <= i < v.len());
                            }
                            assert(u.contains(v[i])) by {
                                lemma_sort_desc_contains(u, v[i]);
                            }
                            let ui = choose|ui: int| 0 <= ui < u.len() && u[ui] == v[i];
                            if l.contains(r) {
                                let m = choose|m: int| 0 <= m < l.len() && l[m] == r;
                                assert(u[m] == r);
                                assert(u.contains(r));
                                assert(v.contains(r));
                                let mv = choose|mv: int| 0 <= mv < v.len() && v[mv] == r;
                                assert(mv >= c);
                                assert(date_ge(v[i], v[mv]));
                            } else {
                                assert(l.len() == c && forall|t: int|
                                    0 <= t < l.len() ==> lex_le(r.date, (#[trigger] l[t]).date));
                                if ui < l.len() {
                                    assert(u[ui] == l[ui]);
                                    assert(lex_le(r.date, v[i].date));
                                } else {
                                    assert(v[i] == q);
                                    assert(u.contains(v[c])) by {
                                        lemma_sort_desc_contains(u, v[c]);
                                        assert(v.contains(v[c])) by {
                                            assert(0 <= c < v.len());
                                        }
                                    }
                                    let uc = choose|uc: int| 0 <= uc < u.len() && u[uc] == v[c];
                                    if uc < l.len() {
                                        assert(v[c] == l[uc]);
                                        assert(lex_le(r.date, v[c].date));
                                        assert(date_ge(v[i], v[c]));
                                        lemma_lex_le_trans(r.date, v[c].date, v[i].date);
                                    } else {
                                        assert(v[c] == q);
                                        assert(norm_path(v[i].path) == norm_path(v[c].path));
                                        assert(false);
                                    }
                                }
                            }
                        }
                        assert(res.len() == c);
                    }
                }
            },
        }
    }
}

proof fn lemma_reconcile_covers_self(l: Seq<ArticleView>, q: ArticleView, cap: Option<int>)
    requires
        cap matches Some(c) ==> c >= 0,
    ensures
        covered(q, reconcile_spec(l, q, cap), cap),
{
    lemma_upsert_contains_self(l, q);
    let u = upsert_spec(l, q);
    let v = sort_desc(u);
    lemma_sort_desc_sorted(u);
    lemma_sort_desc_contains(u, q);
    assert(v.contains(q));
    let m = choose|m: int| 0 <= m < v.len() && v[m] == q;
    match cap {
        None => {},
        Some(c) => {
            if v.len() > c {
                let res = v.take(c);
                if m < c {
                    assert(res[m] == q);
                    assert(res.contains(q));
                } else {
                    assert forall|i: int|
                        0 <= i < res.len() implies lex_le(q.date, (#[trigger] res[i]).date) by {
                        assert(res[i] == v[i]);
                        assert(date_ge(v[i], v[m]));
                    }
                    assert(res.len() == c);
                }
            }
        },
    }
}

proof fn lemma_run_establish(init: Seq<ArticleView>, rs: Seq<ArticleView>, cap: Option<int>)
    requires
        distinct_paths(init),
        distinct_paths(rs),
        forall|k: int|
            0 <= k < rs.len() ==> !has_path(init, norm_path((#[trigger] rs[k]).path)),
        cap matches Some(c) ==> c >= 0,
        rs.len() >= 1,
    ensures
        run_state_ok(rs, fold_reconcile(init, rs, cap), cap),
        forall|i: int|
            0 <= i < fold_reconcile(init, rs, cap).len() ==> init.contains(
                #[trigger] fold_reconcile(init, rs, cap)[i],
            ) || rs.contains(fold_reconcile(init, rs, cap)[i]),
    decreases rs.len(),
{
    let rs0 = rs.drop_last();
    let a = rs.last();
    assert(rs == rs0.push(a)) by {
        assert(rs =~= rs0.push(a));
    }
    lemma_fold_reconcile_snoc(init, rs0, a, cap);
    let base = fold_reconcile(init, rs0, cap);
    let t = fold_reconcile(init, rs, cap);
    assert(t == reconcile_spec(base, a, cap));
    if rs0.len() == 0 {
        assert(base == init);
        lemma_reconcile_sorted(init, a, cap);
        lemma_reconcile_distinct(init, a, cap);
        lemma_reconcile_len(init, a, cap);
        lemma_reconcile_covers_self(init, a, cap);
        assert(forall|k: int| 0 <= k < rs.len() ==> rs[k] == a);
        assert forall|i: int| 0 <= i < t.len() implies init.contains(#[trigger] t[i])
            || rs.contains(t[i]) by {
            lemma_reconcile_elems(init, a, cap, t[i]);
            assert(t.contains(t[i])) by {
                assert(0 <= i < t.len());
            }
            if t[i] == a {
                assert(rs[rs.len() - 1] == a);
                assert(rs.contains(a));
            }
        }
        assert forall|k: int, i: int|
            0 <= k < rs.len() && 0 <= i < t.len() && norm_path((#[trigger] t[i]).path)
                == norm_path((#[trigger] rs[k]).path) implies t[i] == rs[k] by {
            lemma_reconcile_elems(init, a, cap, t[i]);
            assert(t.contains(t[i])) by {
                assert(0 <= i < t.len());
            }
            if init.contains(t[i]) {
                let m = choose|m: int| 0 <= m < init.len() && init[m] == t[i];
                assert(norm_path(init[m].path) == norm_path(a.path));
                assert(has_path(init, norm_path(a.path)));
                assert(false);
            }
        }
    } else {
        lemma_run_establish(init, rs0, cap);
        assert(run_state_ok(rs0, base, cap));
        // No entry of base carries the new record's path.
        assert forall|i: int|
            0 <= i < base.len() && norm_path((#[trigger] base[i]).path) == norm_path(a.path)
            implies base[i] == a by {
            assert(base.contains(base[i])) by {
                assert(0 <= i < base.len());
            }
            if init.contains(base[i]) {
                let m = choose|m: int| 0 <= m < init.len() && init[m] == base[i];
                assert(!has_path(init, norm_path(rs[rs.len() - 1].path)));
                assert(rs[rs.len() - 1] == a);
                assert(norm_path(init[m].path) == norm_path(a.path));
                assert(has_path(init, norm_path(a.path)));
                assert(false);
            } else {
                assert(rs0.contains(base[i]));
                let m = choose|m: int| 0 <= m < rs0.len() && rs0[m] == base[i];
                assert(rs[m] == rs0[m]);
                assert(norm_path(rs[m].path) == norm_path(rs[rs.len() - 1].path));
                assert(false);
            }
        }
        lemma_reconcile_sorted(base, a, cap);
        lemma_reconcile_distinct(base, a, cap);
        lemma_reconcile_len(base, a, cap);
        lemma_reconcile_covers_self(base, a, cap);
        assert forall|k: int| 0 <= k < rs.len() implies covered(#[trigger] rs[k], t, cap) by {
            if k < rs.len() - 1 {
                assert(rs[k] == rs0[k]);
                assert(covered(rs0[k], base, cap));
                lemma_reconcile_covers(base, a, cap, rs0[k]);
            } else {
                assert(rs[k] == a);
            }
        }
        assert forall|i: int| 0 <= i < t.len() implies init.contains(#[trigger] t[i])
            || rs.contains(t[i]) by {
            lemma_reconcile_elems(base, a, cap, t[i]);
            assert(t.contains(t[i])) by {
                assert(0 <= i < t.len());
            }
            if t[i] == a {
                assert(rs[rs.len() - 1] == a);
                assert(rs.contains(a));
            } else if base.contains(t[i]) {
                if rs0.contains(t[i]) {
                    let m = choose|m: int| 0 <= m < rs0.len() && rs0[m] == t[i];
                    assert(rs[m] == t[i]);
                    assert(rs.contains(t[i]));
                }
            }
        }
        assert forall|k: int, i: int|
            0 <= k < rs.len() && 0 <= i < t.len() && norm_path((#[trigger] t[i]).path)
                == norm_path((#[trigger] rs[k]).path) implies t[i] == rs[k] by {
            lemma_reconcile_elems(base, a, cap, t[i]);
            assert(t.contains(t[i])) by {
                assert(0 <= i < t.len());
            }
            if t[i] == a {
                if k < rs.len() - 1 {
                    assert(rs[k] == rs0[k]);
                    assert(norm_path(rs[k].path) == norm_path(rs[rs.len() - 1].path));
                    assert(false);
                } else {
                    assert(rs[k] == a);
                }
            } else {
                assert(base.contains(t[i]));
                let m = choose|m: int| 0 <= m < base.len() && base[m] == t[i];
                if k < rs.len() - 1 {
                    assert(rs[k] == rs0[k]);
                    assert(base[m] == rs0[k]);
                } else {
                    assert(rs[k] == a);
                    assert(norm_path(base[m].path) == norm_path(a.path));
                    assert(base[m] == a);
                }
            }
        }
    }
}

proof fn lemma_run_fixpoint(rs: Seq<ArticleView>, l: Seq<ArticleView>, cap: Option<int>)
    requires
        run_state_ok(rs, l, cap),
        distinct_paths(rs),
        cap matches Some(c) ==> c >= 0,
    ensures
        fold_reconcile(l, rs, cap) == l,
    decreases rs.len(),
{
    if rs.len() == 0 {
    } else {
        let r = rs[0];
        assert(covered(r, l, cap));
        if l.contains(r) {
            lemma_reconcile_noop(l, r, cap);
        } else {
            assert(!has_path(l, norm_path(r.path))) by {
                if has_path(l, norm_path(r.path)) {
                    let i = choose|i: int|
                        0 <= i < l.len() && norm_path(l[i].path) == norm_path(r.path);
                    assert(l[i] == rs[0]);
                    assert(l.contains(r));
                }
            }
            match cap {
                None => {
                    assert(false);
                },
                Some(c) => {
                    assert(l.len() == c && forall|i: int|
                        0 <= i < l.len() ==> lex_le(r.date, (#[trigger] l[i]).date));
                    lemma_reconcile_evict(l, r, c);
                },
            }
        }
        assert(reconcile_spec(l, rs[0], cap) == l);
        assert(distinct_paths(rs.skip(1))) by {
            assert(forall|i: int, j: int|
                0 <= i < j < rs.skip(1).len() ==> rs.skip(1)[i] == rs[i + 1] && rs.skip(1)[j]
                    == rs[j + 1]);
        }
        assert(run_state_ok(rs.skip(1), l, cap)) by {
            assert forall|k: int|
                0 <= k < rs.skip(1).len() implies covered(#[trigger] rs.skip(1)[k], l, cap) by {
                assert(rs.skip(1)[k] == rs[k + 1]);
            }
            assert forall|k: int, i: int|
                0 <= k < rs.skip(1).len() && 0 <= i < l.len() && norm_path(
                    (#[trigger] l[i]).path,
                ) == norm_path((#[trigger] rs.skip(1)[k]).path) implies l[i] == rs.skip(1)[k] by {
                assert(rs.skip(1)[k] == rs[k + 1]);
            }
        }
        lemma_run_fixpoint(rs.skip(1), l, cap);
    }
}

/// Law (idempotence): reconciling the same record sequence a second time
/// leaves an aggregate exactly as the first pass left it — so a second run
/// over an unchanged tree rewrites every aggregate with identical content.
/// It asks that no two records share a normalized path (the walker
/// de-duplicates by path) and that no pre-existing entry shares a path with
/// an incoming record.
pub proof fn lemma_reconcile_idempotent(init: Seq<ArticleView>, rs: Seq<ArticleView>, cap: Option<
    int,
>)
    requires
        distinct_paths(init),
        distinct_paths(rs),
        forall|k: int|
            0 <= k < rs.len() ==> !has_path(init, norm_path((#[trigger] rs[k]).path)),
        cap matches Some(c) ==> c >= 0,
    ensures
        fold_reconcile(fold_reconcile(init, rs, cap), rs, cap) == fold_reconcile(init, rs, cap),
{
    if rs.len() == 0 {
    } else {
        lemma_run_establish(init, rs, cap);
        lemma_run_fixpoint(rs, fold_reconcile(init, rs, cap), cap);
    }
}

proof fn lemma_fold_len_from_empty(rs: Seq<ArticleView>, c: int)
    requires
        distinct_paths(rs),
        c >= 0,
    ensures
        fold_reconcile(Seq::<ArticleView>::empty(), rs, Some(c)).len() == if rs.len() <= c {
            rs.len() as int
        } else {
            c
        },
    decreases rs.len(),
{
    let init = Seq::<ArticleView>::empty();
    if rs.len() == 0 {
    } else {
        let rs0 = rs.drop_last();
        let a = rs.last();
        assert(rs == rs0.push(a)) by {
            assert(rs =~= rs0.push(a));
        }
        assert(distinct_paths(rs0)) by {
            assert(forall|i: int, j: int|
                0 <= i < j < rs0.len() ==> rs0[i] == rs[i] && rs0[j] == rs[j]);
        }
        lemma_fold_len_from_empty(rs0, c);
        lemma_fold_reconcile_snoc(init, rs0, a, Some(c));
        let base = fold_reconcile(init, rs0, Some(c));
        assert(!has_path(base, norm_path(a.path))) by {
            if has_path(base, norm_path(a.path)) {
                let i = choose|i: int|
                    0 <= i < base.len() && norm_path(base[i].path) == norm_path(a.path);
                if rs0.len() == 0 {
                    assert(false);
                } else {
                    lemma_run_establish(init, rs0, Some(c));
                    assert(base.contains(base[i])) by {
                        assert(0 <= i < base.len());
                    }
                    assert(rs0.contains(base[i]));
                    let m = choose|m: int| 0 <= m < rs0.len() && rs0[m] == base[i];
                    assert(rs[m] == rs0[m]);
                    assert(rs[rs.len() - 1] == a);
                    assert(norm_path(rs[m].path) == norm_path(rs[rs.len() - 1].path));
                    assert(false);
                }
            }
        }
        lemma_reconcile_len(base, a, Some(c));
    }
}

/// Law (cap enforcement): reconciling distinct-path records one at a time
/// into an empty capped aggregate keeps exactly the cap's worth once enough
/// records arrive (and all of them before that); every kept entry is one of
/// the records, and every kept entry is at least as recent as every record
/// left out.
pub proof fn lemma_cap_enforcement(rs: Seq<ArticleView>, c: int)
    requires
        distinct_paths(rs),
        c >= 0,
    ensures
        fold_reconcile(Seq::<ArticleView>::empty(), rs, Some(c)).len() == if rs.len() <= c {
            rs.len() as int
        } else {
            c
        },
        forall|i: int|
            0 <= i < fold_reconcile(Seq::<ArticleView>::empty(), rs, Some(c)).len()
                ==> rs.contains(#[trigger] fold_reconcile(Seq::<ArticleView>::empty(), rs, Some(c))[i]),
        forall|i: int, k: int|
            0 <= i < fold_reconcile(Seq::<ArticleView>::empty(), rs, Some(c)).len() && 0 <= k
                < rs.len() && !fold_reconcile(Seq::<ArticleView>::empty(), rs, Some(c)).contains(
                #[trigger] rs[k],
            ) ==> lex_le(
                rs[k].date,
                (#[trigger] fold_reconcile(Seq::<ArticleView>::empty(), rs, Some(c))[i]).date,
            ),
{
    let init = Seq::<ArticleView>::empty();
    let t = fold_reconcile(init, rs, Some(c));
    lemma_fold_len_from_empty(rs, c);
    if rs.len() == 0 {
    } else {
        lemma_run_establish(init, rs, Some(c));
        assert forall|i: int| 0 <= i < t.len() implies rs.contains(#[trigger] t[i]) by {
            assert(init.contains(t[i]) || rs.contains(t[i]));
            if init.contains(t[i]) {
                let m = choose|m: int| 0 <= m < init.len() && init[m] == t[i];
                assert(false);
            }
        }
        assert forall|i: int, k: int|
            0 <= i < t.len() && 0 <= k < rs.len() && !t.contains(#[trigger] rs[k]) implies lex_le(
            rs[k].date,
            (#[trigger] t[i]).date,
        ) by {
            assert(covered(rs[k], t, Some(c)));
        }
    }
}


} // verus!
