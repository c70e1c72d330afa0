//! String-level helpers: lexicographic date comparison, path-segment
//! normalization, and document-extension checks.
use vstd::prelude::*;

verus! {

/// Lexicographic order on character sequences: `a` is less than or equal to
/// `b` when `a` is a prefix of `b` or the first differing character is smaller.
pub open spec fn lex_le(a: Seq<char>, b: Seq<char>) -> bool
    decreases a.len(),
{
    if a.len() == 0 {
        true
    } else if b.len() == 0 {
        false
    } else if (a[0] as u32) == (b[0] as u32) {
        lex_le(a.skip(1), b.skip(1))
    } else {
        (a[0] as u32) < (b[0] as u32)
    }
}

/// The order is total: of any two sequences, one is less than or equal to the other.
pub proof fn lemma_lex_le_total(a: Seq<char>, b: Seq<char>)
    ensures
        lex_le(a, b) || lex_le(b, a),
    decreases a.len(),
{
    if a.len() == 0 {
    } else if b.len() == 0 {
    } else if (a[0] as u32) == (b[0] as u32) {
        lemma_lex_le_total(a.skip(1), b.skip(1));
    }
}

/// The order is transitive.
pub proof fn lemma_lex_le_trans(a: Seq<char>, b: Seq<char>, c: Seq<char>)
    requires
        lex_le(a, b),
        lex_le(b, c),
    ensures
        lex_le(a, c),
    decreases a.len(),
{
    if a.len() == 0 {
    } else if b.len() == 0 {
    } else if c.len() == 0 {
    } else {
        if (a[0] as u32) == (b[0] as u32) && (b[0] as u32) == (c[0] as u32) {
            lemma_lex_le_trans(a.skip(1), b.skip(1), c.skip(1));
        }
    }
}

/// Compares two strings in lexicographic character order.
pub fn str_le(a: &str, b: &str) -> (r: bool)
    ensures
        r == lex_le(a@, b@),
{
    let a_len = a.unicode_len();
    let b_len = b.unicode_len();
    let mut i: usize = 0;
    proof {
        assert(a@.skip(0) =~= a@);
        assert(b@.skip(0) =~= b@);
    }
    loop
        invariant
            i <= a_len,
            i <= b_len,
            a_len == a@.len(),
            b_len == b@.len(),
            lex_le(a@, b@) == lex_le(a@.skip(i as int), b@.skip(i as int)),
        decreases a_len - i,
    {
        if i == a_len {
            proof {
                assert(a@.skip(i as int).len() == 0);
            }
            return true;
        }
        if i == b_len {
            proof {
                assert(b@.skip(i as int).len() == 0);
                assert(a@.skip(i as int).len() != 0);
            }
            return false;
        }
        let ca = a.get_char(i);
        let cb = b.get_char(i);
        proof {
            assert(a@.skip(i as int)[0] == a@[i as int]);
            assert(b@.skip(i as int)[0] == b@[i as int]);
            assert(a@.skip(i as int).skip(1) =~= a@.skip(i as int + 1));
            assert(b@.skip(i as int).skip(1) =~= b@.skip(i as int + 1));
        }
        let ua = ca as u32;
        let ub = cb as u32;
        if ua != ub {
            return ua < ub;
        }
        i = i + 1;
    }
}

/// Tests two strings for equality of their character sequences.
pub fn str_eq(a: &str, b: &str) -> (r: bool)
    ensures
        r == (a@ == b@),
{
    let n = a.unicode_len();
    if n != b.unicode_len() {
        return false;
    }
    let mut i: usize = 0;
    while i < n
        invariant
            i <= n,
            n == a@.len(),
            n == b@.len(),
            forall|k: int| 0 <= k < i ==> a@[k] == b@[k],
        decreases n - i,
    {
        if a.get_char(i) != b.get_char(i) {
            return false;
        }
        i = i + 1;
    }
    proof {
        assert(a@ =~= b@);
    }
    true
}

/// The final path segment of `p`: everything after the last `'/'`, or all of
/// `p` when it holds no `'/'`.
pub open spec fn norm_path(p: Seq<char>) -> Seq<char>
    decreases p.len(),
{
    if p.len() == 0 {
        p
    } else if p.last() == '/' {
        Seq::empty()
    } else {
        norm_path(p.drop_last()).push(p.last())
    }
}

/// The name of the directory that directly holds the file named by `p`:
/// the segment before the last `'/'`, or nothing when `p` has no `'/'`.
pub open spec fn parent_dir(p: Seq<char>) -> Option<Seq<char>>
    decreases p.len(),
{
    if p.len() == 0 {
        None
    } else if p.last() == '/' {
        Some(norm_path(p.drop_last()))
    } else {
        parent_dir(p.drop_last())
    }
}

pub proof fn lemma_norm_path_no_slash(p: Seq<char>)
    requires
        forall|k: int| 0 <= k < p.len() ==> p[k] != '/',
    ensures
        norm_path(p) == p,
        parent_dir(p) is None,
    decreases p.len(),
{
    if p.len() > 0 {
        lemma_norm_path_no_slash(p.drop_last());
        assert(norm_path(p.drop_last()).push(p.last()) =~= p);
    }
}

pub proof fn lemma_norm_path_after_last_slash(p: Seq<char>, s: int)
    requires
        0 <= s < p.len(),
        p[s] == '/',
        forall|k: int| s < k < p.len() ==> p[k] != '/',
    ensures
        norm_path(p) == p.skip(s + 1),
        parent_dir(p) == Some(norm_path(p.take(s))),
    decreases p.len(),
{
    if s == p.len() - 1 {
        assert(p.last() == '/');
        assert(p.skip(s + 1) =~= Seq::<char>::empty());
        assert(p.take(s) =~= p.drop_last());
    } else {
        assert(p.last() != '/');
        lemma_norm_path_after_last_slash(p.drop_last(), s);
        assert(p.drop_last().take(s) =~= p.take(s));
        assert(p.drop_last().skip(s + 1).push(p.last()) =~= p.skip(s + 1));
    }
}

/// Finds the position just past the last `'/'` of `p`, or 0 when none occurs,
/// so that the file name is the suffix from that position.
fn scan_last_slash(p: &str) -> (r: Option<usize>)
    ensures
        match r {
            Some(s) => s < p@.len() && p@[s as int] == '/' && forall|k: int|
                s < k < p@.len() ==> p@[k] != '/',
            None => forall|k: int| 0 <= k < p@.len() ==> p@[k] != '/',
        },
{
    let n = p.unicode_len();
    let mut last: Option<usize> = None;
    let mut i: usize = 0;
    while i < n
        invariant
            i <= n,
            n == p@.len(),
            match last {
                Some(s) => s < i && p@[s as int] == '/' && forall|k: int|
                    s < k < i ==> p@[k] != '/',
                None => forall|k: int| 0 <= k < i ==> p@[k] != '/',
            },
        decreases n - i,
    {
        if p.get_char(i) == '/' {
            last = Some(i);
        }
        i = i + 1;
    }
    last
}

/// The normalized identity of a path: its final segment (file name).
pub fn file_name(p: &str) -> (r: String)
    ensures
        r@ == norm_path(p@),
{
    let n = p.unicode_len();
    match scan_last_slash(p) {
        None => {
            proof {
                lemma_norm_path_no_slash(p@);
            }
            p.to_owned()
        },
        Some(s) => {
            proof {
                lemma_norm_path_after_last_slash(p@, s as int);
            }
            let r = p.substring_char(s + 1, n);
            proof {
                assert(r@ =~= p@.skip(s + 1));
            }
            r.to_owned()
        },
    }
}

/// The name of the directory directly holding the file named by the relative
/// path `p`, or nothing when `p` has no directory part.
pub fn parent_dir_name(p: &str) -> (r: Option<String>)
    ensures
        match r {
            Some(d) => parent_dir(p@) == Some(d@),
            None => parent_dir(p@) is None,
        },
{
    match scan_last_slash(p) {
        None => {
            proof {
                lemma_norm_path_no_slash(p@);
            }
            None
        },
        Some(s) => {
            proof {
                lemma_norm_path_after_last_slash(p@, s as int);
            }
            let prefix = p.substring_char(0, s);
            proof {
                assert(prefix@ =~= p@.take(s as int));
            }
            Some(file_name(prefix))
        },
    }
}

/// Whether a path names a recognized document: its file name ends in `".md"`
/// with a non-empty stem.
pub open spec fn is_doc_name(p: Seq<char>) -> bool {
    let f = norm_path(p);
    f.len() >= 4 && f[f.len() - 3] == '.' && f[f.len() - 2] == 'm' && f[f.len() - 1] == 'd'
}

/// Decides whether a path names a recognized document file.
pub fn is_document_path(p: &str) -> (r: bool)
    ensures
        r == is_doc_name(p@),
{
    let f = file_name(p);
    let n = f.as_str().unicode_len();
    if n < 4 {
        return false;
    }
    let c1 = f.as_str().get_char(n - 3);
    let c2 = f.as_str().get_char(n - 2);
    let c3 = f.as_str().get_char(n - 1);
    c1 == '.' && c2 == 'm' && c3 == 'd'
}


} // verus!
