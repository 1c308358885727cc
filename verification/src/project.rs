//! Project scanning and the sibling-path rules for writes and backups.
//!
//! A scan of the project directory yields the relative paths of its
//! regular files; this module decides which of them are chapters,
//! builds their metadata, and orders the listing. It also computes the
//! sibling paths the write protocol uses: the temporary file an atomic
//! write goes through, and the backup path.
//!
//! Paths are treated as Unix-style strings with `/` separating
//! components; a file name's extension is the part after the last dot,
//! unless that dot is the first character of the name.

use vstd::prelude::*;

use crate::text::{lemma_match_in_segment, lower_char, match_at, match_at_x};

verus! {

/// Position right after the last `/` of `p`: where its file name starts.
pub open spec fn last_slash_end(p: Seq<char>) -> int
    decreases p.len(),
{
    if p.len() == 0 {
        0
    } else if p[p.len() - 1] == '/' {
        p.len() as int
    } else {
        last_slash_end(p.drop_last())
    }
}

/// The file-name start lies within the path.
pub proof fn lemma_last_slash_end_range(p: Seq<char>)
    ensures
        0 <= last_slash_end(p) <= p.len(),
    decreases p.len(),
{
    if p.len() > 0 && p[p.len() - 1] != '/' {
        lemma_last_slash_end_range(p.drop_last());
    }
}

/// Position right after the last `/` of `p`.
pub fn last_slash_end_x(p: &str) -> (r: usize)
    ensures
        r == last_slash_end(p@),
        r <= p@.len(),
{
    let n = p.unicode_len();
    proof {
        assert(p@.subrange(0, n as int) =~= p@);
    }
    let mut i = n;
    while i > 0
        invariant
            n == p@.len(),
            i <= n,
            last_slash_end(p@) == last_slash_end(p@.subrange(0, i as int)),
        decreases i,
    {
        let c = p.get_char(i - 1);
        proof {
            assert(p@.subrange(0, i as int).drop_last() =~= p@.subrange(0, i - 1));
        }
        if c == '/' {
            proof {
                lemma_last_slash_end_range(p@);
            }
            return i;
        }
        i -= 1;
    }
    proof {
        assert(p@.subrange(0, 0) =~= Seq::<char>::empty());
        lemma_last_slash_end_range(p@);
    }
    0
}

/// The last position at or after `lo` where `p` holds a dot, if any.
pub open spec fn last_dot_after(p: Seq<char>, lo: int) -> Option<int>
    decreases p.len(),
{
    if p.len() == 0 {
        None
    } else if p[p.len() - 1] == '.' && p.len() - 1 >= lo {
        Some(p.len() - 1)
    } else {
        last_dot_after(p.drop_last(), lo)
    }
}

/// What a found dot position means: it holds a dot, lies at or after
/// `lo`, and no later position holds one.
pub proof fn lemma_last_dot_props(p: Seq<char>, lo: int, ld: int)
    requires
        last_dot_after(p, lo) == Some(ld),
    ensures
        0 <= ld,
        lo <= ld < p.len(),
        p[ld] == '.',
        forall|t: int| ld < t < p.len() ==> p[t] != '.',
    decreases p.len(),
{
    if p.len() == 0 {
    } else if p[p.len() - 1] == '.' && p.len() - 1 >= lo {
    } else {
        let q = p.drop_last();
        lemma_last_dot_props(q, lo, ld);
        assert(p[ld] == q[ld]);
        assert forall|t: int| ld < t < p.len() implies p[t] != '.' by {
            if t < p.len() - 1 {
                assert(p[t] == q[t]);
            } else {
                assert(!(p[t] == '.' && t >= lo));
            }
        }
    }
}

/// A dot with no later dot is what the search returns.
pub proof fn lemma_last_dot_found(p: Seq<char>, lo: int, ld: int)
    requires
        0 <= ld,
        lo <= ld < p.len(),
        p[ld] == '.',
        forall|t: int| ld < t < p.len() ==> p[t] != '.',
    ensures
        last_dot_after(p, lo) == Some(ld),
    decreases p.len(),
{
    if ld == p.len() - 1 {
    } else {
        let q = p.drop_last();
        assert(p[p.len() - 1] != '.');
        assert(q[ld] == p[ld]);
        assert forall|t: int| ld < t < q.len() implies q[t] != '.' by {
            assert(q[t] == p[t]);
        }
        lemma_last_dot_found(q, lo, ld);
    }
}

/// With no dot at or after `lo`, the search fails.
pub proof fn lemma_last_dot_none(p: Seq<char>, lo: int)
    requires
        forall|t: int| 0 <= t < p.len() && t >= lo ==> p[t] != '.',
    ensures
        last_dot_after(p, lo) is None,
    decreases p.len(),
{
    if p.len() > 0 {
        let q = p.drop_last();
        assert forall|t: int| 0 <= t < q.len() && t >= lo implies q[t] != '.' by {
            assert(q[t] == p[t]);
        }
        lemma_last_dot_none(q, lo);
    }
}

/// The last dot of the file name of `p`, excluding a dot that starts
/// the name, if any.
pub fn last_dot_in_name(p: &str) -> (r: Option<usize>)
    ensures
        match r {
            Some(ld) => last_dot_after(p@, last_slash_end(p@) + 1) == Some(ld as int),
            None => last_dot_after(p@, last_slash_end(p@) + 1) is None,
        },
{
    let n = p.unicode_len();
    let cs = last_slash_end_x(p);
    let mut i = n;
    while i > cs
        invariant
            n == p@.len(),
            cs == last_slash_end(p@),
            cs <= i <= n,
            forall|t: int| i <= t < n ==> p@[t] != '.',
        decreases i,
    {
        let c = p.get_char(i - 1);
        if c == '.' {
            if i - 1 > cs {
                proof {
                    lemma_last_dot_found(p@, cs + 1, i - 1);
                }
                return Some(i - 1);
            }
            proof {
                lemma_last_dot_none(p@, cs + 1);
            }
            return None;
        }
        i -= 1;
    }
    proof {
        lemma_last_dot_none(p@, cs + 1);
    }
    None
}

/// The `html` extension, lowercase.
pub open spec fn html_ext() -> Seq<char> {
    seq!['h', 't', 'm', 'l']
}

/// The `htm` extension, lowercase.
pub open spec fn htm_ext() -> Seq<char> {
    seq!['h', 't', 'm']
}

/// `s` equals the lowercase `pat` after lowercasing.
pub open spec fn eq_ci(s: Seq<char>, pat: Seq<char>) -> bool {
    s.len() == pat.len() && match_at(s, pat, 0)
}

/// `p` names a chapter file: its extension, compared
/// case-insensitively, is exactly `html` or `htm`.
pub open spec fn is_html_rel(p: Seq<char>) -> bool {
    match last_dot_after(p, last_slash_end(p) + 1) {
        Some(ld) => {
            let ext = p.subrange(ld + 1, p.len() as int);
            eq_ci(ext, html_ext()) || eq_ci(ext, htm_ext())
        },
        None => false,
    }
}

/// The views of the string literals this module works with.
proof fn lemma_project_literals()
    ensures
        "html"@ == html_ext(),
        "htm"@ == htm_ext(),
        "/"@ == seq!['/'],
        "unknown"@ == unknown_name(),
{
    reveal_strlit("html");
    reveal_strlit("htm");
    reveal_strlit("/");
    reveal_strlit("unknown");
    assert("html"@ =~= html_ext());
    assert("htm"@ =~= htm_ext());
    assert("/"@ =~= seq!['/']);
    assert("unknown"@ =~= unknown_name());
}

/// The stand-in name for a path without a file name.
pub open spec fn unknown_name() -> Seq<char> {
    seq!['u', 'n', 'k', 'n', 'o', 'w', 'n']
}

/// Whether `p` names a chapter file.
pub fn is_html_path(p: &str) -> (r: bool)
    ensures
        r == is_html_rel(p@),
{
    proof {
        lemma_project_literals();
    }
    let n = p.unicode_len();
    let ld = match last_dot_in_name(p) {
        Some(ld) => ld,
        None => {
            return false;
        },
    };
    proof {
        lemma_last_dot_props(p@, last_slash_end(p@) + 1, ld as int);
        assert(p@.subrange(ld + 1, n as int).subrange(
            0,
            (n - ld - 1) as int,
        ) =~= p@.subrange(ld + 1, n as int));
    }
    let ext_len = n - ld - 1;
    let ghost ext = p@.subrange(ld + 1, n as int);
    if ext_len == 4 {
        let r = match_at_x(p, "html", ld + 1);
        proof {
            lemma_match_in_segment(p@, ext, ld + 1, html_ext(), ld + 1);
        }
        r
    } else if ext_len == 3 {
        let r = match_at_x(p, "htm", ld + 1);
        proof {
            lemma_match_in_segment(p@, ext, ld + 1, htm_ext(), ld + 1);
        }
        r
    } else {
        false
    }
}

/// Lexicographic order on character sequences, by code point.
pub open spec fn lex_le(a: Seq<char>, b: Seq<char>) -> bool
    decreases a.len(),
{
    if a.len() == 0 {
        true
    } else if b.len() == 0 {
        false
    } else if a[0] != b[0] {
        a[0] < b[0]
    } else {
        lex_le(a.drop_first(), b.drop_first())
    }
}

/// Any two sequences are ordered one way or the other.
pub proof fn lemma_lex_total(a: Seq<char>, b: Seq<char>)
    ensures
        lex_le(a, b) || lex_le(b, a),
    decreases a.len(),
{
    if a.len() > 0 && b.len() > 0 && a[0] == b[0] {
        lemma_lex_total(a.drop_first(), b.drop_first());
    }
}

/// The order is transitive.
pub proof fn lemma_lex_trans(a: Seq<char>, b: Seq<char>, c: Seq<char>)
    requires
        lex_le(a, b),
        lex_le(b, c),
    ensures
        lex_le(a, c),
    decreases a.len(),
{
    if a.len() == 0 {
    } else if b.len() == 0 {
    } else if c.len() == 0 {
    } else if a[0] == b[0] && b[0] == c[0] {
        lemma_lex_trans(a.drop_first(), b.drop_first(), c.drop_first());
    }
}

/// Whether `a` is at or before `b` in lexicographic order.
pub fn str_le(a: &str, b: &str) -> (r: bool)
    ensures
        r == lex_le(a@, b@),
{
    let an = a.unicode_len();
    let bn = b.unicode_len();
    proof {
        assert(a@.subrange(0, an as int) =~= a@);
        assert(b@.subrange(0, bn as int) =~= b@);
    }
    let mut i: usize = 0;
    while i < an && i < bn
        invariant
            an == a@.len(),
            bn == b@.len(),
            i <= an,
            i <= bn,
            lex_le(a@, b@) == lex_le(
                a@.subrange(i as int, an as int),
                b@.subrange(i as int, bn as int),
            ),
        decreases an - i,
    {
        let ca = a.get_char(i);
        let cb = b.get_char(i);
        proof {
            let sa = a@.subrange(i as int, an as int);
            let sb = b@.subrange(i as int, bn as int);
            assert(sa[0] == a@[i as int]);
            assert(sb[0] == b@[i as int]);
            assert(sa.drop_first() =~= a@.subrange(i + 1, an as int));
            assert(sb.drop_first() =~= b@.subrange(i + 1, bn as int));
        }
        if ca != cb {
            return ca < cb;
        }
        i += 1;
    }
    an <= bn
}

/// Metadata for a chapter file.
#[derive(Debug, Clone)]
pub struct ChapterMeta {
    pub filename: String,
    pub path: String,
    /// Relative path from the project root (includes subdirectory).
    pub relative_path: String,
}

/// The file name of `p`: everything after its last `/`.
pub open spec fn file_name_spec(p: Seq<char>) -> Seq<char> {
    p.subrange(last_slash_end(p), p.len() as int)
}

/// `root` and `rel` joined with a single `/`, unless `root` is empty
/// or already ends with one.
pub open spec fn join_path(root: Seq<char>, rel: Seq<char>) -> Seq<char> {
    if root.len() == 0 {
        rel
    } else if root[root.len() - 1] == '/' {
        root + rel
    } else {
        root + seq!['/'] + rel
    }
}

/// A listing entry is well formed for its root: it names a chapter
/// file, and its fields are derived from its relative path.
pub open spec fn meta_wf(m: ChapterMeta, root: Seq<char>) -> bool {
    &&& is_html_rel(m.relative_path@)
    &&& m.filename@ == file_name_spec(m.relative_path@)
    &&& m.path@ == join_path(root, m.relative_path@)
}

/// The relative paths of a listing.
pub open spec fn rel_paths(ms: Seq<ChapterMeta>) -> Seq<Seq<char>> {
    ms.map_values(|m: ChapterMeta| m.relative_path@)
}

/// The views of a sequence of strings.
pub open spec fn views_of(es: Seq<String>) -> Seq<Seq<char>> {
    es.map_values(|e: String| e@)
}

/// The subsequence of `es` that names chapter files, in order.
pub open spec fn html_entries(es: Seq<Seq<char>>) -> Seq<Seq<char>>
    decreases es.len(),
{
    if es.len() == 0 {
        Seq::<Seq<char>>::empty()
    } else if is_html_rel(es.last()) {
        html_entries(es.drop_last()).push(es.last())
    } else {
        html_entries(es.drop_last())
    }
}

/// A listing is sorted by relative path.
pub open spec fn sorted_metas(ms: Seq<ChapterMeta>) -> bool {
    forall|i: int, j: int|
        0 <= i < j < ms.len() ==> #[trigger] lex_le(ms[i].relative_path@, ms[j].relative_path@)
}

/// The file name of `p`, owned.
pub fn file_name_x(p: &str) -> (r: String)
    ensures
        r@ == file_name_spec(p@),
{
    let n = p.unicode_len();
    let cs = last_slash_end_x(p);
    String::from_str(p.substring_char(cs, n))
}

/// `root` and `rel` joined with a single `/`.
pub fn join_path_x(root: &str, rel: &str) -> (r: String)
    ensures
        r@ == join_path(root@, rel@),
{
    proof {
        lemma_project_literals();
    }
    let n = root.unicode_len();
    if n == 0 {
        return String::from_str(rel);
    }
    let mut s = String::from_str(root);
    if root.get_char(n - 1) != '/' {
        s.append("/");
    }
    s.append(rel);
    s
}

/// Build the listing entry for one relative path.
fn make_meta(root: &str, rel: &String) -> (m: ChapterMeta)
    requires
        is_html_rel(rel@),
    ensures
        meta_wf(m, root@),
        m.relative_path@ == rel@,
{
    ChapterMeta {
        filename: file_name_x(rel.as_str()),
        path: join_path_x(root, rel.as_str()),
        relative_path: rel.clone(),
    }
}

/// List the chapter files among the given relative paths of a
/// directory tree, sorted by relative path so chapters group by folder
/// then file name.
///
/// `entries` holds the relative paths of the regular files under the
/// project root, in any order; the result keeps exactly those whose
/// extension is `html` or `htm`, case-insensitively, each with its
/// file name and its path under `root`.
pub fn list_html_files(root: &str, entries: &Vec<String>) -> (r: Vec<ChapterMeta>)
    ensures
        sorted_metas(r@),
        forall|i: int| 0 <= i < r@.len() ==> meta_wf(#[trigger] r@[i], root@),
        rel_paths(r@).to_multiset() == html_entries(views_of(entries@)).to_multiset(),
{
    let mut out: Vec<ChapterMeta> = Vec::new();
    proof {
        broadcast use vstd::seq_lib::group_to_multiset_ensures;

        assert(views_of(entries@.subrange(0, 0)) =~= Seq::<Seq<char>>::empty());
        assert(rel_paths(out@) =~= Seq::<Seq<char>>::empty());
    }
    let mut i: usize = 0;
    while i < entries.len()
        invariant
            i <= entries@.len(),
            sorted_metas(out@),
            forall|t: int| 0 <= t < out@.len() ==> meta_wf(#[trigger] out@[t], root@),
            rel_paths(out@).to_multiset() == html_entries(
                views_of(entries@.subrange(0, i as int)),
            ).to_multiset(),
        decreases entries@.len() - i,
    {
        let ghost prev = out@;
        let e = &entries[i];
        if is_html_path(e.as_str()) {
            let m = make_meta(root, e);
            let mut p: usize = 0;
            while p < out.len() && str_le(out[p].relative_path.as_str(), m.relative_path.as_str())
                invariant
                    p <= out@.len(),
                    forall|t: int|
                        0 <= t < p ==> lex_le(
                            #[trigger] out@[t].relative_path@,
                            m.relative_path@,
                        ),
                decreases out@.len() - p,
            {
                p += 1;
            }
            proof {
                if p < out@.len() {
                    lemma_lex_total(out@[p as int].relative_path@, m.relative_path@);
                }
            }
            out.insert(p, m);
            proof {
                broadcast use vstd::seq_lib::group_to_multiset_ensures;

                prev.insert_ensures(p as int, m);
                assert forall|j: int|
                    p <= j < prev.len() implies lex_le(
                    m.relative_path@,
                    #[trigger] prev[j].relative_path@,
                ) by {
                    if j > p {
                        assert(lex_le(prev[p as int].relative_path@, prev[j].relative_path@));
                        lemma_lex_trans(
                            m.relative_path@,
                            prev[p as int].relative_path@,
                            prev[j].relative_path@,
                        );
                    }
                }
                assert forall|x: int, y: int|
                    0 <= x < y < out@.len() implies #[trigger] lex_le(
                    out@[x].relative_path@,
                    out@[y].relative_path@,
                ) by {
                    if y < p {
                        assert(out@[x] == prev[x] && out@[y] == prev[y]);
                        assert(lex_le(prev[x].relative_path@, prev[y].relative_path@));
                    } else if y == p {
                        assert(out@[x] == prev[x]);
                        assert(lex_le(prev[x].relative_path@, m.relative_path@));
                    } else if x == p {
                        assert(out@[y] == prev[y - 1]);
                        assert(lex_le(m.relative_path@, prev[y - 1].relative_path@));
                    } else if x < p {
                        assert(out@[x] == prev[x] && out@[y] == prev[y - 1]);
                        assert(lex_le(prev[x].relative_path@, m.relative_path@));
                        assert(lex_le(m.relative_path@, prev[y - 1].relative_path@));
                        lemma_lex_trans(
                            prev[x].relative_path@,
                            m.relative_path@,
                            prev[y - 1].relative_path@,
                        );
                    } else {
                        assert(out@[x] == prev[x - 1] && out@[y] == prev[y - 1]);
                        assert(lex_le(prev[x - 1].relative_path@, prev[y - 1].relative_path@));
                    }
                }
                // the inserted listing holds the same paths plus the new one
                let front = prev.subrange(0, p as int);
                let back = prev.subrange(p as int, prev.len() as int);
                assert(prev =~= front + back);
                assert(rel_paths(out@) =~= rel_paths(front).push(m.relative_path@) + rel_paths(
                    back,
                ));
                assert(rel_paths(prev) =~= rel_paths(front) + rel_paths(back));
                vstd::seq_lib::lemma_multiset_commutative(rel_paths(front), rel_paths(back));
                vstd::seq_lib::lemma_multiset_commutative(
                    rel_paths(front).push(m.relative_path@),
                    rel_paths(back),
                );
                assert(rel_paths(out@).to_multiset() =~= rel_paths(prev).to_multiset().insert(
                    m.relative_path@,
                ));
            }
        }
        proof {
            broadcast use vstd::seq_lib::group_to_multiset_ensures;

            let pv = views_of(entries@.subrange(0, i as int));
            let cv = views_of(entries@.subrange(0, i + 1));
            assert(cv.drop_last() =~= pv);
            assert(cv.last() == entries@[i as int]@);
        }
        i += 1;
    }
    proof {
        assert(entries@.subrange(0, entries@.len() as int) =~= entries@);
    }
    out
}

/// The view of an optional string.
pub open spec fn opt_view(o: Option<String>) -> Option<Seq<char>> {
    match o {
        Some(s) => Some(s@),
        None => None,
    }
}

/// The views of a sequence of optional strings.
pub open spec fn opt_views(rs: Seq<Option<String>>) -> Seq<Option<Seq<char>>> {
    rs.map_values(|o: Option<String>| opt_view(o))
}

/// The first present value, or empty when none is.
pub open spec fn first_some(rs: Seq<Option<Seq<char>>>) -> Seq<char>
    decreases rs.len(),
{
    if rs.len() == 0 {
        Seq::<char>::empty()
    } else {
        match rs.first() {
            Some(c) => c,
            None => first_some(rs.drop_first()),
        }
    }
}

/// The fixed candidate locations of the shared stylesheet, relative to
/// the project root, in probe order.
pub fn css_candidates() -> (r: Vec<String>)
    ensures
        r@.len() == 5,
        r@[0]@ == "book.css"@,
        r@[1]@ == "style.css"@,
        r@[2]@ == "styles.css"@,
        r@[3]@ == "css/book.css"@,
        r@[4]@ == "styles/book.css"@,
{
    let mut v: Vec<String> = Vec::new();
    v.push(String::from_str("book.css"));
    v.push(String::from_str("style.css"));
    v.push(String::from_str("styles.css"));
    v.push(String::from_str("css/book.css"));
    v.push(String::from_str("styles/book.css"));
    v
}

/// Choose the shared stylesheet content from the outcome of reading
/// each candidate location, in probe order: the first content that
/// could be read, or the empty string when none could. Absence is not
/// an error.
pub fn read_css(reads: &Vec<Option<String>>) -> (r: String)
    ensures
        r@ == first_some(opt_views(reads@)),
{
    let ghost mapped = opt_views(reads@);
    proof {
        assert(mapped.subrange(0, mapped.len() as int) =~= mapped);
    }
    let mut i: usize = 0;
    while i < reads.len()
        invariant
            i <= reads@.len(),
            mapped == opt_views(reads@),
            first_some(mapped) == first_some(mapped.subrange(i as int, mapped.len() as int)),
        decreases reads@.len() - i,
    {
        let o = &reads[i];
        proof {
            let sub = mapped.subrange(i as int, mapped.len() as int);
            assert(sub.first() == mapped[i as int]);
            assert(mapped[i as int] == opt_view(reads@[i as int]));
            assert(sub.drop_first() =~= mapped.subrange(i + 1, mapped.len() as int));
        }
        match o {
            Some(s) => {
                return s.clone();
            },
            None => {},
        }
        i += 1;
    }
    String::new()
}

/// `p` with its extension replaced: everything from the last dot of
/// its file name on is cut (a dot that starts the name stays), and a
/// dot and `ext` are appended.
pub open spec fn replace_ext(p: Seq<char>, ext: Seq<char>) -> Seq<char> {
    let base = match last_dot_after(p, last_slash_end(p) + 1) {
        Some(ld) => p.subrange(0, ld),
        None => p,
    };
    base + seq!['.'] + ext
}

/// The extension given to the temporary file of an atomic write.
pub open spec fn tmp_ext() -> Seq<char> {
    seq!['h', 't', 'm', 'l', '.', 't', 'm', 'p']
}

/// The extension given to a backup copy.
pub open spec fn bak_ext() -> Seq<char> {
    seq!['h', 't', 'm', 'l', '.', 'b', 'a', 'k']
}

/// `p` with its extension replaced by `ext`.
fn replace_ext_x(p: &str, ext: &str) -> (r: String)
    ensures
        r@ == replace_ext(p@, ext@),
{
    proof {
        reveal_strlit(".");
        assert("."@ =~= seq!['.']);
    }
    let n = p.unicode_len();
    let base_end = match last_dot_in_name(p) {
        Some(ld) => {
            proof {
                lemma_last_dot_props(p@, last_slash_end(p@) + 1, ld as int);
            }
            ld
        },
        None => {
            proof {
                assert(p@.subrange(0, n as int) =~= p@);
            }
            n
        },
    };
    let mut s = String::from_str(p.substring_char(0, base_end));
    s.append(".");
    s.append(ext);
    s
}

/// The sibling path an atomic write stages its content at, before the
/// rename over the target.
pub fn tmp_path_for(path: &str) -> (r: String)
    ensures
        r@ == replace_ext(path@, tmp_ext()),
{
    proof {
        reveal_strlit("html.tmp");
        assert("html.tmp"@ =~= tmp_ext());
    }
    replace_ext_x(path, "html.tmp")
}

/// The sibling path a backup copy is written to.
pub fn backup_path_for(path: &str) -> (r: String)
    ensures
        r@ == replace_ext(path@, bak_ext()),
{
    proof {
        reveal_strlit("html.bak");
        assert("html.bak"@ =~= bak_ext());
    }
    replace_ext_x(path, "html.bak")
}

/// Replacing the extension never yields the path itself when the new
/// extension holds a dot at position `di`: the cut point was the last
/// dot of the file name, and the result has a later one.
pub proof fn lemma_replace_ext_differs(p: Seq<char>, ext: Seq<char>, di: int)
    requires
        0 <= di < ext.len(),
        ext[di] == '.',
    ensures
        replace_ext(p, ext) != p,
{
    let r = replace_ext(p, ext);
    match last_dot_after(p, last_slash_end(p) + 1) {
        Some(ld) => {
            lemma_last_dot_props(p, last_slash_end(p) + 1, ld);
            if r == p {
                assert(r[ld + 1 + di] == ext[di]);
                assert(p[ld + 1 + di] != '.');
            }
        },
        None => {
            assert(r.len() == p.len() + 1 + ext.len());
        },
    }
}

/// The temporary file of an atomic write is never the target itself:
/// writing it, and a failed rename after it, leave the target's
/// content untouched.
pub proof fn lemma_tmp_path_differs(p: Seq<char>)
    ensures
        replace_ext(p, tmp_ext()) != p,
{
    lemma_replace_ext_differs(p, tmp_ext(), 4);
}

/// The backup copy of a chapter is never the chapter itself.
pub proof fn lemma_backup_path_differs(p: Seq<char>)
    ensures
        replace_ext(p, bak_ext()) != p,
{
    lemma_replace_ext_differs(p, bak_ext(), 4);
}

} // verus!
