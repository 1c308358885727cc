//! Splitting an HTML document into doctype, head and body parts, and
//! reassembling edited parts into a full document.
//!
//! Extraction slices the original text so that the returned parts are
//! byte-identical to their source spans; nothing is re-serialized or
//! normalized. Tag markers are matched on the literal substrings
//! `<head`, `</head>`, `<body>` and so on, case-insensitively. This is
//! a deliberate simplification: a custom element whose name merely
//! starts with a target tag name (say `<headless-x>`) is matched too.
//! That limitation is part of the library's documented behaviour and is
//! kept as it is.

use vstd::prelude::*;

use crate::text::{
    first_match_from, lemma_first_match_found, lemma_first_match_some, lemma_lower_fixed,
    lemma_match_in_segment, lemma_no_cross, lower_char, match_at, no_match_in, find_from,
};

verus! {

/// The marker that opens a doctype declaration, lowercase.
pub open spec fn doctype_pat() -> Seq<char> {
    seq!['<', '!', 'd', 'o', 'c', 't', 'y', 'p', 'e']
}

/// The marker that opens an `html` tag, lowercase.
pub open spec fn html_pat() -> Seq<char> {
    seq!['<', 'h', 't', 'm', 'l']
}

/// The name of the `head` tag.
pub open spec fn head_tag() -> Seq<char> {
    seq!['h', 'e', 'a', 'd']
}

/// The name of the `body` tag.
pub open spec fn body_tag() -> Seq<char> {
    seq!['b', 'o', 'd', 'y']
}

/// The marker that opens a `body` tag, lowercase.
pub open spec fn body_open_pat() -> Seq<char> {
    seq!['<'] + body_tag()
}

/// The marker that opens a `head` tag, lowercase.
pub open spec fn head_open_pat() -> Seq<char> {
    seq!['<'] + head_tag()
}

/// The tag that closes the head, lowercase.
pub open spec fn head_close_pat() -> Seq<char> {
    seq!['<', '/'] + head_tag() + seq!['>']
}

/// The tag that closes the body, lowercase.
pub open spec fn body_close_pat() -> Seq<char> {
    seq!['<', '/'] + body_tag() + seq!['>']
}

/// The single character that closes a tag.
pub open spec fn gt_pat() -> Seq<char> {
    seq!['>']
}

/// A single newline.
pub open spec fn nl_seq() -> Seq<char> {
    seq!['\n']
}

/// The fixed template text between the doctype and the head content.
pub open spec fn html_head_open() -> Seq<char> {
    seq!['<', 'h', 't', 'm', 'l', '>', '\n', '<', 'h', 'e', 'a', 'd', '>', '\n']
}

/// The fixed template text between the head content and the body content.
pub open spec fn head_body_sep() -> Seq<char> {
    seq!['<', '/', 'h', 'e', 'a', 'd', '>', '\n', '<', 'b', 'o', 'd', 'y', '>', '\n']
}

/// The fixed template text after the body content.
pub open spec fn doc_close() -> Seq<char> {
    seq!['<', '/', 'b', 'o', 'd', 'y', '>', '\n', '<', '/', 'h', 't', 'm', 'l', '>', '\n']
}

/// An input is a fragment when it contains neither an `<html` nor a
/// `<body` marker, case-insensitively.
pub open spec fn is_fragment_spec(s: Seq<char>) -> bool {
    first_match_from(s, html_pat(), 0) is None && first_match_from(s, body_open_pat(), 0) is None
}

/// The doctype declaration of `s`: from the first `<!doctype` marker
/// through the next `>`, or empty when either is absent.
pub open spec fn doctype_spec(s: Seq<char>) -> Seq<char> {
    match first_match_from(s, doctype_pat(), 0) {
        None => Seq::<char>::empty(),
        Some(start) => match first_match_from(s, gt_pat(), start) {
            None => Seq::<char>::empty(),
            Some(end) => s.subrange(start, end + 1),
        },
    }
}

/// The span of `s` strictly between the `>` that closes the first
/// `<tag ...>` opening and the first `</tag>` after it, or `None` when
/// the tags are not found in that order.
pub open spec fn between_tags_spec(s: Seq<char>, tag: Seq<char>) -> Option<Seq<char>> {
    let open = seq!['<'] + tag;
    let close = seq!['<', '/'] + tag + seq!['>'];
    match first_match_from(s, open, 0) {
        None => None,
        Some(o) => match first_match_from(s, gt_pat(), o) {
            None => None,
            Some(g) => match first_match_from(s, close, g + 1) {
                None => None,
                Some(c) => Some(s.subrange(g + 1, c)),
            },
        },
    }
}

/// The head content of a non-fragment input: the span between the
/// `head` tags, or empty when there is none.
pub open spec fn head_content_spec(s: Seq<char>) -> Seq<char> {
    match between_tags_spec(s, head_tag()) {
        Some(h) => h,
        None => Seq::<char>::empty(),
    }
}

/// What the inner markup of the `body` element is once scraper has
/// parsed the document: a function of the input text alone.
pub uninterp spec fn scraper_body_of(s: Seq<char>) -> Option<Seq<char>>;

/// The body content of a non-fragment input: the span between the
/// `body` tags; when slicing finds none, what scraper's tolerant parse
/// extracts; when that also fails, the whole input.
pub open spec fn body_content_ok(s: Seq<char>, b: Seq<char>) -> bool {
    match between_tags_spec(s, body_tag()) {
        Some(x) => b == x,
        None => match scraper_body_of(s) {
            Some(x) => b == x,
            None => b == s,
        },
    }
}

/// `s` with a newline appended unless it already ends with one.
pub open spec fn ensure_nl(s: Seq<char>) -> Seq<char> {
    if s.len() > 0 && s[s.len() - 1] == '\n' {
        s
    } else {
        s + nl_seq()
    }
}

/// The document that reassembly produces from the given parts.
pub open spec fn reassemble_spec(
    doctype: Seq<char>,
    head: Seq<char>,
    body: Seq<char>,
    is_fragment: bool,
) -> Seq<char> {
    if is_fragment {
        body
    } else {
        (if doctype.len() > 0 {
            doctype + nl_seq()
        } else {
            Seq::<char>::empty()
        }) + html_head_open() + ensure_nl(head) + head_body_sep() + ensure_nl(body) + doc_close()
    }
}

/// The views of the string literals the executable code works with,
/// written out as character sequences.
proof fn lemma_literal_views()
    ensures
        "<!doctype"@ == doctype_pat(),
        "<html"@ == html_pat(),
        "<body"@ == body_open_pat(),
        ">"@ == gt_pat(),
        "<"@ == seq!['<'],
        "</"@ == seq!['<', '/'],
        "head"@ == head_tag(),
        "body"@ == body_tag(),
        "\n"@ == nl_seq(),
        "<html>\n<head>\n"@ == html_head_open(),
        "</head>\n<body>\n"@ == head_body_sep(),
        "</body>\n</html>\n"@ == doc_close(),
{
    reveal_strlit("<!doctype");
    reveal_strlit("<html");
    reveal_strlit("<body");
    reveal_strlit(">");
    reveal_strlit("<");
    reveal_strlit("</");
    reveal_strlit("head");
    reveal_strlit("body");
    reveal_strlit("\n");
    reveal_strlit("<html>\n<head>\n");
    reveal_strlit("</head>\n<body>\n");
    reveal_strlit("</body>\n</html>\n");
    assert("<!doctype"@ =~= doctype_pat());
    assert("<html"@ =~= html_pat());
    assert("<body"@ =~= body_open_pat());
    assert(">"@ =~= gt_pat());
    assert("<"@ =~= seq!['<']);
    assert("</"@ =~= seq!['<', '/']);
    assert("head"@ =~= head_tag());
    assert("body"@ =~= body_tag());
    assert("\n"@ =~= nl_seq());
    assert("<html>\n<head>\n"@ =~= html_head_open());
    assert("</head>\n<body>\n"@ =~= head_body_sep());
    assert("</body>\n</html>\n"@ =~= doc_close());
}

/// Result of splitting an HTML document into its parts.
#[derive(Debug, Clone)]
pub struct SplitHtml {
    pub doctype: String,
    pub head_content: String,
    pub body_content: String,
    /// True if the source file was a fragment (no `<html>`/`<body>` wrapper).
    pub is_fragment: bool,
}

/// Extract the doctype declaration of `raw`, verbatim.
pub fn extract_doctype(raw: &str) -> (r: String)
    ensures
        r@ == doctype_spec(raw@),
{
    proof {
        lemma_literal_views();
    }
    let n = raw.unicode_len();
    match find_from(raw, "<!doctype", 0) {
        None => String::new(),
        Some(start) => match find_from(raw, ">", start) {
            None => String::new(),
            Some(end) => {
                proof {
                    lemma_first_match_some(raw@, gt_pat(), start as int, end as int);
                    assert(end + 1 <= n);
                }
                String::from_str(raw.substring_char(start, end + 1))
            },
        },
    }
}

/// Extract the content strictly between `<tag ...>` and `</tag>`,
/// verbatim and without normalization.
pub fn extract_between_tags(raw: &str, tag: &str) -> (r: Option<String>)
    ensures
        match r {
            Some(c) => between_tags_spec(raw@, tag@) == Some(c@),
            None => between_tags_spec(raw@, tag@) is None,
        },
{
    proof {
        lemma_literal_views();
    }
    let n = raw.unicode_len();
    let mut open_tag = String::from_str("<");
    open_tag.append(tag);
    let mut close_tag = String::from_str("</");
    close_tag.append(tag);
    close_tag.append(">");
    let o = match find_from(raw, open_tag.as_str(), 0) {
        Some(o) => o,
        None => {
            return None;
        },
    };
    let g = match find_from(raw, ">", o) {
        Some(g) => g,
        None => {
            return None;
        },
    };
    proof {
        lemma_first_match_some(raw@, gt_pat(), o as int, g as int);
        assert(g + 1 <= n);
    }
    let c = match find_from(raw, close_tag.as_str(), g + 1) {
        Some(c) => c,
        None => {
            return None;
        },
    };
    proof {
        lemma_first_match_some(raw@, seq!['<', '/'] + tag@ + seq!['>'], g + 1, c as int);
    }
    Some(String::from_str(raw.substring_char(g + 1, c)))
}

/// Relies on scraper's `Html::parse_document`, `Html::select` with the
/// fixed selector `body`, and `ElementRef::inner_html`: parsing a
/// document and serializing the body element's inner markup depend on
/// the input text alone. `Selector::parse` cannot fail on the constant
/// selector `body`.
#[verifier::external_body]
fn scraper_body(raw: &str) -> (r: Option<String>)
    ensures
        r is Some <==> scraper_body_of(raw@) is Some,
        r matches Some(b) ==> scraper_body_of(raw@) == Some(b@),
{
    let document = scraper::Html::parse_document(raw);
    let selector = scraper::Selector::parse("body").unwrap();
    match document.select(&selector).next() {
        Some(element) => Some(element.inner_html()),
        None => None,
    }
}

/// Split a full HTML document into doctype, head, and body parts.
///
/// An input with neither an `<html` nor a `<body` marker is a body-only
/// fragment and comes back unchanged as the body. Otherwise the parts
/// are sliced out of the original text; when slicing finds no body, a
/// tolerant parse of the whole document stands in, and when that also
/// fails the whole input is the body. Splitting never fails.
pub fn split_html(raw: &str) -> (r: SplitHtml)
    ensures
        r.is_fragment == is_fragment_spec(raw@),
        r.is_fragment ==> r.doctype@ == Seq::<char>::empty(),
        r.is_fragment ==> r.head_content@ == Seq::<char>::empty(),
        r.is_fragment ==> r.body_content@ == raw@,
        !r.is_fragment ==> r.doctype@ == doctype_spec(raw@),
        !r.is_fragment ==> r.head_content@ == head_content_spec(raw@),
        !r.is_fragment ==> body_content_ok(raw@, r.body_content@),
{
    proof {
        lemma_literal_views();
    }
    let html_found = match find_from(raw, "<html", 0) {
        Some(_) => true,
        None => false,
    };
    let body_found = match find_from(raw, "<body", 0) {
        Some(_) => true,
        None => false,
    };
    if !html_found && !body_found {
        return SplitHtml {
            doctype: String::new(),
            head_content: String::new(),
            body_content: String::from_str(raw),
            is_fragment: true,
        };
    }
    let doctype = extract_doctype(raw);
    let head_content = match extract_between_tags(raw, "head") {
        Some(h) => h,
        None => String::new(),
    };
    let body_content = match extract_between_tags(raw, "body") {
        Some(b) => b,
        None => match scraper_body(raw) {
            Some(b) => b,
            None => String::from_str(raw),
        },
    };
    SplitHtml { doctype, head_content, body_content, is_fragment: false }
}

/// Whether `s` ends with a newline.
fn ends_with_newline(s: &str) -> (r: bool)
    ensures
        r == (s@.len() > 0 && s@[s@.len() - 1] == '\n'),
{
    let n = s.unicode_len();
    if n == 0 {
        false
    } else {
        s.get_char(n - 1) == '\n'
    }
}

/// Reassemble a full HTML document from its parts.
///
/// A fragment is returned as its body, unchanged. Otherwise the parts
/// are laid into the fixed template: the doctype and a newline when the
/// doctype is non-empty, then `<html>`, the head between `head` tags,
/// and the body between `body` tags, each part given a trailing newline
/// when it lacks one. Attributes the original wrapper tags carried are
/// not restored; only their content is.
pub fn reassemble_html(doctype: &str, head: &str, body: &str, is_fragment: bool) -> (r: String)
    ensures
        r@ == reassemble_spec(doctype@, head@, body@, is_fragment),
{
    proof {
        lemma_literal_views();
    }
    if is_fragment {
        return String::from_str(body);
    }
    let mut result = String::new();
    if doctype.unicode_len() > 0 {
        result.append(doctype);
        result.append("\n");
    }
    result.append("<html>\n<head>\n");
    result.append(head);
    if !ends_with_newline(head) {
        result.append("\n");
    }
    result.append("</head>\n<body>\n");
    result.append(body);
    if !ends_with_newline(body) {
        result.append("\n");
    }
    result.append("</body>\n</html>\n");
    proof {
        assert(result@ =~= reassemble_spec(doctype@, head@, body@, is_fragment));
    }
    result
}

/// A fragment survives a round trip unchanged: splitting yields the
/// input itself as the body, and reassembling a fragment returns the
/// body as it is.
pub proof fn lemma_fragment_round_trip(x: Seq<char>)
    requires
        is_fragment_spec(x),
    ensures
        reassemble_spec(Seq::<char>::empty(), Seq::<char>::empty(), x, true) == x,
{
}

/// A doctype declaration in the shape the library recovers verbatim:
/// it starts with the `<!doctype` marker, its only `>` is its last
/// character, and its only `<` is its first.
pub open spec fn doctype_wf(d: Seq<char>) -> bool {
    &&& match_at(d, doctype_pat(), 0)
    &&& d[d.len() - 1] == '>'
    &&& forall|k: int| 0 <= k < d.len() - 1 ==> d[k] != '>'
    &&& forall|k: int| 1 <= k < d.len() ==> d[k] != '<'
}

/// The doctype part of the canonical template, with its newline.
spec fn canon_d1(d: Seq<char>) -> Seq<char> {
    if d.len() > 0 {
        d + nl_seq()
    } else {
        Seq::<char>::empty()
    }
}

/// The canonical template document, written as one concatenation.
spec fn canon_doc(d: Seq<char>, h: Seq<char>, b: Seq<char>) -> Seq<char> {
    canon_d1(d) + html_head_open() + ensure_nl(h) + head_body_sep() + ensure_nl(b) + doc_close()
}

/// Lengths of the tag markers, and two facts about their characters:
/// none holds a `<` after its first character, and none holds a
/// newline.
proof fn lemma_pat_facts()
    ensures
        doctype_pat().len() == 9,
        html_pat().len() == 5,
        head_open_pat().len() == 5,
        body_open_pat().len() == 5,
        head_close_pat().len() == 7,
        body_close_pat().len() == 7,
        gt_pat().len() == 1,
        forall|j: int| 1 <= j < 9 ==> #[trigger] doctype_pat()[j] != '<',
        forall|j: int| 1 <= j < 5 ==> #[trigger] html_pat()[j] != '<',
        forall|j: int| 1 <= j < 5 ==> #[trigger] head_open_pat()[j] != '<',
        forall|j: int| 1 <= j < 5 ==> #[trigger] body_open_pat()[j] != '<',
        forall|j: int| 1 <= j < 7 ==> #[trigger] head_close_pat()[j] != '<',
        forall|j: int| 1 <= j < 7 ==> #[trigger] body_close_pat()[j] != '<',
        forall|j: int| 0 <= j < 9 ==> #[trigger] doctype_pat()[j] != '\n',
        forall|j: int| 0 <= j < 5 ==> #[trigger] body_open_pat()[j] != '\n',
        forall|j: int| 0 <= j < 7 ==> #[trigger] head_close_pat()[j] != '\n',
        forall|j: int| 0 <= j < 7 ==> #[trigger] body_close_pat()[j] != '\n',
        html_head_open().len() == 14,
        head_body_sep().len() == 15,
        doc_close().len() == 16,
        doctype_pat()[0] == '<' && doctype_pat()[1] == '!',
        html_pat()[0] == '<' && html_pat()[1] == 'h',
        head_open_pat()[0] == '<' && head_open_pat()[1] == 'h' && head_open_pat()[2] == 'e',
        body_open_pat()[0] == '<' && body_open_pat()[1] == 'b',
        head_close_pat()[0] == '<' && head_close_pat()[1] == '/',
        body_close_pat()[0] == '<' && body_close_pat()[1] == '/',
        gt_pat()[0] == '>',
{
}

/// Appending the closing newline cannot create a match of a pattern
/// that holds no newline.
proof fn lemma_no_match_ensure_nl(s: Seq<char>, pat: Seq<char>)
    requires
        no_match_in(s, pat),
        pat.len() > 0,
        forall|j: int| 0 <= j < pat.len() ==> pat[j] != '\n',
    ensures
        no_match_in(ensure_nl(s), pat),
{
    let e = ensure_nl(s);
    if s.len() > 0 && s[s.len() - 1] == '\n' {
    } else {
        assert(e.subrange(0, s.len() as int) =~= s);
        assert forall|k: int| !match_at(e, pat, k) by {
            if 0 <= k && k + pat.len() <= e.len() {
                if k + pat.len() <= s.len() {
                    lemma_match_in_segment(e, s, 0, pat, k);
                } else {
                    if match_at(e, pat, k) {
                        let j = s.len() - k;
                        assert(e[s.len() as int] == '\n');
                        assert(lower_char(e[k + j]) == pat[j]);
                        lemma_lower_fixed(e[k + j], '\n');
                    }
                }
            }
        }
    }
}

/// The canonical template document is never taken for a fragment: it
/// holds an `<html` marker.
proof fn lemma_canon_not_fragment(d: Seq<char>, h: Seq<char>, b: Seq<char>)
    ensures
        !is_fragment_spec(canon_doc(d, h, b)),
{
    lemma_pat_facts();
    let doc = canon_doc(d, h, b);
    let a1 = canon_d1(d).len() as int;
    assert forall|j: int| 0 <= j < 5 implies lower_char(doc[a1 + j]) == html_pat()[j] by {
        assert(doc[a1 + j] == html_head_open()[j]);
    }
    assert(match_at(doc, html_pat(), a1));
    if first_match_from(doc, html_pat(), 0) is None {
        crate::text::lemma_first_match_none(doc, html_pat(), 0, a1);
    }
}

/// Splitting the canonical template document recovers the doctype
/// exactly.
proof fn lemma_canon_doctype(d: Seq<char>, h: Seq<char>, b: Seq<char>)
    requires
        d.len() == 0 || doctype_wf(d),
        d.len() == 0 ==> no_match_in(h, doctype_pat()) && no_match_in(b, doctype_pat()),
    ensures
        doctype_spec(canon_doc(d, h, b)) == d,
{
    lemma_pat_facts();
    let doc = canon_doc(d, h, b);
    let hh = ensure_nl(h);
    let bb = ensure_nl(b);
    let a1 = canon_d1(d).len() as int;
    let a2 = a1 + 14;
    let a3 = a2 + hh.len() as int;
    let a4 = a3 + 15;
    let a5 = a4 + bb.len() as int;
    let n = a5 + 16;
    assert(doc.len() == n);
    if d.len() > 0 {
        assert(match_at(d, doctype_pat(), 0));
        assert forall|j: int| 0 <= j < 9 implies lower_char(doc[0 + j]) == doctype_pat()[j] by {
            assert(doc[0 + j] == d[0 + j]);
            assert(lower_char(d[0 + j]) == doctype_pat()[j]);
        }
        assert(match_at(doc, doctype_pat(), 0));
        assert(first_match_from(doc, doctype_pat(), 0) == Some(0int));
        let e = d.len() - 1;
        assert forall|k: int| 0 <= k < e implies !match_at(doc, gt_pat(), k) by {
            assert(doc[k + 0] == d[k + 0]);
            lemma_lower_fixed(d[k + 0], '>');
            assert(lower_char(doc[k + 0]) != gt_pat()[0]);
        }
        assert(match_at(doc, gt_pat(), e as int)) by {
            assert(doc[e as int + 0] == d[e as int]);
        }
        lemma_first_match_found(doc, gt_pat(), 0, e as int);
        assert(doc.subrange(0, d.len() as int) =~= d);
    } else {
        assert(a1 == 0);
        assert(no_match_in(hh, doctype_pat())) by {
            lemma_no_match_ensure_nl(h, doctype_pat());
        }
        assert(no_match_in(bb, doctype_pat())) by {
            lemma_no_match_ensure_nl(b, doctype_pat());
        }
        assert(doc.subrange(a2, a3) =~= hh);
        assert(doc.subrange(a4, a5) =~= bb);
        assert forall|k: int| !match_at(doc, doctype_pat(), k) by {
            if 0 <= k && k + 9 <= n {
                if k < a2 {
                    let t = k - a1;
                    if t == 0 || t == 7 {
                        assert(doc[k + 1] == html_head_open()[t + 1]);
                        assert(lower_char(doc[k + 1]) != doctype_pat()[1]);
                    } else {
                        assert(doc[k + 0] == html_head_open()[t]);
                        lemma_lower_fixed(doc[k + 0], '<');
                        assert(lower_char(doc[k + 0]) != doctype_pat()[0]);
                    }
                } else if k < a3 {
                    if k + 9 <= a3 {
                        lemma_match_in_segment(doc, hh, a2, doctype_pat(), k);
                    } else {
                        assert(doc[a3] == head_body_sep()[0]);
                        lemma_no_cross(doc, doctype_pat(), a3, k);
                    }
                } else if k < a4 {
                    let t = k - a3;
                    if t == 0 || t == 8 {
                        assert(doc[k + 1] == head_body_sep()[t + 1]);
                        assert(lower_char(doc[k + 1]) != doctype_pat()[1]);
                    } else {
                        assert(doc[k + 0] == head_body_sep()[t]);
                        lemma_lower_fixed(doc[k + 0], '<');
                        assert(lower_char(doc[k + 0]) != doctype_pat()[0]);
                    }
                } else if k < a5 {
                    if k + 9 <= a5 {
                        lemma_match_in_segment(doc, bb, a4, doctype_pat(), k);
                    } else {
                        assert(doc[a5] == doc_close()[0]);
                        lemma_no_cross(doc, doctype_pat(), a5, k);
                    }
                } else {
                    let t = k - a5;
                    if t == 0 || t == 8 {
                        assert(doc[k + 1] == doc_close()[t + 1]);
                        assert(lower_char(doc[k + 1]) != doctype_pat()[1]);
                    } else {
                        assert(doc[k + 0] == doc_close()[t]);
                        lemma_lower_fixed(doc[k + 0], '<');
                        assert(lower_char(doc[k + 0]) != doctype_pat()[0]);
                    }
                }
            }
        }
        if first_match_from(doc, doctype_pat(), 0) is Some {
            let i = first_match_from(doc, doctype_pat(), 0)->0;
            lemma_first_match_some(doc, doctype_pat(), 0, i);
        }
        assert(doctype_spec(doc) =~= Seq::<char>::empty());
    }
}

/// No match of a five-character tag-open marker other than `<html`
/// starts in the doctype part of the canonical template document.
proof fn lemma_canon_d1_no_open(d: Seq<char>, h: Seq<char>, b: Seq<char>, pat: Seq<char>, k: int)
    requires
        d.len() == 0 || doctype_wf(d),
        0 <= k < canon_d1(d).len(),
        pat.len() >= 2,
        pat[0] == '<',
        pat[1] != '!',
    ensures
        !match_at(canon_doc(d, h, b), pat, k),
{
    lemma_pat_facts();
    let doc = canon_doc(d, h, b);
    if match_at(doc, pat, k) {
        if k == 0 {
            assert(lower_char(d[1]) == doctype_pat()[1]);
            lemma_lower_fixed(d[1], '!');
            assert(doc[k + 1] == d[1]);
            assert(lower_char(doc[k + 1]) == pat[1]);
        } else if k < d.len() {
            assert(doc[k + 0] == d[k + 0]);
            lemma_lower_fixed(d[k + 0], '<');
            assert(lower_char(doc[k + 0]) == pat[0]);
        } else {
            assert(doc[k + 0] == '\n');
            lemma_lower_fixed(doc[k + 0], '<');
            assert(lower_char(doc[k + 0]) == pat[0]);
        }
    }
}

/// Splitting the canonical template document recovers the head
/// content: the template's newline, then the head with a trailing
/// newline added when it lacked one.
proof fn lemma_canon_head(d: Seq<char>, h: Seq<char>, b: Seq<char>)
    requires
        d.len() == 0 || doctype_wf(d),
        no_match_in(h, head_close_pat()),
    ensures
        between_tags_spec(canon_doc(d, h, b), head_tag()) == Some(nl_seq() + ensure_nl(h)),
{
    lemma_pat_facts();
    let doc = canon_doc(d, h, b);
    let hh = ensure_nl(h);
    let bb = ensure_nl(b);
    let a1 = canon_d1(d).len() as int;
    let a2 = a1 + 14;
    let a3 = a2 + hh.len() as int;
    let a4 = a3 + 15;
    let a5 = a4 + bb.len() as int;
    let n = a5 + 16;
    assert(doc.len() == n);
    assert(doc.subrange(a2, a3) =~= hh);
    // the first `<head` marker stands in the template
    assert forall|k: int| 0 <= k < a1 + 7 implies !match_at(doc, head_open_pat(), k) by {
        if k < a1 {
            lemma_canon_d1_no_open(d, h, b, head_open_pat(), k);
        } else {
            let t = k - a1;
            if t == 0 {
                assert(doc[k + 2] == html_head_open()[2]);
                assert(lower_char(doc[k + 2]) != head_open_pat()[2]);
            } else {
                assert(doc[k + 0] == html_head_open()[t]);
                lemma_lower_fixed(doc[k + 0], '<');
                assert(lower_char(doc[k + 0]) != head_open_pat()[0]);
            }
        }
    }
    assert forall|j: int| 0 <= j < 5 implies lower_char(doc[(a1 + 7) + j]) == head_open_pat()[j] by {
        assert(doc[(a1 + 7) + j] == html_head_open()[7 + j]);
    }
    assert(match_at(doc, head_open_pat(), a1 + 7));
    lemma_first_match_found(doc, head_open_pat(), 0, a1 + 7);
    // the `>` that closes the `<head>` opening
    assert forall|k: int| a1 + 7 <= k < a1 + 12 implies !match_at(doc, gt_pat(), k) by {
        assert(doc[k + 0] == html_head_open()[k - a1]);
        lemma_lower_fixed(doc[k + 0], '>');
        assert(lower_char(doc[k + 0]) != gt_pat()[0]);
    }
    assert(match_at(doc, gt_pat(), a1 + 12)) by {
        assert(doc[(a1 + 12) + 0] == html_head_open()[12]);
    }
    lemma_first_match_found(doc, gt_pat(), a1 + 7, a1 + 12);
    // the first `</head>` after the content
    assert(no_match_in(hh, head_close_pat())) by {
        lemma_no_match_ensure_nl(h, head_close_pat());
    }
    assert forall|k: int| a1 + 13 <= k < a3 implies !match_at(doc, head_close_pat(), k) by {
        if k == a1 + 13 {
            assert(doc[k + 0] == html_head_open()[13]);
            lemma_lower_fixed(doc[k + 0], '<');
            assert(lower_char(doc[k + 0]) != head_close_pat()[0]);
        } else if k + 7 <= a3 {
            lemma_match_in_segment(doc, hh, a2, head_close_pat(), k);
        } else {
            assert(doc[a3] == head_body_sep()[0]);
            lemma_no_cross(doc, head_close_pat(), a3, k);
        }
    }
    assert forall|j: int| 0 <= j < 7 implies lower_char(doc[a3 + j]) == head_close_pat()[j] by {
        assert(doc[a3 + j] == head_body_sep()[j]);
    }
    assert(match_at(doc, head_close_pat(), a3));
    lemma_first_match_found(doc, head_close_pat(), a1 + 13, a3);
    assert(doc.subrange(a1 + 13, a3) =~= nl_seq() + hh) by {
        assert(doc[a1 + 13] == html_head_open()[13]);
    }
}

/// Splitting the canonical template document recovers the body
/// content: the template's newline, then the body with a trailing
/// newline added when it lacked one.
proof fn lemma_canon_body(d: Seq<char>, h: Seq<char>, b: Seq<char>)
    requires
        d.len() == 0 || doctype_wf(d),
        no_match_in(h, body_open_pat()),
        no_match_in(b, body_close_pat()),
    ensures
        between_tags_spec(canon_doc(d, h, b), body_tag()) == Some(nl_seq() + ensure_nl(b)),
{
    lemma_pat_facts();
    let doc = canon_doc(d, h, b);
    let hh = ensure_nl(h);
    let bb = ensure_nl(b);
    let a1 = canon_d1(d).len() as int;
    let a2 = a1 + 14;
    let a3 = a2 + hh.len() as int;
    let a4 = a3 + 15;
    let a5 = a4 + bb.len() as int;
    let n = a5 + 16;
    assert(doc.len() == n);
    assert(doc.subrange(a2, a3) =~= hh);
    assert(doc.subrange(a4, a5) =~= bb);
    // the first `<body` marker stands in the template
    assert(no_match_in(hh, body_open_pat())) by {
        lemma_no_match_ensure_nl(h, body_open_pat());
    }
    assert forall|k: int| 0 <= k < a3 + 8 implies !match_at(doc, body_open_pat(), k) by {
        if k < a1 {
            lemma_canon_d1_no_open(d, h, b, body_open_pat(), k);
        } else if k < a2 {
            let t = k - a1;
            if t == 0 || t == 7 {
                assert(doc[k + 1] == html_head_open()[t + 1]);
                assert(lower_char(doc[k + 1]) != body_open_pat()[1]);
            } else {
                assert(doc[k + 0] == html_head_open()[t]);
                lemma_lower_fixed(doc[k + 0], '<');
                assert(lower_char(doc[k + 0]) != body_open_pat()[0]);
            }
        } else if k < a3 {
            if k + 5 <= a3 {
                lemma_match_in_segment(doc, hh, a2, body_open_pat(), k);
            } else {
                assert(doc[a3] == head_body_sep()[0]);
                lemma_no_cross(doc, body_open_pat(), a3, k);
            }
        } else {
            let t = k - a3;
            if t == 0 {
                assert(doc[k + 1] == head_body_sep()[1]);
                assert(lower_char(doc[k + 1]) != body_open_pat()[1]);
            } else {
                assert(doc[k + 0] == head_body_sep()[t]);
                lemma_lower_fixed(doc[k + 0], '<');
                assert(lower_char(doc[k + 0]) != body_open_pat()[0]);
            }
        }
    }
    assert forall|j: int| 0 <= j < 5 implies lower_char(doc[(a3 + 8) + j]) == body_open_pat()[j] by {
        assert(doc[(a3 + 8) + j] == head_body_sep()[8 + j]);
    }
    assert(match_at(doc, body_open_pat(), a3 + 8));
    lemma_first_match_found(doc, body_open_pat(), 0, a3 + 8);
    // the `>` that closes the `<body>` opening
    assert forall|k: int| a3 + 8 <= k < a3 + 13 implies !match_at(doc, gt_pat(), k) by {
        assert(doc[k + 0] == head_body_sep()[k - a3]);
        lemma_lower_fixed(doc[k + 0], '>');
        assert(lower_char(doc[k + 0]) != gt_pat()[0]);
    }
    assert(match_at(doc, gt_pat(), a3 + 13)) by {
        assert(doc[(a3 + 13) + 0] == head_body_sep()[13]);
    }
    lemma_first_match_found(doc, gt_pat(), a3 + 8, a3 + 13);
    // the first `</body>` after the content
    assert(no_match_in(bb, body_close_pat())) by {
        lemma_no_match_ensure_nl(b, body_close_pat());
    }
    assert forall|k: int| a3 + 14 <= k < a5 implies !match_at(doc, body_close_pat(), k) by {
        if k == a3 + 14 {
            assert(doc[k + 0] == head_body_sep()[14]);
            lemma_lower_fixed(doc[k + 0], '<');
            assert(lower_char(doc[k + 0]) != body_close_pat()[0]);
        } else if k + 7 <= a5 {
            lemma_match_in_segment(doc, bb, a4, body_close_pat(), k);
        } else {
            assert(doc[a5] == doc_close()[0]);
            lemma_no_cross(doc, body_close_pat(), a5, k);
        }
    }
    assert forall|j: int| 0 <= j < 7 implies lower_char(doc[a5 + j]) == body_close_pat()[j] by {
        assert(doc[a5 + j] == doc_close()[j]);
    }
    assert(match_at(doc, body_close_pat(), a5));
    lemma_first_match_found(doc, body_close_pat(), a3 + 14, a5);
    assert(doc.subrange(a3 + 14, a5) =~= nl_seq() + bb) by {
        assert(doc[a3 + 14] == head_body_sep()[14]);
    }
}

/// Splitting a document laid out in the canonical reassembly template
/// recovers its parts: the doctype verbatim, and the head and body
/// contents with the template's newline framing (one leading newline,
/// and a trailing newline added when the part lacked one). The head
/// must not hold a `</head>` or `<body` marker, the body must not hold
/// a `</body>` marker, and when the doctype is empty neither part may
/// hold a `<!doctype` marker; all case-insensitively.
pub proof fn lemma_canonical_round_trip(d: Seq<char>, h: Seq<char>, b: Seq<char>)
    requires
        d.len() == 0 || doctype_wf(d),
        no_match_in(h, head_close_pat()),
        no_match_in(h, body_open_pat()),
        no_match_in(b, body_close_pat()),
        d.len() == 0 ==> no_match_in(h, doctype_pat()) && no_match_in(b, doctype_pat()),
    ensures
        ({
            let doc = reassemble_spec(d, h, b, false);
            &&& !is_fragment_spec(doc)
            &&& doctype_spec(doc) == d
            &&& head_content_spec(doc) == nl_seq() + ensure_nl(h)
            &&& between_tags_spec(doc, body_tag()) == Some(nl_seq() + ensure_nl(b))
        }),
{
    assert(reassemble_spec(d, h, b, false) =~= canon_doc(d, h, b));
    lemma_canon_not_fragment(d, h, b);
    lemma_canon_doctype(d, h, b);
    lemma_canon_head(d, h, b);
    lemma_canon_body(d, h, b);
}

} // verus!
