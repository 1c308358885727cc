use chapter_editor::html_parser::{reassemble_html, split_html};

#[test]
fn test_split_full_document() {
    let html = r#"<!DOCTYPE html>
<html>
<head>
<title>Test Chapter</title>
<link rel="stylesheet" href="book.css">
</head>
<body>
<h1>Hello World</h1>
<p>Test paragraph.</p>
</body>
</html>"#;

    let split = split_html(html);
    assert!(!split.is_fragment);
    assert_eq!(split.doctype, "<!DOCTYPE html>");
    assert!(split.head_content.contains("<title>Test Chapter</title>"));
    assert!(split.body_content.contains("<h1>Hello World</h1>"));

    // Reassemble and verify structure
    let reassembled = reassemble_html(&split.doctype, &split.head_content, &split.body_content, false);
    assert!(reassembled.contains("<!DOCTYPE html>"));
    assert!(reassembled.contains("<title>Test Chapter</title>"));
    assert!(reassembled.contains("<h1>Hello World</h1>"));
}

#[test]
fn test_split_fragment() {
    let html = r#"<p>
WeBWorK delivers automatically graded questions.
</p>

<h2>Section title</h2>
<p>More content here.</p>"#;

    let split = split_html(html);
    assert!(split.is_fragment);
    assert!(split.doctype.is_empty());
    assert!(split.head_content.is_empty());
    assert_eq!(split.body_content, html);

    // Reassemble fragment -- should return body as-is
    let reassembled = reassemble_html("", "", &split.body_content, true);
    assert_eq!(reassembled, html);
}

#[test]
fn empty_input_is_a_fragment() {
    let split = split_html("");
    assert!(split.is_fragment);
    assert_eq!(split.body_content, "");
    assert_eq!(reassemble_html("", "", &split.body_content, true), "");
}

#[test]
fn reassemble_follows_the_template_exactly() {
    let out = reassemble_html("<!DOCTYPE html>", "H", "B", false);
    assert_eq!(
        out,
        "<!DOCTYPE html>\n<html>\n<head>\nH\n</head>\n<body>\nB\n</body>\n</html>\n"
    );
}

#[test]
fn reassemble_keeps_existing_trailing_newlines() {
    let out = reassemble_html("", "H\n", "B\n", false);
    assert_eq!(out, "<html>\n<head>\nH\n</head>\n<body>\nB\n</body>\n</html>\n");
}

#[test]
fn canonical_document_round_trip_recovers_the_parts() {
    let doc = reassemble_html("<!DOCTYPE html>", "<title>T</title>", "<p>x</p>", false);
    let split = split_html(&doc);
    assert!(!split.is_fragment);
    assert_eq!(split.doctype, "<!DOCTYPE html>");
    assert_eq!(split.head_content, "\n<title>T</title>\n");
    assert_eq!(split.body_content, "\n<p>x</p>\n");
    let again = reassemble_html(&split.doctype, &split.head_content, &split.body_content, false);
    assert!(again.contains("<!DOCTYPE html>"));
    assert!(again.contains("<title>T</title>"));
    assert!(again.contains("<p>x</p>"));
}

#[test]
fn tag_matching_ignores_case() {
    let doc = "<!DoCtYpE hTmL>\n<HTML><HEAD>h</HEAD><BODY>b</BODY></HTML>";
    let split = split_html(doc);
    assert!(!split.is_fragment);
    assert_eq!(split.doctype, "<!DoCtYpE hTmL>");
    assert_eq!(split.head_content, "h");
    assert_eq!(split.body_content, "b");
}

#[test]
fn missing_doctype_and_head_come_back_empty() {
    let doc = "<html><body>b</body></html>";
    let split = split_html(doc);
    assert!(!split.is_fragment);
    assert_eq!(split.doctype, "");
    assert_eq!(split.head_content, "");
    assert_eq!(split.body_content, "b");
}

#[test]
fn body_extraction_falls_back_to_a_tolerant_parse() {
    // `<html` makes this a full document, but there is no `<body` tag
    // to slice at, so the parsed body element's inner markup is used.
    let doc = "<html><p>hi</p></html>";
    let split = split_html(doc);
    assert!(!split.is_fragment);
    assert_eq!(split.body_content, "<p>hi</p>");
}

#[test]
fn head_content_is_kept_verbatim() {
    let doc = "<html><head>  <META charset=\"UTF-8\">\t</head><body>x</body></html>";
    let split = split_html(doc);
    assert_eq!(split.head_content, "  <META charset=\"UTF-8\">\t");
}
