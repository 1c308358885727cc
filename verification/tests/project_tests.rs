use chapter_editor::project::{
    backup_path_for, css_candidates, is_html_path, list_html_files, read_css, tmp_path_for,
};

fn strings(items: &[&str]) -> Vec<String> {
    items.iter().map(|s| s.to_string()).collect()
}

#[test]
fn listing_keeps_only_chapter_files_sorted() {
    let entries = strings(&["a.html", "sub/b.HTM", "sub/c.txt"]);
    let metas = list_html_files("root", &entries);
    assert_eq!(metas.len(), 2);
    assert_eq!(metas[0].relative_path, "a.html");
    assert_eq!(metas[0].filename, "a.html");
    assert_eq!(metas[0].path, "root/a.html");
    assert_eq!(metas[1].relative_path, "sub/b.HTM");
    assert_eq!(metas[1].filename, "b.HTM");
    assert_eq!(metas[1].path, "root/sub/b.HTM");
}

#[test]
fn listing_sorts_by_relative_path() {
    let entries = strings(&["z.html", "a/b.html", "m.htm"]);
    let metas = list_html_files("r", &entries);
    assert_eq!(metas.len(), 3);
    assert_eq!(metas[0].relative_path, "a/b.html");
    assert_eq!(metas[1].relative_path, "m.htm");
    assert_eq!(metas[2].relative_path, "z.html");
}

#[test]
fn listing_joins_without_doubling_the_separator() {
    let entries = strings(&["a.html"]);
    let metas = list_html_files("r/", &entries);
    assert_eq!(metas[0].path, "r/a.html");
}

#[test]
fn extension_check_is_case_insensitive_and_exact() {
    assert!(is_html_path("a.html"));
    assert!(is_html_path("a.HTML"));
    assert!(is_html_path("dir/a.Htm"));
    assert!(!is_html_path("a.htmlx"));
    assert!(!is_html_path("a.txt"));
    assert!(!is_html_path("noext"));
    // a dot that starts the file name does not begin an extension
    assert!(!is_html_path(".html"));
    assert!(!is_html_path("dir/.htm"));
}

#[test]
fn candidate_stylesheets_are_probed_in_a_fixed_order() {
    let cands = css_candidates();
    assert_eq!(cands.len(), 5);
    assert_eq!(cands[0], "book.css");
    assert_eq!(cands[1], "style.css");
    assert_eq!(cands[2], "styles.css");
    assert_eq!(cands[3], "css/book.css");
    assert_eq!(cands[4], "styles/book.css");
}

#[test]
fn stylesheet_pick_returns_the_first_readable_content() {
    let content = "body { margin: 0; }".to_string();
    let reads = vec![None, None, None, None, Some(content.clone())];
    assert_eq!(read_css(&reads), content);

    let earlier = vec![Some("a".to_string()), Some("b".to_string()), None, None, None];
    assert_eq!(read_css(&earlier), "a");
}

#[test]
fn stylesheet_pick_is_empty_when_nothing_reads() {
    let reads: Vec<Option<String>> = vec![None, None, None, None, None];
    assert_eq!(read_css(&reads), "");
}

#[test]
fn sibling_paths_replace_the_extension() {
    assert_eq!(tmp_path_for("ch.html"), "ch.html.tmp");
    assert_eq!(backup_path_for("ch.html"), "ch.html.bak");
    assert_eq!(tmp_path_for("dir/ch.htm"), "dir/ch.html.tmp");
    assert_eq!(backup_path_for("noext"), "noext.html.bak");
}

#[test]
fn sibling_paths_never_equal_the_target() {
    for p in ["ch.html", "ch.html.tmp", "ch.html.bak", "noext", "dir/.hidden"] {
        assert_ne!(tmp_path_for(p), p);
        assert_ne!(backup_path_for(p), p);
    }
}
