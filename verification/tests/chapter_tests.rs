use chapter_editor::chapter::{chapter_filename, make_chapter_data};
use chapter_editor::html_parser::split_html;

#[test]
fn chapter_filename_is_the_last_path_component() {
    assert_eq!(chapter_filename("book/ch1.html"), "ch1.html");
    assert_eq!(chapter_filename("ch1.html"), "ch1.html");
    assert_eq!(chapter_filename(""), "unknown");
    assert_eq!(chapter_filename("book/"), "unknown");
}

#[test]
fn chapter_data_collects_the_split_and_the_stylesheet() {
    let raw = "<html><head>H</head><body>B</body></html>";
    let split = split_html(raw);
    let data = make_chapter_data("dir/ch.html", split, "css!".to_string());
    assert_eq!(data.filename, "ch.html");
    assert_eq!(data.body_html, "B");
    assert_eq!(data.original_head, "H");
    assert_eq!(data.css, "css!");
    assert!(!data.is_fragment);
}
