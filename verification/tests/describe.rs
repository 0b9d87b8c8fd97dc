use agent_eyes::describe::{
    analyze_html, classify_content_type, classify_extension, classify_target, count_tags,
    try_count_tags,
    extract_between, text_preview, ContentKind, DescribeTarget, FileKind, Framework,
};

fn target(t: DescribeTarget) -> (bool, String) {
    match t {
        DescribeTarget::Url(u) => (true, u),
        DescribeTarget::File(f) => (false, f),
    }
}

#[test]
fn targets_are_fetched_or_read() {
    assert_eq!(target(classify_target("https://x.dev/a", false)), (true, "https://x.dev/a".to_string()));
    assert_eq!(target(classify_target("http://x.dev", true)), (true, "http://x.dev".to_string()));
    assert_eq!(target(classify_target("page.html", true)), (false, "page.html".to_string()));
    assert_eq!(target(classify_target("example.com", false)), (true, "http://example.com".to_string()));
}

#[test]
fn content_types_are_classified() {
    assert_eq!(classify_content_type("text/html; charset=utf-8"), ContentKind::Html);
    assert_eq!(classify_content_type("application/xhtml+xml"), ContentKind::Html);
    assert_eq!(classify_content_type("image/png"), ContentKind::Image);
    assert_eq!(classify_content_type("application/json"), ContentKind::Text);
    assert_eq!(classify_content_type("text/plain"), ContentKind::Text);
    assert_eq!(classify_content_type("application/octet-stream"), ContentKind::Binary);
    assert_eq!(classify_content_type("unknown"), ContentKind::Binary);
}

#[test]
fn extensions_are_classified_case_insensitively() {
    assert_eq!(classify_extension("PNG"), FileKind::Image);
    assert_eq!(classify_extension("jpeg"), FileKind::Image);
    assert_eq!(classify_extension("HTM"), FileKind::Html);
    assert_eq!(classify_extension("rs"), FileKind::Other);
    assert_eq!(classify_extension(""), FileKind::Other);
}

#[test]
fn previews_cut_long_lines_and_count_all_lines() {
    let p = text_preview("a\r\nb\n\nc\n", 2);
    assert_eq!(p.lines, vec!["a".to_string(), "b".to_string()]);
    assert_eq!(p.total_lines, 4);
    let long = "x".repeat(130);
    let p = text_preview(&long, 20);
    assert_eq!(p.lines, vec!["x".repeat(117)]);
    assert_eq!(p.total_lines, 1);
    let exact = "y".repeat(120);
    assert_eq!(text_preview(&exact, 20).lines, vec![exact.clone()]);
    let p = text_preview("", 20);
    assert!(p.lines.is_empty());
    assert_eq!(p.total_lines, 0);
    let p = text_preview("only\r", 20);
    assert_eq!(p.lines, vec!["only\r".to_string()]);
}

#[test]
fn previews_cut_multibyte_lines_by_bytes() {
    let wide = "日".repeat(50);
    let p = text_preview(&wide, 10);
    assert_eq!(p.lines, vec!["日".repeat(39)]);
    assert_eq!(p.lines[0].len(), 117);
    let mixed = format!("a{}", "é".repeat(70));
    let p = text_preview(&mixed, 10);
    assert_eq!(p.lines, vec![format!("a{}", "é".repeat(58))]);
    let short = "日".repeat(40);
    assert_eq!(text_preview(&short, 10).lines, vec![short.clone()]);
}

#[test]
fn between_finds_the_text_after_the_tag() {
    assert_eq!(extract_between("<title>Hi</title>", "<title", "</title>"), Some("Hi".to_string()));
    assert_eq!(extract_between("<title x=1> Hi </title>", "<title", "</title>"), Some("Hi".to_string()));
    assert_eq!(extract_between("<title>Hi", "<title", "</title>"), None);
    assert_eq!(extract_between("nothing", "<title", "</title>"), None);
}

#[test]
fn tag_counts_are_case_insensitive_and_overlapping() {
    assert_eq!(count_tags("<H1>a</h1><h1>", "<h1"), 2);
    assert_eq!(count_tags("aaaa", "aa"), 3);
    assert_eq!(count_tags("", "<a "), 0);
}

#[test]
fn html_summary() {
    let html = "<html><head><title> Welcome </title></head><body><h1>React app</h1><a href=x>l</a><img src=y></body></html>";
    let s = analyze_html(html);
    assert_eq!(s.title, "Welcome");
    assert_eq!(s.h1_count, 1);
    assert_eq!(s.h2_count, 0);
    assert_eq!(s.link_count, 1);
    assert_eq!(s.image_count, 1);
    assert_eq!(s.framework, Some(Framework::React));
    assert!(!s.may_have_errors);
    assert!(s.welcome_page);
    assert_eq!(s.word_count, 19);
}

#[test]
fn html_summary_without_title_and_with_errors() {
    let s = analyze_html("<p>404 Not Found</p><script>vue</script>");
    assert_eq!(s.title, "(no title)");
    assert_eq!(s.framework, Some(Framework::Vue));
    assert!(s.may_have_errors);
    assert!(!s.welcome_page);
    assert_eq!(s.word_count, 8);
    assert_eq!(analyze_html("next.js app").framework, Some(Framework::NextJs));
    assert_eq!(analyze_html("Angular").framework, Some(Framework::Angular));
    assert_eq!(analyze_html("plain").framework, None);
}

#[test]
fn tag_counts_refuse_what_cannot_be_counted() {
    assert_eq!(try_count_tags("<h1><H1>", "<h1"), Some(2));
    assert_eq!(try_count_tags("abc", ""), None);
    assert_eq!(try_count_tags("ééé", "é"), None);
    assert_eq!(try_count_tags("abc", "é"), Some(0));
}

#[test]
fn previews_split_lines_as_str_lines_does() {
    for s in ["a\r\nb", "a\rb\n", "x\n\ny\r\n", "only\r", "\n", "", "tail\r\n\r\n", "mid\r\r\nend"] {
        let p = text_preview(s, 100);
        let expected: Vec<String> = s.lines().map(|l| l.to_string()).collect();
        assert_eq!(p.lines, expected);
        assert_eq!(p.total_lines, s.lines().count());
    }
}
