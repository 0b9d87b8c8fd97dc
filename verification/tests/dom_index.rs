use agent_eyes::dom_index::{
    extract_attr, extract_inner_text, extract_title, is_html_content_type, is_void_tag,
    normalize_url, parse_dom_elements, search_pattern, strip_tags, truncate_text,
    try_extract_inner_text, try_extract_title, try_parse_dom_elements, ParsedElement,
};
use agent_eyes::mcp_server::default_max_elements;

fn summary(e: &ParsedElement) -> (String, Option<String>, Option<String>, String, String) {
    (
        e.tag.clone(),
        e.element_id.clone(),
        e.class_name.clone(),
        e.text.clone(),
        e.path.clone(),
    )
}

fn el(tag: &str, id: Option<&str>, class: Option<&str>, text: &str, path: &str)
    -> (String, Option<String>, Option<String>, String, String) {
    (
        tag.to_string(),
        id.map(|s| s.to_string()),
        class.map(|s| s.to_string()),
        text.to_string(),
        path.to_string(),
    )
}

#[test]
fn eyes_describe_dom_parses_simple_html() {
    let elements = parse_dom_elements("<html><body><a href='/test'>click</a></body></html>", 100);
    assert!(elements.iter().any(|e| e.tag == "a"), "expected anchor tag");
    assert!(elements.iter().any(|e| e.text.contains("click")), "expected link text");
}

#[test]
fn eyes_describe_dom_bare_html_includes_root() {
    let elements = parse_dom_elements("<html></html>", 100);
    assert!(elements.iter().any(|e| e.tag == "html"), "expected html root tag");
}

#[test]
fn default_max_elements_is_5000() {
    assert_eq!(default_max_elements(), 5000);
}

#[test]
fn serve_default_max_elements_is_5000() {
    assert_eq!(agent_eyes::serve::default_max_elements(), 5000);
}

#[test]
fn parses_sample_page_with_paths_attributes_and_text() {
    let html = r#"<!doctype html><html><head><title>Demo</title></head><body><div id="main" class="hero"><a href="/">Home</a></div></body></html>"#;
    let got: Vec<_> = parse_dom_elements(html, 100).iter().map(summary).collect();
    assert_eq!(
        got,
        vec![
            el("html", None, None, "DemoHome", "root"),
            el("head", None, None, "Demo", "html[1]"),
            el("title", None, None, "Demo", "html[1]>head[1]"),
            el("body", None, None, "Home", "html[1]"),
            el("div", Some("main"), Some("hero"), "Home", "html[1]>body[1]"),
            el("a", None, None, "Home", "html[1]>body[1]>div[1]"),
        ]
    );
    assert_eq!(extract_title(html), Some("Demo".to_string()));
}

#[test]
fn void_elements_do_not_open_a_level() {
    let got: Vec<_> = parse_dom_elements("<div><br><span>x</span></div>", 100).iter().map(summary).collect();
    assert_eq!(
        got,
        vec![
            el("div", None, None, "x", "root"),
            el("br", None, None, "x", "div[1]"),
            el("span", None, None, "x", "div[1]"),
        ]
    );
    let got: Vec<_> = parse_dom_elements("<img src=x/><p>q</p>", 100).iter().map(summary).collect();
    assert_eq!(got, vec![el("img", None, None, "q", "root"), el("p", None, None, "q", "root")]);
}

#[test]
fn unclosed_siblings_are_numbered() {
    let got: Vec<_> = parse_dom_elements("<ul><li>a<li>b</ul>", 100).iter().map(summary).collect();
    assert_eq!(
        got,
        vec![
            el("ul", None, None, "ab", "root"),
            el("li", None, None, "ab", "ul[1]"),
            el("li", None, None, "b", "ul[1]>li[2]"),
        ]
    );
}

#[test]
fn tags_and_attributes_are_lowercased() {
    let got: Vec<_> = parse_dom_elements(r#"<DIV ID="Main">x</DIV>"#, 100).iter().map(summary).collect();
    assert_eq!(got, vec![el("div", Some("main"), None, "x", "root")]);
}

#[test]
fn text_without_closing_tag_is_bounded_by_remaining_budget() {
    let got: Vec<_> = parse_dom_elements("<p>hello world", 100).iter().map(summary).collect();
    assert_eq!(got, vec![el("p", None, None, "hello world", "root")]);
    let got: Vec<_> = parse_dom_elements("<p>abcdef", 3).iter().map(summary).collect();
    assert_eq!(got, vec![el("p", None, None, "abc", "root")]);
}

#[test]
fn element_count_stops_at_max() {
    let got: Vec<_> = parse_dom_elements("<a><b><c><d><e>", 2).iter().map(summary).collect();
    assert_eq!(got, vec![el("a", None, None, "", "root"), el("b", None, None, "", "a[1]")]);
    assert!(parse_dom_elements("<a><b>", 0).is_empty());
}

#[test]
fn scripts_styles_and_comments_are_skipped() {
    let got: Vec<_> = parse_dom_elements("<script>x</script><style>y</style><!-- c --><p>t</p>", 100)
        .iter()
        .map(summary)
        .collect();
    assert_eq!(got, vec![el("p", None, None, "t", "root")]);
}

#[test]
fn long_text_is_cut_to_240_characters() {
    let html = format!("<p>{}</p>", "a".repeat(300));
    let got = parse_dom_elements(&html, 10);
    assert_eq!(got.len(), 1);
    assert_eq!(got[0].text, "a".repeat(240));
}

#[test]
fn a_lone_open_bracket_ends_the_scan() {
    let got: Vec<_> = parse_dom_elements("<p>x</p> < no close", 100).iter().map(summary).collect();
    assert_eq!(got, vec![el("p", None, None, "x", "root")]);
}

#[test]
fn attributes_are_read_from_the_first_match() {
    assert_eq!(extract_attr(r#"div data-id="x" id="y""#, "id"), Some("x".to_string()));
    assert_eq!(extract_attr("div id='  z '", "id"), Some("z".to_string()));
    assert_eq!(extract_attr("div id=plain", "id"), None);
    assert_eq!(extract_attr(r#"div id="open"#, "id"), None);
    assert_eq!(extract_attr("div", "class"), None);
}

#[test]
fn titles_are_found_case_insensitively_and_trimmed() {
    assert_eq!(extract_title("<TITLE lang=en>  Hi there </title>"), Some("Hi there".to_string()));
    assert_eq!(extract_title("<title>never closed"), None);
    assert_eq!(extract_title("<p>no title</p>"), None);
}

#[test]
fn inner_text_strips_markup_and_collapses_whitespace() {
    let html = "<div>  one <b>two</b>\n three </div>";
    assert_eq!(extract_inner_text(html, 5, "div", 100), "one two three");
    assert_eq!(extract_inner_text(html, 500, "div", 100), "");
}

#[test]
fn strip_tags_drops_markup_and_brackets() {
    assert_eq!(strip_tags("a<b>c</b>d"), "acd");
    assert_eq!(strip_tags("x > y"), "x  y");
}

#[test]
fn truncate_counts_characters() {
    assert_eq!(truncate_text("héllo".to_string(), 2), "hé");
    assert_eq!(truncate_text("abc".to_string(), 5), "abc");
}

#[test]
fn void_tags_are_recognised() {
    assert!(is_void_tag("br/"));
    assert!(is_void_tag("IMG src=x"));
    assert!(!is_void_tag("div"));
}

#[test]
fn urls_get_a_scheme_once() {
    assert_eq!(normalize_url("localhost:8080/a"), "http://localhost:8080/a");
    assert_eq!(normalize_url("https://example.com"), "https://example.com");
    let once = normalize_url("example.com");
    assert_eq!(normalize_url(&once), once);
}

#[test]
fn content_types_accepted_for_indexing() {
    assert!(is_html_content_type("Text/HTML; charset=utf-8"));
    assert!(is_html_content_type(""));
    assert!(!is_html_content_type("application/json"));
}

#[test]
fn search_pattern_trims_the_query() {
    assert_eq!(search_pattern("  Home \n"), "%Home%");
}

#[test]
fn text_budget_without_closing_tag_counts_bytes() {
    let got: Vec<_> = parse_dom_elements("<p>日日日日", 3).iter().map(summary).collect();
    assert_eq!(got, vec![el("p", None, None, "日", "root")]);
    let got: Vec<_> = parse_dom_elements("<p>日日日日", 6).iter().map(summary).collect();
    assert_eq!(got, vec![el("p", None, None, "日日", "root")]);
    assert!(try_parse_dom_elements("<p>日日日日", 2).is_none());
    let got = try_parse_dom_elements("<p>日日</p>", 2).expect("closed element cuts at its end tag");
    assert_eq!(got[0].text, "日日");
}

#[test]
fn inner_text_starts_at_a_byte_offset() {
    let html = "é<div>one</div>";
    assert_eq!(extract_inner_text(html, 7, "div", 100), "one");
    assert_eq!(extract_inner_text(html, 1, "div", 100), "");
    assert_eq!(extract_inner_text(html, 17, "div", 100), "");
}

#[test]
fn titles_after_multibyte_text() {
    assert_eq!(extract_title("日本<title>Tokyo</title>"), Some("Tokyo".to_string()));
}

#[test]
fn slicing_inside_a_character_is_refused() {
    assert_eq!(try_extract_title("<title>x</title>"), Some(Some("x".to_string())));
    assert_eq!(try_extract_title("none"), Some(None));
    assert_eq!(try_extract_title("\u{0130}<title>x</title>"), Some(Some("x".to_string())));
    assert_eq!(try_extract_title("\u{65E5}\u{212A}<title>x</title>"), None);
    assert_eq!(try_extract_inner_text("<p>日日", 3, "p", 2), None);
    assert_eq!(try_extract_inner_text("<p>日日", 3, "p", 3), Some("日".to_string()));
}

#[test]
fn a_smaller_limit_records_a_prefix() {
    let html = "<div id='a'><p class='c'>text without end<span>s</span><br><i>x</i></div>";
    let shape = |e: &ParsedElement| (e.tag.clone(), e.element_id.clone(), e.class_name.clone(), e.path.clone());
    let small: Vec<_> = parse_dom_elements(html, 2).iter().map(shape).collect();
    let large: Vec<_> = parse_dom_elements(html, 5).iter().map(shape).collect();
    assert_eq!(small.len(), 2);
    assert_eq!(large.len(), 5);
    assert_eq!(small[..], large[..2]);
    let small_text = parse_dom_elements("<p>abcdefgh", 1);
    let large_text = parse_dom_elements("<p>abcdefgh", 4);
    assert_eq!(small_text[0].text, "a");
    assert_eq!(large_text[0].text, "abcd");
}

#[test]
fn elements_keep_their_attributes_as_written() {
    let got = parse_dom_elements(
        "<A HREF='/Test' Class=\"x\">go</a><img src=x.png /><br><input  type=text  disabled>",
        100,
    );
    let attrs: Vec<_> = got.iter().map(|e| (e.tag.clone(), e.attributes.clone())).collect();
    assert_eq!(
        attrs,
        vec![
            ("a".to_string(), "HREF='/Test' Class=\"x\"".to_string()),
            ("img".to_string(), "src=x.png".to_string()),
            ("br".to_string(), "".to_string()),
            ("input".to_string(), "type=text  disabled".to_string()),
        ]
    );
}
