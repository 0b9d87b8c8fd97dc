//! What `describe` reports about a page, a file or a URL: how a target is
//! reached, what kind of content came back, and a summary of HTML pages.
//! Fetching, reading files, decoding images and printing happen outside the library.

use vstd::prelude::*;
use crate::text;

verus! {

// ---------------------------------------------------------------------------
// Targets and content kinds.
// ---------------------------------------------------------------------------

/// How a target of `describe` is reached.
pub enum DescribeTarget {
    /// Fetch this URL.
    Url(String),
    /// Read this local file.
    File(String),
}

/// `target` when it names an `http://` or `https://` URL.
pub open spec fn is_web_url(target: Seq<char>) -> bool {
    text::starts_with(target, "http://"@) || text::starts_with(target, "https://"@)
}

/// How `target` is described: a URL with a scheme is fetched; otherwise an
/// existing local path (`exists_locally`) is read; otherwise the target is
/// fetched as `http://` followed by the target.
pub fn classify_target(target: &str, exists_locally: bool) -> (r: DescribeTarget)
    ensures
        is_web_url(target@) ==> (r matches DescribeTarget::Url(u) && u@ == target@),
        !is_web_url(target@) && exists_locally ==> (r matches DescribeTarget::File(f) && f@
            == target@),
        !is_web_url(target@) && !exists_locally ==> (r matches DescribeTarget::Url(u) && u@
            == "http://"@ + target@),
{
    let t = text::chars_of(target);
    let http = text::chars_of("http://");
    let https = text::chars_of("https://");
    if text::starts_with_exec(&t, &http) || text::starts_with_exec(&t, &https) {
        DescribeTarget::Url(text::string_of(&t))
    } else if exists_locally {
        DescribeTarget::File(text::string_of(&t))
    } else {
        let joined = text::concat(&http, &t);
        DescribeTarget::Url(text::string_of(&joined))
    }
}

/// What a fetched body is taken to be.
#[derive(PartialEq, Eq, Structural, Clone, Copy, Debug)]
pub enum ContentKind {
    Html,
    Image,
    Text,
    Binary,
}

/// The kind of a response by its `Content-Type` (compared as given).
pub open spec fn content_kind(content_type: Seq<char>) -> ContentKind {
    if text::starts_with(content_type, "text/html"@) || text::contains(content_type, "html"@) {
        ContentKind::Html
    } else if text::starts_with(content_type, "image/"@) {
        ContentKind::Image
    } else if text::contains(content_type, "json"@) || text::contains(content_type, "text"@) {
        ContentKind::Text
    } else {
        ContentKind::Binary
    }
}

/// A response is taken as HTML exactly when its content type mentions
/// `html` (a `text/html` type does); otherwise as an image when the type
/// starts with `image/`, as text when it mentions `json` or `text`, and as
/// binary content when it does neither.
pub proof fn lemma_content_kinds(ct: Seq<char>)
    ensures
        content_kind(ct) == ContentKind::Html <==> text::contains(ct, "html"@),
        !text::contains(ct, "html"@) && text::starts_with(ct, "image/"@) ==> content_kind(ct)
            == ContentKind::Image,
        !text::contains(ct, "html"@) && !text::starts_with(ct, "image/"@) && (text::contains(
            ct,
            "json"@,
        ) || text::contains(ct, "text"@)) ==> content_kind(ct) == ContentKind::Text,
        !text::contains(ct, "html"@) && !text::starts_with(ct, "image/"@) && !text::contains(
            ct,
            "json"@,
        ) && !text::contains(ct, "text"@) ==> content_kind(ct) == ContentKind::Binary,
{
    if text::starts_with(ct, "text/html"@) {
        reveal_strlit("text/html");
        reveal_strlit("html");
        text::lemma_find_from(ct, "html"@, 0);
        assert(ct.subrange(5, 9) =~= "html"@) by {
            assert forall|j: int| 0 <= j < 4 implies ct.subrange(5, 9)[j] == "html"@[j] by {
                assert(ct.take(9)[5 + j] == "text/html"@[5 + j]);
            }
        }
        assert(text::matches_at(ct, 5, "html"@));
    }
}

/// The kind of a response, as [`content_kind`] states it.
pub fn classify_content_type(content_type: &str) -> (r: ContentKind)
    ensures
        r == content_kind(content_type@),
{
    let c = text::chars_of(content_type);
    if text::starts_with_exec(&c, &text::chars_of("text/html")) || text::contains_exec(
        &c,
        &text::chars_of("html"),
    ) {
        ContentKind::Html
    } else if text::starts_with_exec(&c, &text::chars_of("image/")) {
        ContentKind::Image
    } else if text::contains_exec(&c, &text::chars_of("json")) || text::contains_exec(
        &c,
        &text::chars_of("text"),
    ) {
        ContentKind::Text
    } else {
        ContentKind::Binary
    }
}

/// What a local file is taken to be, by its extension.
#[derive(PartialEq, Eq, Structural, Clone, Copy, Debug)]
pub enum FileKind {
    Image,
    Html,
    Other,
}

/// The kind of a file by its extension, compared lowercased.
pub open spec fn file_kind(ext: Seq<char>) -> FileKind {
    let e = text::str_to_lowercase(ext);
    if e == "png"@ || e == "jpg"@ || e == "jpeg"@ || e == "gif"@ || e == "webp"@ || e == "bmp"@ {
        FileKind::Image
    } else if e == "html"@ || e == "htm"@ {
        FileKind::Html
    } else {
        FileKind::Other
    }
}

/// A file whose extension lowercases to `png`, `jpg`, `jpeg`, `gif`, `webp`
/// or `bmp` is an image; to `html` or `htm`, a page; to anything else, other.
pub proof fn lemma_file_kinds(ext: Seq<char>)
    ensures
        ({
            let e = text::str_to_lowercase(ext);
            &&& (e == "png"@ || e == "jpg"@ || e == "jpeg"@ || e == "gif"@ || e == "webp"@ || e
                == "bmp"@) ==> file_kind(ext) == FileKind::Image
            &&& (e == "html"@ || e == "htm"@) ==> file_kind(ext) == FileKind::Html
            &&& !(e == "png"@ || e == "jpg"@ || e == "jpeg"@ || e == "gif"@ || e == "webp"@ || e
                == "bmp"@ || e == "html"@ || e == "htm"@) ==> file_kind(ext) == FileKind::Other
        }),
{
    reveal_strlit("png");
    reveal_strlit("jpg");
    reveal_strlit("jpeg");
    reveal_strlit("gif");
    reveal_strlit("webp");
    reveal_strlit("bmp");
    reveal_strlit("html");
    reveal_strlit("htm");
    assert("htm"@[0] != "png"@[0] && "htm"@[0] != "jpg"@[0] && "htm"@[0] != "gif"@[0]
        && "htm"@[0] != "bmp"@[0]);
    assert("html"@[0] != "jpeg"@[0] && "html"@[0] != "webp"@[0]);
}

fn is(e: &[char], lit: &str) -> (r: bool)
    ensures
        r == (e@ == lit@),
{
    text::chars_eq(e, &text::chars_of(lit))
}

/// The kind of a file with extension `ext` (empty when it has none).
pub fn classify_extension(ext: &str) -> (r: FileKind)
    ensures
        r == file_kind(ext@),
{
    let e = text::lowercase(&text::chars_of(ext));
    if is(&e, "png") || is(&e, "jpg") || is(&e, "jpeg") || is(&e, "gif") || is(&e, "webp") || is(
        &e,
        "bmp",
    ) {
        FileKind::Image
    } else if is(&e, "html") || is(&e, "htm") {
        FileKind::Html
    } else {
        FileKind::Other
    }
}

// ---------------------------------------------------------------------------
// Text previews.
// ---------------------------------------------------------------------------

/// Lines longer than this many bytes are cut in a preview.
pub const PREVIEW_LINE_MAX: usize = 120;

/// Number of bytes a cut line keeps.
pub const PREVIEW_LINE_CUT: usize = 117;

/// A line as a preview shows it: cut to its first 117 bytes when it is
/// longer than 120 bytes.
pub open spec fn preview_line(line: Seq<char>) -> Seq<char> {
    if text::utf8_len(line) > PREVIEW_LINE_MAX {
        line.take(text::chars_in_bytes(line, PREVIEW_LINE_CUT as nat) as int)
    } else {
        line
    }
}

/// A line can be cut for a preview: when it is longer than 120 bytes, byte
/// 117 falls between two characters.
pub open spec fn cuttable(line: Seq<char>) -> bool {
    text::utf8_len(line) > PREVIEW_LINE_MAX ==> text::is_char_boundary(line, PREVIEW_LINE_CUT as nat)
}

/// The start of a text, line by line.
pub struct TextPreview {
    /// The first lines, each as [`preview_line`] shows it.
    pub lines: Vec<String>,
    /// How many lines the whole text has.
    pub total_lines: usize,
}

/// Number of lines a preview of `s` shows.
pub open spec fn preview_count(s: Seq<char>, max_lines: nat) -> nat {
    if text::lines(s).len() <= max_lines {
        text::lines(s).len()
    } else {
        max_lines
    }
}

/// The first `max_lines` lines of `s` (all of them when there are fewer),
/// each as [`preview_line`] shows it.
pub open spec fn preview_lines(s: Seq<char>, max_lines: nat) -> Seq<Seq<char>> {
    text::lines(s).take(preview_count(s, max_lines) as int).map_values(
        |l: Seq<char>| preview_line(l),
    )
}

fn preview_line_exec(line: &[char]) -> (r: Vec<char>)
    ensures
        r@ == preview_line(line@),
        text::utf8_len(r@) <= PREVIEW_LINE_MAX,
{
    let n = line.len();
    let total = text::utf8_prefix_len(line, n);
    assert(line@.take(n as int) =~= line@);
    if total <= PREVIEW_LINE_MAX as u128 {
        return text::copy_range(line, 0, n);
    }
    let (k, _bytes) = text::chars_within(line, PREVIEW_LINE_CUT as u128);
    let cut = text::copy_range(line, 0, k);
    assert(cut@ =~= line@.take(k as int));
    cut
}

/// The first `max_lines` lines of `text`, each cut for display as
/// [`preview_line`] states it, and the number of lines of the whole text.
/// Each shown line that is longer than 120 bytes has a character boundary
/// at byte 117.
pub fn text_preview(text: &str, max_lines: usize) -> (r: TextPreview)
    requires
        forall|k: int|
            0 <= k < preview_count(text@, max_lines as nat) ==> cuttable(
                #[trigger] text::lines(text@)[k],
            ),
    ensures
        r.lines@.map_values(|l: String| l@) == preview_lines(text@, max_lines as nat),
        r.total_lines == text::lines(text@).len(),
        r.lines@.len() <= max_lines,
        forall|k: int|
            0 <= k < r.lines@.len() ==> text::utf8_len(#[trigger] r.lines@[k]@) <= PREVIEW_LINE_MAX,
{
    let t = text::chars_of(text);
    let all = text::lines_exec(&t);
    let ghost ls = text::lines(text@);
    let n = if all.len() <= max_lines {
        all.len()
    } else {
        max_lines
    };
    let mut out: Vec<String> = Vec::new();
    let mut i: usize = 0;
    while i < n
        invariant
            n <= all@.len(),
            i <= n,
            all@.map_values(|l: Vec<char>| l@) == ls,
            out@.map_values(|l: String| l@) == ls.take(i as int).map_values(
                |l: Seq<char>| preview_line(l),
            ),
            forall|k: int| 0 <= k < out@.len() ==> text::utf8_len(#[trigger] out@[k]@) <= PREVIEW_LINE_MAX,
        decreases n - i,
    {
        let line = &all[i];
        assert(line@ == ls[i as int]);
        let shown = preview_line_exec(line);
        assert(ls.take(i + 1) =~= ls.take(i as int).push(ls[i as int]));
        let ghost before = out@.map_values(|l: String| l@);
        let shown_string = text::string_of(&shown);
        out.push(shown_string);
        assert(out@.map_values(|l: String| l@) =~= before.push(shown@));
        assert(ls.take(i + 1).map_values(|l: Seq<char>| preview_line(l)) =~= ls.take(
            i as int,
        ).map_values(|l: Seq<char>| preview_line(l)).push(preview_line(ls[i as int])));
        i = i + 1;
    }
    TextPreview { lines: out, total_lines: all.len() }
}

// ---------------------------------------------------------------------------
// HTML summaries.
// ---------------------------------------------------------------------------

/// The trimmed text after `start`, past the next `>`, up to the next `end`.
pub open spec fn between(s: Seq<char>, start: Seq<char>, end: Seq<char>) -> Option<Seq<char>> {
    match text::find(s, start) {
        None => None,
        Some(p) => {
            let from_start = s.skip((p + start.len()) as int);
            match text::find(from_start, seq!['>']) {
                None => None,
                Some(q) => {
                    let after = from_start.skip(q + 1 as int);
                    match text::find(after, end) {
                        None => None,
                        Some(c) => Some(text::trim(after.take(c as int))),
                    }
                },
            }
        },
    }
}

fn between_chars(s: &[char], start: &[char], end: &[char]) -> (r: Option<Vec<char>>)
    ensures
        match r {
            Some(v) => between(s@, start@, end@) == Some(v@),
            None => between(s@, start@, end@) is None,
        },
{
    let slen = s.len();
    let p = match text::find_from_exec(s, start, 0) {
        Some(p) => p,
        None => {
            return None;
        },
    };
    let from_start = text::copy_range(s, p + start.len(), slen);
    assert(from_start@ =~= s@.skip(p + start@.len()));
    let gt = vec!['>'];
    assert(gt@ =~= seq!['>']);
    let flen = from_start.len();
    let q = match text::find_from_exec(&from_start, &gt, 0) {
        Some(q) => q,
        None => {
            return None;
        },
    };
    let after = text::copy_range(&from_start, q + 1, flen);
    assert(after@ =~= from_start@.skip(q + 1 as int));
    let c = match text::find_from_exec(&after, end, 0) {
        Some(c) => c,
        None => {
            return None;
        },
    };
    let inner = text::copy_range(&after, 0, c);
    assert(inner@ =~= after@.take(c as int));
    Some(text::trim_exec(&inner))
}

/// The trimmed text after the first `start`, past the next `>`, up to the
/// next `end`, as [`between`] states it.
pub fn extract_between(text: &str, start: &str, end: &str) -> (r: Option<String>)
    ensures
        match r {
            Some(v) => between(text@, start@, end@) == Some(v@),
            None => between(text@, start@, end@) is None,
        },
{
    let t = text::chars_of(text);
    let a = text::chars_of(start);
    let b = text::chars_of(end);
    match between_chars(&t, &a, &b) {
        Some(v) => Some(text::string_of(&v)),
        None => None,
    }
}

/// Number of positions at or after `i` where `pat` occurs in `s` (overlaps counted).
pub open spec fn occurrences_from(s: Seq<char>, pat: Seq<char>, i: nat) -> nat
    decreases s.len() + 1 - i,
{
    if i + pat.len() > s.len() {
        0
    } else {
        (if text::matches_at(s, i as int, pat) {
            1nat
        } else {
            0nat
        }) + occurrences_from(s, pat, i + 1)
    }
}

/// Number of occurrences of `tag` in the lowercased text.
pub open spec fn tag_count(s: Seq<char>, tag: Seq<char>) -> nat {
    occurrences_from(text::str_to_lowercase(s), tag, 0)
}

proof fn lemma_occurrences_bound(s: Seq<char>, pat: Seq<char>, i: nat)
    requires
        i <= s.len(),
    ensures
        occurrences_from(s, pat, i) <= s.len() + 1 - i,
    decreases s.len() + 1 - i,
{
    if i + pat.len() <= s.len() {
        if i < s.len() {
            lemma_occurrences_bound(s, pat, i + 1);
        } else {
            assert(occurrences_from(s, pat, i + 1) == 0);
        }
    }
}

fn count_chars(s: &[char], tag: &[char]) -> (r: usize)
    requires
        tag@.len() > 0,
    ensures
        r == occurrences_from(s@, tag@, 0),
{
    let mut count: usize = 0;
    let mut i: usize = 0;
    while i < s.len() && tag.len() <= s.len() - i
        invariant
            tag@.len() > 0,
            i <= s@.len(),
            count + occurrences_from(s@, tag@, i as nat) == occurrences_from(s@, tag@, 0),
            count <= i,
        decreases s@.len() - i,
    {
        if text::matches_at_exec(s, i, tag) {
            count = count + 1;
        }
        i = i + 1;
    }
    count
}

/// Counting `tag` in `text` runs to its end: `tag` is not empty, and when it
/// occurs its first character is one byte long (the search steps on by one
/// byte past each occurrence).
pub open spec fn countable(text: Seq<char>, tag: Seq<char>) -> bool {
    &&& tag.len() > 0
    &&& text::contains(text::str_to_lowercase(text), tag) ==> text::utf8_width(tag[0]) == 1
}

/// How often `tag` occurs in the lowercased `text` (overlapping occurrences
/// counted), where [`countable`] holds; `None` where it does not.
pub fn try_count_tags(text: &str, tag: &str) -> (r: Option<usize>)
    ensures
        match r {
            Some(n) => countable(text@, tag@) && n == tag_count(text@, tag@),
            None => !countable(text@, tag@),
        },
{
    let lower = text::lowercase(&text::chars_of(text));
    let t = text::chars_of(tag);
    if t.len() == 0 {
        return None;
    }
    if text::utf8_width_exec(t[0]) != 1 && text::contains_exec(&lower, &t) {
        return None;
    }
    Some(count_chars(&lower, &t))
}

/// How often `tag` occurs in the lowercased `text` (overlapping occurrences
/// counted).
pub fn count_tags(text: &str, tag: &str) -> (r: usize)
    requires
        countable(text@, tag@),
    ensures
        r == tag_count(text@, tag@),
{
    match try_count_tags(text, tag) {
        Some(n) => n,
        None => 0,
    }
}

/// A front-end framework named in a page.
#[derive(PartialEq, Eq, Structural, Clone, Copy, Debug)]
pub enum Framework {
    React,
    Vue,
    Angular,
    NextJs,
}

/// The framework a page names, lowercased text searched in this order:
/// `react`/`reactroot`, `vue`, `angular`, `next.js`/`nextjs`.
pub open spec fn framework_of(lower: Seq<char>) -> Option<Framework> {
    if text::contains(lower, "react"@) || text::contains(lower, "reactroot"@) {
        Some(Framework::React)
    } else if text::contains(lower, "vue"@) {
        Some(Framework::Vue)
    } else if text::contains(lower, "angular"@) {
        Some(Framework::Angular)
    } else if text::contains(lower, "next.js"@) || text::contains(lower, "nextjs"@) {
        Some(Framework::NextJs)
    } else {
        None
    }
}

/// The page with each `<` and `>` made a space.
pub open spec fn brackets_to_spaces(s: Seq<char>) -> Seq<char> {
    Seq::new(s.len(), |k: int| if s[k] == '<' || s[k] == '>' { ' ' } else { s[k] })
}

/// The title shown for a page.
pub open spec fn page_title(html: Seq<char>) -> Seq<char> {
    match between(html, "<title"@, "</title>"@) {
        Some(t) => t,
        None => match between(html, "<title>"@, "</title>"@) {
            Some(t) => t,
            None => "(no title)"@,
        },
    }
}

/// What `describe` reports about an HTML page.
pub struct HtmlSummary {
    pub title: String,
    pub h1_count: usize,
    pub h2_count: usize,
    pub link_count: usize,
    pub image_count: usize,
    pub framework: Option<Framework>,
    /// The page mentions `error`, `500`, `404` or `not found`.
    pub may_have_errors: bool,
    /// The page mentions `welcome` or `getting started`.
    pub welcome_page: bool,
    pub word_count: usize,
}

/// The summary of an HTML page: its title, heading, link and image counts,
/// the framework it names, error and welcome hints (searched in the lowercased
/// page), and its number of words with `<` and `>` taken as spaces.
pub fn analyze_html(html: &str) -> (r: HtmlSummary)
    ensures
        r.title@ == page_title(html@),
        r.h1_count == tag_count(html@, "<h1"@),
        r.h2_count == tag_count(html@, "<h2"@),
        r.link_count == tag_count(html@, "<a "@),
        r.image_count == tag_count(html@, "<img"@),
        r.framework == framework_of(text::str_to_lowercase(html@)),
        r.may_have_errors == ({
            let lower = text::str_to_lowercase(html@);
            text::contains(lower, "error"@) || text::contains(lower, "500"@) || text::contains(
                lower,
                "404"@,
            ) || text::contains(lower, "not found"@)
        }),
        r.welcome_page == ({
            let lower = text::str_to_lowercase(html@);
            text::contains(lower, "welcome"@) || text::contains(lower, "getting started"@)
        }),
        r.word_count == text::words(brackets_to_spaces(html@)).len(),
{
    let h = text::chars_of(html);
    let lower = text::lowercase(&h);
    let title = match between_chars(&h, &text::chars_of("<title"), &text::chars_of("</title>")) {
        Some(t) => t,
        None => match between_chars(&h, &text::chars_of("<title>"), &text::chars_of("</title>")) {
            Some(t) => t,
            None => text::chars_of("(no title)"),
        },
    };
    let h1 = text::chars_of("<h1");
    let h2 = text::chars_of("<h2");
    let a = text::chars_of("<a ");
    let img = text::chars_of("<img");
    proof {
        reveal_strlit("<h1");
        reveal_strlit("<h2");
        reveal_strlit("<a ");
        reveal_strlit("<img");
    }
    let has = |p: &str| -> (b: bool)
        ensures
            b == text::contains(lower@, p@),
        { text::contains_exec(&lower, &text::chars_of(p)) };
    let framework = if has("react") || has("reactroot") {
        Some(Framework::React)
    } else if has("vue") {
        Some(Framework::Vue)
    } else if has("angular") {
        Some(Framework::Angular)
    } else if has("next.js") || has("nextjs") {
        Some(Framework::NextJs)
    } else {
        None
    };
    let may_have_errors = has("error") || has("500") || has("404") || has("not found");
    let welcome_page = has("welcome") || has("getting started");
    let mut spaced: Vec<char> = Vec::new();
    let mut i: usize = 0;
    while i < h.len()
        invariant
            i <= h@.len(),
            spaced@ == brackets_to_spaces(h@).take(i as int),
        decreases h@.len() - i,
    {
        let c = h[i];
        if c == '<' || c == '>' {
            spaced.push(' ');
        } else {
            spaced.push(c);
        }
        i = i + 1;
        assert(spaced@ =~= brackets_to_spaces(h@).take(i as int));
    }
    assert(brackets_to_spaces(h@).take(i as int) =~= brackets_to_spaces(h@));
    HtmlSummary {
        title: text::string_of(&title),
        h1_count: count_chars(&lower, &h1),
        h2_count: count_chars(&lower, &h2),
        link_count: count_chars(&lower, &a),
        image_count: count_chars(&lower, &img),
        framework,
        may_have_errors,
        welcome_page,
        word_count: text::word_count_exec(&spaced),
    }
}

} // verus!
