//! The HTML scanner behind the DOM index: it turns a page into a flat list of
//! elements with their tag, `id`, `class`, visible text and position path.
//! Storing the elements (SQLite) and fetching pages happen outside the library.

use vstd::prelude::*;
use crate::text;

verus! {

/// What the index reports after storing a page.
pub struct DomIndexReport {
    pub url: String,
    pub title: Option<String>,
    pub elements_indexed: u64,
    pub pages_total: u64,
    pub db_path: String,
}

/// Totals of the index.
pub struct DomStats {
    pub db_path: String,
    pub pages: u64,
    pub elements: u64,
    pub last_indexed_at: Option<i64>,
}

/// One element found by a search of the index.
pub struct DomSearchHit {
    pub url: String,
    pub tag: String,
    pub element_id: Option<String>,
    pub class_name: Option<String>,
    pub text: String,
    pub path: String,
}

/// One element found in a page.
pub struct ParsedElement {
    pub tag: String,
    pub element_id: Option<String>,
    pub class_name: Option<String>,
    /// The attributes as written in the opening tag.
    pub attributes: String,
    pub text: String,
    pub path: String,
}

/// The mathematical content of a [`ParsedElement`].
#[verifier::ext_equal]
pub struct ElementView {
    pub tag: Seq<char>,
    pub element_id: Option<Seq<char>>,
    pub class_name: Option<Seq<char>>,
    pub attributes: Seq<char>,
    pub text: Seq<char>,
    pub path: Seq<char>,
}

/// The characters of an optional string.
pub open spec fn opt_view(o: Option<String>) -> Option<Seq<char>> {
    match o {
        Some(s) => Some(s@),
        None => None,
    }
}

impl View for ParsedElement {
    type V = ElementView;

    open spec fn view(&self) -> ElementView {
        ElementView {
            tag: self.tag@,
            element_id: opt_view(self.element_id),
            class_name: opt_view(self.class_name),
            attributes: self.attributes@,
            text: self.text@,
            path: self.path@,
        }
    }
}

/// The optional string made of the optional characters `o`.
fn opt_string(o: Option<Vec<char>>) -> (r: Option<String>)
    ensures
        opt_view(r) == match o {
            Some(v) => Some(v@),
            None => None::<Seq<char>>,
        },
{
    match o {
        Some(v) => Some(text::string_of(&v)),
        None => None,
    }
}

// ---------------------------------------------------------------------------
// Tags.
// ---------------------------------------------------------------------------

/// The attributes of the opening tag whose text (between `<` and `>`) is
/// `tag_slice`, as written: what follows its name, without surrounding
/// whitespace and without the `/` that closes a self-closing tag.
pub open spec fn attributes_of_tag(tag_slice: Seq<char>) -> Seq<char> {
    text::trim(text::trim_end_char(text::trim(text::after_first_word(tag_slice)), '/'))
}

fn attributes_chars(tag_slice: &[char]) -> (r: Vec<char>)
    ensures
        r@ == attributes_of_tag(tag_slice@),
{
    let after = text::after_first_word_exec(tag_slice);
    let trimmed = text::trim_exec(&after);
    let unslashed = text::trim_end_char_exec(&trimmed, '/');
    text::trim_exec(&unslashed)
}

/// The name of the element that the text between `<` and `>` opens: its first
/// word without trailing `/`, lowercased.
pub open spec fn tag_name_of(tag_slice: Seq<char>) -> Seq<char> {
    text::str_to_lowercase(text::trim_end_char(text::first_word(tag_slice), '/'))
}

/// The name of the element that the text between `<` and `>` of a closing tag
/// (`/name ...`) closes, lowercased.
pub open spec fn closing_name_of(tag_slice: Seq<char>) -> Seq<char> {
    text::str_to_lowercase(text::first_word(text::trim_start_char(tag_slice, '/')))
}

/// HTML elements that have no content and no closing tag.
pub open spec fn is_void_name(name: Seq<char>) -> bool {
    ||| name == "area"@
    ||| name == "base"@
    ||| name == "br"@
    ||| name == "col"@
    ||| name == "embed"@
    ||| name == "hr"@
    ||| name == "img"@
    ||| name == "input"@
    ||| name == "link"@
    ||| name == "meta"@
    ||| name == "source"@
    ||| name == "track"@
    ||| name == "wbr"@
}

fn name_is(name: &[char], lit: &str) -> (r: bool)
    ensures
        r == (name@ == lit@),
{
    let l = text::chars_of(lit);
    text::chars_eq(name, &l)
}

fn tag_name_chars(tag_slice: &[char]) -> (r: Vec<char>)
    ensures
        r@ == tag_name_of(tag_slice@),
{
    let w = text::first_word_exec(tag_slice);
    let t = text::trim_end_char_exec(&w, '/');
    text::lowercase(&t)
}

fn closing_name_chars(tag_slice: &[char]) -> (r: Vec<char>)
    ensures
        r@ == closing_name_of(tag_slice@),
{
    let t = text::trim_start_char_exec(tag_slice, '/');
    let w = text::first_word_exec(&t);
    text::lowercase(&w)
}

fn is_void_name_exec(name: &[char]) -> (r: bool)
    ensures
        r == is_void_name(name@),
{
    name_is(name, "area") || name_is(name, "base") || name_is(name, "br") || name_is(name, "col")
        || name_is(name, "embed") || name_is(name, "hr") || name_is(name, "img") || name_is(
        name,
        "input",
    ) || name_is(name, "link") || name_is(name, "meta") || name_is(name, "source") || name_is(
        name,
        "track",
    ) || name_is(name, "wbr")
}

/// Whether the text between `<` and `>` opens a void element (one without
/// a closing tag, such as `br` or `img`).
pub fn is_void_tag(tag_slice: &str) -> (r: bool)
    ensures
        r == is_void_name(tag_name_of(tag_slice@)),
{
    let t = text::chars_of(tag_slice);
    let name = tag_name_chars(&t);
    is_void_name_exec(&name)
}

// ---------------------------------------------------------------------------
// Attributes.
// ---------------------------------------------------------------------------

/// The value of the first `name="..."` or `name='...'` in `tag`, trimmed.
/// The search is plain: `data-id=` also holds `id=`.
pub open spec fn attr_value(tag: Seq<char>, name: Seq<char>) -> Option<Seq<char>> {
    let needle = name + seq!['='];
    match text::find(tag, needle) {
        None => None,
        Some(p) => {
            let rest = tag.skip((p + needle.len()) as int);
            if rest.len() == 0 {
                None
            } else if rest[0] != '"' && rest[0] != '\'' {
                None
            } else {
                match text::find(rest.skip(1), seq![rest[0]]) {
                    None => None,
                    Some(e) => Some(text::trim(rest.subrange(1, e + 1 as int))),
                }
            }
        }
    }
}

fn attr_value_chars(tag: &[char], name: &[char]) -> (r: Option<Vec<char>>)
    ensures
        match r {
            Some(v) => attr_value(tag@, name@) == Some(v@),
            None => attr_value(tag@, name@) is None,
        },
{
    let eq = vec!['='];
    let needle = text::concat(name, &eq);
    assert(needle@ == name@ + seq!['=']);
    proof {
        text::lemma_find_from(tag@, needle@, 0);
    }
    let found = text::find_from_exec(tag, &needle, 0);
    let p = match found {
        Some(p) => p,
        None => {
            return None;
        },
    };
    assert(found == Some(p));
    let tlen = tag.len();
    let nlen = needle.len();
    assert(p + nlen <= tlen);
    let start = p + nlen;
    let rest = text::copy_range(tag, start, tag.len());
    assert(rest@ =~= tag@.skip(start as int));
    if rest.len() == 0 {
        return None;
    }
    let quote = rest[0];
    if quote != '"' && quote != '\'' {
        return None;
    }
    let after = text::copy_range(&rest, 1, rest.len());
    assert(after@ =~= rest@.skip(1));
    let q = vec![quote];
    assert(q@ =~= seq![rest@[0]]);
    proof {
        text::lemma_find_from(after@, q@, 0);
    }
    let e = match text::find_from_exec(&after, &q, 0) {
        Some(e) => e,
        None => {
            return None;
        },
    };
    let inner = text::copy_range(&rest, 1, e + 1);
    Some(text::trim_exec(&inner))
}

/// The value of attribute `name` in the text `tag` of an opening tag:
/// what follows the first `name=` when it is quoted, trimmed.
pub fn extract_attr(tag: &str, name: &str) -> (r: Option<String>)
    ensures
        opt_view(r) == attr_value(tag@, name@),
{
    let t = text::chars_of(tag);
    let n = text::chars_of(name);
    opt_string(attr_value_chars(&t, &n))
}

/// The `id` and `class` of an opening tag, read from its lowercased text.
pub open spec fn attrs_of(tag_slice: Seq<char>) -> (Option<Seq<char>>, Option<Seq<char>>) {
    let lower = text::str_to_lowercase(tag_slice);
    (attr_value(lower, "id"@), attr_value(lower, "class"@))
}

fn parse_attrs(tag_slice: &[char]) -> (r: (Option<Vec<char>>, Option<Vec<char>>))
    ensures
        attrs_of(tag_slice@) == (
            match r.0 {
                Some(v) => Some(v@),
                None => None::<Seq<char>>,
            },
            match r.1 {
                Some(v) => Some(v@),
                None => None::<Seq<char>>,
            },
        ),
{
    let lower = text::lowercase(tag_slice);
    let id = text::chars_of("id");
    let class = text::chars_of("class");
    (attr_value_chars(&lower, &id), attr_value_chars(&lower, &class))
}


// ---------------------------------------------------------------------------
// The stack of open elements.
// ---------------------------------------------------------------------------

/// An open element: its name and its position among its siblings of that name.
pub type OpenTag = (Seq<char>, nat);

/// The mathematical content of the scanner's stack of open elements.
pub open spec fn stack_view(st: Seq<(Vec<char>, usize)>) -> Seq<OpenTag> {
    st.map_values(|e: (Vec<char>, usize)| (e.0@, e.1 as nat))
}

/// The stack after an element named `tag` opens, and its sibling number: one
/// more than the top entry's when the top entry has the same name, else 1.
pub open spec fn bump_tag(stack: Seq<OpenTag>, tag: Seq<char>) -> (Seq<OpenTag>, nat) {
    if stack.len() > 0 && stack.last().0 == tag {
        let n = stack.last().1 + 1;
        (stack.update(stack.len() - 1, (tag, n)), n)
    } else {
        (stack, 1)
    }
}

/// Position of the last entry named `tag`.
pub open spec fn last_index_of(stack: Seq<OpenTag>, tag: Seq<char>) -> Option<nat>
    decreases stack.len(),
{
    if stack.len() == 0 {
        None
    } else if stack.last().0 == tag {
        Some((stack.len() - 1) as nat)
    } else {
        last_index_of(stack.drop_last(), tag)
    }
}

/// The stack after `tag` closes: everything from its last entry on is removed;
/// a name that is not open leaves the stack as it is.
pub open spec fn close_tag(stack: Seq<OpenTag>, tag: Seq<char>) -> Seq<OpenTag> {
    match last_index_of(stack, tag) {
        Some(p) => stack.take(p as int),
        None => stack,
    }
}

proof fn lemma_last_index_of_at(stack: Seq<OpenTag>, t: Seq<char>, p: int)
    requires
        0 <= p < stack.len(),
        stack[p].0 == t,
        forall|j: int| p < j < stack.len() ==> #[trigger] stack[j].0 != t,
    ensures
        last_index_of(stack, t) == Some(p as nat),
    decreases stack.len(),
{
    if p < stack.len() - 1 {
        let d = stack.drop_last();
        assert(stack.last() == stack[stack.len() - 1]);
        assert forall|j: int| p < j < d.len() implies #[trigger] d[j].0 != t by {
            assert(d[j] == stack[j]);
        }
        lemma_last_index_of_at(d, t, p);
    }
}

proof fn lemma_last_index_of_none(stack: Seq<OpenTag>, t: Seq<char>)
    requires
        forall|j: int| 0 <= j < stack.len() ==> #[trigger] stack[j].0 != t,
    ensures
        last_index_of(stack, t) is None,
    decreases stack.len(),
{
    if stack.len() > 0 {
        let d = stack.drop_last();
        assert(stack.last() == stack[stack.len() - 1]);
        assert forall|j: int| 0 <= j < d.len() implies #[trigger] d[j].0 != t by {
            assert(d[j] == stack[j]);
        }
        lemma_last_index_of_none(d, t);
    }
}

/// A closing tag whose name is open anywhere in the stack removes the last
/// open element of that name and every element opened after it, whatever
/// element is innermost.
pub proof fn lemma_close_tag_closes_last_open(stack: Seq<OpenTag>, t: Seq<char>, p: int)
    requires
        0 <= p < stack.len(),
        stack[p].0 == t,
        forall|j: int| p < j < stack.len() ==> #[trigger] stack[j].0 != t,
    ensures
        close_tag(stack, t) == stack.take(p),
{
    lemma_last_index_of_at(stack, t, p);
}

/// A closing tag whose name is not open leaves the stack as it is.
pub proof fn lemma_close_tag_not_open(stack: Seq<OpenTag>, t: Seq<char>)
    requires
        forall|j: int| 0 <= j < stack.len() ==> #[trigger] stack[j].0 != t,
    ensures
        close_tag(stack, t) == stack,
{
    lemma_last_index_of_none(stack, t);
}

/// `name[n]` for one open element.
pub open spec fn path_segment(e: OpenTag) -> Seq<char> {
    e.0 + seq!['['] + text::decimal(e.1) + seq![']']
}

/// The segments of the stack joined by `>`.
pub open spec fn join_segments(stack: Seq<OpenTag>) -> Seq<char>
    decreases stack.len(),
{
    if stack.len() == 0 {
        Seq::empty()
    } else if stack.len() == 1 {
        path_segment(stack[0])
    } else {
        join_segments(stack.drop_last()) + seq!['>'] + path_segment(stack.last())
    }
}

/// The position path of an element: `root` at top level, else the open
/// elements as `tag[n]` joined by `>`.
pub open spec fn path_of(stack: Seq<OpenTag>) -> Seq<char> {
    if stack.len() == 0 {
        "root"@
    } else {
        join_segments(stack)
    }
}

fn increment_tag(stack: &mut Vec<(Vec<char>, usize)>, tag: &[char]) -> (r: usize)
    requires
        forall|k: int| 0 <= k < old(stack)@.len() ==> old(stack)@[k].1 < usize::MAX,
    ensures
        (stack_view(final(stack)@), r as nat) == bump_tag(stack_view(old(stack)@), tag@),
        final(stack)@.len() == old(stack)@.len(),
        forall|k: int|
            0 <= k < final(stack)@.len() ==> final(stack)@[k].1 <= old(stack)@[k].1 + 1,
        forall|k: int|
            0 <= k < final(stack)@.len() - 1 ==> final(stack)@[k] == old(stack)@[k],
{
    let n = stack.len();
    if n > 0 && text::chars_eq(&stack[n - 1].0, tag) {
        let (t, count) = stack.pop().unwrap();
        let next = count + 1;
        stack.push((t, next));
        proof {
            assert(stack_view(stack@) =~= stack_view(old(stack)@).update(
                n - 1,
                (tag@, next as nat),
            ));
        }
        next
    } else {
        1
    }
}

fn pop_tag(stack: &mut Vec<(Vec<char>, usize)>, tag: &[char])
    ensures
        stack_view(final(stack)@) == close_tag(stack_view(old(stack)@), tag@),
        final(stack)@.len() <= old(stack)@.len(),
        forall|k: int| 0 <= k < final(stack)@.len() ==> final(stack)@[k] == old(stack)@[k],
{
    let ghost sv = stack_view(stack@);
    let mut i = stack.len();
    assert(sv.take(i as int) =~= sv);
    while i > 0 && !text::chars_eq(&stack[i - 1].0, tag)
        invariant
            i <= stack@.len(),
            sv == stack_view(stack@),
            stack@ == old(stack)@,
            last_index_of(sv, tag@) == last_index_of(sv.take(i as int), tag@),
        decreases i,
    {
        assert(sv.take(i as int).drop_last() =~= sv.take(i - 1));
        i = i - 1;
    }
    if i > 0 {
        assert(sv.take(i as int).last() == sv[i - 1]);
        stack.truncate(i - 1);
        assert(stack_view(stack@) =~= sv.take(i - 1));
    } else {
        assert(sv.take(0) =~= Seq::<OpenTag>::empty());
    }
}

fn format_path(stack: &Vec<(Vec<char>, usize)>) -> (r: Vec<char>)
    ensures
        r@ == path_of(stack_view(stack@)),
{
    if stack.len() == 0 {
        return text::chars_of("root");
    }
    let ghost sv = stack_view(stack@);
    let mut out: Vec<char> = Vec::new();
    let mut i: usize = 0;
    while i < stack.len()
        invariant
            i <= stack@.len(),
            stack@.len() > 0,
            sv == stack_view(stack@),
            out@ == join_segments(sv.take(i as int)),
        decreases stack@.len() - i,
    {
        let ghost before = out@;
        if i > 0 {
            out.push('>');
        }
        let name = &stack[i].0;
        let mut j: usize = 0;
        let ghost mid = out@;
        while j < name.len()
            invariant
                j <= name@.len(),
                out@ == mid + name@.take(j as int),
            decreases name@.len() - j,
        {
            out.push(name[j]);
            j = j + 1;
            assert(out@ =~= mid + name@.take(j as int));
        }
        out.push('[');
        text::push_decimal(&mut out, stack[i].1);
        out.push(']');
        proof {
            let next = sv.take(i + 1);
            assert(name@.take(name@.len() as int) =~= name@);
            assert(next.drop_last() =~= sv.take(i as int));
            assert(next.last() == sv[i as int]);
            if i == 0 {
                assert(out@ =~= path_segment(sv[0]));
            } else {
                assert(out@ =~= before + seq!['>'] + path_segment(sv[i as int]));
            }
        }
        i = i + 1;
    }
    assert(sv.take(i as int) =~= sv);
    out
}

// ---------------------------------------------------------------------------
// Text.
// ---------------------------------------------------------------------------

/// The first `max` characters of `t`.
pub open spec fn truncate(t: Seq<char>, max: nat) -> Seq<char> {
    if t.len() <= max {
        t
    } else {
        t.take(max as int)
    }
}

fn truncate_chars(t: Vec<char>, max: usize) -> (r: Vec<char>)
    ensures
        r@ == truncate(t@, max as nat),
{
    if t.len() <= max {
        t
    } else {
        text::copy_range(&t, 0, max)
    }
}

/// `text` cut to its first `max` characters.
pub fn truncate_text(text: String, max: usize) -> (r: String)
    ensures
        r@ == truncate(text@, max as nat),
{
    let t = text::chars_of(text.as_str());
    let cut = truncate_chars(t, max);
    text::string_of(&cut)
}

/// The closing tag `</tag>`.
pub open spec fn closing_tag(tag: Seq<char>) -> Seq<char> {
    seq!['<', '/'] + tag + seq!['>']
}

/// Where the text of an element named `tag` ends, in bytes of `rest` (what
/// follows its opening tag): where `</tag>` starts in the lowercased `rest`,
/// else at byte `max_chars`.
pub open spec fn inner_end(rest: Seq<char>, tag: Seq<char>, max_chars: nat) -> nat {
    let lower = text::str_to_lowercase(rest);
    match text::find(lower, closing_tag(tag)) {
        Some(k) => text::utf8_len(lower.take(k as int)),
        None => max_chars,
    }
}

/// Cutting `rest` at [`inner_end`] does not panic: that byte is past the end
/// of `rest` (which is then kept whole) or starts a character.
pub open spec fn inner_cut_ok(rest: Seq<char>, tag: Seq<char>, max_chars: nat) -> bool {
    let n = inner_end(rest, tag, max_chars);
    text::utf8_len(rest) <= n || text::is_char_boundary(rest, n)
}

/// The visible text of an element named `tag` followed by `rest`: `rest` up
/// to byte [`inner_end`] (all of it when it is shorter), markup removed and
/// whitespace collapsed.
pub open spec fn inner_text_of(rest: Seq<char>, tag: Seq<char>, max_chars: nat) -> Seq<char> {
    let raw = rest.take(text::chars_in_bytes(rest, inner_end(rest, tag, max_chars)) as int);
    text::collapse_whitespace(text::strip_tags(raw))
}

/// What follows byte `from` of `html`; nothing when `from` is past the end
/// or inside a character.
pub open spec fn text_after(html: Seq<char>, from: nat) -> Seq<char> {
    if text::is_char_boundary(html, from) {
        html.skip(text::chars_in_bytes(html, from) as int)
    } else {
        Seq::empty()
    }
}

fn inner_text_chars(rest: &[char], tag: &[char], max_chars: usize) -> (r: Option<Vec<char>>)
    ensures
        match r {
            Some(v) => inner_cut_ok(rest@, tag@, max_chars as nat) && v@ == inner_text_of(
                rest@,
                tag@,
                max_chars as nat,
            ),
            None => !inner_cut_ok(rest@, tag@, max_chars as nat),
        },
{
    let open = vec!['<', '/'];
    let gt = vec!['>'];
    let t1 = text::concat(&open, tag);
    let close = text::concat(&t1, &gt);
    assert(close@ =~= closing_tag(tag@));
    let lower = text::lowercase(rest);
    let n: u128 = match text::find_from_exec(&lower, &close, 0) {
        Some(k) => text::utf8_prefix_len(&lower, k),
        None => max_chars as u128,
    };
    assert(n == inner_end(rest@, tag@, max_chars as nat));
    let total = text::utf8_prefix_len(rest, rest.len());
    assert(rest@.take(rest@.len() as int) =~= rest@);
    let (k, bytes) = text::chars_within(rest, n);
    if !(total <= n || bytes == n) {
        return None;
    }
    let raw = text::copy_range(rest, 0, k);
    assert(raw@ =~= rest@.take(k as int));
    let stripped = text::strip_tags_exec(&raw);
    Some(text::collapse_whitespace_exec(&stripped))
}

/// The visible text of the element named `tag` whose opening tag ends just
/// before byte `from` of `html`, as [`inner_text_of`] states it for what
/// follows that byte, where [`inner_cut_ok`] holds of it; `None` where the
/// cut would fall inside a character.
pub fn try_extract_inner_text(html: &str, from: usize, tag: &str, max_chars: usize) -> (r: Option<
    String,
>)
    ensures
        match r {
            Some(t) => inner_cut_ok(text_after(html@, from as nat), tag@, max_chars as nat) && t@
                == inner_text_of(text_after(html@, from as nat), tag@, max_chars as nat),
            None => !inner_cut_ok(text_after(html@, from as nat), tag@, max_chars as nat),
        },
{
    let h = text::chars_of(html);
    let t = text::chars_of(tag);
    let (k, bytes) = text::chars_within(&h, from as u128);
    let rest = if bytes == from as u128 {
        text::copy_range(&h, k, h.len())
    } else {
        Vec::new()
    };
    assert(rest@ =~= text_after(html@, from as nat));
    match inner_text_chars(&rest, &t, max_chars) {
        Some(v) => Some(text::string_of(&v)),
        None => None,
    }
}

/// The visible text of the element named `tag` whose opening tag ends just
/// before byte `from` of `html`, as [`inner_text_of`] states it for what
/// follows that byte.
pub fn extract_inner_text(html: &str, from: usize, tag: &str, max_chars: usize) -> (r: String)
    requires
        inner_cut_ok(text_after(html@, from as nat), tag@, max_chars as nat),
    ensures
        r@ == inner_text_of(text_after(html@, from as nat), tag@, max_chars as nat),
{
    match try_extract_inner_text(html, from, tag, max_chars) {
        Some(t) => t,
        None => String::new(),
    }
}

/// `input` without `<...>` markup.
pub fn strip_tags(input: &str) -> (r: String)
    ensures
        r@ == text::strip_tags(input@),
{
    let t = text::chars_of(input);
    let r = text::strip_tags_exec(&t);
    text::string_of(&r)
}

/// Byte at which the first `<title` of the lowercased page starts.
pub open spec fn title_start(html: Seq<char>) -> Option<nat> {
    let lower = text::str_to_lowercase(html);
    match text::find(lower, "<title"@) {
        None => None,
        Some(p) => Some(text::utf8_len(lower.take(p as int))),
    }
}

/// Slicing the page at [`title_start`] does not panic.
pub open spec fn title_ok(html: Seq<char>) -> bool {
    title_start(html) matches Some(b) ==> text::is_char_boundary(html, b)
}

/// The page title: the trimmed text between the `>` that ends the first
/// `<title` tag (found in the lowercased page, at the same byte of the page)
/// and the next `</title>`.
pub open spec fn title_of(html: Seq<char>) -> Option<Seq<char>> {
    match title_start(html) {
        None => None,
        Some(b) => {
            let after = html.skip(text::chars_in_bytes(html, b) as int);
            match text::find(after, seq!['>']) {
                None => None,
                Some(g) => match text::find(after.skip(g + 1 as int), "</title>"@) {
                    None => None,
                    Some(e) => Some(text::trim(after.subrange(g + 1 as int, g + 1 + e as int))),
                },
            }
        },
    }
}

fn title_chars(html: &[char]) -> (r: Option<Option<Vec<char>>>)
    ensures
        match r {
            Some(Some(v)) => title_ok(html@) && title_of(html@) == Some(v@),
            Some(None) => title_ok(html@) && title_of(html@) is None,
            None => !title_ok(html@),
        },
{
    let lower = text::lowercase(html);
    let open = text::chars_of("<title");
    let p = match text::find_from_exec(&lower, &open, 0) {
        Some(k) => k,
        None => {
            return Some(None);
        },
    };
    let b = text::utf8_prefix_len(&lower, p);
    let (start, bytes) = text::chars_within(html, b);
    if bytes != b {
        return None;
    }
    let after = text::copy_range(html, start, html.len());
    assert(after@ =~= html@.skip(start as int));
    let gt_pat = vec!['>'];
    assert(gt_pat@ =~= seq!['>']);
    let g = match text::find_from_exec(&after, &gt_pat, 0) {
        Some(g) => g,
        None => {
            return Some(None);
        },
    };
    let rest = text::copy_range(&after, g + 1, after.len());
    assert(rest@ =~= after@.skip(g + 1));
    let close = text::chars_of("</title>");
    let e = match text::find_from_exec(&rest, &close, 0) {
        Some(e) => e,
        None => {
            return Some(None);
        },
    };
    let inner = text::copy_range(&after, g + 1, g + 1 + e);
    Some(Some(text::trim_exec(&inner)))
}

/// The page title, as [`title_of`] states it, where [`title_ok`] holds;
/// `None` where slicing the page at its `<title` would cut a character.
pub fn try_extract_title(html: &str) -> (r: Option<Option<String>>)
    ensures
        match r {
            Some(t) => title_ok(html@) && opt_view(t) == title_of(html@),
            None => !title_ok(html@),
        },
{
    let h = text::chars_of(html);
    match title_chars(&h) {
        Some(t) => Some(opt_string(t)),
        None => None,
    }
}

/// The page title, as [`title_of`] states it.
pub fn extract_title(html: &str) -> (r: Option<String>)
    requires
        title_ok(html@),
    ensures
        opt_view(r) == title_of(html@),
{
    match try_extract_title(html) {
        Some(t) => t,
        None => None,
    }
}


// ---------------------------------------------------------------------------
// The scanner.
// ---------------------------------------------------------------------------

/// Longest visible text kept per element, in characters.
pub const MAX_TEXT_CHARS: usize = 240;

/// The contents of a list of elements.
pub open spec fn elements_view(v: Seq<ParsedElement>) -> Seq<ElementView> {
    v.map_values(|e: ParsedElement| e@)
}

/// The element recorded for an opening tag whose text (between `<` and `>`)
/// is `tag_slice`, ending at position `end` of `html`, when `found` elements
/// are already recorded and `stack` is open.
pub open spec fn element_for(
    html: Seq<char>,
    max: nat,
    found: nat,
    stack: Seq<OpenTag>,
    tag_slice: Seq<char>,
    end: nat,
) -> ElementView {
    let name = tag_name_of(tag_slice);
    let attrs = attrs_of(tag_slice);
    ElementView {
        tag: name,
        element_id: attrs.0,
        class_name: attrs.1,
        attributes: attributes_of_tag(tag_slice),
        text: truncate(
            inner_text_of(html.skip(end + 1 as int), name, (max - found) as nat),
            MAX_TEXT_CHARS as nat,
        ),
        path: path_of(bump_tag(stack, name).0),
    }
}

/// Whether an opening tag closes itself: it ends in `/` or opens a void element.
pub open spec fn self_closing(tag_slice: Seq<char>) -> bool {
    (tag_slice.len() > 0 && tag_slice.last() == '/') || is_void_name(tag_name_of(tag_slice))
}

/// The scan of `html` from position `i`, with `out` recorded so far and
/// `stack` open: each `<...>` is read in turn; comments, declarations and
/// processing instructions are skipped, a closing tag closes its element,
/// `script`, `style` and nameless tags are skipped, and any other tag records
/// an element. It stops at the end of the text, at a `<` with no `>` after
/// it, or once `max` elements are recorded. It is `None` where cutting the
/// text of an element would slice inside a character (see [`inner_cut_ok`]).
pub open spec fn scan(
    html: Seq<char>,
    max: nat,
    i: nat,
    out: Seq<ElementView>,
    stack: Seq<OpenTag>,
) -> Option<Seq<ElementView>>
    decreases html.len() + 1 - i,
{
    if i >= html.len() || out.len() >= max {
        Some(out)
    } else if html[i as int] != '<' {
        scan(html, max, i + 1, out, stack)
    } else {
        match text::find_from(html, seq!['>'], i) {
            None => Some(out),
            Some(end) => if i < end < html.len() {
                let tag_slice = html.subrange(i + 1 as int, end as int);
                if tag_slice.len() > 0 && (tag_slice[0] == '!' || tag_slice[0] == '?'
                    || tag_slice[0] == '/') {
                    let next_stack = if tag_slice[0] == '/' {
                        close_tag(stack, closing_name_of(tag_slice))
                    } else {
                        stack
                    };
                    scan(html, max, end + 1, out, next_stack)
                } else {
                    let name = tag_name_of(tag_slice);
                    if name.len() == 0 || name == "script"@ || name == "style"@ {
                        scan(html, max, end + 1, out, stack)
                    } else if !inner_cut_ok(html.skip(end + 1 as int), name, (max - out.len()) as nat) {
                        None
                    } else {
                        let (bumped, idx) = bump_tag(stack, name);
                        let el = element_for(html, max, out.len(), stack, tag_slice, end);
                        let next_stack = if self_closing(tag_slice) {
                            bumped
                        } else {
                            bumped.push((name, idx))
                        };
                        scan(html, max, end + 1, out.push(el), next_stack)
                    }
                }
            } else {
                Some(out)
            },
        }
    }
}

/// The elements of `html`, at most `max` of them, in document order; `None`
/// where the scan would slice inside a character.
pub open spec fn dom_elements(html: Seq<char>, max: nat) -> Option<Seq<ElementView>> {
    scan(html, max, 0, Seq::empty(), Seq::empty())
}

fn parse_dom_chars(s: &[char], max_elements: usize) -> (r: Option<Vec<ParsedElement>>)
    ensures
        match r {
            Some(v) => dom_elements(s@, max_elements as nat) == Some(elements_view(v@)),
            None => dom_elements(s@, max_elements as nat) is None,
        },
{
    let mut out: Vec<ParsedElement> = Vec::new();
    let mut stack: Vec<(Vec<char>, usize)> = Vec::new();
    let mut i: usize = 0;
    let gt = vec!['>'];
    assert(gt@ =~= seq!['>']);
    assert(elements_view(out@) =~= Seq::<ElementView>::empty());
    assert(stack_view(stack@) =~= Seq::<OpenTag>::empty());
    while i < s.len() && out.len() < max_elements
        invariant
            i <= s@.len(),
            gt@ == seq!['>'],
            out@.len() <= max_elements,
            dom_elements(s@, max_elements as nat) == scan(
                s@,
                max_elements as nat,
                i as nat,
                elements_view(out@),
                stack_view(stack@),
            ),
            forall|k: int| 0 <= k < stack@.len() ==> stack@[k].1 <= out@.len(),
        ensures
            dom_elements(s@, max_elements as nat) == Some(elements_view(out@)),
        decreases s@.len() - i,
    {
        let ghost outv = elements_view(out@);
        let ghost sv = stack_view(stack@);
        if s[i] != '<' {
            i = i + 1;
            continue ;
        }
        let end = match text::find_from_exec(s, &gt, i) {
            Some(e) => e,
            None => {
                break ;
            },
        };
        proof {
            text::lemma_find_from(s@, gt@, i as nat);
            assert(s@.subrange(end as int, end + 1)[0] == s@[end as int]);
        }
        assert(i < end);
        let tag_slice = text::copy_range(s, i + 1, end);
        if tag_slice.len() > 0 && (tag_slice[0] == '!' || tag_slice[0] == '?' || tag_slice[0]
            == '/') {
            if tag_slice[0] == '/' {
                let name = closing_name_chars(&tag_slice);
                pop_tag(&mut stack, &name);
            }
            i = end + 1;
            continue ;
        }
        let name = tag_name_chars(&tag_slice);
        if name.len() == 0 || name_is(&name, "script") || name_is(&name, "style") {
            i = end + 1;
            continue ;
        }
        let remaining = max_elements - out.len();
        let rest = text::copy_range(s, end + 1, s.len());
        assert(rest@ =~= s@.skip(end + 1));
        let raw_text = match inner_text_chars(&rest, &name, remaining) {
            Some(t) => t,
            None => {
                return None;
            },
        };
        let attrs = parse_attrs(&tag_slice);
        let idx = increment_tag(&mut stack, &name);
        let path = format_path(&stack);
        let text = truncate_chars(raw_text, MAX_TEXT_CHARS);
        let closes_itself = (tag_slice.len() > 0 && tag_slice[tag_slice.len() - 1] == '/')
            || is_void_name_exec(&name);
        let el = ParsedElement {
            tag: text::string_of(&name),
            element_id: opt_string(attrs.0),
            class_name: opt_string(attrs.1),
            attributes: text::string_of(&attributes_chars(&tag_slice)),
            text: text::string_of(&text),
            path: text::string_of(&path),
        };
        assert(el@ =~= element_for(s@, max_elements as nat, outv.len(), sv, tag_slice@, end as nat));
        out.push(el);
        assert(elements_view(out@) =~= outv.push(el@));
        if !closes_itself {
            let ghost bumped = stack_view(stack@);
            stack.push((name, idx));
            assert(stack_view(stack@) =~= bumped.push((name@, idx as nat)));
        }
        i = end + 1;
    }
    Some(out)
}

/// The elements of the page `html`, at most `max_elements` of them, in
/// document order, as [`dom_elements`] states it; `None` exactly where the
/// scan would slice inside a character.
pub fn try_parse_dom_elements(html: &str, max_elements: usize) -> (r: Option<Vec<ParsedElement>>)
    ensures
        match r {
            Some(v) => {
                &&& dom_elements(html@, max_elements as nat) == Some(elements_view(v@))
                &&& v@.len() <= max_elements
                &&& forall|k: int| 0 <= k < v@.len() ==> well_formed_element(#[trigger] v@[k]@)
            },
            None => dom_elements(html@, max_elements as nat) is None,
        },
{
    let h = text::chars_of(html);
    let r = parse_dom_chars(&h, max_elements);
    proof {
        lemma_dom_elements(html@, max_elements as nat);
        if r is Some {
            let v = r->0;
            assert forall|k: int| 0 <= k < v@.len() implies well_formed_element(#[trigger] v@[k]@) by {
                assert(elements_view(v@)[k] == v@[k]@);
            }
        }
    }
    r
}

/// The elements of the page `html`, at most `max_elements` of them, in
/// document order, as [`dom_elements`] states it.
pub fn parse_dom_elements(html: &str, max_elements: usize) -> (r: Vec<ParsedElement>)
    requires
        dom_elements(html@, max_elements as nat) is Some,
    ensures
        dom_elements(html@, max_elements as nat) == Some(elements_view(r@)),
        r@.len() <= max_elements,
        forall|k: int| 0 <= k < r@.len() ==> well_formed_element(#[trigger] r@[k]@),
{
    match try_parse_dom_elements(html, max_elements) {
        Some(v) => v,
        None => Vec::new(),
    }
}

/// What every recorded element satisfies: it has a name, it is neither a
/// `script` nor a `style`, and its text is at most [`MAX_TEXT_CHARS`] long.
pub open spec fn well_formed_element(e: ElementView) -> bool {
    &&& e.tag.len() > 0
    &&& e.tag != "script"@
    &&& e.tag != "style"@
    &&& e.text.len() <= MAX_TEXT_CHARS
}

proof fn lemma_scan(html: Seq<char>, max: nat, i: nat, out: Seq<ElementView>, stack: Seq<OpenTag>)
    requires
        out.len() <= max,
        forall|k: int| 0 <= k < out.len() ==> well_formed_element(#[trigger] out[k]),
    ensures
        scan(html, max, i, out, stack) matches Some(r) ==> {
            &&& r.len() <= max
            &&& out.len() <= r.len()
            &&& r.take(out.len() as int) == out
            &&& forall|k: int| 0 <= k < r.len() ==> well_formed_element(#[trigger] r[k])
        },
    decreases html.len() + 1 - i,
{
    if i >= html.len() || out.len() >= max {
        assert(out.take(out.len() as int) =~= out);
    } else if html[i as int] != '<' {
        lemma_scan(html, max, i + 1, out, stack);
    } else {
        match text::find_from(html, seq!['>'], i) {
            None => {
                assert(out.take(out.len() as int) =~= out);
            },
            Some(end) => {
                if i < end < html.len() {
                    let tag_slice = html.subrange(i + 1 as int, end as int);
                    if tag_slice.len() > 0 && (tag_slice[0] == '!' || tag_slice[0] == '?'
                        || tag_slice[0] == '/') {
                        let next_stack = if tag_slice[0] == '/' {
                            close_tag(stack, closing_name_of(tag_slice))
                        } else {
                            stack
                        };
                        lemma_scan(html, max, end + 1, out, next_stack);
                    } else {
                        let name = tag_name_of(tag_slice);
                        if name.len() == 0 || name == "script"@ || name == "style"@ {
                            lemma_scan(html, max, end + 1, out, stack);
                        } else if !inner_cut_ok(html.skip(end + 1 as int), name, (max - out.len()) as nat) {
                        } else {
                            let (bumped, idx) = bump_tag(stack, name);
                            let el = element_for(html, max, out.len(), stack, tag_slice, end);
                            let next_stack = if self_closing(tag_slice) {
                                bumped
                            } else {
                                bumped.push((name, idx))
                            };
                            let out2 = out.push(el);
                            assert forall|k: int|
                                0 <= k < out2.len() implies well_formed_element(
                                #[trigger] out2[k],
                            ) by {
                                if k < out.len() {
                                    assert(out2[k] == out[k]);
                                }
                            }
                            lemma_scan(html, max, end + 1, out2, next_stack);
                            if let Some(r2) = scan(html, max, end + 1, out2, next_stack) {
                                assert(r2.take(out.len() as int) =~= r2.take(out2.len() as int).take(
                                    out.len() as int,
                                ));
                                assert(out2.take(out.len() as int) =~= out);
                            }
                        }
                    }
                } else {
                    assert(out.take(out.len() as int) =~= out);
                }
            },
        }
    }
}

/// The scan records at most `max` elements, each of them well formed.
pub proof fn lemma_dom_elements(html: Seq<char>, max: nat)
    ensures
        dom_elements(html, max) matches Some(r) ==> {
            &&& r.len() <= max
            &&& forall|k: int| 0 <= k < r.len() ==> well_formed_element(#[trigger] r[k])
        },
{
    lemma_scan(html, max, 0, Seq::empty(), Seq::empty());
}

/// What of a recorded element does not depend on the element limit: its
/// tag, id, class, attributes and path.
pub open spec fn element_shape(e: ElementView) -> (
    Seq<char>,
    Option<Seq<char>>,
    Option<Seq<char>>,
    Seq<char>,
    Seq<char>,
) {
    (e.tag, e.element_id, e.class_name, e.attributes, e.path)
}

/// The shapes of a list of elements.
pub open spec fn shapes(s: Seq<ElementView>) -> Seq<
    (Seq<char>, Option<Seq<char>>, Option<Seq<char>>, Seq<char>, Seq<char>),
> {
    s.map_values(|e: ElementView| element_shape(e))
}

/// Both scans completed, and the first recorded a prefix of the shapes the
/// second recorded.
pub open spec fn prefix_shapes(a: Option<Seq<ElementView>>, b: Option<Seq<ElementView>>) -> bool {
    match (a, b) {
        (Some(r1), Some(r2)) => r1.len() <= r2.len() && shapes(r1) == shapes(r2).take(
            r1.len() as int,
        ),
        _ => true,
    }
}

proof fn lemma_scan_limits(
    html: Seq<char>,
    m1: nat,
    m2: nat,
    i: nat,
    out1: Seq<ElementView>,
    out2: Seq<ElementView>,
    stack: Seq<OpenTag>,
)
    requires
        m1 <= m2,
        out1.len() == out2.len(),
        out1.len() <= m1,
        shapes(out1) == shapes(out2),
        forall|k: int| 0 <= k < out2.len() ==> well_formed_element(#[trigger] out2[k]),
    ensures
        prefix_shapes(scan(html, m1, i, out1, stack), scan(html, m2, i, out2, stack)),
    decreases html.len() + 1 - i,
{
    assert(shapes(out2).take(out1.len() as int) =~= shapes(out2));
    if i >= html.len() {
    } else if out1.len() >= m1 {
        lemma_scan(html, m2, i, out2, stack);
        if let Some(r2) = scan(html, m2, i, out2, stack) {
            assert(shapes(r2).take(out1.len() as int) =~= shapes(r2.take(out2.len() as int)));
        }
    } else if html[i as int] != '<' {
        lemma_scan_limits(html, m1, m2, i + 1, out1, out2, stack);
    } else {
        match text::find_from(html, seq!['>'], i) {
            None => {},
            Some(end) => {
                if i < end < html.len() {
                    let tag_slice = html.subrange(i + 1 as int, end as int);
                    if tag_slice.len() > 0 && (tag_slice[0] == '!' || tag_slice[0] == '?'
                        || tag_slice[0] == '/') {
                        let next_stack = if tag_slice[0] == '/' {
                            close_tag(stack, closing_name_of(tag_slice))
                        } else {
                            stack
                        };
                        lemma_scan_limits(html, m1, m2, end + 1, out1, out2, next_stack);
                    } else {
                        let name = tag_name_of(tag_slice);
                        if name.len() == 0 || name == "script"@ || name == "style"@ {
                            lemma_scan_limits(html, m1, m2, end + 1, out1, out2, stack);
                        } else if !inner_cut_ok(html.skip(end + 1 as int), name, (m1 - out1.len()) as nat)
                            || !inner_cut_ok(html.skip(end + 1 as int), name, (m2 - out2.len()) as nat) {
                        } else {
                            let (bumped, idx) = bump_tag(stack, name);
                            let el1 = element_for(html, m1, out1.len(), stack, tag_slice, end);
                            let el2 = element_for(html, m2, out2.len(), stack, tag_slice, end);
                            let next_stack = if self_closing(tag_slice) {
                                bumped
                            } else {
                                bumped.push((name, idx))
                            };
                            let n1 = out1.push(el1);
                            let n2 = out2.push(el2);
                            assert(shapes(n1) =~= shapes(out1).push(element_shape(el1)));
                            assert(shapes(n2) =~= shapes(out2).push(element_shape(el2)));
                            assert forall|k: int| 0 <= k < n2.len() implies well_formed_element(
                                #[trigger] n2[k],
                            ) by {
                                if k < out2.len() {
                                    assert(n2[k] == out2[k]);
                                }
                            }
                            lemma_scan_limits(html, m1, m2, end + 1, n1, n2, next_stack);
                        }
                    }
                }
            },
        }
    }
}

/// With a smaller element limit the scan records a prefix of what it records
/// with a larger one, tags, ids, classes, attributes and paths alike; only
/// the texts may differ, since without a closing tag an element's text is
/// bounded by the limit left.
pub proof fn lemma_limit_prefix(html: Seq<char>, m1: nat, m2: nat)
    requires
        m1 <= m2,
    ensures
        prefix_shapes(dom_elements(html, m1), dom_elements(html, m2)),
{
    assert(shapes(Seq::<ElementView>::empty()) =~= shapes(Seq::<ElementView>::empty()));
    lemma_scan_limits(html, m1, m2, 0, Seq::empty(), Seq::empty(), Seq::empty());
}

/// `url` with `http://` put in front unless it already starts with
/// `http://` or `https://`.
pub open spec fn normalized_url(url: Seq<char>) -> Seq<char> {
    if text::starts_with(url, "http://"@) || text::starts_with(url, "https://"@) {
        url
    } else {
        "http://"@ + url
    }
}

/// The URL to fetch for `url`: with `http://` in front when it has no
/// `http://` or `https://` scheme.
pub fn normalize_url(url: &str) -> (r: String)
    ensures
        r@ == normalized_url(url@),
{
    let u = text::chars_of(url);
    let http = text::chars_of("http://");
    let https = text::chars_of("https://");
    if text::starts_with_exec(&u, &http) || text::starts_with_exec(&u, &https) {
        text::string_of(&u)
    } else {
        let joined = text::concat(&http, &u);
        text::string_of(&joined)
    }
}

/// Normalizing a URL twice gives what normalizing it once gives.
pub proof fn lemma_normalize_url_idempotent(url: Seq<char>)
    ensures
        normalized_url(normalized_url(url)) == normalized_url(url),
{
    let p = "http://"@;
    assert((p + url).take(p.len() as int) =~= p);
}

/// Whether a `Content-Type` value allows the response to be indexed as HTML:
/// lowercased it mentions `html`, or it is empty.
pub open spec fn html_content_type(content_type: Seq<char>) -> bool {
    text::contains(text::str_to_lowercase(content_type), "html"@) || content_type.len() == 0
}

/// Whether a response with this `Content-Type` is indexed; the caller
/// refuses other responses as "URL did not return HTML".
pub fn is_html_content_type(content_type: &str) -> (r: bool)
    ensures
        r == html_content_type(content_type@),
{
    let c = text::chars_of(content_type);
    let lower = text::lowercase(&c);
    let html = text::chars_of("html");
    text::contains_exec(&lower, &html) || c.len() == 0
}


/// The SQL `LIKE` pattern a search uses: the trimmed query between `%` signs.
pub open spec fn like_pattern(query: Seq<char>) -> Seq<char> {
    seq!['%'] + text::trim(query) + seq!['%']
}

/// The `LIKE` pattern for a search of the index, as [`like_pattern`] states it.
pub fn search_pattern(query: &str) -> (r: String)
    ensures
        r@ == like_pattern(query@),
{
    let q = text::chars_of(query);
    let t = text::trim_exec(&q);
    let pct = vec!['%'];
    let a = text::concat(&pct, &t);
    let b = text::concat(&a, &pct);
    assert(pct@ =~= seq!['%']);
    text::string_of(&b)
}

} // verus!
