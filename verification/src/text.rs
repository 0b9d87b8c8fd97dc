//! Character-level text handling shared by the HTML scanner and the page
//! analysis: search, trimming, word splitting and tag stripping.

use vstd::prelude::*;
use vstd::std_specs::iter::IteratorSpec;

verus! {

// ---------------------------------------------------------------------------
// Lowercasing, whitespace and appending, as std does them.
// ---------------------------------------------------------------------------

/// The lowercase form of a string, as `str::to_lowercase` gives it
/// (Unicode `Lowercase` mapping, context-sensitive for a final sigma).
pub uninterp spec fn str_to_lowercase(s: Seq<char>) -> Seq<char>;

/// Whether `char::is_whitespace` holds of `c` (the Unicode `White_Space` property).
pub uninterp spec fn char_is_whitespace(c: char) -> bool;

/// `str::to_lowercase` on the string made of `s`. The contract claims only that
/// the result is the characters of `str::to_lowercase` applied to those of `s`.
#[verifier::external_body]
pub(crate) fn lowercase(s: &[char]) -> (r: Vec<char>)
    ensures
        r@ == str_to_lowercase(s@),
{
    let text: String = s.iter().collect();
    text.to_lowercase().chars().collect()
}

/// `char::is_whitespace`. The contract claims only that the result is the
/// value of that predicate on `c`.
#[verifier::external_body]
pub(crate) fn is_whitespace(c: char) -> (r: bool)
    ensures
        r == char_is_whitespace(c),
{
    c.is_whitespace()
}

/// `String::push`: the documentation says it appends `c` to the end of the string.
#[verifier::external_body]
fn push_char(s: &mut String, c: char)
    ensures
        final(s)@ == old(s)@.push(c),
{
    s.push(c)
}

// ---------------------------------------------------------------------------
// Conversions.
// ---------------------------------------------------------------------------

/// The characters of `s`, in order.
pub fn chars_of(s: &str) -> (r: Vec<char>)
    ensures
        r@ == s@,
{
    broadcast use vstd::string::axiom_spec_iter, vstd::string::next_postcondition;

    let mut it = s.chars();
    let mut out: Vec<char> = Vec::new();
    loop
        invariant
            out@ + it.remaining() == s@,
            it.obeys_prophetic_iter_laws(),
            it.decrease() is Some,
        ensures
            out@ == s@,
        decreases it.decrease()->0,
    {
        match it.next() {
            Some(c) => {
                out.push(c);
            },
            None => {
                break ;
            },
        }
    }
    out
}

/// The string made of the characters `s`.
pub fn string_of(s: &[char]) -> (r: String)
    ensures
        r@ == s@,
{
    let mut out = String::new();
    let mut i: usize = 0;
    while i < s.len()
        invariant
            i <= s.len(),
            out@ == s@.take(i as int),
        decreases s.len() - i,
    {
        push_char(&mut out, s[i]);
        i = i + 1;
        assert(out@ =~= s@.take(i as int));
    }
    assert(s@.take(i as int) =~= s@);
    out
}

/// Copy of `s[lo..hi]`.
pub fn copy_range(s: &[char], lo: usize, hi: usize) -> (r: Vec<char>)
    requires
        lo <= hi <= s.len(),
    ensures
        r@ == s@.subrange(lo as int, hi as int),
{
    let mut out: Vec<char> = Vec::new();
    let mut i: usize = lo;
    while i < hi
        invariant
            lo <= i <= hi <= s.len(),
            out@ == s@.subrange(lo as int, i as int),
        decreases hi - i,
    {
        out.push(s[i]);
        i = i + 1;
        assert(out@ =~= s@.subrange(lo as int, i as int));
    }
    out
}

/// Copy of `s` followed by `t`.
pub fn concat(s: &[char], t: &[char]) -> (r: Vec<char>)
    ensures
        r@ == s@ + t@,
{
    let mut out = copy_range(s, 0, s.len());
    let mut i: usize = 0;
    while i < t.len()
        invariant
            i <= t.len(),
            out@ == s@ + t@.take(i as int),
        decreases t.len() - i,
    {
        out.push(t[i]);
        i = i + 1;
        assert(out@ =~= s@ + t@.take(i as int));
    }
    assert(s@.subrange(0, s@.len() as int) =~= s@);
    assert(t@.take(t@.len() as int) =~= t@);
    out
}

/// Whether the two character sequences are equal.
pub fn chars_eq(a: &[char], b: &[char]) -> (r: bool)
    ensures
        r == (a@ == b@),
{
    if a.len() != b.len() {
        return false;
    }
    let mut i: usize = 0;
    while i < a.len()
        invariant
            a.len() == b.len(),
            i <= a.len(),
            forall|k: int| 0 <= k < i ==> a@[k] == b@[k],
        decreases a.len() - i,
    {
        if a[i] != b[i] {
            return false;
        }
        i = i + 1;
    }
    assert(a@ =~= b@);
    true
}

// ---------------------------------------------------------------------------
// Search.
// ---------------------------------------------------------------------------

/// `pat` occurs in `s` starting at position `i`.
pub open spec fn matches_at(s: Seq<char>, i: int, pat: Seq<char>) -> bool {
    0 <= i && i + pat.len() <= s.len() && s.subrange(i, i + pat.len()) == pat
}

/// First position at or after `from` where `pat` occurs in `s`.
pub open spec fn find_from(s: Seq<char>, pat: Seq<char>, from: nat) -> Option<nat>
    decreases s.len() + 1 - from,
{
    if from + pat.len() > s.len() {
        None
    } else if matches_at(s, from as int, pat) {
        Some(from)
    } else {
        find_from(s, pat, from + 1)
    }
}

/// First position where `pat` occurs in `s` (what `str::find` gives, in characters).
pub open spec fn find(s: Seq<char>, pat: Seq<char>) -> Option<nat> {
    find_from(s, pat, 0)
}

/// `pat` occurs somewhere in `s`.
pub open spec fn contains(s: Seq<char>, pat: Seq<char>) -> bool {
    find(s, pat) is Some
}

/// A position returned by the search is an occurrence, at or after `from`, with none before it.
pub proof fn lemma_find_from(s: Seq<char>, pat: Seq<char>, from: nat)
    ensures
        find_from(s, pat, from) matches Some(k) ==> {
            &&& from <= k
            &&& k + pat.len() <= s.len()
            &&& matches_at(s, k as int, pat)
            &&& forall|j: int| from <= j < k ==> !matches_at(s, j, pat)
        },
        find_from(s, pat, from) is None ==> forall|j: int|
            from <= j ==> !matches_at(s, j, pat),
    decreases s.len() + 1 - from,
{
    if from + pat.len() > s.len() {
    } else if matches_at(s, from as int, pat) {
    } else {
        lemma_find_from(s, pat, from + 1);
    }
}

/// Whether `pat` occurs in `s` at position `i`.
pub fn matches_at_exec(s: &[char], i: usize, pat: &[char]) -> (r: bool)
    ensures
        r == matches_at(s@, i as int, pat@),
{
    if i > s.len() || pat.len() > s.len() - i {
        return false;
    }
    let mut j: usize = 0;
    while j < pat.len()
        invariant
            i + pat.len() <= s.len(),
            j <= pat.len(),
            forall|k: int| 0 <= k < j ==> s@[i + k] == pat@[k],
        decreases pat.len() - j,
    {
        if s[i + j] != pat[j] {
            assert(s@.subrange(i as int, i + pat@.len())[j as int] != pat@[j as int]);
            return false;
        }
        j = j + 1;
    }
    assert(s@.subrange(i as int, i + pat@.len()) =~= pat@);
    true
}

/// First position at or after `from` where `pat` occurs in `s`.
pub fn find_from_exec(s: &[char], pat: &[char], from: usize) -> (r: Option<usize>)
    ensures
        r matches Some(k) ==> find_from(s@, pat@, from as nat) == Some(k as nat),
        r matches Some(k) ==> from <= k && k + pat@.len() <= s@.len(),
        r is None ==> find_from(s@, pat@, from as nat) is None,
{
    proof {
        lemma_find_from(s@, pat@, from as nat);
    }
    let mut i: usize = from;
    while i <= s.len() && pat.len() <= s.len() - i
        invariant
            from <= i,
            find_from(s@, pat@, from as nat) == find_from(s@, pat@, i as nat),
        decreases s.len() + 1 - i,
    {
        if matches_at_exec(s, i, pat) {
            return Some(i);
        }
        if i == s.len() {
            assert(find_from(s@, pat@, i as nat + 1) is None);
            return None;
        }
        i = i + 1;
    }
    None
}

/// Whether `pat` occurs in `s`.
pub fn contains_exec(s: &[char], pat: &[char]) -> (r: bool)
    ensures
        r == contains(s@, pat@),
{
    find_from_exec(s, pat, 0).is_some()
}

/// `s` begins with `p`.
pub open spec fn starts_with(s: Seq<char>, p: Seq<char>) -> bool {
    p.len() <= s.len() && s.take(p.len() as int) == p
}

/// `s` ends with `p`.
pub open spec fn ends_with(s: Seq<char>, p: Seq<char>) -> bool {
    p.len() <= s.len() && s.skip(s.len() - p.len()) == p
}

/// Whether `s` begins with `p`.
pub fn starts_with_exec(s: &[char], p: &[char]) -> (r: bool)
    ensures
        r == starts_with(s@, p@),
{
    let r = matches_at_exec(s, 0, p);
    assert(s@.subrange(0, p@.len() as int) =~= s@.take(p@.len() as int));
    r
}

/// Whether `s` ends with `p`.
pub fn ends_with_exec(s: &[char], p: &[char]) -> (r: bool)
    ensures
        r == ends_with(s@, p@),
{
    if p.len() > s.len() {
        return false;
    }
    let r = matches_at_exec(s, s.len() - p.len(), p);
    assert(s@.subrange(s@.len() - p@.len(), s@.len() as int) =~= s@.skip(s@.len() - p@.len()));
    r
}


// ---------------------------------------------------------------------------
// Trimming.
// ---------------------------------------------------------------------------

/// `s` without its leading whitespace (`str::trim_start`).
pub open spec fn trim_start(s: Seq<char>) -> Seq<char>
    decreases s.len(),
{
    if s.len() > 0 && char_is_whitespace(s[0]) {
        trim_start(s.drop_first())
    } else {
        s
    }
}

/// `s` without its trailing whitespace (`str::trim_end`).
pub open spec fn trim_end(s: Seq<char>) -> Seq<char>
    decreases s.len(),
{
    if s.len() > 0 && char_is_whitespace(s.last()) {
        trim_end(s.drop_last())
    } else {
        s
    }
}

/// `s` without leading and trailing whitespace (`str::trim`).
pub open spec fn trim(s: Seq<char>) -> Seq<char> {
    trim_end(trim_start(s))
}

/// `s` without the leading copies of `c` (`str::trim_start_matches` with a char).
pub open spec fn trim_start_char(s: Seq<char>, c: char) -> Seq<char>
    decreases s.len(),
{
    if s.len() > 0 && s[0] == c {
        trim_start_char(s.drop_first(), c)
    } else {
        s
    }
}

/// `s` without the trailing copies of `c` (`str::trim_end_matches` with a char).
pub open spec fn trim_end_char(s: Seq<char>, c: char) -> Seq<char>
    decreases s.len(),
{
    if s.len() > 0 && s.last() == c {
        trim_end_char(s.drop_last(), c)
    } else {
        s
    }
}

/// The leading run of non-whitespace characters of `s`.
pub open spec fn take_word(s: Seq<char>) -> Seq<char>
    decreases s.len(),
{
    if s.len() > 0 && !char_is_whitespace(s[0]) {
        seq![s[0]] + take_word(s.drop_first())
    } else {
        Seq::empty()
    }
}

/// The first whitespace-separated word of `s`, or the empty string
/// (`s.split_whitespace().next().unwrap_or("")`).
pub open spec fn first_word(s: Seq<char>) -> Seq<char> {
    take_word(trim_start(s))
}

/// Position of the first character of `s` at or after `i` that is not whitespace.
fn skip_whitespace(s: &[char], i: usize) -> (r: usize)
    requires
        i <= s.len(),
    ensures
        i <= r <= s.len(),
        trim_start(s@.subrange(i as int, s@.len() as int)) == s@.subrange(r as int, s@.len() as int),
        r < s.len() ==> !char_is_whitespace(s@[r as int]),
{
    let mut a = i;
    while a < s.len() && is_whitespace(s[a])
        invariant
            i <= a <= s.len(),
            trim_start(s@.subrange(i as int, s@.len() as int)) == trim_start(
                s@.subrange(a as int, s@.len() as int),
            ),
        decreases s.len() - a,
    {
        assert(s@.subrange(a as int, s@.len() as int).drop_first() =~= s@.subrange(
            a + 1,
            s@.len() as int,
        ));
        a = a + 1;
    }
    a
}

/// Position just after the last character of `s[lo..hi]` that is not whitespace.
fn skip_whitespace_back(s: &[char], lo: usize, hi: usize) -> (r: usize)
    requires
        lo <= hi <= s.len(),
    ensures
        lo <= r <= hi,
        trim_end(s@.subrange(lo as int, hi as int)) == s@.subrange(lo as int, r as int),
{
    let mut b = hi;
    while b > lo && is_whitespace(s[b - 1])
        invariant
            lo <= b <= hi <= s.len(),
            trim_end(s@.subrange(lo as int, hi as int)) == trim_end(s@.subrange(lo as int, b as int)),
        decreases b - lo,
    {
        assert(s@.subrange(lo as int, b as int).drop_last() =~= s@.subrange(lo as int, b - 1));
        b = b - 1;
    }
    b
}

/// `s` without leading and trailing whitespace.
pub fn trim_exec(s: &[char]) -> (r: Vec<char>)
    ensures
        r@ == trim(s@),
{
    let a = skip_whitespace(s, 0);
    assert(s@.subrange(0, s@.len() as int) =~= s@);
    let b = skip_whitespace_back(s, a, s.len());
    copy_range(s, a, b)
}

/// `s` without its leading copies of `c`.
pub fn trim_start_char_exec(s: &[char], c: char) -> (r: Vec<char>)
    ensures
        r@ == trim_start_char(s@, c),
{
    let mut a: usize = 0;
    assert(s@.subrange(0, s@.len() as int) =~= s@);
    while a < s.len() && s[a] == c
        invariant
            a <= s.len(),
            trim_start_char(s@, c) == trim_start_char(s@.subrange(a as int, s@.len() as int), c),
        decreases s.len() - a,
    {
        assert(s@.subrange(a as int, s@.len() as int).drop_first() =~= s@.subrange(
            a + 1,
            s@.len() as int,
        ));
        a = a + 1;
    }
    copy_range(s, a, s.len())
}

/// `s` without its trailing copies of `c`.
pub fn trim_end_char_exec(s: &[char], c: char) -> (r: Vec<char>)
    ensures
        r@ == trim_end_char(s@, c),
{
    let mut b: usize = s.len();
    assert(s@.subrange(0, s@.len() as int) =~= s@);
    while b > 0 && s[b - 1] == c
        invariant
            b <= s.len(),
            trim_end_char(s@, c) == trim_end_char(s@.subrange(0, b as int), c),
        decreases b,
    {
        assert(s@.subrange(0, b as int).drop_last() =~= s@.subrange(0, b - 1));
        b = b - 1;
    }
    copy_range(s, 0, b)
}

/// The first whitespace-separated word of `s`, or the empty string.
pub fn first_word_exec(s: &[char]) -> (r: Vec<char>)
    ensures
        r@ == first_word(s@),
{
    let a = skip_whitespace(s, 0);
    assert(s@.subrange(0, s@.len() as int) =~= s@);
    let mut b = a;
    while b < s.len() && !is_whitespace(s[b])
        invariant
            a <= b <= s.len(),
            take_word(s@.subrange(a as int, s@.len() as int)) == s@.subrange(a as int, b as int)
                + take_word(s@.subrange(b as int, s@.len() as int)),
        decreases s.len() - b,
    {
        let ghost rest = s@.subrange(b as int, s@.len() as int);
        assert(rest.drop_first() =~= s@.subrange(b + 1, s@.len() as int));
        assert(s@.subrange(a as int, b + 1) =~= s@.subrange(a as int, b as int) + seq![s@[b as int]]);
        b = b + 1;
    }
    assert(s@.subrange(a as int, b as int) + take_word(s@.subrange(b as int, s@.len() as int))
        =~= s@.subrange(a as int, b as int));
    copy_range(s, a, b)
}


/// What follows the first whitespace-separated word of `s`.
pub open spec fn after_first_word(s: Seq<char>) -> Seq<char> {
    let rest = trim_start(s);
    rest.skip(take_word(rest).len() as int)
}

/// What follows the first whitespace-separated word of `s`, as
/// [`after_first_word`] states it.
pub fn after_first_word_exec(s: &[char]) -> (r: Vec<char>)
    ensures
        r@ == after_first_word(s@),
{
    let a = skip_whitespace(s, 0);
    assert(s@.subrange(0, s@.len() as int) =~= s@);
    let mut b = a;
    while b < s.len() && !is_whitespace(s[b])
        invariant
            a <= b <= s.len(),
            take_word(s@.subrange(a as int, s@.len() as int)) == s@.subrange(a as int, b as int)
                + take_word(s@.subrange(b as int, s@.len() as int)),
        decreases s.len() - b,
    {
        let ghost rest = s@.subrange(b as int, s@.len() as int);
        assert(rest.drop_first() =~= s@.subrange(b + 1, s@.len() as int));
        assert(s@.subrange(a as int, b + 1) =~= s@.subrange(a as int, b as int) + seq![s@[b as int]]);
        b = b + 1;
    }
    assert(s@.subrange(a as int, b as int) + take_word(s@.subrange(b as int, s@.len() as int))
        =~= s@.subrange(a as int, b as int));
    assert(s@.subrange(a as int, s@.len() as int).skip(b - a) =~= s@.subrange(
        b as int,
        s@.len() as int,
    ));
    copy_range(s, b, s.len())
}


// ---------------------------------------------------------------------------
// Words.
// ---------------------------------------------------------------------------

/// The whitespace-separated words of `s`, in order (`str::split_whitespace`).
pub open spec fn words(s: Seq<char>) -> Seq<Seq<char>>
    decreases s.len(),
{
    if s.len() == 0 {
        Seq::empty()
    } else {
        let w = words(s.drop_last());
        let c = s.last();
        if char_is_whitespace(c) {
            w
        } else if s.len() >= 2 && !char_is_whitespace(s[s.len() - 2]) {
            w.update(w.len() - 1, w.last().push(c))
        } else {
            w.push(seq![c])
        }
    }
}

/// The words joined with single spaces (`Vec::join(" ")`).
pub open spec fn join_words(ws: Seq<Seq<char>>) -> Seq<char>
    decreases ws.len(),
{
    if ws.len() == 0 {
        Seq::empty()
    } else if ws.len() == 1 {
        ws[0]
    } else {
        join_words(ws.drop_last()) + seq![' '] + ws.last()
    }
}

/// `s` with every run of whitespace made one space and none at either end
/// (`s.split_whitespace().collect::<Vec<_>>().join(" ")`).
pub open spec fn collapse_whitespace(s: Seq<char>) -> Seq<char> {
    join_words(words(s))
}

/// A text that ends in a non-whitespace character has at least one word.
pub proof fn lemma_words_nonempty(s: Seq<char>)
    requires
        s.len() > 0,
        !char_is_whitespace(s.last()),
    ensures
        words(s).len() > 0,
    decreases s.len(),
{
    if s.len() >= 2 && !char_is_whitespace(s[s.len() - 2]) {
        assert(s.drop_last().last() == s[s.len() - 2]);
        lemma_words_nonempty(s.drop_last());
    }
}

proof fn lemma_join_extend(ws: Seq<Seq<char>>, c: char)
    requires
        ws.len() > 0,
    ensures
        join_words(ws.update(ws.len() - 1, ws.last().push(c))) == join_words(ws).push(c),
{
    let u = ws.update(ws.len() - 1, ws.last().push(c));
    if ws.len() == 1 {
    } else {
        assert(u.drop_last() =~= ws.drop_last());
        assert(join_words(u) =~= join_words(ws).push(c));
    }
}

proof fn lemma_join_push(ws: Seq<Seq<char>>, x: Seq<char>)
    ensures
        join_words(ws.push(x)) == if ws.len() == 0 {
            x
        } else {
            join_words(ws) + seq![' '] + x
        },
{
    assert(ws.push(x).drop_last() =~= ws);
}

/// `s` with its whitespace runs collapsed to single spaces and trimmed.
pub fn collapse_whitespace_exec(s: &[char]) -> (r: Vec<char>)
    ensures
        r@ == collapse_whitespace(s@),
{
    let mut out: Vec<char> = Vec::new();
    let mut prev_ws = true;
    let mut i: usize = 0;
    assert(s@.take(0) =~= Seq::<char>::empty());
    while i < s.len()
        invariant
            i <= s.len(),
            out@ == collapse_whitespace(s@.take(i as int)),
            (out@.len() == 0) == (words(s@.take(i as int)).len() == 0),
            prev_ws == (i == 0 || char_is_whitespace(s@[i - 1])),
        decreases s.len() - i,
    {
        let c = s[i];
        let ws = is_whitespace(c);
        let ghost pre = s@.take(i as int);
        let ghost next = s@.take(i + 1);
        assert(next.drop_last() =~= pre);
        assert(next.last() == c);
        if !ws {
            if prev_ws {
                if out.len() > 0 {
                    out.push(' ');
                }
                out.push(c);
                proof {
                    lemma_join_push(words(pre), seq![c]);
                    if i >= 1 {
                        assert(next[next.len() - 2] == s@[i - 1]);
                    }
                }
            } else {
                out.push(c);
                proof {
                    assert(next[next.len() - 2] == s@[i - 1]);
                    assert(pre.last() == s@[i - 1]);
                    lemma_words_nonempty(pre);
                    lemma_join_extend(words(pre), c);
                }
            }
        }
        prev_ws = ws;
        i = i + 1;
    }
    assert(s@.take(i as int) =~= s@);
    out
}

/// Number of whitespace-separated words in `s`.
pub fn word_count_exec(s: &[char]) -> (r: usize)
    ensures
        r == words(s@).len(),
{
    let mut count: usize = 0;
    let mut prev_ws = true;
    let mut i: usize = 0;
    assert(s@.take(0) =~= Seq::<char>::empty());
    while i < s.len()
        invariant
            i <= s.len(),
            count == words(s@.take(i as int)).len(),
            count <= i,
            prev_ws == (i == 0 || char_is_whitespace(s@[i - 1])),
        decreases s.len() - i,
    {
        let c = s[i];
        let ws = is_whitespace(c);
        let ghost pre = s@.take(i as int);
        let ghost next = s@.take(i + 1);
        assert(next.drop_last() =~= pre);
        assert(next.last() == c);
        if i >= 1 {
            assert(next[next.len() - 2] == s@[i - 1]);
        }
        let ghost w = words(pre);
        if !ws && prev_ws {
            assert(words(next) == w.push(seq![c]));
            count = count + 1;
        } else if !ws {
            proof {
                assert(pre.last() == s@[i - 1]);
                lemma_words_nonempty(pre);
            }
            assert(words(next) == w.update(w.len() - 1, w.last().push(c)));
        } else {
            assert(words(next) == w);
        }
        prev_ws = ws;
        i = i + 1;
    }
    assert(s@.take(i as int) =~= s@);
    count
}

// ---------------------------------------------------------------------------
// Markup stripping.
// ---------------------------------------------------------------------------

/// Scanner state after `s`: the text kept so far and whether a tag is open.
pub open spec fn strip_tags_state(s: Seq<char>) -> (Seq<char>, bool)
    decreases s.len(),
{
    if s.len() == 0 {
        (Seq::empty(), false)
    } else {
        let (out, in_tag) = strip_tags_state(s.drop_last());
        let c = s.last();
        if c == '<' {
            (out, true)
        } else if c == '>' {
            (out, false)
        } else if !in_tag {
            (out.push(c), in_tag)
        } else {
            (out, in_tag)
        }
    }
}

/// The characters of `s` outside `<...>` markup, with the brackets dropped.
pub open spec fn strip_tags(s: Seq<char>) -> Seq<char> {
    strip_tags_state(s).0
}

/// The characters of `s` outside markup.
pub fn strip_tags_exec(s: &[char]) -> (r: Vec<char>)
    ensures
        r@ == strip_tags(s@),
{
    let mut out: Vec<char> = Vec::new();
    let mut in_tag = false;
    let mut i: usize = 0;
    assert(s@.take(0) =~= Seq::<char>::empty());
    while i < s.len()
        invariant
            i <= s.len(),
            (out@, in_tag) == strip_tags_state(s@.take(i as int)),
        decreases s.len() - i,
    {
        let c = s[i];
        assert(s@.take(i + 1).drop_last() =~= s@.take(i as int));
        if c == '<' {
            in_tag = true;
        } else if c == '>' {
            in_tag = false;
        } else if !in_tag {
            out.push(c);
        }
        i = i + 1;
    }
    assert(s@.take(i as int) =~= s@);
    out
}

/// Nothing that `strip_tags` keeps is an angle bracket.
pub proof fn lemma_strip_tags_no_brackets(s: Seq<char>)
    ensures
        forall|k: int|
            0 <= k < strip_tags(s).len() ==> strip_tags(s)[k] != '<' && strip_tags(s)[k] != '>',
    decreases s.len(),
{
    if s.len() > 0 {
        lemma_strip_tags_no_brackets(s.drop_last());
        let prev = strip_tags_state(s.drop_last());
        let c = s.last();
        assert forall|k: int|
            0 <= k < strip_tags(s).len() implies strip_tags(s)[k] != '<' && strip_tags(s)[k]
                != '>' by {
            if k < prev.0.len() {
                assert(prev.0[k] == strip_tags(s.drop_last())[k]);
            }
        }
    }
}

// ---------------------------------------------------------------------------
// Lines.
// ---------------------------------------------------------------------------

/// A line without the `\r` of a `\r\n` ending.
pub open spec fn strip_cr(line: Seq<char>) -> Seq<char> {
    if line.len() > 0 && line.last() == '\r' {
        line.drop_last()
    } else {
        line
    }
}

/// The lines of `s` from position `from` on (`str::lines`: split at `\n`,
/// a `\r` before the `\n` dropped, no empty line after a final `\n`).
pub open spec fn lines_from(s: Seq<char>, from: nat) -> Seq<Seq<char>>
    decreases s.len() - from,
{
    if from >= s.len() {
        Seq::empty()
    } else {
        match find_from(s, seq!['\n'], from) {
            Some(k) => if from <= k < s.len() {
                seq![strip_cr(s.subrange(from as int, k as int))] + lines_from(s, k + 1)
            } else {
                Seq::empty()
            },
            None => seq![s.subrange(from as int, s.len() as int)],
        }
    }
}

/// The lines of `s`, as `str::lines` gives them.
pub open spec fn lines(s: Seq<char>) -> Seq<Seq<char>> {
    lines_from(s, 0)
}

/// The lines of `s`.
pub fn lines_exec(s: &[char]) -> (r: Vec<Vec<char>>)
    ensures
        r@.map_values(|l: Vec<char>| l@) == lines(s@),
{
    let nl = vec!['\n'];
    let mut out: Vec<Vec<char>> = Vec::new();
    let mut i: usize = 0;
    assert(nl@ =~= seq!['\n']);
    while i < s.len()
        invariant
            i <= s.len(),
            nl@ == seq!['\n'],
            lines(s@) == out@.map_values(|l: Vec<char>| l@) + lines_from(s@, i as nat),
        decreases s.len() - i,
    {
        proof {
            lemma_find_from(s@, nl@, i as nat);
        }
        match find_from_exec(s, &nl, i) {
            Some(k) => {
                let mut line = copy_range(s, i, k);
                if line.len() > 0 && line[line.len() - 1] == '\r' {
                    line.pop();
                }
                assert(line@ == strip_cr(s@.subrange(i as int, k as int)));
                let ghost before = out@.map_values(|l: Vec<char>| l@);
                out.push(line);
                assert(out@.map_values(|l: Vec<char>| l@) =~= before.push(line@));
                assert(before + lines_from(s@, i as nat) =~= before.push(line@) + lines_from(s@, k as nat + 1));
                i = k + 1;
            },
            None => {
                let line = copy_range(s, i, s.len());
                let ghost before = out@.map_values(|l: Vec<char>| l@);
                out.push(line);
                assert(out@.map_values(|l: Vec<char>| l@) =~= before.push(line@));
                assert(lines_from(s@, s@.len() as nat) =~= Seq::<Seq<char>>::empty());
                assert(before + lines_from(s@, i as nat) =~= before.push(line@) + lines_from(s@, s@.len() as nat));
                i = s.len();
            },
        }
    }
    assert(lines_from(s@, i as nat) =~= Seq::<Seq<char>>::empty());
    assert(lines(s@) =~= out@.map_values(|l: Vec<char>| l@));
    out
}

// ---------------------------------------------------------------------------
// Numbers.
// ---------------------------------------------------------------------------

/// The decimal digit `d` as a character.
pub open spec fn digit_char(d: nat) -> char {
    ((d + 48) as u8) as char
}

/// The decimal representation of `n`, as `usize::to_string` writes it.
pub open spec fn decimal(n: nat) -> Seq<char>
    decreases n,
{
    if n < 10 {
        seq![digit_char(n)]
    } else {
        decimal(n / 10).push(digit_char(n % 10))
    }
}

/// Appends the decimal representation of `n` to `out`.
pub fn push_decimal(out: &mut Vec<char>, n: usize)
    ensures
        final(out)@ == old(out)@ + decimal(n as nat),
    decreases n,
{
    if n >= 10 {
        push_decimal(out, n / 10);
    }
    let d: u8 = (n % 10) as u8;
    let c = (d + 48) as char;
    let ghost before = out@;
    out.push(c);
    proof {
        if n >= 10 {
            assert(out@ =~= old(out)@ + decimal(n as nat));
        } else {
            assert(out@ =~= old(out)@ + decimal(n as nat));
        }
    }
}


// ---------------------------------------------------------------------------
// Replacement.
// ---------------------------------------------------------------------------

/// `s` from position `i` on with every occurrence of `pat` (found left to
/// right, not overlapping) replaced by `rep` (`str::replace`, for a
/// non-empty pattern).
pub open spec fn replace_from(s: Seq<char>, pat: Seq<char>, rep: Seq<char>, i: nat) -> Seq<char>
    decreases s.len() + 1 - i,
{
    if pat.len() == 0 || i > s.len() {
        s.skip(i as int)
    } else {
        match find_from(s, pat, i) {
            None => s.skip(i as int),
            Some(k) => if i <= k && k + pat.len() <= s.len() {
                s.subrange(i as int, k as int) + rep + replace_from(s, pat, rep, k + pat.len())
            } else {
                s.skip(i as int)
            },
        }
    }
}

/// `s` with every occurrence of the non-empty `pat` replaced by `rep`.
pub open spec fn replace_all(s: Seq<char>, pat: Seq<char>, rep: Seq<char>) -> Seq<char> {
    replace_from(s, pat, rep, 0)
}

/// `s` with every occurrence of `pat` replaced by `rep`.
pub fn replace_all_exec(s: &[char], pat: &[char], rep: &[char]) -> (r: Vec<char>)
    requires
        pat@.len() > 0,
    ensures
        r@ == replace_all(s@, pat@, rep@),
{
    let mut out: Vec<char> = Vec::new();
    let mut i: usize = 0;
    let slen = s.len();
    loop
        invariant_except_break
            slen == s@.len(),
            pat@.len() > 0,
            i <= s@.len(),
            replace_all(s@, pat@, rep@) == out@ + replace_from(s@, pat@, rep@, i as nat),
        ensures
            replace_all(s@, pat@, rep@) == out@,
        decreases s@.len() + 1 - i,
    {
        match find_from_exec(s, pat, i) {
            Some(k) => {
                let piece = copy_range(s, i, k);
                let ghost before = out@;
                let joined = concat(&out, &piece);
                out = concat(&joined, rep);
                assert(out@ =~= before + s@.subrange(i as int, k as int) + rep@);
                let plen = pat.len();
                assert(k + plen <= slen);
                i = k + plen;
            },
            None => {
                let tail = copy_range(s, i, s.len());
                assert(tail@ =~= s@.skip(i as int));
                out = concat(&out, &tail);
                break ;
            },
        }
    }
    out
}

// ---------------------------------------------------------------------------
// Byte offsets: a `str` is indexed by the bytes of its UTF-8 encoding.
// ---------------------------------------------------------------------------

/// Bytes of `c` in UTF-8.
pub open spec fn utf8_width(c: char) -> nat {
    let u = c as u32;
    if u < 0x80 {
        1
    } else if u < 0x800 {
        2
    } else if u < 0x10000 {
        3
    } else {
        4
    }
}

/// Bytes of `s` in UTF-8 (what `str::len` gives).
pub open spec fn utf8_len(s: Seq<char>) -> nat
    decreases s.len(),
{
    if s.len() == 0 {
        0
    } else {
        utf8_len(s.drop_last()) + utf8_width(s.last())
    }
}

/// From `k` on, how many leading characters of `s` fit in `n` bytes.
pub open spec fn fit_from(s: Seq<char>, k: nat, n: nat) -> nat
    decreases s.len() - k,
{
    if k < s.len() && utf8_len(s.take((k + 1) as int)) <= n {
        fit_from(s, (k + 1) as nat, n)
    } else {
        k
    }
}

/// How many leading characters of `s` fit in its first `n` bytes.
pub open spec fn chars_in_bytes(s: Seq<char>, n: nat) -> nat {
    fit_from(s, 0, n)
}

/// Byte `n` of `s` starts a character or is the end of `s`: slicing `s` at
/// `n` does not panic.
pub open spec fn is_char_boundary(s: Seq<char>, n: nat) -> bool {
    utf8_len(s.take(chars_in_bytes(s, n) as int)) == n
}

pub proof fn lemma_utf8_len_take(s: Seq<char>, k: int)
    requires
        0 <= k < s.len(),
    ensures
        utf8_len(s.take(k + 1)) == utf8_len(s.take(k)) + utf8_width(s[k]),
{
    assert(s.take(k + 1).drop_last() =~= s.take(k));
}

pub proof fn lemma_utf8_len_monotone(s: Seq<char>, j: int, k: int)
    requires
        0 <= j <= k <= s.len(),
    ensures
        utf8_len(s.take(j)) <= utf8_len(s.take(k)),
        utf8_len(s.take(k)) <= utf8_len(s.take(j)) + 4 * (k - j),
    decreases k - j,
{
    if j < k {
        lemma_utf8_len_take(s, k - 1);
        lemma_utf8_len_monotone(s, j, k - 1);
    }
}

proof fn lemma_fit_from(s: Seq<char>, k: nat, n: nat)
    requires
        k <= s.len(),
        utf8_len(s.take(k as int)) <= n,
    ensures
        k <= fit_from(s, k, n) <= s.len(),
        utf8_len(s.take(fit_from(s, k, n) as int)) <= n,
    decreases s.len() - k,
{
    if k < s.len() && utf8_len(s.take((k + 1) as int)) <= n {
        lemma_fit_from(s, (k + 1) as nat, n);
    }
}

/// The leading characters counted by [`chars_in_bytes`] fit in `n` bytes.
pub proof fn lemma_chars_in_bytes(s: Seq<char>, n: nat)
    ensures
        chars_in_bytes(s, n) <= s.len(),
        utf8_len(s.take(chars_in_bytes(s, n) as int)) <= n,
{
    assert(s.take(0) =~= Seq::<char>::empty());
    lemma_fit_from(s, 0, n);
}

/// All of `s` fits in `n` bytes exactly when `n` is at least its length.
pub proof fn lemma_chars_in_bytes_all(s: Seq<char>, n: nat)
    ensures
        chars_in_bytes(s, n) == s.len() <==> utf8_len(s) <= n,
{
    lemma_chars_in_bytes(s, n);
    assert(s.take(s.len() as int) =~= s);
    if utf8_len(s) <= n {
        lemma_fit_all(s, 0, n);
    }
}

proof fn lemma_fit_all(s: Seq<char>, k: nat, n: nat)
    requires
        k <= s.len(),
        utf8_len(s) <= n,
    ensures
        fit_from(s, k, n) == s.len(),
    decreases s.len() - k,
{
    if k < s.len() {
        lemma_utf8_len_monotone(s, (k + 1) as int, s.len() as int);
        assert(s.take(s.len() as int) =~= s);
        lemma_fit_all(s, (k + 1) as nat, n);
    }
}

/// Bytes of `c` in UTF-8.
pub fn utf8_width_exec(c: char) -> (r: u128)
    ensures
        r == utf8_width(c),
{
    let u = c as u32;
    if u < 0x80 {
        1
    } else if u < 0x800 {
        2
    } else if u < 0x10000 {
        3
    } else {
        4
    }
}

/// Bytes of the first `k` characters of `s` in UTF-8.
pub fn utf8_prefix_len(s: &[char], k: usize) -> (r: u128)
    requires
        k <= s@.len(),
    ensures
        r == utf8_len(s@.take(k as int)),
{
    let mut total: u128 = 0;
    let mut j: usize = 0;
    assert(s@.take(0) =~= Seq::<char>::empty());
    while j < k
        invariant
            k <= s@.len(),
            j <= k,
            total == utf8_len(s@.take(j as int)),
            total <= 4 * j,
        decreases k - j,
    {
        proof {
            lemma_utf8_len_take(s@, j as int);
        }
        total = total + utf8_width_exec(s[j]);
        j = j + 1;
    }
    total
}

/// How many leading characters of `s` fit in `n` bytes, as
/// [`chars_in_bytes`] states it, and how many bytes they take.
pub fn chars_within(s: &[char], n: u128) -> (r: (usize, u128))
    ensures
        r.0 == chars_in_bytes(s@, n as nat),
        r.0 <= s@.len(),
        r.1 == utf8_len(s@.take(r.0 as int)),
        r.1 <= n,
{
    let len = s.len();
    let mut k: usize = 0;
    let mut bytes: u128 = 0;
    assert(s@.take(0) =~= Seq::<char>::empty());
    while k < len && utf8_width_exec(s[k]) <= n - bytes
        invariant
            len == s@.len(),
            k <= len,
            bytes == utf8_len(s@.take(k as int)),
            bytes <= n,
            chars_in_bytes(s@, n as nat) == fit_from(s@, k as nat, n as nat),
        decreases len - k,
    {
        proof {
            lemma_utf8_len_take(s@, k as int);
        }
        bytes = bytes + utf8_width_exec(s[k]);
        k = k + 1;
    }
    proof {
        if k < len {
            lemma_utf8_len_take(s@, k as int);
        }
    }
    (k, bytes)
}

} // verus!
