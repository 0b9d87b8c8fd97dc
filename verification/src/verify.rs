//! Where the baseline screenshot of a target is kept. Capturing, diffing
//! against the baseline and seeding it happen outside the library.

use vstd::prelude::*;
use crate::text;

verus! {

/// ASCII letters and digits.
pub open spec fn is_ascii_alphanumeric(c: char) -> bool {
    ('0' <= c && c <= '9') || ('a' <= c && c <= 'z') || ('A' <= c && c <= 'Z')
}

/// The target with every character that is not an ASCII letter or digit made `_`.
pub open spec fn slug(target: Seq<char>) -> Seq<char> {
    target.map_values(|c: char| if is_ascii_alphanumeric(c) { c } else { '_' })
}

/// `name` inside directory `dir`, joined with `/` as `Path::join` does on
/// Unix for a relative name: nothing is added after an empty directory or
/// one that already ends in `/`.
pub open spec fn joined_path(dir: Seq<char>, name: Seq<char>) -> Seq<char> {
    if dir.len() == 0 {
        name
    } else if dir.last() == '/' {
        dir + name
    } else {
        dir + seq!['/'] + name
    }
}

/// The baseline file of `target` in `baseline_dir`: its slug with `.png`.
pub open spec fn baseline_path(baseline_dir: Seq<char>, target: Seq<char>) -> Seq<char> {
    joined_path(baseline_dir, slug(target) + ".png"@)
}

/// The path of the baseline screenshot of `target` inside `baseline_dir`,
/// as [`baseline_path`] states it.
pub fn baseline_for_target(baseline_dir: &str, target: &str) -> (r: String)
    ensures
        r@ == baseline_path(baseline_dir@, target@),
{
    let t = text::chars_of(target);
    let mut name: Vec<char> = Vec::new();
    let mut i: usize = 0;
    while i < t.len()
        invariant
            i <= t@.len(),
            name@ == slug(t@).take(i as int),
        decreases t@.len() - i,
    {
        let c = t[i];
        if ('0' <= c && c <= '9') || ('a' <= c && c <= 'z') || ('A' <= c && c <= 'Z') {
            name.push(c);
        } else {
            name.push('_');
        }
        i = i + 1;
        assert(name@ =~= slug(t@).take(i as int));
    }
    assert(slug(t@).take(i as int) =~= slug(t@));
    let file = text::concat(&name, &text::chars_of(".png"));
    let dir = text::chars_of(baseline_dir);
    let joined = if dir.len() == 0 {
        file
    } else if dir[dir.len() - 1] == '/' {
        text::concat(&dir, &file)
    } else {
        let with_sep = text::concat(&dir, &vec!['/']);
        assert(with_sep@ =~= dir@ + seq!['/']);
        text::concat(&with_sep, &file)
    };
    text::string_of(&joined)
}

/// A baseline file name is made only of ASCII letters, digits and `_`,
/// one for each character of the target, before its `.png`.
pub proof fn lemma_slug_safe(target: Seq<char>)
    ensures
        slug(target).len() == target.len(),
        forall|k: int|
            0 <= k < target.len() ==> is_ascii_alphanumeric(#[trigger] slug(target)[k]) || slug(
                target,
            )[k] == '_',
{
}

} // verus!
