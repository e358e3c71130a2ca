//! Path and text operations of the standard library that the scan relies
//! on. How a path splits into components depends on the platform (`\\`
//! separates on Windows, not on Unix; Windows has drive, network and
//! verbatim prefixes), so of these only what holds on every platform is
//! claimed: what they answer for paths built with `/` from plain
//! components.

use vstd::prelude::*;
use std::path::Path;

verus! {

/// The lower-case form of a text (Unicode lower-casing, as
/// `str::to_lowercase` performs it).
pub uninterp spec fn lowercase(s: Seq<char>) -> Seq<char>;

/// Lower-cases a text.
///
/// Calls `str::to_lowercase`; the contract claims that the result is a
/// function of the text alone, named `lowercase`.
#[verifier::external_body]
pub(crate) fn to_lowercase(s: &str) -> (r: String)
    ensures
        r@ == lowercase(s@),
{
    s.to_lowercase()
}

/// A path separator on some platform (`/` everywhere, `\\` on Windows).
pub open spec fn is_separator(c: char) -> bool {
    c == '/' || c == '\\'
}

/// No separator of any platform occurs in `s`.
pub open spec fn no_separator(s: Seq<char>) -> bool {
    forall|i: int| 0 <= i < s.len() ==> !is_separator(#[trigger] s[i])
}

/// `p` starts with two separators: the form of a Windows network, device
/// or verbatim prefix.
pub open spec fn network_form(p: Seq<char>) -> bool {
    p.len() >= 2 && is_separator(p[0]) && is_separator(p[1])
}

/// The text of `s` up to its first separator.
pub open spec fn segment(s: Seq<char>) -> Seq<char>
    decreases s.len(),
{
    if s.len() == 0 || is_separator(s[0]) {
        Seq::empty()
    } else {
        seq![s[0]] + segment(s.drop_first())
    }
}

/// The final component of `path` has, on every platform, the extension
/// that starts after the `.` at `k`: the extension is non-empty, holds no
/// `.` and no separator, and the `.` does not start the component.
pub open spec fn plain_extension_at(path: Seq<char>, k: int) -> bool {
    &&& 1 <= k < path.len() - 1
    &&& path[k] == '.'
    &&& !path.skip(k + 1).contains('.')
    &&& no_separator(path.skip(k + 1))
    &&& !is_separator(path[k - 1])
    &&& path[k - 1] != ':'
    &&& !network_form(path)
}

/// On every platform, the parent of `path` is the text before the `/` at
/// `k`: after it comes one final component (no separator, not `.`), and
/// before it a component that ends in neither a separator, `:` nor `.`.
pub open spec fn plain_parent_at(path: Seq<char>, k: int) -> bool {
    &&& 1 <= k < path.len() - 1
    &&& path[k] == '/'
    &&& no_separator(path.skip(k + 1))
    &&& path.skip(k + 1) != seq!['.']
    &&& !is_separator(path[k - 1])
    &&& path[k - 1] != ':'
    &&& path[k - 1] != '.'
    &&& !network_form(path)
}

/// On every platform `p` lies below `base`: it is `base`, a `/`, and more.
pub open spec fn below_by_slash(p: Seq<char>, base: Seq<char>) -> bool {
    &&& base.len() > 0
    &&& p.len() > base.len()
    &&& p.take(base.len() as int) == base
    &&& p[base.len() as int] == '/'
    &&& base.last() != ':'
    &&& !network_form(p)
}

/// On every platform `p` starts with the components of `base`: it is
/// `base`, or `base` is empty, or `p` is `base`, a `/` and more.
pub open spec fn surely_within(p: Seq<char>, base: Seq<char>) -> bool {
    p == base || base.len() == 0 || below_by_slash(p, base)
}

/// On every platform `base` reaches deeper than `p`: `base` is `p`, a `/`,
/// and at least one more component.
pub open spec fn deeper_base(p: Seq<char>, base: Seq<char>) -> bool {
    &&& p.len() > 0
    &&& below_by_slash(base, p)
    &&& exists|i: int|
        p.len() < i < base.len() && !is_separator(#[trigger] base[i]) && base[i] != '.'
}

/// On every platform `p` and `base` part ways after the `/` at `k - 1`:
/// they agree up to it, and the next components differ.
pub open spec fn parted_at(p: Seq<char>, base: Seq<char>, k: int) -> bool {
    &&& 1 <= k <= p.len()
    &&& k <= base.len()
    &&& p.take(k) == base.take(k)
    &&& p[k - 1] == '/'
    &&& segment(p.skip(k)).len() > 0
    &&& segment(base.skip(k)).len() > 0
    &&& segment(p.skip(k)) != segment(base.skip(k))
    &&& segment(p.skip(k)) != seq!['.']
    &&& segment(base.skip(k)) != seq!['.']
    &&& !network_form(p)
}

/// On every platform `p` does not start with the components of `base`.
pub open spec fn surely_outside(p: Seq<char>, base: Seq<char>) -> bool {
    deeper_base(p, base) || exists|k: int| #[trigger] parted_at(p, base, k)
}

/// The extension of the path's final component: the text after its last
/// `.`.
///
/// Calls `Path::extension`. The contract claims that an extension holds no
/// `.`, that a path without `.` has none, and that the extension of a
/// final component read alike on every platform (`plain_extension_at`) is
/// the text after its last `.`. Other paths are left to the platform.
#[verifier::external_body]
pub(crate) fn path_extension(path: &str) -> (r: Option<String>)
    ensures
        r matches Some(e) ==> !e@.contains('.'),
        !path@.contains('.') ==> r is None,
        forall|k: int| #[trigger] plain_extension_at(path@, k) ==> r is Some && r.unwrap()@ == path@.skip(k + 1),
{
    match Path::new(path).extension() {
        Some(e) => Some(e.to_string_lossy().into_owned()),
        None => None,
    }
}

/// The path without its final component.
///
/// Calls `Path::parent`. The contract claims that the parent is a proper
/// prefix of the path (it drops the final component), and that where the
/// split is read alike on every platform (`plain_parent_at`) the parent is
/// the text before the last `/`. Other paths are left to the platform.
#[verifier::external_body]
pub(crate) fn path_parent(path: &str) -> (r: Option<String>)
    ensures
        r matches Some(p) ==> p@.len() < path@.len() && p@ == path@.take(p@.len() as int),
        forall|k: int| #[trigger] plain_parent_at(path@, k) ==> r is Some && r.unwrap()@ == path@.take(k),
{
    match Path::new(path).parent() {
        Some(p) => Some(p.to_string_lossy().into_owned()),
        None => None,
    }
}

/// Whether `base` is a leading run of whole components of `path`.
///
/// Calls `Path::starts_with`. The contract claims what holds however the
/// platform splits paths: a path starts with itself, with the empty path,
/// and with any `base` it extends by a `/` (`surely_within`); it does not
/// start with a deeper `base` nor with one it parts from at a differing
/// component (`surely_outside`). Other pairs are left to the platform.
#[verifier::external_body]
pub(crate) fn path_starts_with(path: &str, base: &str) -> (b: bool)
    ensures
        surely_within(path@, base@) ==> b,
        surely_outside(path@, base@) ==> !b,
{
    Path::new(path).starts_with(Path::new(base))
}

/// Whether `needle` occurs in `haystack` as a contiguous run.
pub open spec fn contains_text(haystack: Seq<char>, needle: Seq<char>) -> bool {
    exists|i: int| 0 <= i <= haystack.len() - needle.len() && #[trigger] haystack.subrange(i, i + needle.len()) == needle
}

/// Whether `needle` occurs in `haystack`.
///
/// Calls `str::contains` with a `&str` pattern; the contract claims that
/// the answer is whether the needle's characters occur contiguously in the
/// haystack.
#[verifier::external_body]
pub(crate) fn text_contains(haystack: &str, needle: &str) -> (b: bool)
    ensures
        b == contains_text(haystack@, needle@),
{
    haystack.contains(needle)
}

/// White space as `str::trim` knows it: the characters with Unicode's
/// `White_Space` property.
pub open spec fn is_white_space(c: char) -> bool {
    ||| '\u{9}' <= c <= '\u{D}'
    ||| c == ' '
    ||| c == '\u{85}'
    ||| c == '\u{A0}'
    ||| c == '\u{1680}'
    ||| '\u{2000}' <= c <= '\u{200A}'
    ||| c == '\u{2028}'
    ||| c == '\u{2029}'
    ||| c == '\u{202F}'
    ||| c == '\u{205F}'
    ||| c == '\u{3000}'
}

/// A text without its leading white space.
pub open spec fn trimmed_start(s: Seq<char>) -> Seq<char>
    decreases s.len(),
{
    if s.len() > 0 && is_white_space(s[0]) {
        trimmed_start(s.drop_first())
    } else {
        s
    }
}

/// A text without its trailing white space.
pub open spec fn trimmed_end(s: Seq<char>) -> Seq<char>
    decreases s.len(),
{
    if s.len() > 0 && is_white_space(s.last()) {
        trimmed_end(s.drop_last())
    } else {
        s
    }
}

/// A text without its leading and trailing white space.
pub open spec fn trimmed(s: Seq<char>) -> Seq<char> {
    trimmed_end(trimmed_start(s))
}

/// Strips leading and trailing white space.
///
/// Calls `str::trim`; the contract claims what its documentation says: the
/// text with its leading and trailing runs of `White_Space` characters
/// removed.
#[verifier::external_body]
pub(crate) fn trim_text(s: &str) -> (r: &str)
    ensures
        r@ == trimmed(s@),
{
    s.trim()
}

} // verus!
