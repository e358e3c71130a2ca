//! The table of largest files: filtering by a search text and sorting by a
//! column, keeping files with equal keys in their previous order.

use vstd::prelude::*;
use crate::keep::keep_where;
use vstd::string::StringSliceAdditionalSpecFns;
use vstd::utf8::encode_utf8;
use crate::dashboard::{DiskAnalyzerApp, SortColumn};
use crate::models::{FileEntry, ScanResults};
use crate::paths::{contains_text, lowercase, text_contains, to_lowercase};

verus! {

broadcast use {
    vstd::seq_lib::group_to_multiset_ensures,
    vstd::multiset::group_multiset_axioms,
};

/// Byte strings in lexicographic order: the first differing byte decides,
/// and a proper prefix comes first (the order of `str` and `String`).
pub open spec fn bytes_less(a: Seq<u8>, b: Seq<u8>) -> bool
    decreases a.len(),
{
    if a.len() == 0 {
        b.len() > 0
    } else if b.len() == 0 {
        false
    } else if a[0] != b[0] {
        a[0] < b[0]
    } else {
        bytes_less(a.drop_first(), b.drop_first())
    }
}

/// The lexicographic order is a strict total order.
pub proof fn lemma_bytes_less_order(a: Seq<u8>, b: Seq<u8>, c: Seq<u8>)
    ensures
        !bytes_less(a, a),
        bytes_less(a, b) ==> !bytes_less(b, a),
        bytes_less(a, b) && bytes_less(b, c) ==> bytes_less(a, c),
        a != b ==> bytes_less(a, b) || bytes_less(b, a),
    decreases a.len(),
{
    if a.len() > 0 {
        lemma_bytes_less_order(a.drop_first(), a.drop_first(), a.drop_first());
        if b.len() > 0 {
            lemma_bytes_less_order(a.drop_first(), b.drop_first(), b.drop_first());
            if c.len() > 0 {
                lemma_bytes_less_order(a.drop_first(), b.drop_first(), c.drop_first());
            }
            if a != b && a[0] == b[0] {
                assert(a.drop_first() != b.drop_first()) by {
                    if a.drop_first() == b.drop_first() {
                        assert(a =~= seq![a[0]] + a.drop_first());
                        assert(b =~= seq![b[0]] + b.drop_first());
                    }
                }
            }
        }
    } else {
        if b.len() == 0 {
            assert(a =~= b);
        }
    }
}

/// The bytes a text is compared by.
pub open spec fn text_key(s: Seq<char>) -> Seq<u8> {
    encode_utf8(s)
}

/// `a`'s key in `column` is smaller than `b`'s: names and paths compare
/// lower-cased, extensions as they are, times and sizes as numbers.
pub open spec fn key_less(a: FileEntry, b: FileEntry, column: SortColumn) -> bool {
    match column {
        SortColumn::Name => bytes_less(text_key(lowercase(a.name@)), text_key(lowercase(b.name@))),
        SortColumn::Path => bytes_less(text_key(lowercase(a.path@)), text_key(lowercase(b.path@))),
        SortColumn::Modified => a.modified < b.modified,
        SortColumn::Extension => bytes_less(text_key(a.extension@), text_key(b.extension@)),
        SortColumn::Size => a.size < b.size,
    }
}

/// `a` and `b` have the same key in `column`.
pub open spec fn same_key(a: FileEntry, b: FileEntry, column: SortColumn) -> bool {
    match column {
        SortColumn::Name => text_key(lowercase(a.name@)) == text_key(lowercase(b.name@)),
        SortColumn::Path => text_key(lowercase(a.path@)) == text_key(lowercase(b.path@)),
        SortColumn::Modified => a.modified == b.modified,
        SortColumn::Extension => text_key(a.extension@) == text_key(b.extension@),
        SortColumn::Size => a.size == b.size,
    }
}

/// `a` goes before `b` in the table: smaller key first, or larger key first
/// when descending.
pub open spec fn goes_before(a: FileEntry, b: FileEntry, column: SortColumn, desc: bool) -> bool {
    if desc {
        key_less(b, a, column)
    } else {
        key_less(a, b, column)
    }
}

/// The table order is a strict weak order whose ties are the equal keys.
pub proof fn lemma_order(a: FileEntry, b: FileEntry, c: FileEntry, column: SortColumn, desc: bool)
    ensures
        goes_before(a, b, column, desc) ==> !goes_before(b, a, column, desc),
        goes_before(a, b, column, desc) && goes_before(b, c, column, desc) ==> goes_before(a, c, column, desc),
        goes_before(a, b, column, desc) && !goes_before(c, b, column, desc) ==> goes_before(a, c, column, desc),
        same_key(a, b, column) <==> (!goes_before(a, b, column, desc) && !goes_before(b, a, column, desc)),
        same_key(a, a, column),
        same_key(a, b, column) ==> same_key(b, a, column),
        same_key(a, b, column) && same_key(b, c, column) ==> same_key(a, c, column),
{
    match column {
        SortColumn::Name => {
            let (x, y, z) = (text_key(lowercase(a.name@)), text_key(lowercase(b.name@)), text_key(lowercase(c.name@)));
            lemma_bytes_less_order(x, y, z);
            lemma_bytes_less_order(y, x, z);
            lemma_bytes_less_order(x, z, y);
            lemma_bytes_less_order(z, x, y);
            lemma_bytes_less_order(y, z, x);
            lemma_bytes_less_order(z, y, x);
        },
        SortColumn::Path => {
            let (x, y, z) = (text_key(lowercase(a.path@)), text_key(lowercase(b.path@)), text_key(lowercase(c.path@)));
            lemma_bytes_less_order(x, y, z);
            lemma_bytes_less_order(y, x, z);
            lemma_bytes_less_order(x, z, y);
            lemma_bytes_less_order(z, x, y);
            lemma_bytes_less_order(y, z, x);
            lemma_bytes_less_order(z, y, x);
        },
        SortColumn::Extension => {
            let (x, y, z) = (text_key(a.extension@), text_key(b.extension@), text_key(c.extension@));
            lemma_bytes_less_order(x, y, z);
            lemma_bytes_less_order(y, x, z);
            lemma_bytes_less_order(x, z, y);
            lemma_bytes_less_order(z, x, y);
            lemma_bytes_less_order(y, z, x);
            lemma_bytes_less_order(z, y, x);
        },
        _ => {},
    }
}

/// The files of `s` with the same key as `g`, in the order of `s`.
pub open spec fn key_class(s: Seq<FileEntry>, g: FileEntry, column: SortColumn) -> Seq<FileEntry> {
    s.filter(same_key_as(g, column))
}

/// The test for having the same key as `g`.
pub open spec fn same_key_as(g: FileEntry, column: SortColumn) -> spec_fn(FileEntry) -> bool {
    |x: FileEntry| same_key(x, g, column)
}

/// `sorted` is `files` in table order, files with equal keys keeping the
/// order they had in `files` (a stable sort).
pub open spec fn is_table_order(sorted: Seq<FileEntry>, files: Seq<FileEntry>, column: SortColumn, desc: bool) -> bool {
    &&& sorted.to_multiset() == files.to_multiset()
    &&& forall|i: int, j: int| 0 <= i < j < sorted.len() ==> !goes_before(#[trigger] sorted[j], #[trigger] sorted[i], column, desc)
    &&& forall|g: FileEntry| #[trigger] key_class(sorted, g, column) == key_class(files, g, column)
}

/// Descending order is ascending order turned round, for every column:
/// `a` goes before `b` descending exactly when `b` goes before `a`
/// ascending.
pub proof fn lemma_descending_reverses(a: FileEntry, b: FileEntry, column: SortColumn)
    ensures
        goes_before(a, b, column, true) == goes_before(b, a, column, false),
{
}

/// A table sorted by a column runs through that column's values in the
/// chosen direction: times and sizes never increase going down a
/// descending table and never decrease going down an ascending one; names,
/// paths (both lower-cased) and extensions likewise in byte order.
pub proof fn lemma_table_runs_in_order(sorted: Seq<FileEntry>, files: Seq<FileEntry>, column: SortColumn, desc: bool)
    requires
        is_table_order(sorted, files, column, desc),
    ensures
        forall|i: int, j: int|
            0 <= i < j < sorted.len() ==> {
                &&& column == SortColumn::Modified && desc ==> #[trigger] sorted[i].modified >= #[trigger] sorted[j].modified
                &&& column == SortColumn::Modified && !desc ==> sorted[i].modified <= sorted[j].modified
                &&& column == SortColumn::Size && desc ==> sorted[i].size >= sorted[j].size
                &&& column == SortColumn::Size && !desc ==> sorted[i].size <= sorted[j].size
                &&& column == SortColumn::Name && desc ==> !bytes_less(
                    text_key(lowercase(sorted[i].name@)),
                    text_key(lowercase(sorted[j].name@)),
                )
                &&& column == SortColumn::Name && !desc ==> !bytes_less(
                    text_key(lowercase(sorted[j].name@)),
                    text_key(lowercase(sorted[i].name@)),
                )
                &&& column == SortColumn::Path && desc ==> !bytes_less(
                    text_key(lowercase(sorted[i].path@)),
                    text_key(lowercase(sorted[j].path@)),
                )
                &&& column == SortColumn::Path && !desc ==> !bytes_less(
                    text_key(lowercase(sorted[j].path@)),
                    text_key(lowercase(sorted[i].path@)),
                )
                &&& column == SortColumn::Extension && desc ==> !bytes_less(
                    text_key(sorted[i].extension@),
                    text_key(sorted[j].extension@),
                )
                &&& column == SortColumn::Extension && !desc ==> !bytes_less(
                    text_key(sorted[j].extension@),
                    text_key(sorted[i].extension@),
                )
            },
{
    assert forall|i: int, j: int| 0 <= i < j < sorted.len() implies {
        &&& column == SortColumn::Modified && desc ==> #[trigger] sorted[i].modified >= #[trigger] sorted[j].modified
        &&& column == SortColumn::Modified && !desc ==> sorted[i].modified <= sorted[j].modified
        &&& column == SortColumn::Size && desc ==> sorted[i].size >= sorted[j].size
        &&& column == SortColumn::Size && !desc ==> sorted[i].size <= sorted[j].size
        &&& column == SortColumn::Name && desc ==> !bytes_less(
            text_key(lowercase(sorted[i].name@)),
            text_key(lowercase(sorted[j].name@)),
        )
        &&& column == SortColumn::Name && !desc ==> !bytes_less(
            text_key(lowercase(sorted[j].name@)),
            text_key(lowercase(sorted[i].name@)),
        )
        &&& column == SortColumn::Path && desc ==> !bytes_less(
            text_key(lowercase(sorted[i].path@)),
            text_key(lowercase(sorted[j].path@)),
        )
        &&& column == SortColumn::Path && !desc ==> !bytes_less(
            text_key(lowercase(sorted[j].path@)),
            text_key(lowercase(sorted[i].path@)),
        )
        &&& column == SortColumn::Extension && desc ==> !bytes_less(
            text_key(sorted[i].extension@),
            text_key(sorted[j].extension@),
        )
        &&& column == SortColumn::Extension && !desc ==> !bytes_less(
            text_key(sorted[j].extension@),
            text_key(sorted[i].extension@),
        )
    } by {
        assert(!goes_before(sorted[j], sorted[i], column, desc));
    }
}

/// A file matches the search text `q` (already lower-cased) when `q`
/// occurs in its lower-cased name or path.
pub open spec fn matches_search(f: FileEntry, q: Seq<char>) -> bool {
    contains_text(lowercase(f.name@), q) || contains_text(lowercase(f.path@), q)
}

/// The files the table lists before sorting: all of them for an empty
/// search, else those matching the lower-cased search text.
pub open spec fn searched(files: Seq<FileEntry>, query: Seq<char>) -> Seq<FileEntry> {
    if query.len() == 0 {
        files
    } else {
        files.filter(|f: FileEntry| matches_search(f, lowercase(query)))
    }
}

fn bytes_lt(a: &[u8], b: &[u8]) -> (r: bool)
    ensures
        r == bytes_less(a@, b@),
{
    let mut i: usize = 0;
    proof {
        assert(a@.skip(0) =~= a@);
        assert(b@.skip(0) =~= b@);
    }
    while i < a.len() && i < b.len() && a[i] == b[i]
        invariant
            i <= a@.len(),
            i <= b@.len(),
            bytes_less(a@, b@) == bytes_less(a@.skip(i as int), b@.skip(i as int)),
        decreases a@.len() - i,
    {
        proof {
            assert(a@.skip(i as int).drop_first() =~= a@.skip(i + 1));
            assert(b@.skip(i as int).drop_first() =~= b@.skip(i + 1));
        }
        i = i + 1;
    }
    proof {
        if i < a@.len() {
            assert(a@.skip(i as int)[0] == a@[i as int]);
        }
        if i < b@.len() {
            assert(b@.skip(i as int)[0] == b@[i as int]);
        }
    }
    if i == a.len() {
        i < b.len()
    } else if i == b.len() {
        false
    } else {
        a[i] < b[i]
    }
}

fn text_lt(a: &str, b: &str) -> (r: bool)
    ensures
        r == bytes_less(text_key(a@), text_key(b@)),
{
    bytes_lt(a.as_bytes(), b.as_bytes())
}

/// Whether `a` goes before `b` in the table.
pub fn precedes(a: &FileEntry, b: &FileEntry, column: SortColumn, desc: bool) -> (r: bool)
    ensures
        r == goes_before(*a, *b, column, desc),
{
    let (x, y) = if desc {
        (b, a)
    } else {
        (a, b)
    };
    match column {
        SortColumn::Name => {
            let p = to_lowercase(x.name.as_str());
            let q = to_lowercase(y.name.as_str());
            text_lt(p.as_str(), q.as_str())
        },
        SortColumn::Path => {
            let p = to_lowercase(x.path.as_str());
            let q = to_lowercase(y.path.as_str());
            text_lt(p.as_str(), q.as_str())
        },
        SortColumn::Modified => x.modified < y.modified,
        SortColumn::Extension => text_lt(x.extension.as_str(), y.extension.as_str()),
        SortColumn::Size => x.size < y.size,
    }
}

/// Filtering keeps nothing when no element passes.
proof fn lemma_filter_none(s: Seq<FileEntry>, g: FileEntry, column: SortColumn)
    requires
        forall|i: int| 0 <= i < s.len() ==> !same_key(#[trigger] s[i], g, column),
    ensures
        key_class(s, g, column) == Seq::<FileEntry>::empty(),
    decreases s.len(),
{
    let p = same_key_as(g, column);
    if s.len() == 0 {
        reveal(Seq::filter);
    } else {
        lemma_filter_none(s.drop_last(), g, column);
        s.drop_last().lemma_filter_push(s.last(), p);
        assert(s.drop_last().push(s.last()) =~= s);
    }
}

/// Sorts files into table order; files with equal keys keep their order.
pub fn sort_table(files: Vec<FileEntry>, column: SortColumn, desc: bool) -> (sorted: Vec<FileEntry>)
    ensures
        is_table_order(sorted@, files@, column, desc),
{
    let ghost s0 = files@;
    let mut rest = files;
    let mut out: Vec<FileEntry> = Vec::new();
    proof {
        assert(s0.skip(0) =~= s0);
        assert(s0.take(0) =~= Seq::<FileEntry>::empty());
        assert forall|g: FileEntry| #[trigger] key_class(out@, g, column) == key_class(s0.take(0), g, column) by {
            reveal(Seq::filter);
        }
    }
    while rest.len() > 0
        invariant
            rest@.len() <= s0.len(),
            rest@ == s0.skip(s0.len() - rest@.len()),
            out@.to_multiset() == s0.take(s0.len() - rest@.len()).to_multiset(),
            forall|i: int, j: int| 0 <= i < j < out@.len() ==> !goes_before(#[trigger] out@[j], #[trigger] out@[i], column, desc),
            forall|g: FileEntry| #[trigger] key_class(out@, g, column) == key_class(
                s0.take(s0.len() - rest@.len()),
                g,
                column,
            ),
        decreases rest@.len(),
    {
        let ghost i = s0.len() - rest@.len();
        let x = rest.remove(0);
        proof {
            assert(x == s0[i]);
            assert(rest@ =~= s0.skip(i + 1));
            assert(s0.take(i + 1) =~= s0.take(i).push(x));
        }
        let mut j: usize = 0;
        while j < out.len() && !precedes(&x, &out[j], column, desc)
            invariant
                j <= out@.len(),
                forall|m: int| 0 <= m < j ==> !goes_before(x, #[trigger] out@[m], column, desc),
            decreases out@.len() - j,
        {
            j = j + 1;
        }
        let ghost before = out@;
        out.insert(j, x);
        proof {
            let after = out@;
            assert(after =~= before.take(j as int) + seq![x] + before.skip(j as int));
            // everything from position j on comes after x
            assert forall|m: int| j <= m < before.len() implies goes_before(x, #[trigger] before[m], column, desc) by {
                if m > j {
                    lemma_order(x, before[j as int], before[m], column, desc);
                }
            }
            assert forall|a: int, b: int| 0 <= a < b < after.len() implies !goes_before(#[trigger] after[b], #[trigger] after[a], column, desc) by {
                if a < j && b == j {
                } else if a < j && b > j {
                    assert(after[b] == before[b - 1]);
                } else if a == j {
                    assert(after[b] == before[b - 1]);
                    lemma_order(x, before[b - 1], x, column, desc);
                } else if a > j {
                    assert(after[a] == before[a - 1]);
                    assert(after[b] == before[b - 1]);
                }
            }
            let prefix = s0.take(i);
            assert forall|g: FileEntry| #[trigger] key_class(after, g, column) == key_class(s0.take(i + 1), g, column) by {
                let p = same_key_as(g, column);
                let lo = before.take(j as int);
                let hi = before.skip(j as int);
                assert(before =~= lo + hi);
                Seq::filter_distributes_over_add(lo + seq![x], hi, p);
                Seq::filter_distributes_over_add(lo, seq![x], p);
                Seq::filter_distributes_over_add(lo, hi, p);
                prefix.lemma_filter_push(x, p);
                Seq::<FileEntry>::empty().lemma_filter_push(x, p);
                assert(seq![x] =~= Seq::<FileEntry>::empty().push(x));
                assert(Seq::<FileEntry>::empty().filter(p) =~= Seq::<FileEntry>::empty()) by {
                    reveal(Seq::filter);
                }
                assert(key_class(before, g, column) == key_class(prefix, g, column));
                assert(after.filter(p) == lo.filter(p) + seq![x].filter(p) + hi.filter(p));
                assert(before.filter(p) == lo.filter(p) + hi.filter(p));
                assert(seq![x].filter(p) == if p(x) { seq![x] } else { Seq::<FileEntry>::empty() });
                assert(s0.take(i + 1).filter(p) == if p(x) { prefix.filter(p).push(x) } else { prefix.filter(p) });
                if same_key(x, g, column) {
                    assert forall|m: int| 0 <= m < hi.len() implies !same_key(#[trigger] hi[m], g, column) by {
                        assert(hi[m] == before[j + m]);
                        lemma_order(x, hi[m], g, column, desc);
                        lemma_order(hi[m], x, g, column, desc);
                        lemma_order(hi[m], g, x, column, desc);
                    }
                    lemma_filter_none(hi, g, column);
                    assert(key_class(after, g, column) =~= key_class(lo, g, column) + seq![x]);
                }
            }
            assert(after.to_multiset() =~= s0.take(i + 1).to_multiset());
        }
    }
    proof {
        assert(s0.take(s0.len() as int) =~= s0);
    }
    out
}

/// Copies a list of files.
pub fn copy_files(files: &Vec<FileEntry>) -> (copy: Vec<FileEntry>)
    ensures
        copy@ == files@,
{
    let mut copy: Vec<FileEntry> = Vec::new();
    let mut i: usize = 0;
    while i < files.len()
        invariant
            i <= files@.len(),
            copy@ == files@.take(i as int),
        decreases files@.len() - i,
    {
        copy.push(files[i].clone());
        proof {
            assert(copy@ =~= files@.take(i + 1));
        }
        i = i + 1;
    }
    proof {
        assert(files@.take(files@.len() as int) =~= files@);
    }
    copy
}

/// Whether a file matches the search text `q` (already lower-cased).
pub fn file_matches(f: &FileEntry, q: &str) -> (b: bool)
    ensures
        b == matches_search(*f, q@),
{
    let name = to_lowercase(f.name.as_str());
    if text_contains(name.as_str(), q) {
        return true;
    }
    let path = to_lowercase(f.path.as_str());
    text_contains(path.as_str(), q)
}

/// Whether `f` matches the lower-cased search text `q`.
fn matches_lowered(f: &FileEntry, q: &String) -> (b: bool)
    ensures
        b == matches_search(*f, q@),
{
    file_matches(f, q.as_str())
}

/// The files matching a search text, in their order (all of them when the
/// text is empty).
pub fn search_files(files: Vec<FileEntry>, query: &str) -> (found: Vec<FileEntry>)
    ensures
        found@ == searched(files@, query@),
{
    if query.is_empty() {
        return files;
    }
    let q = to_lowercase(query);
    keep_where(files, &q, matches_lowered, Ghost(|f: FileEntry| matches_search(f, lowercase(query@))))
}

impl DiskAnalyzerApp {
    /// The rows of the table of largest files: those matching the search
    /// text, in the order of the sorting column and direction, files with
    /// equal keys keeping the order of the results.
    pub fn visible_files(&self, results: &ScanResults) -> (rows: Vec<FileEntry>)
        ensures
            is_table_order(
                rows@,
                searched(results.top_files@, self.search_query@),
                self.sorting_column,
                self.sorting_desc,
            ),
    {
        let files = copy_files(&results.top_files);
        let found = search_files(files, self.search_query.as_str());
        sort_table(found, self.sorting_column, self.sorting_desc)
    }
}

} // verus!
