//! What the dashboard derives from results for display: the summary
//! figures, the segments of the file-type bar, directory labels, and the
//! colour and icon of each kind of file.

use vstd::prelude::*;
use vstd::string::{StringExecFns, StringSliceAdditionalSpecFns};
use crate::format::{format_bytes, format_number, bytes_text, thousands};
use crate::models::ScanResults;
use crate::tally::size_sum;

verus! {

/// How many file types the bar shows before grouping the rest as `Other`.
pub const BAR_SEGMENTS: usize = 7;

/// The longest directory label shown in full, in bytes.
pub const LABEL_BYTES: usize = 30;

/// The average file size, 0 when there are no files.
pub open spec fn average_size(total_size: u64, total_files: u64) -> nat {
    if total_files > 0 {
        (total_size / total_files) as nat
    } else {
        0
    }
}

/// The average shown is the whole number of bytes per file: for any
/// positive number of files it is the quotient of the total by the count,
/// so that `count` files of the average size fit in the total and one more
/// byte each would not; with no files it is 0.
pub proof fn lemma_average_size(total_size: u64, total_files: u64)
    ensures
        total_files > 0 ==> average_size(total_size, total_files) == total_size / total_files,
        total_files > 0 ==> average_size(total_size, total_files) * total_files <= total_size < (average_size(
            total_size,
            total_files,
        ) + 1) * total_files,
        total_files == 0 ==> average_size(total_size, total_files) == 0,
{
    if total_files > 0 {
        let a = total_size / total_files;
        assert(a * total_files <= total_size < (a + 1) * total_files) by (nonlinear_arith)
            requires
                total_files > 0,
                a == total_size / total_files,
        ;
    }
}

/// The three figures of the summary cards: total size, number of files,
/// average file size.
pub fn summary_texts(total_size: u64, total_files: u64) -> (r: (String, String, String))
    ensures
        r.0@ == bytes_text(total_size as nat),
        r.1@ == thousands(total_files as nat),
        r.2@ == bytes_text(average_size(total_size, total_files)),
{
    let avg = if total_files > 0 {
        total_size / total_files
    } else {
        0
    };
    (format_bytes(total_size), format_number(total_files), format_bytes(avg))
}

/// The label of the segment that groups the remaining file types.
pub open spec fn other_label() -> Seq<char> {
    seq!['O', 't', 'h', 'e', 'r']
}

/// The segments of the file-type bar: the first `BAR_SEGMENTS` types of
/// the breakdown, then, when there are more types, an `Other` segment for
/// the rest of the total size if any is left.
pub open spec fn bar_segments(breakdown: Seq<(String, u64)>, total_size: u64, shown: Seq<(String, u64)>) -> bool {
    let n = if breakdown.len() < BAR_SEGMENTS { breakdown.len() } else { BAR_SEGMENTS as nat };
    let head = breakdown.take(n as int);
    let rest = total_size - size_sum(head);
    if breakdown.len() > BAR_SEGMENTS && rest > 0 {
        &&& shown.len() == n + 1
        &&& shown.take(n as int) == head
        &&& shown[n as int].0@ == other_label()
        &&& shown[n as int].1 == rest
    } else {
        shown == head
    }
}

/// The bar covers the files shown: with at most `BAR_SEGMENTS` types it
/// shows them all; with more it shows the first `BAR_SEGMENTS` and its
/// segments add up to the total size, the rest going to one `Other`
/// segment whenever the shown types do not already fill it.
pub proof fn lemma_bar_covers_total(breakdown: Seq<(String, u64)>, total_size: u64, shown: Seq<(String, u64)>)
    requires
        bar_segments(breakdown, total_size, shown),
        breakdown.len() > BAR_SEGMENTS ==> size_sum(breakdown.take(BAR_SEGMENTS as int)) <= total_size,
    ensures
        breakdown.len() <= BAR_SEGMENTS ==> shown == breakdown,
        breakdown.len() > BAR_SEGMENTS ==> shown.take(BAR_SEGMENTS as int) == breakdown.take(BAR_SEGMENTS as int),
        breakdown.len() > BAR_SEGMENTS ==> size_sum(shown) == total_size,
        breakdown.len() > BAR_SEGMENTS && size_sum(breakdown.take(BAR_SEGMENTS as int)) < total_size ==> {
            &&& shown.len() == BAR_SEGMENTS + 1
            &&& shown.last().0@ == other_label()
            &&& shown.last().1 == total_size - size_sum(breakdown.take(BAR_SEGMENTS as int))
        },
{
    if breakdown.len() <= BAR_SEGMENTS {
        assert(breakdown.take(breakdown.len() as int) =~= breakdown);
    } else {
        let head = breakdown.take(BAR_SEGMENTS as int);
        if size_sum(head) < total_size {
            assert(shown.drop_last() =~= shown.take(BAR_SEGMENTS as int));
        }
    }
}

/// The segments of the file-type bar of the results.
pub fn ext_segments(results: &ScanResults) -> (segments: Vec<(String, u64)>)
    requires
        size_sum(results.ext_breakdown@.take(
            if results.ext_breakdown@.len() < BAR_SEGMENTS { results.ext_breakdown@.len() as int } else { BAR_SEGMENTS as int },
        )) <= u64::MAX,
        results.ext_breakdown@.len() > BAR_SEGMENTS ==> size_sum(results.ext_breakdown@.take(BAR_SEGMENTS as int))
            <= results.total_size,
    ensures
        bar_segments(results.ext_breakdown@, results.total_size, segments@),
{
    let b = &results.ext_breakdown;
    let n = if b.len() < BAR_SEGMENTS {
        b.len()
    } else {
        BAR_SEGMENTS
    };
    let mut segments: Vec<(String, u64)> = Vec::new();
    let mut accumulated: u64 = 0;
    let mut i: usize = 0;
    while i < n
        invariant
            n <= b@.len(),
            n == if b@.len() < BAR_SEGMENTS { b@.len() } else { BAR_SEGMENTS as nat },
            i <= n,
            segments@ == b@.take(i as int),
            accumulated == size_sum(b@.take(i as int)),
            size_sum(b@.take(n as int)) <= u64::MAX,
        decreases n - i,
    {
        proof {
            assert(b@.take(i + 1).drop_last() =~= b@.take(i as int));
            assert(b@.take(n as int) =~= b@.take(i + 1) + b@.take(n as int).skip(i + 1));
            crate::tally::lemma_size_sum_append(b@.take(i + 1), b@.take(n as int).skip(i + 1));
        }
        let key = b[i].0.clone();
        let size = b[i].1;
        segments.push((key, size));
        accumulated = accumulated + size;
        proof {
            assert(segments@ =~= b@.take(i + 1));
        }
        i = i + 1;
    }
    if b.len() > BAR_SEGMENTS {
        let rest = results.total_size - accumulated;
        if rest > 0 {
            segments.push((String::from_str("Other"), rest));
            proof {
                reveal_strlit("Other");
                assert("Other"@ =~= other_label());
                assert(segments@.take(n as int) =~= b@.take(n as int));
            }
        }
    }
    segments
}

/// The first character boundary of `bytes` at or after byte `i` (the end
/// of `bytes` at the latest).
pub open spec fn boundary_from(bytes: Seq<u8>, i: int) -> int
    decreases bytes.len() - i,
{
    if i >= bytes.len() || vstd::utf8::is_char_boundary(bytes, i) {
        i
    } else {
        boundary_from(bytes, i + 1)
    }
}

/// A directory label fitting the chart: the path itself when at most
/// `LABEL_BYTES` bytes long, else `...` and the longest end of the path of
/// at most `LABEL_BYTES` bytes that starts on a character (the last
/// `LABEL_BYTES` bytes when the cut falls between two characters).
pub open spec fn short_label_text(path: Seq<char>) -> Seq<char> {
    let bytes = vstd::utf8::encode_utf8(path);
    if bytes.len() > LABEL_BYTES {
        seq!['.', '.', '.'] + vstd::utf8::decode_utf8(
            bytes.skip(boundary_from(bytes, bytes.len() - LABEL_BYTES)),
        )
    } else {
        path
    }
}

/// Shortens a directory path for its chart label.
pub fn short_dir_label(path: &str) -> (label: String)
    ensures
        label@ == short_label_text(path@),
{
    let len = path.as_bytes().len();
    proof {
        assert(path.spec_bytes() == vstd::utf8::encode_utf8(path@));
        vstd::utf8::encode_utf8_valid_utf8(path@);
        vstd::utf8::is_char_boundary_start_end_of_seq(path.spec_bytes());
    }
    if len > LABEL_BYTES {
        let ghost bytes = path.spec_bytes();
        let mut cut = len - LABEL_BYTES;
        while cut < len && !path.is_char_boundary(cut)
            invariant
                len == bytes.len(),
                bytes == path.spec_bytes(),
                len - LABEL_BYTES <= cut <= len,
                boundary_from(bytes, len - LABEL_BYTES) == boundary_from(bytes, cut as int),
            decreases len - cut,
        {
            cut = cut + 1;
        }
        proof {
            vstd::utf8::is_char_boundary_start_end_of_seq(bytes);
            assert(vstd::utf8::is_char_boundary(bytes, cut as int));
            assert(boundary_from(bytes, cut as int) == cut);
        }
        let (_head, tail) = path.split_at(cut);
        let mut label = String::from_str("...");
        label.append(tail);
        proof {
            vstd::utf8::encode_utf8_decode_utf8(tail@);
            assert(path.spec_bytes() == vstd::utf8::encode_utf8(path@));
            assert(tail.spec_bytes() =~= path.spec_bytes().skip(cut as int));
            reveal_strlit("...");
            assert("..."@ =~= seq!['.', '.', '.']);
        }
        label
    } else {
        path.to_owned()
    }
}

/// The kinds of file the dashboard colours alike.
#[derive(Debug, Clone, Copy, PartialEq, Eq, Structural)]
pub enum FileKind {
    Archive,
    Video,
    Image,
    Executable,
    Text,
    Code,
    NoExtension,
    Other,
}

/// Whether `s` is one of `names`.
pub open spec fn one_of(s: Seq<char>, names: Seq<Seq<char>>) -> bool {
    exists|i: int| 0 <= i < names.len() && names[i] == s
}

/// The extension labels of kind `Archive`.
pub open spec fn archive_labels() -> Seq<Seq<char>> {
    seq![
        seq!['z', 'i', 'p'],
        seq!['r', 'a', 'r'],
        seq!['7', 'z'],
        seq!['t', 'a', 'r'],
        seq!['g', 'z'],
        seq!['i', 's', 'o'],
    ]
}

/// The extension labels of kind `Video`.
pub open spec fn video_labels() -> Seq<Seq<char>> {
    seq![
        seq!['m', 'p', '4'],
        seq!['m', 'k', 'v'],
        seq!['a', 'v', 'i'],
        seq!['m', 'o', 'v'],
        seq!['f', 'l', 'v'],
        seq!['w', 'm', 'v'],
    ]
}

/// The extension labels of kind `Image`.
pub open spec fn image_labels() -> Seq<Seq<char>> {
    seq![
        seq!['p', 'n', 'g'],
        seq!['j', 'p', 'g'],
        seq!['j', 'p', 'e', 'g'],
        seq!['g', 'i', 'f'],
        seq!['w', 'e', 'b', 'p'],
        seq!['s', 'v', 'g'],
        seq!['b', 'm', 'p'],
    ]
}

/// The extension labels of kind `Executable`.
pub open spec fn program_labels() -> Seq<Seq<char>> {
    seq![
        seq!['e', 'x', 'e'],
        seq!['m', 's', 'i'],
        seq!['b', 'a', 't'],
        seq!['c', 'm', 'd'],
        seq!['p', 's', '1'],
        seq!['s', 'h'],
        seq!['d', 'l', 'l'],
        seq!['s', 'y', 's'],
    ]
}

/// The extension labels of kind `Text`.
pub open spec fn text_labels() -> Seq<Seq<char>> {
    seq![
        seq!['t', 'x', 't'],
        seq!['m', 'd'],
        seq!['j', 's', 'o', 'n'],
        seq!['x', 'm', 'l'],
        seq!['y', 'a', 'm', 'l'],
        seq!['y', 'm', 'l'],
        seq!['i', 'n', 'i'],
        seq!['l', 'o', 'g'],
    ]
}

/// The extension labels of kind `Code`.
pub open spec fn source_labels() -> Seq<Seq<char>> {
    seq![
        seq!['r', 's'],
        seq!['g', 'o'],
        seq!['p', 'y'],
        seq!['j', 's'],
        seq!['t', 's'],
        seq!['h', 't', 'm', 'l'],
        seq!['c', 's', 's'],
        seq!['c', 'p', 'p'],
        seq!['c'],
        seq!['h'],
    ]
}

/// The kind of an extension label.
pub open spec fn kind_of_label(ext: Seq<char>) -> FileKind {
    if one_of(ext, archive_labels()) {
        FileKind::Archive
    } else if one_of(ext, video_labels()) {
        FileKind::Video
    } else if one_of(ext, image_labels()) {
        FileKind::Image
    } else if one_of(ext, program_labels()) {
        FileKind::Executable
    } else if one_of(ext, text_labels()) {
        FileKind::Text
    } else if one_of(ext, source_labels()) {
        FileKind::Code
    } else if ext == crate::scan::no_extension_label() {
        FileKind::NoExtension
    } else {
        FileKind::Other
    }
}

/// The kinds of the known extension labels, a fixed table: archives,
/// videos, images, programs, texts and source code.
pub open spec fn label_kinds() -> Seq<(Seq<char>, FileKind)> {
    seq![
        (seq!['z', 'i', 'p'], FileKind::Archive),
        (seq!['r', 'a', 'r'], FileKind::Archive),
        (seq!['7', 'z'], FileKind::Archive),
        (seq!['t', 'a', 'r'], FileKind::Archive),
        (seq!['g', 'z'], FileKind::Archive),
        (seq!['i', 's', 'o'], FileKind::Archive),
        (seq!['m', 'p', '4'], FileKind::Video),
        (seq!['m', 'k', 'v'], FileKind::Video),
        (seq!['a', 'v', 'i'], FileKind::Video),
        (seq!['m', 'o', 'v'], FileKind::Video),
        (seq!['f', 'l', 'v'], FileKind::Video),
        (seq!['w', 'm', 'v'], FileKind::Video),
        (seq!['p', 'n', 'g'], FileKind::Image),
        (seq!['j', 'p', 'g'], FileKind::Image),
        (seq!['j', 'p', 'e', 'g'], FileKind::Image),
        (seq!['g', 'i', 'f'], FileKind::Image),
        (seq!['w', 'e', 'b', 'p'], FileKind::Image),
        (seq!['s', 'v', 'g'], FileKind::Image),
        (seq!['b', 'm', 'p'], FileKind::Image),
        (seq!['e', 'x', 'e'], FileKind::Executable),
        (seq!['m', 's', 'i'], FileKind::Executable),
        (seq!['b', 'a', 't'], FileKind::Executable),
        (seq!['c', 'm', 'd'], FileKind::Executable),
        (seq!['p', 's', '1'], FileKind::Executable),
        (seq!['s', 'h'], FileKind::Executable),
        (seq!['d', 'l', 'l'], FileKind::Executable),
        (seq!['s', 'y', 's'], FileKind::Executable),
        (seq!['t', 'x', 't'], FileKind::Text),
        (seq!['m', 'd'], FileKind::Text),
        (seq!['j', 's', 'o', 'n'], FileKind::Text),
        (seq!['x', 'm', 'l'], FileKind::Text),
        (seq!['y', 'a', 'm', 'l'], FileKind::Text),
        (seq!['y', 'm', 'l'], FileKind::Text),
        (seq!['i', 'n', 'i'], FileKind::Text),
        (seq!['l', 'o', 'g'], FileKind::Text),
        (seq!['r', 's'], FileKind::Code),
        (seq!['g', 'o'], FileKind::Code),
        (seq!['p', 'y'], FileKind::Code),
        (seq!['j', 's'], FileKind::Code),
        (seq!['t', 's'], FileKind::Code),
        (seq!['h', 't', 'm', 'l'], FileKind::Code),
        (seq!['c', 's', 's'], FileKind::Code),
        (seq!['c', 'p', 'p'], FileKind::Code),
        (seq!['c'], FileKind::Code),
        (seq!['h'], FileKind::Code),
    ]
}

/// The table's archive labels are of kind `Archive`.
proof fn lemma_archive_kinds()
    ensures
        forall|i: int| 0 <= i < 6 ==> #[trigger] kind_of_label(label_kinds()[i].0) == label_kinds()[i].1,
{
    assert forall|i: int| 0 <= i < 6 implies #[trigger] kind_of_label(label_kinds()[i].0) == label_kinds()[i].1 by {
        assert(i == 0 || i == 1 || i == 2 || i == 3 || i == 4 || i == 5);
    }
}

/// The table's video labels are of kind `Video`.
proof fn lemma_video_kinds()
    ensures
        forall|i: int| 6 <= i < 12 ==> #[trigger] kind_of_label(label_kinds()[i].0) == label_kinds()[i].1,
{
    assert forall|i: int| 6 <= i < 12 implies #[trigger] kind_of_label(label_kinds()[i].0) == label_kinds()[i].1 by {
        assert(i == 6 || i == 7 || i == 8 || i == 9 || i == 10 || i == 11);
    }
}

/// The table's image labels are of kind `Image`.
proof fn lemma_image_kinds()
    ensures
        forall|i: int| 12 <= i < 19 ==> #[trigger] kind_of_label(label_kinds()[i].0) == label_kinds()[i].1,
{
    assert forall|i: int| 12 <= i < 19 implies #[trigger] kind_of_label(label_kinds()[i].0) == label_kinds()[i].1 by {
        assert(i == 12 || i == 13 || i == 14 || i == 15 || i == 16 || i == 17 || i == 18);
    }
}

/// The table's executable labels are of kind `Executable`.
proof fn lemma_program_kinds()
    ensures
        forall|i: int| 19 <= i < 27 ==> #[trigger] kind_of_label(label_kinds()[i].0) == label_kinds()[i].1,
{
    assert forall|i: int| 19 <= i < 27 implies #[trigger] kind_of_label(label_kinds()[i].0) == label_kinds()[i].1 by {
        assert(i == 19 || i == 20 || i == 21 || i == 22 || i == 23 || i == 24 || i == 25 || i == 26);
    }
}

/// The table's text labels are of kind `Text`.
proof fn lemma_text_kinds()
    ensures
        forall|i: int| 27 <= i < 35 ==> #[trigger] kind_of_label(label_kinds()[i].0) == label_kinds()[i].1,
{
    assert forall|i: int| 27 <= i < 35 implies #[trigger] kind_of_label(label_kinds()[i].0) == label_kinds()[i].1 by {
        assert(i == 27 || i == 28 || i == 29 || i == 30 || i == 31 || i == 32 || i == 33 || i == 34);
    }
}

/// The table's code labels are of kind `Code`.
proof fn lemma_source_kinds()
    ensures
        forall|i: int| 35 <= i < 45 ==> #[trigger] kind_of_label(label_kinds()[i].0) == label_kinds()[i].1,
{
    assert(!one_of(seq!['j', 's'], text_labels())) by {
        if one_of(seq!['j', 's'], text_labels()) {
            let i = choose|i: int| 0 <= i < text_labels().len() && text_labels()[i] == seq!['j', 's'];
            assert(text_labels().len() == 8);
            assert(text_labels()[2].len() == 4);
            assert(seq!['j', 's'].len() == 2);
            assert(i == 0 || i == 1 || i == 2 || i == 3 || i == 4 || i == 5 || i == 6 || i == 7);
        }
    }
    assert(!one_of(seq!['c'], program_labels())) by {
        if one_of(seq!['c'], program_labels()) {
            let i = choose|i: int| 0 <= i < program_labels().len() && program_labels()[i] == seq!['c'];
            assert(program_labels().len() == 8);
            assert(program_labels()[3].len() == 3);
            assert(seq!['c'].len() == 1);
            assert(i == 0 || i == 1 || i == 2 || i == 3 || i == 4 || i == 5 || i == 6 || i == 7);
        }
    }
    assert forall|i: int| 35 <= i < 45 implies #[trigger] kind_of_label(label_kinds()[i].0) == label_kinds()[i].1 by {
        assert(i == 35 || i == 36 || i == 37 || i == 38 || i == 39 || i == 40 || i == 41 || i == 42 || i == 43 || i == 44);
    }
}

/// A label that is none of the table's, nor `no extension`, is of kind
/// `Other`.
proof fn lemma_unlisted_kind(ext: Seq<char>)
    requires
        ext != crate::scan::no_extension_label(),
        forall|i: int| 0 <= i < label_kinds().len() ==> #[trigger] label_kinds()[i].0 != ext,
    ensures
        kind_of_label(ext) == FileKind::Other,
{
    assert(label_kinds().len() == 45);
    assert(!one_of(ext, archive_labels())) by {
        if one_of(ext, archive_labels()) {
            let i = choose|i: int| 0 <= i < archive_labels().len() && archive_labels()[i] == ext;
            assert(i == 0 || i == 1 || i == 2 || i == 3 || i == 4 || i == 5);
            assert(label_kinds()[0].0 != ext);
            assert(label_kinds()[1].0 != ext);
            assert(label_kinds()[2].0 != ext);
            assert(label_kinds()[3].0 != ext);
            assert(label_kinds()[4].0 != ext);
            assert(label_kinds()[5].0 != ext);
        }
    }
    assert(!one_of(ext, video_labels())) by {
        if one_of(ext, video_labels()) {
            let i = choose|i: int| 0 <= i < video_labels().len() && video_labels()[i] == ext;
            assert(i == 0 || i == 1 || i == 2 || i == 3 || i == 4 || i == 5);
            assert(label_kinds()[6].0 != ext);
            assert(label_kinds()[7].0 != ext);
            assert(label_kinds()[8].0 != ext);
            assert(label_kinds()[9].0 != ext);
            assert(label_kinds()[10].0 != ext);
            assert(label_kinds()[11].0 != ext);
        }
    }
    assert(!one_of(ext, image_labels())) by {
        if one_of(ext, image_labels()) {
            let i = choose|i: int| 0 <= i < image_labels().len() && image_labels()[i] == ext;
            assert(i == 0 || i == 1 || i == 2 || i == 3 || i == 4 || i == 5 || i == 6);
            assert(label_kinds()[12].0 != ext);
            assert(label_kinds()[13].0 != ext);
            assert(label_kinds()[14].0 != ext);
            assert(label_kinds()[15].0 != ext);
            assert(label_kinds()[16].0 != ext);
            assert(label_kinds()[17].0 != ext);
            assert(label_kinds()[18].0 != ext);
        }
    }
    assert(!one_of(ext, program_labels())) by {
        if one_of(ext, program_labels()) {
            let i = choose|i: int| 0 <= i < program_labels().len() && program_labels()[i] == ext;
            assert(i == 0 || i == 1 || i == 2 || i == 3 || i == 4 || i == 5 || i == 6 || i == 7);
            assert(label_kinds()[19].0 != ext);
            assert(label_kinds()[20].0 != ext);
            assert(label_kinds()[21].0 != ext);
            assert(label_kinds()[22].0 != ext);
            assert(label_kinds()[23].0 != ext);
            assert(label_kinds()[24].0 != ext);
            assert(label_kinds()[25].0 != ext);
            assert(label_kinds()[26].0 != ext);
        }
    }
    assert(!one_of(ext, text_labels())) by {
        if one_of(ext, text_labels()) {
            let i = choose|i: int| 0 <= i < text_labels().len() && text_labels()[i] == ext;
            assert(i == 0 || i == 1 || i == 2 || i == 3 || i == 4 || i == 5 || i == 6 || i == 7);
            assert(label_kinds()[27].0 != ext);
            assert(label_kinds()[28].0 != ext);
            assert(label_kinds()[29].0 != ext);
            assert(label_kinds()[30].0 != ext);
            assert(label_kinds()[31].0 != ext);
            assert(label_kinds()[32].0 != ext);
            assert(label_kinds()[33].0 != ext);
            assert(label_kinds()[34].0 != ext);
        }
    }
    assert(!one_of(ext, source_labels())) by {
        if one_of(ext, source_labels()) {
            let i = choose|i: int| 0 <= i < source_labels().len() && source_labels()[i] == ext;
            assert(i == 0 || i == 1 || i == 2 || i == 3 || i == 4 || i == 5 || i == 6 || i == 7 || i == 8 || i == 9);
            assert(label_kinds()[35].0 != ext);
            assert(label_kinds()[36].0 != ext);
            assert(label_kinds()[37].0 != ext);
            assert(label_kinds()[38].0 != ext);
            assert(label_kinds()[39].0 != ext);
            assert(label_kinds()[40].0 != ext);
            assert(label_kinds()[41].0 != ext);
            assert(label_kinds()[42].0 != ext);
            assert(label_kinds()[43].0 != ext);
            assert(label_kinds()[44].0 != ext);
        }
    }
}

/// Every label of the table is of its kind, `no extension` is of kind
/// `NoExtension`, and every other label is of kind `Other`.
pub proof fn lemma_label_kinds(ext: Seq<char>)
    ensures
        forall|i: int| 0 <= i < label_kinds().len() ==> #[trigger] kind_of_label(label_kinds()[i].0) == label_kinds()[i].1,
        kind_of_label(crate::scan::no_extension_label()) == FileKind::NoExtension,
        ext != crate::scan::no_extension_label() && (forall|i: int|
            0 <= i < label_kinds().len() ==> #[trigger] label_kinds()[i].0 != ext) ==> kind_of_label(ext) == FileKind::Other,
{
    assert(label_kinds().len() == 45);
    lemma_archive_kinds();
    lemma_video_kinds();
    lemma_image_kinds();
    lemma_program_kinds();
    lemma_text_kinds();
    lemma_source_kinds();
    if ext != crate::scan::no_extension_label() && (forall|i: int|
        0 <= i < label_kinds().len() ==> #[trigger] label_kinds()[i].0 != ext) {
        lemma_unlisted_kind(ext);
    }
}

/// Whether two texts are the same.
pub fn same_text(a: &str, b: &str) -> (same: bool)
    ensures
        same == (a@ == b@),
{
    let x = a.as_bytes();
    let y = b.as_bytes();
    proof {
        vstd::utf8::encode_utf8_decode_utf8(a@);
        vstd::utf8::encode_utf8_decode_utf8(b@);
    }
    proof {
        assert(x@ == a.spec_bytes());
        assert(y@ == b.spec_bytes());
        assert(a@ == b@ ==> x@ == y@);
        assert(vstd::utf8::decode_utf8(x@) == a@);
        assert(vstd::utf8::decode_utf8(y@) == b@);
    }
    if x.len() != y.len() {
        return false;
    }
    let mut i: usize = 0;
    while i < x.len()
        invariant
            x@.len() == y@.len(),
            i <= x@.len(),
            forall|j: int| 0 <= j < i ==> x@[j] == y@[j],
            a@ == b@ ==> x@ == y@,
            vstd::utf8::decode_utf8(x@) == a@,
            vstd::utf8::decode_utf8(y@) == b@,
        decreases x@.len() - i,
    {
        if x[i] != y[i] {
            proof {
                assert(x@ != y@);
            }
            return false;
        }
        i = i + 1;
    }
    proof {
        assert(x@ =~= y@);
    }
    true
}

/// Whether `s` is one of the texts.
fn is_one_of(s: &str, names: &[&str]) -> (b: bool)
    ensures
        b == one_of(s@, names@.map_values(|n: &str| n@)),
{
    let mut i: usize = 0;
    while i < names.len()
        invariant
            i <= names@.len(),
            forall|j: int| 0 <= j < i ==> names@[j]@ != s@,
        decreases names@.len() - i,
    {
        if same_text(names[i], s) {
            proof {
                assert(names@.map_values(|n: &str| n@)[i as int] == s@);
            }
            return true;
        }
        i = i + 1;
    }
    proof {
        let views = names@.map_values(|n: &str| n@);
        if one_of(s@, views) {
            let j = choose|j: int| 0 <= j < views.len() && #[trigger] views[j] == s@;
            assert(names@[j]@ == s@);
        }
    }
    false
}

/// The kind of an extension label.
pub fn kind_of(ext: &str) -> (kind: FileKind)
    ensures
        kind == kind_of_label(ext@),
{
    let archives = vec!["zip", "rar", "7z", "tar", "gz", "iso"];
    let videos = vec!["mp4", "mkv", "avi", "mov", "flv", "wmv"];
    let images = vec!["png", "jpg", "jpeg", "gif", "webp", "svg", "bmp"];
    let programs = vec!["exe", "msi", "bat", "cmd", "ps1", "sh", "dll", "sys"];
    let texts = vec!["txt", "md", "json", "xml", "yaml", "yml", "ini", "log"];
    let sources = vec!["rs", "go", "py", "js", "ts", "html", "css", "cpp", "c", "h"];
    proof {
        reveal_strlit("zip");
        assert("zip"@ =~= seq!['z', 'i', 'p']);
        reveal_strlit("rar");
        assert("rar"@ =~= seq!['r', 'a', 'r']);
        reveal_strlit("7z");
        assert("7z"@ =~= seq!['7', 'z']);
        reveal_strlit("tar");
        assert("tar"@ =~= seq!['t', 'a', 'r']);
        reveal_strlit("gz");
        assert("gz"@ =~= seq!['g', 'z']);
        reveal_strlit("iso");
        assert("iso"@ =~= seq!['i', 's', 'o']);
        reveal_strlit("mp4");
        assert("mp4"@ =~= seq!['m', 'p', '4']);
        reveal_strlit("mkv");
        assert("mkv"@ =~= seq!['m', 'k', 'v']);
        reveal_strlit("avi");
        assert("avi"@ =~= seq!['a', 'v', 'i']);
        reveal_strlit("mov");
        assert("mov"@ =~= seq!['m', 'o', 'v']);
        reveal_strlit("flv");
        assert("flv"@ =~= seq!['f', 'l', 'v']);
        reveal_strlit("wmv");
        assert("wmv"@ =~= seq!['w', 'm', 'v']);
        reveal_strlit("png");
        assert("png"@ =~= seq!['p', 'n', 'g']);
        reveal_strlit("jpg");
        assert("jpg"@ =~= seq!['j', 'p', 'g']);
        reveal_strlit("jpeg");
        assert("jpeg"@ =~= seq!['j', 'p', 'e', 'g']);
        reveal_strlit("gif");
        assert("gif"@ =~= seq!['g', 'i', 'f']);
        reveal_strlit("webp");
        assert("webp"@ =~= seq!['w', 'e', 'b', 'p']);
        reveal_strlit("svg");
        assert("svg"@ =~= seq!['s', 'v', 'g']);
        reveal_strlit("bmp");
        assert("bmp"@ =~= seq!['b', 'm', 'p']);
        reveal_strlit("exe");
        assert("exe"@ =~= seq!['e', 'x', 'e']);
        reveal_strlit("msi");
        assert("msi"@ =~= seq!['m', 's', 'i']);
        reveal_strlit("bat");
        assert("bat"@ =~= seq!['b', 'a', 't']);
        reveal_strlit("cmd");
        assert("cmd"@ =~= seq!['c', 'm', 'd']);
        reveal_strlit("ps1");
        assert("ps1"@ =~= seq!['p', 's', '1']);
        reveal_strlit("sh");
        assert("sh"@ =~= seq!['s', 'h']);
        reveal_strlit("dll");
        assert("dll"@ =~= seq!['d', 'l', 'l']);
        reveal_strlit("sys");
        assert("sys"@ =~= seq!['s', 'y', 's']);
        reveal_strlit("txt");
        assert("txt"@ =~= seq!['t', 'x', 't']);
        reveal_strlit("md");
        assert("md"@ =~= seq!['m', 'd']);
        reveal_strlit("json");
        assert("json"@ =~= seq!['j', 's', 'o', 'n']);
        reveal_strlit("xml");
        assert("xml"@ =~= seq!['x', 'm', 'l']);
        reveal_strlit("yaml");
        assert("yaml"@ =~= seq!['y', 'a', 'm', 'l']);
        reveal_strlit("yml");
        assert("yml"@ =~= seq!['y', 'm', 'l']);
        reveal_strlit("ini");
        assert("ini"@ =~= seq!['i', 'n', 'i']);
        reveal_strlit("log");
        assert("log"@ =~= seq!['l', 'o', 'g']);
        reveal_strlit("rs");
        assert("rs"@ =~= seq!['r', 's']);
        reveal_strlit("go");
        assert("go"@ =~= seq!['g', 'o']);
        reveal_strlit("py");
        assert("py"@ =~= seq!['p', 'y']);
        reveal_strlit("js");
        assert("js"@ =~= seq!['j', 's']);
        reveal_strlit("ts");
        assert("ts"@ =~= seq!['t', 's']);
        reveal_strlit("html");
        assert("html"@ =~= seq!['h', 't', 'm', 'l']);
        reveal_strlit("css");
        assert("css"@ =~= seq!['c', 's', 's']);
        reveal_strlit("cpp");
        assert("cpp"@ =~= seq!['c', 'p', 'p']);
        reveal_strlit("c");
        assert("c"@ =~= seq!['c']);
        reveal_strlit("h");
        assert("h"@ =~= seq!['h']);
        assert(archives@.map_values(|n: &str| n@) =~= archive_labels());
        assert(videos@.map_values(|n: &str| n@) =~= video_labels());
        assert(images@.map_values(|n: &str| n@) =~= image_labels());
        assert(programs@.map_values(|n: &str| n@) =~= program_labels());
        assert(texts@.map_values(|n: &str| n@) =~= text_labels());
        assert(sources@.map_values(|n: &str| n@) =~= source_labels());
        reveal_strlit("no extension");
    assert("no extension"@ =~= seq!['n', 'o', ' ', 'e', 'x', 't', 'e', 'n', 's', 'i', 'o', 'n']);
        assert("no extension"@ =~= crate::scan::no_extension_label());
    }
    if is_one_of(ext, archives.as_slice()) {
        FileKind::Archive
    } else if is_one_of(ext, videos.as_slice()) {
        FileKind::Video
    } else if is_one_of(ext, images.as_slice()) {
        FileKind::Image
    } else if is_one_of(ext, programs.as_slice()) {
        FileKind::Executable
    } else if is_one_of(ext, texts.as_slice()) {
        FileKind::Text
    } else if is_one_of(ext, sources.as_slice()) {
        FileKind::Code
    } else if same_text(ext, "no extension") {
        FileKind::NoExtension
    } else {
        FileKind::Other
    }
}

/// The colour (red, green, blue) a kind of file is drawn in.
pub open spec fn kind_rgb(kind: FileKind) -> (u8, u8, u8) {
    match kind {
        FileKind::Archive => (168, 85, 247),
        FileKind::Video => (59, 130, 246),
        FileKind::Image => (236, 72, 153),
        FileKind::Executable => (239, 68, 68),
        FileKind::Text => (245, 158, 11),
        FileKind::Code => (6, 182, 212),
        FileKind::NoExtension => (100, 116, 139),
        FileKind::Other => (20, 184, 166),
    }
}

/// The colours of the kinds: purple archives, blue videos, pink images,
/// red programs, yellow texts, cyan source code, slate grey for no
/// extension, teal for the rest.
pub proof fn lemma_kind_colours()
    ensures
        kind_rgb(FileKind::Archive) == (168u8, 85u8, 247u8),
        kind_rgb(FileKind::Video) == (59u8, 130u8, 246u8),
        kind_rgb(FileKind::Image) == (236u8, 72u8, 153u8),
        kind_rgb(FileKind::Executable) == (239u8, 68u8, 68u8),
        kind_rgb(FileKind::Text) == (245u8, 158u8, 11u8),
        kind_rgb(FileKind::Code) == (6u8, 182u8, 212u8),
        kind_rgb(FileKind::NoExtension) == (100u8, 116u8, 139u8),
        kind_rgb(FileKind::Other) == (20u8, 184u8, 166u8),
{
}

/// The colour of the files with an extension label: purple archives, blue
/// videos, pink images, red programs, yellow texts, cyan source code,
/// grey for no extension, teal for the rest.
pub fn ext_color(ext: &str) -> (rgb: (u8, u8, u8))
    ensures
        rgb == kind_rgb(kind_of_label(ext@)),
{
    match kind_of(ext) {
        FileKind::Archive => (168, 85, 247),
        FileKind::Video => (59, 130, 246),
        FileKind::Image => (236, 72, 153),
        FileKind::Executable => (239, 68, 68),
        FileKind::Text => (245, 158, 11),
        FileKind::Code => (6, 182, 212),
        FileKind::NoExtension => (100, 116, 139),
        FileKind::Other => (20, 184, 166),
    }
}

/// The icon shown before a file's name in the table.
pub fn file_icon(ext: &str) -> (icon: &'static str)
    ensures
        kind_of_label(ext@) == FileKind::Archive ==> icon@ == "📦"@,
        kind_of_label(ext@) == FileKind::Video ==> icon@ == "🎥"@,
        kind_of_label(ext@) == FileKind::Image ==> icon@ == "🖼️"@,
        kind_of_label(ext@) == FileKind::Executable ==> icon@ == "⚙️"@,
        kind_of_label(ext@) != FileKind::Archive && kind_of_label(ext@) != FileKind::Video
            && kind_of_label(ext@) != FileKind::Image && kind_of_label(ext@) != FileKind::Executable
            ==> icon@ == "📄"@,
{
    match kind_of(ext) {
        FileKind::Archive => "📦",
        FileKind::Video => "🎥",
        FileKind::Image => "🖼️",
        FileKind::Executable => "⚙️",
        _ => "📄",
    }
}

} // verus!
