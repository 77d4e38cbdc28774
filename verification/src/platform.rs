//! What a platform reports of an entry, turned into what the scan keeps:
//! modification times, the kind of an entry behind a link, extra tags, and
//! the comparison of paths without regard to the case of ASCII letters.

use crate::path::{collect_path_hierarchy, parent_text_of, spec_hierarchy, spec_parent};
use crate::path::{PathKey, SegmentView};
use crate::scan::{option_text, FileInfo, FileInfoView};
use crate::text::compare_text;
use crate::text::TextOrder;
use vstd::prelude::*;
use vstd::std_specs::iter::IteratorSpec;
use vstd::string::*;

verus! {

/// Ticks of a hundred nanoseconds in one second.
pub const HUNDRED_NANOS_PER_SEC: i64 = 10_000_000;

/// Seconds from the first of January 1601 to the first of January 1970.
pub const WINDOWS_TO_UNIX_EPOCH_DIFF_SECS: i64 = 11_644_473_600;

/// The seconds before and after 1970 within which every time is written
/// out for sure; the years that can be written reach a little further.
pub const WRITTEN_SECONDS: i64 = 8_000_000_000_000;

/// The time that lies the given seconds and nanoseconds after the start of
/// 1970, in UTC, written by RFC 3339.
pub uninterp spec fn rfc3339_of(secs: int, nanos: int) -> Seq<char>;

/// Whether a time is written out for sure: it lies no further from 1970
/// than `WRITTEN_SECONDS`, and its nanoseconds lie within one second.
pub open spec fn written_for_sure(secs: int, nanos: int) -> bool {
    -8_000_000_000_000 <= secs <= 8_000_000_000_000 && 0 <= nanos < 1_000_000_000
}

/// chrono's `DateTime::from_timestamp` on the given seconds and
/// nanoseconds since the start of 1970, and what it gives written out by
/// `to_rfc3339`. Believed, not proved. chrono gives a time for every second
/// of the years from 262143 before our era to 262142 of it, where the
/// nanoseconds lie within one second; `written_for_sure` lies within that.
/// Neither call panics.
#[verifier::external_body]
fn timestamp_to_rfc3339(secs: i64, nanos: u32) -> (text: Option<String>)
    ensures
        text matches Some(t) ==> t@ == rfc3339_of(secs as int, nanos as int),
        written_for_sure(secs as int, nanos as int) ==> text is Some,
{
    match chrono::DateTime::from_timestamp(secs, nanos) {
        Some(time) => Some(time.to_rfc3339()),
        None => None,
    }
}

/// The text of a time given in seconds and nanoseconds since the start of
/// 1970, the seconds counted back where they are negative. There is a text
/// for every time that is written for sure; beyond that there is one as
/// far as chrono's years reach.
pub fn modified_text(secs: i64, nanos: u32) -> (text: Option<String>)
    ensures
        text matches Some(t) ==> t@ == rfc3339_of(secs as int, nanos as int),
        written_for_sure(secs as int, nanos as int) ==> text is Some,
{
    timestamp_to_rfc3339(secs, nanos)
}

/// A time that lies a span before or after the start of 1970, as seconds
/// since then and nanoseconds within the second: after 1970 the span
/// itself; before it the seconds counted back, one more where nanoseconds
/// remain, and the nanoseconds counted up from that second. There is none
/// where the nanoseconds do not lie within one second or the seconds do
/// not fit.
pub open spec fn spec_signed_time(after: bool, secs: int, nanos: int) -> Option<(int, int)> {
    if nanos >= 1_000_000_000 || secs > i64::MAX {
        None
    } else if after {
        Some((secs, nanos))
    } else if nanos == 0 {
        Some((-secs, 0))
    } else {
        Some((-secs - 1, 1_000_000_000 - nanos))
    }
}

/// Turns a span before or after the start of 1970 into seconds since then
/// and nanoseconds within the second.
pub fn signed_time(after: bool, secs: u64, nanos: u32) -> (time: Option<(i64, u32)>)
    ensures
        match time {
            Some((s, n)) => spec_signed_time(after, secs as int, nanos as int) == Some(
                (s as int, n as int),
            ),
            None => spec_signed_time(after, secs as int, nanos as int).is_none(),
        },
{
    if nanos >= 1_000_000_000 || secs > 0x7fff_ffff_ffff_ffff {
        return None;
    }
    let whole: i64 = secs as i64;
    if after {
        Some((whole, nanos))
    } else if nanos == 0 {
        Some((-whole, 0))
    } else {
        Some((-whole - 1, 1_000_000_000 - nanos))
    }
}

/// The text of a time that lies a span before or after the start of 1970;
/// none where the span has no seconds and nanoseconds since then, or
/// chrono's years do not reach it.
pub fn modified_text_of(after: bool, secs: u64, nanos: u32) -> (text: Option<String>)
    ensures
        match spec_signed_time(after, secs as int, nanos as int) {
            Some((s, n)) => (text matches Some(t) ==> t@ == rfc3339_of(s, n)) && (written_for_sure(
                s,
                n,
            ) ==> text is Some),
            None => text.is_none(),
        },
{
    match signed_time(after, secs, nanos) {
        Some((s, n)) => modified_text(s, n),
        None => None,
    }
}

/// The text of a time given in ticks of a hundred nanoseconds since the
/// start of 1601: none for a count that is not positive or that lies before
/// 1970, else the time by RFC 3339.
pub open spec fn spec_modified_timestamp(ticks: int) -> Option<Seq<char>> {
    if ticks <= 0 {
        None
    } else if ticks / 10_000_000 - 11_644_473_600 < 0 {
        None
    } else {
        Some(rfc3339_of(ticks / 10_000_000 - 11_644_473_600, (ticks % 10_000_000) * 100))
    }
}

/// Turns a time in ticks of a hundred nanoseconds since the start of 1601
/// into its text.
pub fn to_modified_timestamp(date_modified: i64) -> (text: Option<String>)
    ensures
        option_text(text) == spec_modified_timestamp(date_modified as int),
{
    if date_modified <= 0 {
        return None;
    }
    let unix_timestamp_secs = (date_modified / HUNDRED_NANOS_PER_SEC)
        - WINDOWS_TO_UNIX_EPOCH_DIFF_SECS;
    let unix_timestamp_nanos = ((date_modified % HUNDRED_NANOS_PER_SEC) * 100) as u32;
    if unix_timestamp_secs >= 0 {
        modified_text(unix_timestamp_secs, unix_timestamp_nanos)
    } else {
        None
    }
}

/// What the file system says of a path that may be a link.
#[derive(Clone, Copy, Debug, PartialEq, Eq, Structural)]
pub enum LinkStatus {
    /// The path itself could not be examined.
    Unknown,
    /// The path is no link; the flag says whether it is a directory.
    Plain(bool),
    /// The path is a link; the value says whether its target is a
    /// directory, where the target could be examined.
    Link(Option<bool>),
}

/// Whether an entry is a directory and whether it is a link, as a pair.
/// What cannot be examined counts as what the listing took it for.
pub open spec fn spec_classify_entry(status: LinkStatus, fallback_is_directory: bool) -> (bool, bool) {
    match status {
        LinkStatus::Unknown => (fallback_is_directory, false),
        LinkStatus::Plain(is_directory) => (is_directory, false),
        LinkStatus::Link(Some(target_is_directory)) => (target_is_directory, true),
        LinkStatus::Link(None) => (fallback_is_directory, true),
    }
}

/// Decides whether an entry is a directory and whether it is a link.
pub fn classify_entry(status: LinkStatus, fallback_is_directory: bool) -> (kind: (bool, bool))
    ensures
        kind == spec_classify_entry(status, fallback_is_directory),
{
    match status {
        LinkStatus::Unknown => (fallback_is_directory, false),
        LinkStatus::Plain(is_directory) => (is_directory, false),
        LinkStatus::Link(target) => match target {
            Some(target_is_directory) => (target_is_directory, true),
            None => (fallback_is_directory, true),
        },
    }
}

/// Whether an entry is the untagged record of the given facts, with the
/// breadcrumb of its path written with one of the separators.
pub open spec fn is_fresh_entry(
    info: FileInfoView,
    path: PathKey,
    is_directory: bool,
    is_symlink: bool,
    size: u64,
    modified: Option<Seq<char>>,
    windows_tags: Seq<Seq<char>>,
) -> bool {
    &&& info.path == path@
    &&& info.path_text == path.text_view()
    &&& info.is_directory == is_directory
    &&& info.is_symlink == is_symlink
    &&& info.size == size
    &&& info.hierarchy == spec_hierarchy(path@, '/') || info.hierarchy == spec_hierarchy(path@, '\\')
    &&& info.modified == modified
    &&& info.own_tags == Seq::<Seq<char>>::empty()
    &&& info.inherited_tags == Seq::<Seq<char>>::empty()
    &&& info.windows_tags == windows_tags
}

/// The record of an entry from what its metadata says: no tags yet, the
/// breadcrumb read off the path.
pub fn build_file_info(
    path: PathKey,
    is_directory: bool,
    is_symlink: bool,
    size: u64,
    modified: Option<String>,
) -> (info: FileInfo)
    ensures
        is_fresh_entry(
            info@,
            path,
            is_directory,
            is_symlink,
            size,
            option_text(modified),
            Seq::<Seq<char>>::empty(),
        ),
{
    let hierarchy = collect_path_hierarchy(&path);
    let own_tags: Vec<String> = Vec::new();
    let inherited_tags: Vec<String> = Vec::new();
    let windows_tags: Vec<String> = Vec::new();
    proof {
        assert(own_tags.deep_view() =~= Seq::<Seq<char>>::empty());
        assert(inherited_tags.deep_view() =~= Seq::<Seq<char>>::empty());
        assert(windows_tags.deep_view() =~= Seq::<Seq<char>>::empty());
    }
    FileInfo {
        path,
        is_directory,
        is_symlink,
        size,
        hierarchy,
        modified,
        own_tags,
        inherited_tags,
        windows_tags,
    }
}

/// The record of an entry from the properties that an indexed listing
/// gives: its size, its modification time in ticks since 1601, its keyword
/// tags, and what the file system says of its kind.
pub fn build_file_info_from_properties(
    path: PathKey,
    size: u64,
    date_modified: i64,
    windows_tags: Vec<String>,
    status: LinkStatus,
    fallback_is_directory: bool,
) -> (info: FileInfo)
    ensures
        is_fresh_entry(
            info@,
            path,
            spec_classify_entry(status, fallback_is_directory).0,
            spec_classify_entry(status, fallback_is_directory).1,
            size,
            spec_modified_timestamp(date_modified as int),
            windows_tags.deep_view(),
        ),
{
    let hierarchy = collect_path_hierarchy(&path);
    let modified = to_modified_timestamp(date_modified);
    let kind = classify_entry(status, fallback_is_directory);
    let own_tags: Vec<String> = Vec::new();
    let inherited_tags: Vec<String> = Vec::new();
    proof {
        assert(own_tags.deep_view() =~= Seq::<Seq<char>>::empty());
        assert(inherited_tags.deep_view() =~= Seq::<Seq<char>>::empty());
    }
    FileInfo {
        path,
        is_directory: kind.0,
        is_symlink: kind.1,
        size,
        hierarchy,
        modified,
        own_tags,
        inherited_tags,
        windows_tags,
    }
}

/// An ASCII capital as its small letter, any other character as itself.
pub open spec fn lower_char(ch: char) -> char {
    if 'A' <= ch && ch <= 'Z' {
        ((ch as int) + 32) as char
    } else {
        ch
    }
}

/// A text with every ASCII capital made small.
pub open spec fn spec_ascii_lowercase(text: Seq<char>) -> Seq<char> {
    text.map_values(|ch: char| lower_char(ch))
}

/// A copy of a text with every ASCII capital made small.
pub fn to_ascii_lowercase(text: &str) -> (lowered: String)
    ensures
        lowered@ == spec_ascii_lowercase(text@),
{
    let mut lowered = String::new();
    let mut chars = text.chars();
    let ghost mut done: int = 0;
    proof {
        assert(text@.skip(0) =~= text@);
    }
    loop
        invariant
            chars.obeys_prophetic_iter_laws(),
            0 <= done <= text@.len(),
            chars.remaining() == text@.skip(done),
            lowered@ == spec_ascii_lowercase(text@.take(done)),
        ensures
            lowered@ == spec_ascii_lowercase(text@),
        decreases text@.len() - done,
    {
        match chars.next() {
            Some(ch) => {
                proof {
                    assert(text@.skip(done)[0] == text@[done]);
                    assert(text@.skip(done).drop_first() =~= text@.skip(done + 1));
                }
                let small = if ch >= 'A' && ch <= 'Z' {
                    let code: u8 = ch as u8;
                    let shifted: u8 = code + 32;
                    shifted as char
                } else {
                    ch
                };
                lowered.push(small);
                proof {
                    assert(spec_ascii_lowercase(text@.take(done + 1)) =~= spec_ascii_lowercase(
                        text@.take(done),
                    ).push(lower_char(ch)));
                    done = done + 1;
                }
            },
            None => {
                proof {
                    assert(text@.take(done) =~= text@);
                }
                break ;
            },
        }
    }
    lowered
}

/// Whether a path counts as the same as a base: it has the segments of the
/// base, or its text with the ASCII capitals made small is the lowered text
/// of the base.
pub open spec fn counts_as_same(
    base: Seq<SegmentView>,
    base_lowered: Seq<char>,
    other: Seq<SegmentView>,
    other_text: Seq<char>,
) -> bool {
    other == base || spec_ascii_lowercase(other_text) == base_lowered
}

/// A path to hold others against: by its segments, and by its text without
/// regard to the case of ASCII letters.
#[derive(Debug)]
pub struct PathEquivalence {
    canonical: PathKey,
    insensitive_repr: String,
}

impl PathEquivalence {
    /// The segments of the path that others are held against.
    pub closed spec fn path(&self) -> Seq<SegmentView> {
        self.canonical@
    }

    /// Its text with every ASCII capital made small.
    pub closed spec fn lowered(&self) -> Seq<char> {
        self.insensitive_repr@
    }

    /// Whether a path with the given segments and text counts as the same.
    pub open spec fn spec_equals(&self, other: Seq<SegmentView>, other_text: Seq<char>) -> bool {
        counts_as_same(self.path(), self.lowered(), other, other_text)
    }

    /// Prepares a path for comparison.
    pub fn new(path: &PathKey) -> (base: PathEquivalence)
        ensures
            base.path() == path@,
            base.lowered() == spec_ascii_lowercase(path.text_view()),
    {
        PathEquivalence {
            canonical: path.duplicate(),
            insensitive_repr: to_ascii_lowercase(path.as_str()),
        }
    }

    /// Whether `other` counts as the same path: it has the same segments,
    /// or the same text but for the case of ASCII letters.
    pub fn equals(&self, other: &PathKey) -> (same: bool)
        ensures
            same == self.spec_equals(other@, other.text_view()),
    {
        if other.same_path(&self.canonical) {
            return true;
        }
        let lowered = to_ascii_lowercase(other.as_str());
        matches!(compare_text(self.insensitive_repr.as_str(), lowered.as_str()), TextOrder::Equal)
    }
}

/// Whether a path lies directly in the root: it has a parent, and the
/// parent counts as the same path as the root.
pub open spec fn spec_is_direct_child(
    path: Seq<SegmentView>,
    path_text: Seq<char>,
    root: Seq<SegmentView>,
    root_lowered: Seq<char>,
) -> bool {
    match spec_parent(path) {
        Some(parent) => match parent_text_of(path_text) {
            Some(text) => counts_as_same(root, root_lowered, parent, text),
            None => false,
        },
        None => false,
    }
}

/// Whether a path lies directly in the root.
pub fn is_direct_child(path: &PathKey, root: &PathEquivalence) -> (direct: bool)
    ensures
        direct == spec_is_direct_child(path@, path.text_view(), root.path(), root.lowered()),
{
    match path.parent() {
        Some(parent) => root.equals(&parent),
        None => false,
    }
}

/// Whether an entry is the entry before it with its platform tags gone,
/// where it lies directly in the root, and the same entry where not.
pub open spec fn platform_tags_cleared(
    before: FileInfoView,
    after: FileInfoView,
    root: Seq<SegmentView>,
    root_lowered: Seq<char>,
) -> bool {
    if spec_is_direct_child(before.path, before.path_text, root, root_lowered) {
        after == FileInfoView { windows_tags: Seq::<Seq<char>>::empty(), ..before }
    } else {
        after == before
    }
}

/// Clears the platform tags of the entries that lie directly in the root:
/// what the scan wrote there stands in for tags that are fetched later.
pub fn collect_windows_tags(root: &PathKey, entries: &mut Vec<FileInfo>)
    ensures
        final(entries).len() == old(entries).len(),
        forall|i: int|
            0 <= i < old(entries).len() ==> platform_tags_cleared(
                old(entries)[i]@,
                #[trigger] final(entries)[i]@,
                root@,
                spec_ascii_lowercase(root.text_view()),
            ),
{
    let root_equivalence = PathEquivalence::new(root);
    let ghost start = entries.deep_view();
    let mut i: usize = 0;
    while i < entries.len()
        invariant
            0 <= i <= entries.len(),
            entries.len() == start.len(),
            forall|j: int| i <= j < entries.len() ==> (#[trigger] entries[j])@ == start[j],
            root_equivalence.path() == root@,
            root_equivalence.lowered() == spec_ascii_lowercase(root.text_view()),
            forall|j: int|
                0 <= j < i ==> platform_tags_cleared(
                    start[j],
                    (#[trigger] entries[j])@,
                    root@,
                    spec_ascii_lowercase(root.text_view()),
                ),
        decreases entries.len() - i,
    {
        if is_direct_child(&entries[i].path, &root_equivalence) {
            if entries[i].windows_tags.len() > 0 {
                entries[i].windows_tags.clear();
            }
            proof {
                assert(entries[i as int].windows_tags.deep_view() =~= Seq::<Seq<char>>::empty());
            }
        }
        i = i + 1;
    }
}

/// Adds the tags that the platform keeps for the entries of a scan. On a
/// platform without an index of keywords there is nothing to add, and the
/// entries stay as they are.
pub fn enrich_with_windows_tags(root: &PathKey, entries: &mut Vec<FileInfo>)
    ensures
        final(entries).deep_view() == old(entries).deep_view(),
{
}

} // verus!
