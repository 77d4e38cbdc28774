//! Path identity. A path is known by its sequence of segments; its text is
//! kept beside it for display and storage. Depth, hierarchy, parent and file
//! name are all read off the segments.

use vstd::prelude::*;
use vstd::string::*;

verus! {

/// One component of a path.
#[derive(Clone, Debug)]
pub enum PathSegment {
    /// A drive or volume prefix, with its text.
    Prefix(String),
    /// The root marker that follows a prefix or starts an absolute path.
    RootDir,
    /// A reference to the current directory, `.`.
    CurDir,
    /// A reference to the parent directory, `..`.
    ParentDir,
    /// An ordinary name.
    Normal(String),
}

/// A segment as a mathematical value.
pub ghost enum SegmentView {
    Prefix(Seq<char>),
    RootDir,
    CurDir,
    ParentDir,
    Normal(Seq<char>),
}

impl View for PathSegment {
    type V = SegmentView;

    open spec fn view(&self) -> SegmentView {
        match self {
            PathSegment::Prefix(p) => SegmentView::Prefix(p@),
            PathSegment::RootDir => SegmentView::RootDir,
            PathSegment::CurDir => SegmentView::CurDir,
            PathSegment::ParentDir => SegmentView::ParentDir,
            PathSegment::Normal(n) => SegmentView::Normal(n@),
        }
    }
}

impl DeepView for PathSegment {
    type V = SegmentView;

    open spec fn deep_view(&self) -> SegmentView {
        self@
    }
}

impl PathSegment {
    /// A copy of the segment.
    pub fn duplicate(&self) -> (copy: PathSegment)
        ensures
            copy@ == self@,
    {
        match self {
            PathSegment::Prefix(p) => PathSegment::Prefix(p.clone()),
            PathSegment::RootDir => PathSegment::RootDir,
            PathSegment::CurDir => PathSegment::CurDir,
            PathSegment::ParentDir => PathSegment::ParentDir,
            PathSegment::Normal(n) => PathSegment::Normal(n.clone()),
        }
    }

    /// Whether two segments are of the same kind and carry the same text.
    pub fn same(&self, other: &PathSegment) -> (equal: bool)
        ensures
            equal == (self@ == other@),
    {
        match self {
            PathSegment::Prefix(a) => match other {
                PathSegment::Prefix(b) => *a == *b,
                _ => false,
            },
            PathSegment::RootDir => match other {
                PathSegment::RootDir => true,
                _ => false,
            },
            PathSegment::CurDir => match other {
                PathSegment::CurDir => true,
                _ => false,
            },
            PathSegment::ParentDir => match other {
                PathSegment::ParentDir => true,
                _ => false,
            },
            PathSegment::Normal(a) => match other {
                PathSegment::Normal(b) => *a == *b,
                _ => false,
            },
        }
    }
}

/// The segments that the platform's path syntax reads out of a text.
pub uninterp spec fn components_of(path: Seq<char>) -> Seq<SegmentView>;

/// `std::path::Path::components` over the given text: the components it
/// yields, in order, each copied into a segment of the same kind. Believed,
/// not proved: the result is the platform's reading of the text.
#[verifier::external_body]
fn path_components(path: &str) -> (segments: Vec<PathSegment>)
    ensures
        segments.deep_view() == components_of(path@),
{
    std::path::Path::new(path).components().map(|c| match c {
        std::path::Component::Prefix(p) => {
            PathSegment::Prefix(p.as_os_str().to_string_lossy().into_owned())
        },
        std::path::Component::RootDir => PathSegment::RootDir,
        std::path::Component::CurDir => PathSegment::CurDir,
        std::path::Component::ParentDir => PathSegment::ParentDir,
        std::path::Component::Normal(n) => PathSegment::Normal(n.to_string_lossy().into_owned()),
    }).collect()
}

/// `std::path::MAIN_SEPARATOR`, the platform's primary separator: a slash
/// or a backslash. Believed, not proved.
#[verifier::external_body]
pub(crate) fn main_separator() -> (sep: char)
    ensures
        sep == '/' || sep == '\\',
{
    std::path::MAIN_SEPARATOR
}

/// The text of the parent of a path, read by the platform's path syntax.
pub uninterp spec fn parent_text_of(path: Seq<char>) -> Option<Seq<char>>;

/// `std::path::Path::parent` over the given text: the text of the path
/// without its final component, where it has one. Believed, not proved.
#[verifier::external_body]
fn parent_text(path: &str) -> (parent: Option<String>)
    ensures
        match parent {
            Some(text) => parent_text_of(path@) == Some(text@),
            None => parent_text_of(path@).is_none(),
        },
{
    std::path::Path::new(path).parent().map(|p| p.to_string_lossy().into_owned())
}

/// The parent of a path: all segments but the last, where the last is a
/// name, `.` or `..`; none where the path is empty or ends in a root or
/// prefix.
pub open spec fn spec_parent(path: Seq<SegmentView>) -> Option<Seq<SegmentView>> {
    if path.len() == 0 {
        None
    } else {
        match path.last() {
            SegmentView::Normal(_) | SegmentView::CurDir | SegmentView::ParentDir => Some(
                path.drop_last(),
            ),
            _ => None,
        }
    }
}

/// The final name of a path, where it ends in one.
pub open spec fn spec_file_name(path: Seq<SegmentView>) -> Option<Seq<char>> {
    if path.len() == 0 {
        None
    } else {
        match path.last() {
            SegmentView::Normal(n) => Some(n),
            _ => None,
        }
    }
}

/// Whether `base` is a leading run of the segments of `path`.
pub open spec fn spec_starts_with(path: Seq<SegmentView>, base: Seq<SegmentView>) -> bool {
    base.len() <= path.len() && path.subrange(0, base.len() as int) == base
}

/// Whether `ancestor` is a proper, non-empty leading run of `path`.
pub open spec fn spec_strict_ancestor(ancestor: Seq<SegmentView>, path: Seq<SegmentView>) -> bool {
    0 < ancestor.len() < path.len() && spec_starts_with(path, ancestor)
}

/// The text of the last segment of a path; empty where the path is empty
/// or its last segment carries no text.
pub open spec fn spec_tail_label(path: Seq<SegmentView>) -> Seq<char> {
    if path.len() == 0 {
        seq![]
    } else {
        match path.last() {
            SegmentView::Normal(name) => name,
            SegmentView::Prefix(prefix) => prefix,
            _ => seq![],
        }
    }
}

/// The text of the last segment but one.
pub open spec fn spec_parent_label(path: Seq<SegmentView>) -> Seq<char> {
    if path.len() == 0 {
        seq![]
    } else {
        spec_tail_label(path.drop_last())
    }
}

/// Whether a segment counts towards the depth of a path: names and `..` do,
/// roots, prefixes and `.` do not.
pub open spec fn counts_for_depth(segment: SegmentView) -> bool {
    segment is Normal || segment is ParentDir
}

/// The depth of a path: the number of its segments that count.
pub open spec fn spec_depth(path: Seq<SegmentView>) -> nat
    decreases path.len(),
{
    if path.len() == 0 {
        0
    } else {
        spec_depth(path.drop_last()) + if counts_for_depth(path.last()) {
            1nat
        } else {
            0nat
        }
    }
}

/// The depth as it is stored: the count itself while it fits in 64 signed
/// bits, the largest such number beyond that.
pub open spec fn stored_depth(path: Seq<SegmentView>) -> int {
    if spec_depth(path) <= i64::MAX {
        spec_depth(path) as int
    } else {
        i64::MAX as int
    }
}

/// The text that a pending prefix contributes when nothing merges with it.
pub open spec fn pending_tokens(pending: Option<Seq<char>>) -> Seq<Seq<char>> {
    match pending {
        Some(p) => seq![p],
        None => seq![],
    }
}

/// The breadcrumb tokens of a run of segments, given a prefix that was read
/// and not yet written. A prefix merges with the root that follows it into
/// one token ending in the separator; a root alone is the separator; a name
/// is itself, after any pending prefix; `.` leaves no token; `..` is
/// written as it stands.
pub open spec fn spec_hierarchy_from(
    path: Seq<SegmentView>,
    pending: Option<Seq<char>>,
    sep: char,
) -> Seq<Seq<char>>
    decreases path.len(),
{
    if path.len() == 0 {
        pending_tokens(pending)
    } else {
        let rest = path.drop_first();
        match path[0] {
            SegmentView::Prefix(p) => spec_hierarchy_from(rest, Some(p), sep),
            SegmentView::RootDir => {
                let token = match pending {
                    Some(p) => p.push(sep),
                    None => seq![sep],
                };
                seq![token] + spec_hierarchy_from(rest, None, sep)
            },
            SegmentView::Normal(n) => pending_tokens(pending) + seq![n] + spec_hierarchy_from(
                rest,
                None,
                sep,
            ),
            SegmentView::CurDir => spec_hierarchy_from(rest, pending, sep),
            SegmentView::ParentDir => seq![seq!['.', '.']] + spec_hierarchy_from(
                rest,
                pending,
                sep,
            ),
        }
    }
}

/// The breadcrumb tokens of a whole path.
pub open spec fn spec_hierarchy(path: Seq<SegmentView>, sep: char) -> Seq<Seq<char>> {
    spec_hierarchy_from(path, None, sep)
}

/// A path: its text as given, and the segments by which it is identified.
#[derive(Clone, Debug)]
pub struct PathKey {
    text: String,
    segments: Vec<PathSegment>,
}

impl View for PathKey {
    type V = Seq<SegmentView>;

    closed spec fn view(&self) -> Seq<SegmentView> {
        self.segments.deep_view()
    }
}

impl DeepView for PathKey {
    type V = Seq<SegmentView>;

    open spec fn deep_view(&self) -> Seq<SegmentView> {
        self@
    }
}

impl PathKey {
    /// The text of the path as a mathematical value.
    pub closed spec fn text_view(&self) -> Seq<char> {
        self.text@
    }

    /// Whether the segments of the path are those that the platform's path
    /// syntax reads off its text.
    pub open spec fn read_off_text(&self) -> bool {
        self@ == components_of(self.text_view())
    }

    /// Reads a path from its text, by the platform's path syntax.
    pub fn new(text: &str) -> (key: PathKey)
        ensures
            key.text_view() == text@,
            key@ == components_of(text@),
            key.read_off_text(),
    {
        let segments = path_components(text);
        PathKey { text: String::from_str(text), segments }
    }

    /// A path from a text and segments that the caller has read already.
    pub fn from_segments(text: &str, segments: Vec<PathSegment>) -> (key: PathKey)
        ensures
            key.text_view() == text@,
            key@ == segments.deep_view(),
    {
        PathKey { text: String::from_str(text), segments }
    }

    /// The text of the path.
    pub fn as_str(&self) -> (text: &str)
        ensures
            text@ == self.text_view(),
    {
        self.text.as_str()
    }

    /// The segments of the path.
    pub fn segments(&self) -> (segments: &Vec<PathSegment>)
        ensures
            segments.deep_view() == self@,
    {
        &self.segments
    }

    /// The number of segments.
    pub fn len(&self) -> (n: usize)
        ensures
            n == self@.len(),
    {
        self.segments.len()
    }

    /// A copy of the path.
    pub fn duplicate(&self) -> (copy: PathKey)
        ensures
            copy@ == self@,
            copy.text_view() == self.text_view(),
    {
        let mut segments: Vec<PathSegment> = Vec::new();
        let mut i: usize = 0;
        while i < self.segments.len()
            invariant
                0 <= i <= self.segments.len(),
                segments.len() == i,
                forall|k: int| 0 <= k < i ==> segments[k]@ == self.segments[k]@,
            decreases self.segments.len() - i,
        {
            segments.push(self.segments[i].duplicate());
            i = i + 1;
        }
        proof {
            assert(segments.deep_view() =~= self.segments.deep_view());
        }
        PathKey { text: self.text.clone(), segments }
    }

    /// Whether two paths have the same segments.
    pub fn same_path(&self, other: &PathKey) -> (equal: bool)
        ensures
            equal == (self@ == other@),
    {
        if self.segments.len() != other.segments.len() {
            proof {
                assert(self@.len() == self.segments.len());
                assert(other@.len() == other.segments.len());
            }
            return false;
        }
        let mut i: usize = 0;
        while i < self.segments.len()
            invariant
                0 <= i <= self.segments.len(),
                self.segments.len() == other.segments.len(),
                forall|k: int| 0 <= k < i ==> self.segments[k]@ == other.segments[k]@,
            decreases self.segments.len() - i,
        {
            if !self.segments[i].same(&other.segments[i]) {
                proof {
                    assert(self@[i as int] == self.segments[i as int]@);
                    assert(other@[i as int] == other.segments[i as int]@);
                }
                return false;
            }
            i = i + 1;
        }
        proof {
            assert(self@ =~= other@);
        }
        true
    }

    /// Whether the segments of `base` lead the segments of this path.
    pub fn starts_with(&self, base: &PathKey) -> (leads: bool)
        ensures
            leads == spec_starts_with(self@, base@),
    {
        if base.segments.len() > self.segments.len() {
            return false;
        }
        let mut i: usize = 0;
        while i < base.segments.len()
            invariant
                0 <= i <= base.segments.len(),
                base.segments.len() <= self.segments.len(),
                forall|k: int| 0 <= k < i ==> self.segments[k]@ == base.segments[k]@,
            decreases base.segments.len() - i,
        {
            if !self.segments[i].same(&base.segments[i]) {
                proof {
                    assert(self@.subrange(0, base@.len() as int)[i as int]
                        == self.segments[i as int]@);
                    assert(base@[i as int] == base.segments[i as int]@);
                }
                return false;
            }
            i = i + 1;
        }
        proof {
            assert(self@.subrange(0, base@.len() as int) =~= base@);
        }
        true
    }

    /// Whether this path is a proper, non-empty leading run of `path`.
    pub fn is_strict_ancestor_of(&self, path: &PathKey) -> (above: bool)
        ensures
            above == spec_strict_ancestor(self@, path@),
    {
        self.segments.len() > 0 && self.segments.len() < path.segments.len() && path.starts_with(
            self,
        )
    }

    /// Whether the path has a parent.
    pub fn has_parent(&self) -> (has: bool)
        ensures
            has == spec_parent(self@).is_some(),
    {
        let n = self.segments.len();
        if n == 0 {
            return false;
        }
        proof {
            assert(self@.last() == self.segments[n - 1]@);
        }
        match &self.segments[n - 1] {
            PathSegment::Normal(_) => true,
            PathSegment::CurDir => true,
            PathSegment::ParentDir => true,
            _ => false,
        }
    }

    /// Whether `parent` is the parent of this path.
    pub fn is_child_of(&self, parent: &PathKey) -> (child: bool)
        ensures
            child == (spec_parent(self@) == Some(parent@)),
    {
        if !self.has_parent() {
            return false;
        }
        if self.segments.len() - 1 != parent.segments.len() {
            proof {
                assert(self@.drop_last().len() != parent@.len());
            }
            return false;
        }
        let leads = self.starts_with(parent);
        proof {
            assert(self@.drop_last() =~= self@.subrange(0, parent@.len() as int));
        }
        leads
    }

    /// The text of the segment that stands `back` places before the end;
    /// empty where there is none or it carries no text.
    fn label_at(&self, back: usize) -> (label: String)
        ensures
            back == 0 ==> label@ == spec_tail_label(self@),
            back == 1 ==> label@ == spec_parent_label(self@),
    {
        let n = self.segments.len();
        proof {
            if n > 0 {
                assert(self@.last() == self.segments[n - 1]@);
            }
            if n > 1 {
                assert(self@.drop_last().last() == self.segments[n - 2]@);
            }
        }
        if back >= n {
            return String::new();
        }
        match &self.segments[n - 1 - back] {
            PathSegment::Normal(name) => name.clone(),
            PathSegment::Prefix(prefix) => prefix.clone(),
            _ => String::new(),
        }
    }

    /// The text of the last segment.
    pub fn tail_label(&self) -> (label: String)
        ensures
            label@ == spec_tail_label(self@),
    {
        self.label_at(0)
    }

    /// The text of the last segment but one.
    pub fn parent_label(&self) -> (label: String)
        ensures
            label@ == spec_parent_label(self@),
    {
        self.label_at(1)
    }

    /// The parent of the path: its segments but the last, under the text
    /// that the platform gives the parent. There is none where the path is
    /// empty or ends in a root or prefix.
    pub fn parent(&self) -> (parent: Option<PathKey>)
        ensures
            match parent {
                Some(key) => spec_parent(self@) == Some(key@) && parent_text_of(self.text_view())
                    == Some(key.text_view()),
                None => spec_parent(self@).is_none() || parent_text_of(self.text_view()).is_none(),
            },
    {
        if !self.has_parent() {
            return None;
        }
        match parent_text(self.text.as_str()) {
            Some(text) => {
                let mut segments: Vec<PathSegment> = Vec::new();
                let mut i: usize = 0;
                while i + 1 < self.segments.len()
                    invariant
                        0 <= i < self.segments.len(),
                        segments.len() == i,
                        forall|k: int| 0 <= k < i ==> segments[k]@ == self.segments[k]@,
                    decreases self.segments.len() - i,
                {
                    segments.push(self.segments[i].duplicate());
                    i = i + 1;
                }
                proof {
                    assert(segments.deep_view() =~= self.segments.deep_view().drop_last());
                }
                Some(PathKey { text, segments })
            },
            None => None,
        }
    }

    /// The final name of the path, where it ends in one.
    pub fn file_name(&self) -> (name: Option<&String>)
        ensures
            match name {
                Some(n) => spec_file_name(self@) == Some(n@),
                None => spec_file_name(self@).is_none(),
            },
    {
        let n = self.segments.len();
        if n == 0 {
            return None;
        }
        proof {
            assert(self@.last() == self.segments[n - 1]@);
        }
        match &self.segments[n - 1] {
            PathSegment::Normal(name) => Some(name),
            _ => None,
        }
    }
}

/// The text under which a path is known: its canonical form where the file
/// system gave one, else the text as given.
pub open spec fn spec_normalized_text(given: Seq<char>, canonical: Option<Seq<char>>) -> Seq<char> {
    match canonical {
        Some(resolved) => resolved,
        None => given,
    }
}

/// The path under which a given path is known. Where the file system
/// resolved the path, its canonical form is read; where it did not, the
/// path is read as it was given, so that every path has a key.
pub fn normalize(given: &str, canonical: Option<&str>) -> (key: PathKey)
    ensures
        key.text_view() == spec_normalized_text(
            given@,
            match canonical {
                Some(resolved) => Some(resolved@),
                None => None,
            },
        ),
        key@ == components_of(key.text_view()),
        key.read_off_text(),
{
    match canonical {
        Some(resolved) => PathKey::new(resolved),
        None => PathKey::new(given),
    }
}

/// The depth of a path, as it is stored with a tag.
pub fn calculate_path_depth(path: &PathKey) -> (depth: i64)
    ensures
        depth == stored_depth(path@),
{
    let segments = path.segments();
    let mut count: usize = 0;
    let mut i: usize = 0;
    while i < segments.len()
        invariant
            0 <= i <= segments.len(),
            segments.deep_view() == path@,
            count == spec_depth(path@.take(i as int)),
            count <= i,
        decreases segments.len() - i,
    {
        proof {
            assert(path@.take(i + 1).drop_last() =~= path@.take(i as int));
            assert(path@.take(i + 1).last() == segments[i as int]@);
        }
        match &segments[i] {
            PathSegment::Normal(_) => {
                count = count + 1;
            },
            PathSegment::ParentDir => {
                count = count + 1;
            },
            _ => {},
        }
        i = i + 1;
    }
    proof {
        assert(path@.take(segments.len() as int) =~= path@);
    }
    let wide: u64 = count as u64;
    if wide > 0x7fff_ffff_ffff_ffff {
        0x7fff_ffff_ffff_ffff
    } else {
        wide as i64
    }
}

/// The breadcrumb tokens of a path, written with the given separator.
pub fn hierarchy_with_separator(path: &PathKey, sep: char) -> (tokens: Vec<String>)
    ensures
        tokens.deep_view() == spec_hierarchy(path@, sep),
{
    let segments = path.segments();
    let mut tokens: Vec<String> = Vec::new();
    let mut pending: Option<String> = None;
    let mut i: usize = 0;
    proof {
        assert(path@.skip(0) =~= path@);
        assert(tokens.deep_view() =~= Seq::<Seq<char>>::empty());
        assert(tokens.deep_view() + spec_hierarchy(path@, sep) =~= spec_hierarchy(path@, sep));
    }
    while i < segments.len()
        invariant
            0 <= i <= segments.len(),
            segments.deep_view() == path@,
            tokens.deep_view() + spec_hierarchy_from(
                path@.skip(i as int),
                match pending {
                    Some(p) => Some(p@),
                    None => None,
                },
                sep,
            ) == spec_hierarchy(path@, sep),
        decreases segments.len() - i,
    {
        let ghost before = tokens.deep_view();
        let ghost rest = path@.skip(i as int);
        proof {
            assert(rest[0] == segments[i as int]@);
            assert(rest.drop_first() =~= path@.skip(i + 1));
        }
        match &segments[i] {
            PathSegment::Prefix(p) => {
                pending = Some(p.clone());
            },
            PathSegment::RootDir => {
                let mut token = match pending {
                    Some(p) => p,
                    None => String::new(),
                };
                token.push(sep);
                pending = None;
                tokens.push(token);
                proof {
                    assert(seq![sep] =~= Seq::<char>::empty().push(sep));
                    assert(tokens.deep_view() =~= before + seq![token@]);
                }
            },
            PathSegment::Normal(n) => {
                match pending {
                    Some(p) => {
                        tokens.push(p);
                        proof {
                            assert(tokens.deep_view() =~= before + seq![p@]);
                        }
                    },
                    None => {},
                }
                let ghost middle = tokens.deep_view();
                pending = None;
                tokens.push(n.clone());
                proof {
                    assert(tokens.deep_view() =~= middle + seq![n@]);
                }
            },
            PathSegment::CurDir => {},
            PathSegment::ParentDir => {
                let mut token = String::new();
                token.push('.');
                token.push('.');
                tokens.push(token);
                proof {
                    assert(token@ =~= seq!['.', '.']);
                    assert(tokens.deep_view() =~= before + seq![token@]);
                }
            },
        }
        i = i + 1;
    }
    match pending {
        Some(p) => {
            let ghost before = tokens.deep_view();
            tokens.push(p);
            proof {
                assert(tokens.deep_view() =~= before + seq![p@]);
            }
        },
        None => {},
    }
    tokens
}

/// The breadcrumb tokens of a path, written with the platform's separator.
pub fn collect_path_hierarchy(path: &PathKey) -> (tokens: Vec<String>)
    ensures
        tokens.deep_view() == spec_hierarchy(path@, '/') || tokens.deep_view() == spec_hierarchy(
            path@,
            '\\',
        ),
{
    let sep = main_separator();
    hierarchy_with_separator(path, sep)
}

} // verus!
