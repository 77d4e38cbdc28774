//! The decisions of a walk. The file system is read elsewhere; what was
//! met is handed in as events, and what to keep, what to pass over and
//! when to give up is decided here. A breadth-first walk by folders also
//! keeps its queue and the set of folders it has seen here.

use crate::scan::{FileInfo, FileInfoView, ScanError};
use std::collections::VecDeque;
use vstd::hash_set::StringHashSet;
use vstd::prelude::*;
use vstd::string::*;

verus! {

/// The number of levels that a scan of the working directory goes below
/// it.
pub const CURRENT_DIRECTORY_DEPTH: usize = 2;

/// Why something could not be read.
#[derive(Clone, Copy, Debug, PartialEq, Eq, Structural)]
pub enum FailureKind {
    /// The system refused permission.
    PermissionDenied,
    /// The system reported another error.
    OtherIo,
    /// The failure does not come from the system.
    NotIo,
}

/// What a walk met at one step.
#[derive(Debug)]
pub enum WalkEvent {
    /// An entry, with what its metadata says.
    Entry(FileInfo),
    /// Something that could not be listed, with the message of the error.
    Unreadable(FailureKind, String),
    /// An entry whose metadata could not be read, with the message of the
    /// error.
    NoMetadata(FailureKind, String),
}

/// An event as a mathematical value.
pub ghost enum WalkEventView {
    Entry(FileInfoView),
    Unreadable(FailureKind, Seq<char>),
    NoMetadata(FailureKind, Seq<char>),
}

impl View for WalkEvent {
    type V = WalkEventView;

    open spec fn view(&self) -> WalkEventView {
        match self {
            WalkEvent::Entry(info) => WalkEventView::Entry(info@),
            WalkEvent::Unreadable(kind, message) => WalkEventView::Unreadable(*kind, message@),
            WalkEvent::NoMetadata(kind, message) => WalkEventView::NoMetadata(*kind, message@),
        }
    }
}

impl DeepView for WalkEvent {
    type V = WalkEventView;

    open spec fn deep_view(&self) -> WalkEventView {
        self@
    }
}

/// What to do with an event.
pub ghost enum WalkStep {
    /// Keep the entry.
    Keep(FileInfoView),
    /// Pass over it and go on.
    Skip,
    /// Give up, with the message.
    Abort(Seq<char>),
}

/// The decision on one event. An entry is kept. A refusal of permission is
/// passed over, whatever it kept from view. Any other failure to list ends
/// the walk. A failure to read metadata ends the walk where the system
/// reported it, and is passed over where it did not.
pub open spec fn spec_walk_step(event: WalkEventView) -> WalkStep {
    match event {
        WalkEventView::Entry(info) => WalkStep::Keep(info),
        WalkEventView::Unreadable(FailureKind::PermissionDenied, _) => WalkStep::Skip,
        WalkEventView::Unreadable(_, message) => WalkStep::Abort(message),
        WalkEventView::NoMetadata(FailureKind::OtherIo, message) => WalkStep::Abort(message),
        WalkEventView::NoMetadata(_, _) => WalkStep::Skip,
    }
}

/// What comes of a run of events: the entries kept, in order, or the
/// message of the first event that ends the walk.
pub open spec fn spec_collect(events: Seq<WalkEventView>) -> Result<Seq<FileInfoView>, Seq<char>>
    decreases events.len(),
{
    if events.len() == 0 {
        Ok(seq![])
    } else {
        match spec_collect(events.drop_last()) {
            Err(message) => Err(message),
            Ok(kept) => match spec_walk_step(events.last()) {
                WalkStep::Keep(info) => Ok(kept.push(info)),
                WalkStep::Skip => Ok(kept),
                WalkStep::Abort(message) => Err(message),
            },
        }
    }
}

/// The entries of a walk, as they come in.
#[derive(Debug)]
pub struct EntryCollector {
    entries: Vec<FileInfo>,
}

impl EntryCollector {
    /// The entries kept so far.
    pub closed spec fn kept(&self) -> Seq<FileInfoView> {
        self.entries.deep_view()
    }

    /// A collector that holds nothing yet.
    pub fn new() -> (collector: EntryCollector)
        ensures
            collector.kept() == Seq::<FileInfoView>::empty(),
    {
        let entries: Vec<FileInfo> = Vec::new();
        proof {
            assert(entries.deep_view() =~= Seq::<FileInfoView>::empty());
        }
        EntryCollector { entries }
    }

    /// Takes one event: keeps its entry, passes over it, or ends the walk
    /// with an error that carries its message.
    pub fn accept(&mut self, event: WalkEvent) -> (result: Result<(), ScanError>)
        ensures
            match spec_walk_step(event@) {
                WalkStep::Keep(info) => result is Ok && final(self).kept() == old(self).kept().push(
                    info,
                ),
                WalkStep::Skip => result is Ok && final(self).kept() == old(self).kept(),
                WalkStep::Abort(message) => final(self).kept() == old(self).kept() && (
                result matches Err(ScanError::Io(text)) && text@ == message),
            },
    {
        let ghost before = self.entries.deep_view();
        match event {
            WalkEvent::Entry(info) => {
                self.entries.push(info);
                proof {
                    assert(self.entries.deep_view() =~= before.push(info@));
                }
                Ok(())
            },
            WalkEvent::Unreadable(kind, message) => match kind {
                FailureKind::PermissionDenied => Ok(()),
                _ => Err(ScanError::Io(message)),
            },
            WalkEvent::NoMetadata(kind, message) => match kind {
                FailureKind::OtherIo => Err(ScanError::Io(message)),
                _ => Ok(()),
            },
        }
    }

    /// The entries kept, in the order in which they came.
    pub fn finish(self) -> (entries: Vec<FileInfo>)
        ensures
            entries.deep_view() == self.kept(),
    {
        self.entries
    }
}

/// Whether an outcome is the one that `spec_collect` names.
pub open spec fn collect_matches(
    outcome: Result<Vec<FileInfo>, ScanError>,
    events: Seq<WalkEventView>,
) -> bool {
    match spec_collect(events) {
        Ok(kept) => outcome matches Ok(entries) && entries.deep_view() == kept,
        Err(message) => outcome matches Err(ScanError::Io(text)) && text@ == message,
    }
}

/// The entries of a walk from the events it met: every entry that was
/// read, in order, unless an event ends the walk, and then the error of
/// the first such event.
pub fn collect_entries(events: Vec<WalkEvent>) -> (outcome: Result<Vec<FileInfo>, ScanError>)
    ensures
        collect_matches(outcome, events.deep_view()),
{
    let ghost all = events.deep_view();
    let ghost n = events.len();
    let mut source = events;
    let mut stack: Vec<WalkEvent> = Vec::new();
    while source.len() > 0
        invariant
            source.len() + stack.len() == n,
            all.len() == n,
            forall|k: int| 0 <= k < source.len() ==> source[k]@ == all[k],
            forall|k: int| 0 <= k < stack.len() ==> stack[k]@ == all[n - 1 - k],
        decreases source.len(),
    {
        match source.pop() {
            Some(event) => {
                stack.push(event);
            },
            None => {},
        }
    }
    let mut collector = EntryCollector::new();
    proof {
        assert(all.take(0) =~= Seq::<WalkEventView>::empty());
    }
    while stack.len() > 0
        invariant
            stack.len() <= n,
            all.len() == n,
            all == events.deep_view(),
            forall|k: int| 0 <= k < stack.len() ==> stack[k]@ == all[n - 1 - k],
            spec_collect(all.take(n - stack.len())) == Ok::<Seq<FileInfoView>, Seq<char>>(
                collector.kept(),
            ),
        decreases stack.len(),
    {
        let ghost done = n - stack.len();
        match stack.pop() {
            Some(event) => {
                proof {
                    assert(event@ == all[done]);
                    assert(all.take(done + 1).drop_last() =~= all.take(done));
                    assert(all.take(done + 1).last() == all[done]);
                }
                match collector.accept(event) {
                    Ok(()) => {},
                    Err(error) => {
                        proof {
                            lemma_collect_stays_failed(all, done + 1);
                        }
                        return Err(error);
                    },
                }
            },
            None => {},
        }
    }
    proof {
        assert(all.take(n as int) =~= all);
    }
    Ok(collector.finish())
}

/// Once a run of events has ended the walk, no later event changes what
/// comes of it.
pub proof fn lemma_collect_stays_failed(events: Seq<WalkEventView>, upto: int)
    requires
        0 <= upto <= events.len(),
        spec_collect(events.take(upto)) is Err,
    ensures
        spec_collect(events) == spec_collect(events.take(upto)),
    decreases events.len() - upto,
{
    if upto < events.len() {
        assert(events.take(upto + 1).drop_last() =~= events.take(upto));
        lemma_collect_stays_failed(events, upto + 1);
    } else {
        assert(events.take(upto) =~= events);
    }
}

/// A folder that waits to be listed: the ticket under which the caller
/// keeps its handle, and its depth below the root.
#[derive(Clone, Copy, Debug, PartialEq, Eq, Structural)]
pub struct QueuedFolder {
    pub ticket: usize,
    pub depth: usize,
}

/// The state of a breadth-first walk by folders: the folders that wait, in
/// the order in which they were found, and the keys of all folders seen.
pub struct ScanFrontier {
    waiting: VecDeque<QueuedFolder>,
    seen: StringHashSet,
    max_depth: usize,
}

impl ScanFrontier {
    /// The folders that wait, first found first.
    pub closed spec fn queue(&self) -> Seq<QueuedFolder> {
        self.waiting@
    }

    /// The keys of the folders seen.
    pub closed spec fn visited(&self) -> Set<Seq<char>> {
        self.seen@
    }

    /// The number of levels that the walk may go below the root.
    pub closed spec fn limit(&self) -> usize {
        self.max_depth
    }

    /// The walk at its start: the root waits under ticket 0 at depth 0, and
    /// its key is seen.
    pub fn new(root_key: String, max_depth: usize) -> (frontier: ScanFrontier)
        ensures
            frontier.queue() == seq![QueuedFolder { ticket: 0, depth: 0 }],
            frontier.visited() == Set::<Seq<char>>::empty().insert(root_key@),
            frontier.limit() == max_depth,
    {
        let mut waiting: VecDeque<QueuedFolder> = VecDeque::new();
        waiting.push_back(QueuedFolder { ticket: 0, depth: 0 });
        let mut seen = StringHashSet::new();
        seen.insert(root_key);
        proof {
            assert(waiting@ =~= seq![QueuedFolder { ticket: 0, depth: 0 }]);
        }
        ScanFrontier { waiting, seen, max_depth }
    }

    /// Takes the folder that has waited longest, and says whether the walk
    /// may list what lies in it: it may where the folder lies above the
    /// limit.
    pub fn pop(&mut self) -> (taken: Option<(QueuedFolder, bool)>)
        ensures
            final(self).visited() == old(self).visited(),
            final(self).limit() == old(self).limit(),
            match taken {
                Some((folder, can_descend)) => old(self).queue().len() > 0 && folder == old(
                    self,
                ).queue()[0] && final(self).queue() == old(self).queue().drop_first()
                    && can_descend == (folder.depth < old(self).limit()),
                None => old(self).queue().len() == 0 && final(self).queue() == old(self).queue(),
            },
    {
        match self.waiting.pop_front() {
            Some(folder) => {
                proof {
                    assert(self.waiting@ =~= old(self).waiting@.drop_first());
                }
                Some((folder, folder.depth < self.max_depth))
            },
            None => None,
        }
    }

    /// Offers a folder found in a folder of the given depth. It is turned
    /// away where its parent lies at the limit, and where its key was seen
    /// before; else it is seen now and waits at the end of the queue, one
    /// level below its parent.
    pub fn offer(&mut self, ticket: usize, key: String, parent_depth: usize) -> (queued: bool)
        ensures
            final(self).limit() == old(self).limit(),
            queued == (parent_depth < old(self).limit() && !old(self).visited().contains(key@)),
            parent_depth < old(self).limit() ==> final(self).visited() == old(
                self,
            ).visited().insert(key@),
            parent_depth >= old(self).limit() ==> final(self).visited() == old(self).visited(),
            queued ==> final(self).queue() == old(self).queue().push(
                QueuedFolder { ticket, depth: (parent_depth + 1) as usize },
            ),
            !queued ==> final(self).queue() == old(self).queue(),
    {
        if parent_depth >= self.max_depth {
            return false;
        }
        if self.seen.contains(key.as_str()) {
            proof {
                assert(self.seen@.insert(key@) =~= self.seen@);
            }
            return false;
        }
        self.seen.insert(key);
        self.waiting.push_back(QueuedFolder { ticket, depth: parent_depth + 1 });
        true
    }
}

/// A text in small letters, by the rules of Unicode.
pub uninterp spec fn lowercase_of(text: Seq<char>) -> Seq<char>;

/// `str::to_lowercase`: the text in small letters. Believed, not proved.
#[verifier::external_body]
fn lowercase_text(text: &str) -> (lowered: String)
    ensures
        lowered@ == lowercase_of(text@),
{
    text.to_lowercase()
}

/// The key under which a folder counts as seen: its canonical path where
/// the file system gave one, else its path as listed, in small letters.
pub fn normalized_key(canonical: Option<&str>, path: &str) -> (key: String)
    ensures
        key@ == lowercase_of(
            match canonical {
                Some(resolved) => resolved@,
                None => path@,
            },
        ),
{
    match canonical {
        Some(resolved) => lowercase_text(resolved),
        None => lowercase_text(path),
    }
}

} // verus!
