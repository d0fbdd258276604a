//! Batches of file-system changes: what the watcher of a workspace collects, how
//! long it waits, and what it reports.
use vstd::prelude::*;

use super::path;
use super::path::{PartModel, PathModel, WatchedPath};
use crate::order;

verus! {

/// How long nothing may happen before a batch is reported, in nanoseconds.
pub const QUIET_WINDOW: u64 = 50_000_000;

/// How long a batch may grow, in nanoseconds.
pub const MAX_BATCH_WINDOW: u64 = 500_000_000;

/// How long to wait while there is no batch, in nanoseconds.
pub const IDLE_POLL: u64 = 200_000_000;

// ---------------------------------------------------------------------------
// Events
// ---------------------------------------------------------------------------

/// Which side of a renaming an event tells of.
#[derive(Debug, Clone, Copy, PartialEq, Eq, Structural)]
pub enum RenameMode {
    Any,
    To,
    From,
    Both,
    Other,
}

/// What about a file was modified.
#[derive(Debug, Clone, Copy, PartialEq, Eq, Structural)]
pub enum ModifyKind {
    Any,
    Data,
    Metadata,
    Name(RenameMode),
    Other,
}

/// What an event of the file system tells of.
#[derive(Debug, Clone, Copy, PartialEq, Eq, Structural)]
pub enum EventKind {
    Any,
    Access,
    Create,
    Modify(ModifyKind),
    Remove,
    Other,
}

/// What kinds of change a batch holds.
#[derive(Debug, Clone, Copy, PartialEq, Eq, Structural)]
pub struct FilesChangedKind {
    pub created: bool,
    pub modified: bool,
    pub deleted: bool,
    pub renamed: bool,
}

/// No change at all.
pub open spec fn no_change() -> FilesChangedKind {
    FilesChangedKind { created: false, modified: false, deleted: false, renamed: false }
}

impl Default for FilesChangedKind {
    fn default() -> (kind: Self)
        ensures
            kind == no_change(),
    {
        FilesChangedKind { created: false, modified: false, deleted: false, renamed: false }
    }
}

/// `acc` with the kind of one more event. Half of a renaming counts as a
/// deletion or a creation; reading a file changes nothing.
pub open spec fn applied(acc: FilesChangedKind, event: EventKind) -> FilesChangedKind {
    match event {
        EventKind::Create => FilesChangedKind { created: true, ..acc },
        EventKind::Remove => FilesChangedKind { deleted: true, ..acc },
        EventKind::Modify(ModifyKind::Name(RenameMode::From)) => FilesChangedKind {
            deleted: true,
            ..acc
        },
        EventKind::Modify(ModifyKind::Name(RenameMode::To)) => FilesChangedKind {
            created: true,
            ..acc
        },
        EventKind::Modify(ModifyKind::Name(_)) => FilesChangedKind { renamed: true, ..acc },
        EventKind::Modify(_) => FilesChangedKind { modified: true, ..acc },
        EventKind::Access | EventKind::Other | EventKind::Any => acc,
    }
}

/// What the watcher was told, or that it was told nothing in time.
#[derive(Debug, PartialEq, Eq)]
pub enum WatchInput {
    Event { kind: EventKind, paths: Vec<WatchedPath> },
    /// Watching failed for a moment.
    Error,
    Timeout,
    /// Nothing will come any more.
    Disconnected,
}

/// A report that files of a workspace changed.
#[derive(Debug, PartialEq, Eq)]
pub struct FilesChanged {
    pub workspace_id: String,
    pub paths: Vec<String>,
    pub kind: FilesChangedKind,
}

/// What a [`FilesChanged`] holds.
#[verifier::ext_equal]
pub struct ReportModel {
    pub workspace_id: Seq<char>,
    pub paths: Seq<Seq<char>>,
    pub kind: FilesChangedKind,
}

impl DeepView for FilesChanged {
    type V = ReportModel;

    open spec fn deep_view(&self) -> ReportModel {
        ReportModel {
            workspace_id: self.workspace_id@,
            paths: self.paths.deep_view(),
            kind: self.kind,
        }
    }
}

/// What the watcher does next.
#[derive(Debug, PartialEq, Eq)]
pub enum WatchStep {
    Continue,
    Emit(FilesChanged),
    Stop,
}

/// What a [`WatchStep`] holds.
#[verifier::ext_equal]
pub enum StepModel {
    Continue,
    Emit(ReportModel),
    Stop,
}

impl DeepView for WatchStep {
    type V = StepModel;

    open spec fn deep_view(&self) -> StepModel {
        match self {
            WatchStep::Continue => StepModel::Continue,
            WatchStep::Emit(report) => StepModel::Emit(report.deep_view()),
            WatchStep::Stop => StepModel::Stop,
        }
    }
}

// ---------------------------------------------------------------------------
// Model
// ---------------------------------------------------------------------------

/// What a [`WatchBatch`] holds.
#[verifier::ext_equal]
pub struct BatchModel {
    pub workspace_id: Seq<char>,
    /// The watched directory, as given and in its canonical form.
    pub cwd: Seq<PartModel>,
    pub cwd_canonical: Seq<PartModel>,
    pub paths: Seq<PathModel>,
    pub kind: FilesChangedKind,
    /// When the batch began, if there is one.
    pub start: Option<int>,
}

/// Whether one of `paths` has these components.
pub open spec fn has_path(paths: Seq<PathModel>, parts: Seq<PartModel>) -> bool {
    exists|i: int| 0 <= i < paths.len() && (#[trigger] paths[i]).parts == parts
}

impl BatchModel {
    /// Whether a change of `path` is worth a report: it matters, and is not the
    /// watched directory itself.
    pub open spec fn wants(self, path: PathModel) -> bool {
        &&& path.parts != self.cwd
        &&& path.parts != self.cwd_canonical
        &&& path::relevant(path.parts)
    }

    /// A batch has begun exactly if it has paths; these are worth a report, and
    /// no two of them are the same.
    pub open spec fn wf(self) -> bool {
        &&& self.start is Some <==> self.paths.len() > 0
        &&& self.paths.len() == 0 ==> self.kind == no_change()
        &&& forall|i: int| 0 <= i < self.paths.len() ==> self.wants(#[trigger] self.paths[i])
        &&& forall|i: int, j: int|
            0 <= i < j < self.paths.len() ==> (#[trigger] self.paths[i]).parts != (
            #[trigger] self.paths[j]).parts
    }

    pub open spec fn wants_any(self, paths: Seq<PathModel>) -> bool {
        exists|i: int| 0 <= i < paths.len() && self.wants(#[trigger] paths[i])
    }

    /// How long the batch has been growing.
    pub open spec fn age(self, now: int) -> int {
        match self.start {
            Some(start) => if now > start {
                now - start
            } else {
                0
            },
            None => 0,
        }
    }
}

/// `paths` with one more, unless it is there already.
pub open spec fn with_path(paths: Seq<PathModel>, path: PathModel) -> Seq<PathModel> {
    if has_path(paths, path.parts) {
        paths
    } else {
        paths.push(path)
    }
}

/// The paths of `batch` and those of `paths` that are worth a report.
pub open spec fn collected(batch: BatchModel, paths: Seq<PathModel>) -> Seq<PathModel>
    decreases paths.len(),
{
    if paths.len() == 0 {
        batch.paths
    } else if batch.wants(paths.last()) {
        with_path(collected(batch, paths.drop_last()), paths.last())
    } else {
        collected(batch, paths.drop_last())
    }
}

/// The batch after an event. An event without a path worth a report changes
/// nothing.
pub open spec fn noted(
    batch: BatchModel,
    kind: EventKind,
    paths: Seq<PathModel>,
    now: int,
) -> BatchModel {
    if batch.wants_any(paths) {
        BatchModel {
            paths: collected(batch, paths),
            kind: applied(batch.kind, kind),
            start: match batch.start {
                Some(start) => Some(start),
                None => Some(now),
            },
            ..batch
        }
    } else {
        batch
    }
}

/// An event and when it was noted.
pub struct EventModel {
    pub kind: EventKind,
    pub paths: Seq<PathModel>,
    pub now: int,
}

/// The batch after a burst of events.
pub open spec fn noted_all(batch: BatchModel, events: Seq<EventModel>) -> BatchModel
    decreases events.len(),
{
    if events.len() == 0 {
        batch
    } else {
        let last = events.last();
        noted(noted_all(batch, events.drop_last()), last.kind, last.paths, last.now)
    }
}

/// The batch after its report.
pub open spec fn emptied(batch: BatchModel) -> BatchModel {
    BatchModel { paths: Seq::empty(), kind: no_change(), start: None, ..batch }
}

/// The texts of `paths`.
pub open spec fn texts(paths: Seq<PathModel>) -> Seq<Seq<char>> {
    paths.map_values(|path: PathModel| path.text)
}

/// What is reported of a batch: its paths in order.
pub open spec fn report(batch: BatchModel) -> ReportModel {
    ReportModel {
        workspace_id: batch.workspace_id,
        paths: order::in_order(texts(batch.paths)),
        kind: batch.kind,
    }
}

/// What is made of a batch by a report of it, if there is one.
pub open spec fn flushed(batch: BatchModel) -> (BatchModel, StepModel) {
    if batch.start is Some {
        (emptied(batch), StepModel::Emit(report(batch)))
    } else {
        (batch, StepModel::Continue)
    }
}

/// What the watcher makes of `input`.
pub open spec fn received(batch: BatchModel, input: WatchInput, now: int) -> (
    BatchModel,
    StepModel,
) {
    match input {
        WatchInput::Event { kind, paths } => (
            noted(batch, kind, paths.deep_view(), now),
            StepModel::Continue,
        ),
        WatchInput::Error => (batch, StepModel::Continue),
        WatchInput::Timeout => flushed(batch),
        WatchInput::Disconnected => (batch, StepModel::Stop),
    }
}

/// What the watcher makes of a batch at the time `now`: it reports it once it
/// has been growing for too long.
pub open spec fn polled(batch: BatchModel, now: int) -> (BatchModel, StepModel) {
    if batch.start is Some && batch.age(now) >= MAX_BATCH_WINDOW {
        flushed(batch)
    } else {
        (batch, StepModel::Continue)
    }
}

/// How long to wait for the next event.
pub open spec fn wait(batch: BatchModel, now: int) -> int {
    if batch.start is None {
        IDLE_POLL as int
    } else if batch.age(now) >= MAX_BATCH_WINDOW {
        0
    } else if MAX_BATCH_WINDOW - batch.age(now) < QUIET_WINDOW {
        MAX_BATCH_WINDOW - batch.age(now)
    } else {
        QUIET_WINDOW as int
    }
}

// ---------------------------------------------------------------------------
// Laws
// ---------------------------------------------------------------------------

/// A kind of change that was noted stays noted, and noting it twice is noting it
/// once.
pub proof fn lemma_kinds_accumulate(acc: FilesChangedKind, event: EventKind)
    ensures
        acc.created ==> applied(acc, event).created,
        acc.modified ==> applied(acc, event).modified,
        acc.deleted ==> applied(acc, event).deleted,
        acc.renamed ==> applied(acc, event).renamed,
        applied(applied(acc, event), event) == applied(acc, event),
{
}

/// The order of events does not matter to the kinds of change.
pub proof fn lemma_kinds_commute(acc: FilesChangedKind, a: EventKind, b: EventKind)
    ensures
        applied(applied(acc, a), b) == applied(applied(acc, b), a),
{
}

/// Collecting keeps what was there, in place, adds nothing that is not worth a
/// report, and loses nothing that is.
pub proof fn lemma_collected(batch: BatchModel, paths: Seq<PathModel>)
    requires
        batch.wf(),
    ensures
        batch.paths.is_prefix_of(collected(batch, paths)),
        forall|i: int|
            0 <= i < collected(batch, paths).len() ==> batch.wants(
                #[trigger] collected(batch, paths)[i],
            ),
        forall|i: int|
            0 <= i < paths.len() && batch.wants(#[trigger] paths[i]) ==> has_path(
                collected(batch, paths),
                paths[i].parts,
            ),
        forall|i: int, j: int|
            0 <= i < j < collected(batch, paths).len() ==> (#[trigger] collected(
                batch,
                paths,
            )[i]).parts != (#[trigger] collected(batch, paths)[j]).parts,
        collected(batch, paths).len() > 0 <==> batch.paths.len() > 0 || batch.wants_any(paths),
        !batch.wants_any(paths) ==> collected(batch, paths) == batch.paths,
        forall|i: int|
            0 <= i < collected(batch, paths).len() ==> batch.paths.contains(
                #[trigger] collected(batch, paths)[i],
            ) || paths.contains(collected(batch, paths)[i]),
    decreases paths.len(),
{
    if paths.len() == 0 {
        assert forall|i: int| 0 <= i < batch.paths.len() implies batch.paths.contains(
            #[trigger] batch.paths[i],
        ) by {}
    } else {
        let rest = paths.drop_last();
        let before = collected(batch, rest);
        let after = collected(batch, paths);
        lemma_collected(batch, rest);
        assert(before.is_prefix_of(after));
        assert forall|i: int| 0 <= i < after.len() implies batch.paths.contains(
            #[trigger] after[i],
        ) || paths.contains(after[i]) by {
            if i < before.len() {
                assert(after[i] == before[i]);
                if rest.contains(before[i]) {
                    let k = choose|k: int| 0 <= k < rest.len() && rest[k] == before[i];
                    assert(paths[k] == before[i]);
                }
            } else {
                assert(after[i] == paths[paths.len() - 1]);
            }
        }
        assert forall|i: int| 0 <= i < paths.len() && batch.wants(#[trigger] paths[i]) implies has_path(
            after,
            paths[i].parts,
        ) by {
            if i < rest.len() {
                assert(rest[i] == paths[i]);
                let k = choose|k: int|
                    0 <= k < before.len() && (#[trigger] before[k]).parts == paths[i].parts;
                assert(after[k].parts == paths[i].parts);
            } else if !has_path(before, paths.last().parts) {
                assert(after[before.len() as int].parts == paths[i].parts);
            }
        }
        if batch.wants_any(rest) {
            let k = choose|k: int| 0 <= k < rest.len() && batch.wants(#[trigger] rest[k]);
            assert(batch.wants(paths[k]));
        }
        if batch.wants_any(paths) && !batch.wants(paths.last()) {
            let k = choose|k: int| 0 <= k < paths.len() && batch.wants(#[trigger] paths[k]);
            assert(rest[k] == paths[k]);
        }
        if batch.wants(paths.last()) {
            assert(has_path(after, paths.last().parts));
            assert(batch.wants(paths[paths.len() - 1]));
        }
    }
}

/// Whatever happens, a batch has begun exactly if it has paths, and these are
/// worth a report and different from each other.
pub proof fn lemma_batch_stays_wf(batch: BatchModel, input: WatchInput, now: int)
    requires
        batch.wf(),
    ensures
        received(batch, input, now).0.wf(),
        polled(batch, now).0.wf(),
{
    if let WatchInput::Event { kind, paths } = input {
        lemma_collected(batch, paths.deep_view());
    }
}

/// Every path of an event that is worth a report is in the batch afterwards, and
/// so is every path that was there before.
pub proof fn lemma_nothing_lost(
    batch: BatchModel,
    kind: EventKind,
    paths: Seq<PathModel>,
    now: int,
    path: PathModel,
)
    requires
        batch.wf(),
        batch.paths.contains(path) || paths.contains(path) && batch.wants(path),
    ensures
        has_path(noted(batch, kind, paths, now).paths, path.parts),
{
    lemma_collected(batch, paths);
    if batch.paths.contains(path) {
        let k = choose|k: int| 0 <= k < batch.paths.len() && batch.paths[k] == path;
        assert(collected(batch, paths)[k] == path);
        assert(batch.paths[k].parts == path.parts);
    } else {
        let k = choose|k: int| 0 <= k < paths.len() && paths[k] == path;
        assert(batch.wants(paths[k]));
    }
}

/// A burst loses nothing: every path worth a report that any of its events named
/// is in the batch at its end.
pub proof fn lemma_burst_is_collected(
    batch: BatchModel,
    events: Seq<EventModel>,
    i: int,
    path: PathModel,
)
    requires
        batch.wf(),
        0 <= i < events.len(),
        events[i].paths.contains(path),
        batch.wants(path),
    ensures
        has_path(noted_all(batch, events).paths, path.parts),
        noted_all(batch, events).start is Some,
    decreases events.len(),
{
    let rest = events.drop_last();
    let before = noted_all(batch, rest);
    let last = events.last();
    lemma_burst_wf(batch, events);
    lemma_burst_wf(batch, rest);
    if i < rest.len() {
        assert(rest[i] == events[i]);
        lemma_burst_is_collected(batch, rest, i, path);
        let k = choose|k: int|
            0 <= k < before.paths.len() && (#[trigger] before.paths[k]).parts == path.parts;
        assert(before.paths.contains(before.paths[k]));
        lemma_nothing_lost(before, last.kind, last.paths, last.now, before.paths[k]);
    } else {
        lemma_nothing_lost(before, last.kind, last.paths, last.now, path);
    }
}

/// A burst makes nothing up: every path of the batch at its end was there before
/// or was named by one of its events.
pub proof fn lemma_burst_makes_nothing_up(batch: BatchModel, events: Seq<EventModel>, k: int)
    requires
        batch.wf(),
        0 <= k < noted_all(batch, events).paths.len(),
    ensures
        batch.paths.contains(noted_all(batch, events).paths[k]) || exists|i: int|
            0 <= i < events.len() && (#[trigger] events[i]).paths.contains(
                noted_all(batch, events).paths[k],
            ),
    decreases events.len(),
{
    let path = noted_all(batch, events).paths[k];
    if events.len() > 0 {
        let rest = events.drop_last();
        let before = noted_all(batch, rest);
        let last = events.last();
        lemma_burst_wf(batch, rest);
        lemma_collected(before, last.paths);
        if last.paths.contains(path) {
            assert(events[events.len() - 1].paths.contains(path));
        } else {
            assert(before.paths.contains(path));
            let j = choose|j: int| 0 <= j < before.paths.len() && before.paths[j] == path;
            lemma_burst_makes_nothing_up(batch, rest, j);
            if !batch.paths.contains(path) {
                let i = choose|i: int|
                    0 <= i < rest.len() && (#[trigger] rest[i]).paths.contains(path);
                assert(events[i].paths.contains(path));
            }
        }
    } else {
        assert(batch.paths.contains(batch.paths[k]));
    }
}

proof fn lemma_burst_wf(batch: BatchModel, events: Seq<EventModel>)
    requires
        batch.wf(),
    ensures
        noted_all(batch, events).wf(),
        noted_all(batch, events).cwd == batch.cwd,
        noted_all(batch, events).cwd_canonical == batch.cwd_canonical,
    decreases events.len(),
{
    if events.len() > 0 {
        lemma_burst_wf(batch, events.drop_last());
        lemma_collected(noted_all(batch, events.drop_last()), events.last().paths);
    }
}

/// What each event tells: a creation, a deletion, a modification or a renaming, each
/// noted beside what was known before; or nothing.
pub proof fn lemma_event_kinds(acc: FilesChangedKind, event: EventKind)
    ensures
        ({
            let next = applied(acc, event);
            &&& next.created <==> acc.created || tells_creation(event)
            &&& next.modified <==> acc.modified || tells_modification(event)
            &&& next.deleted <==> acc.deleted || tells_deletion(event)
            &&& next.renamed <==> acc.renamed || tells_renaming(event)
        }),
{
}

/// Whether something is there now that was not: created, or renamed to this name.
pub open spec fn tells_creation(event: EventKind) -> bool {
    event == EventKind::Create || event == EventKind::Modify(ModifyKind::Name(RenameMode::To))
}

/// Whether something is gone: removed, or renamed from this name.
pub open spec fn tells_deletion(event: EventKind) -> bool {
    event == EventKind::Remove || event == EventKind::Modify(ModifyKind::Name(RenameMode::From))
}

/// Whether something was renamed, and both names or neither are known.
pub open spec fn tells_renaming(event: EventKind) -> bool {
    ||| event == EventKind::Modify(ModifyKind::Name(RenameMode::Both))
    ||| event == EventKind::Modify(ModifyKind::Name(RenameMode::Any))
    ||| event == EventKind::Modify(ModifyKind::Name(RenameMode::Other))
}

/// Whether something was modified that kept its name.
pub open spec fn tells_modification(event: EventKind) -> bool {
    ||| event == EventKind::Modify(ModifyKind::Any)
    ||| event == EventKind::Modify(ModifyKind::Data)
    ||| event == EventKind::Modify(ModifyKind::Metadata)
    ||| event == EventKind::Modify(ModifyKind::Other)
}

/// The kind of a batch after a burst holds every kind of change that any of its events
/// with a path worth a report tells of, besides what it held before, and no other.
pub proof fn lemma_burst_kind(batch: BatchModel, events: Seq<EventModel>)
    requires
        batch.wf(),
    ensures
        ({
            let after = noted_all(batch, events).kind;
            &&& after.created <==> batch.kind.created || exists|i: int|
                0 <= i < events.len() && batch.wants_any((#[trigger] events[i]).paths)
                    && tells_creation(events[i].kind)
            &&& after.modified <==> batch.kind.modified || exists|i: int|
                0 <= i < events.len() && batch.wants_any((#[trigger] events[i]).paths)
                    && tells_modification(events[i].kind)
            &&& after.deleted <==> batch.kind.deleted || exists|i: int|
                0 <= i < events.len() && batch.wants_any((#[trigger] events[i]).paths)
                    && tells_deletion(events[i].kind)
            &&& after.renamed <==> batch.kind.renamed || exists|i: int|
                0 <= i < events.len() && batch.wants_any((#[trigger] events[i]).paths)
                    && tells_renaming(events[i].kind)
        }),
    decreases events.len(),
{
    if events.len() > 0 {
        let rest = events.drop_last();
        let before = noted_all(batch, rest);
        let last = events[events.len() - 1];
        lemma_burst_kind(batch, rest);
        lemma_burst_wf(batch, rest);
        lemma_wants_same(batch, before, last.paths);
        lemma_event_kinds(before.kind, last.kind);
        assert(forall|i: int| 0 <= i < rest.len() ==> #[trigger] rest[i] == events[i]);
        assert(forall|i: int| 0 <= i < rest.len() ==> rest[i] == #[trigger] events[i]);
    }
}

proof fn lemma_wants_same(a: BatchModel, b: BatchModel, paths: Seq<PathModel>)
    requires
        a.cwd == b.cwd,
        a.cwd_canonical == b.cwd_canonical,
    ensures
        a.wants_any(paths) == b.wants_any(paths),
{
    if a.wants_any(paths) {
        let k = choose|k: int| 0 <= k < paths.len() && a.wants(#[trigger] paths[k]);
        assert(b.wants(paths[k]));
    }
    if b.wants_any(paths) {
        let k = choose|k: int| 0 <= k < paths.len() && b.wants(#[trigger] paths[k]);
        assert(a.wants(paths[k]));
    }
}

/// A path is worth a report exactly if it matters and is neither spelling of the
/// watched directory.
pub proof fn lemma_wanted_paths(batch: BatchModel, path: PathModel)
    ensures
        batch.wants(path) <==> path::relevant(path.parts) && path.parts != batch.cwd && path.parts
            != batch.cwd_canonical,
{
}

/// A batch begins with the first event that has a path worth a report, and later events
/// do not put its beginning off.
pub proof fn lemma_batch_start(batch: BatchModel, events: Seq<EventModel>, i: int)
    requires
        batch.wf(),
        0 <= i < events.len(),
        batch.wants_any(events[i].paths),
        forall|j: int| 0 <= j < i ==> !batch.wants_any((#[trigger] events[j]).paths),
    ensures
        batch.start is None ==> noted_all(batch, events).start == Some(events[i].now),
        batch.start is Some ==> noted_all(batch, events).start == batch.start,
    decreases events.len(),
{
    let rest = events.drop_last();
    let last = events.last();
    lemma_burst_wf(batch, rest);
    lemma_wants_same(batch, noted_all(batch, rest), last.paths);
    if i < rest.len() {
        assert(rest[i] == events[i]);
        assert forall|j: int| 0 <= j < i implies !batch.wants_any((#[trigger] rest[j]).paths) by {
            assert(rest[j] == events[j]);
        }
        lemma_batch_start(batch, rest, i);
    } else {
        assert forall|j: int| 0 <= j < rest.len() implies !batch.wants_any(
            (#[trigger] rest[j]).paths,
        ) by {
            assert(rest[j] == events[j]);
        }
        lemma_quiet_burst(batch, rest);
    }
}

/// Events without a path worth a report leave the batch as it is.
pub proof fn lemma_quiet_burst(batch: BatchModel, events: Seq<EventModel>)
    requires
        forall|j: int| 0 <= j < events.len() ==> !batch.wants_any((#[trigger] events[j]).paths),
    ensures
        noted_all(batch, events) == batch,
    decreases events.len(),
{
    if events.len() > 0 {
        let rest = events.drop_last();
        assert forall|j: int| 0 <= j < rest.len() implies !batch.wants_any(
            (#[trigger] rest[j]).paths,
        ) by {
            assert(rest[j] == events[j]);
        }
        lemma_quiet_burst(batch, rest);
        assert(events[events.len() - 1] == events.last());
    }
}

/// Of several spellings of one path the first is kept.
pub proof fn lemma_first_spelling_kept(batch: BatchModel, paths: Seq<PathModel>, i: int)
    requires
        batch.wf(),
        0 <= i < paths.len(),
        batch.wants(paths[i]),
        forall|k: int| 0 <= k < batch.paths.len() ==> (#[trigger] batch.paths[k]).parts
            != paths[i].parts,
        forall|k: int| 0 <= k < i ==> (#[trigger] paths[k]).parts != paths[i].parts,
    ensures
        collected(batch, paths).contains(paths[i]),
    decreases paths.len(),
{
    let rest = paths.drop_last();
    let before = collected(batch, rest);
    let after = collected(batch, paths);
    lemma_collected(batch, rest);
    if i < rest.len() {
        assert(rest[i] == paths[i]);
        assert forall|k: int| 0 <= k < i implies (#[trigger] rest[k]).parts
            != rest[i].parts by {
            assert(rest[k] == paths[k]);
        }
        lemma_first_spelling_kept(batch, rest, i);
        let k = choose|k: int| 0 <= k < before.len() && before[k] == paths[i];
        assert(after[k] == paths[i]);
    } else {
        if has_path(before, paths[i].parts) {
            let k = choose|k: int|
                0 <= k < before.len() && (#[trigger] before[k]).parts == paths[i].parts;
            if batch.paths.contains(before[k]) {
                let j = choose|j: int| 0 <= j < batch.paths.len() && batch.paths[j] == before[k];
                assert(batch.paths[j].parts == paths[i].parts);
            } else {
                let j = choose|j: int| 0 <= j < rest.len() && rest[j] == before[k];
                assert(paths[j].parts == paths[i].parts);
            }
        }
        assert(after[before.len() as int] == paths[i]);
    }
}

/// What the watcher does with each input: it takes events in without a word, goes on
/// after an error, reports what there is when nothing came in time, and stops when
/// nothing will come any more.
pub proof fn lemma_inputs(batch: BatchModel, input: WatchInput, now: int)
    requires
        batch.wf(),
    ensures
        input is Event ==> received(batch, input, now).1 is Continue,
        input is Error ==> received(batch, input, now) == (batch, StepModel::Continue),
        input is Disconnected ==> received(batch, input, now) == (batch, StepModel::Stop),
        input is Timeout && batch.paths.len() == 0 ==> received(batch, input, now) == (
            batch,
            StepModel::Continue,
        ),
        input is Timeout && batch.paths.len() > 0 ==> received(batch, input, now).1
            == StepModel::Emit(report(batch)),
{
}

/// A report names the workspace and the kind of the batch, and the texts of its paths,
/// each as often as it occurs. After it the workspace is watched on with nothing to
/// report.
pub proof fn lemma_report_and_reset(batch: BatchModel)
    ensures
        report(batch).workspace_id == batch.workspace_id,
        report(batch).kind == batch.kind,
        report(batch).paths.to_multiset() == batch.paths.map_values(
            |path: PathModel| path.text,
        ).to_multiset(),
        emptied(batch) == (BatchModel {
            workspace_id: batch.workspace_id,
            cwd: batch.cwd,
            cwd_canonical: batch.cwd_canonical,
            paths: Seq::empty(),
            kind: FilesChangedKind {
                created: false,
                modified: false,
                deleted: false,
                renamed: false,
            },
            start: None,
        }),
{
    order::lemma_in_order(texts(batch.paths));
}

/// How long the watcher waits, in nanoseconds: a fifth of a second without a batch;
/// with one, a twentieth, or less where the half second that a batch may grow for ends
/// before. Once that has passed the batch is reported without waiting for silence.
pub proof fn lemma_windows(batch: BatchModel, now: int)
    requires
        batch.wf(),
    ensures
        batch.start is None ==> wait(batch, now) == 200_000_000,
        batch.start matches Some(start) ==> start <= now ==> {
            &&& now - start <= 450_000_000 ==> wait(batch, now) == 50_000_000
            &&& 450_000_000 <= now - start <= 500_000_000 ==> wait(batch, now) == start
                + 500_000_000 - now
            &&& now - start >= 500_000_000 ==> wait(batch, now) == 0
            &&& now - start >= 500_000_000 ==> polled(batch, now) == (
                emptied(batch),
                StepModel::Emit(report(batch)),
            )
            &&& now - start < 500_000_000 ==> polled(batch, now) == (batch, StepModel::Continue)
        },
        batch.start is None ==> polled(batch, now) == (batch, StepModel::Continue),
        batch.start matches Some(start) ==> now < start ==> wait(batch, now) == 50_000_000
            && polled(batch, now) == (batch, StepModel::Continue),
{
}

/// Events of noise, and of the watched directory itself, change nothing.
pub proof fn lemma_noise_ignored(
    batch: BatchModel,
    kind: EventKind,
    paths: Seq<PathModel>,
    now: int,
)
    requires
        forall|i: int|
            0 <= i < paths.len() ==> {
                ||| !path::relevant((#[trigger] paths[i]).parts)
                ||| paths[i].parts == batch.cwd
                ||| paths[i].parts == batch.cwd_canonical
            },
    ensures
        noted(batch, kind, paths, now) == batch,
{
}

/// A report names at least one path, names them in order, and each of them is
/// that of a path worth a report; no path of the batch is left out.
pub proof fn lemma_report(batch: BatchModel)
    requires
        batch.wf(),
        batch.start is Some,
    ensures
        report(batch).paths.len() == batch.paths.len(),
        report(batch).paths.len() > 0,
        forall|i: int, j: int|
            0 <= i < j < report(batch).paths.len() ==> #[trigger] order::text_le(
                report(batch).paths[i],
                report(batch).paths[j],
            ),
        forall|text: Seq<char>| #[trigger]
            report(batch).paths.contains(text) <==> exists|k: int|
                0 <= k < batch.paths.len() && (#[trigger] batch.paths[k]).text == text && batch.wants(
                    batch.paths[k],
                ),
{
    broadcast use vstd::seq_lib::group_to_multiset_ensures;

    let names = texts(batch.paths);
    order::lemma_in_order(names);
    let shown = order::in_order(names);
    assert forall|text: Seq<char>| #[trigger] shown.contains(text) <==> exists|k: int|
        0 <= k < batch.paths.len() && (#[trigger] batch.paths[k]).text == text && batch.wants(
            batch.paths[k],
        ) by {
        assert(shown.contains(text) <==> shown.to_multiset().count(text) > 0);
        assert(names.contains(text) <==> names.to_multiset().count(text) > 0);
        if names.contains(text) {
            let k = choose|k: int| 0 <= k < names.len() && names[k] == text;
            assert(batch.paths[k].text == text && batch.wants(batch.paths[k]));
        }
        if exists|k: int|
            0 <= k < batch.paths.len() && (#[trigger] batch.paths[k]).text == text && batch.wants(
                batch.paths[k],
            ) {
            let k = choose|k: int|
                0 <= k < batch.paths.len() && (#[trigger] batch.paths[k]).text == text
                    && batch.wants(batch.paths[k]);
            assert(names[k] == text);
        }
    }
}

/// A burst of events makes one report: the first quiet moment reports all of the
/// batch, and after that there is nothing to report until the next event.
pub proof fn lemma_one_report_per_burst(batch: BatchModel, now: int, later: int)
    requires
        batch.wf(),
        batch.start is Some,
    ensures
        received(batch, WatchInput::Timeout, now).1 == StepModel::Emit(report(batch)),
        ({
            let after = received(batch, WatchInput::Timeout, now).0;
            &&& after == emptied(batch)
            &&& received(after, WatchInput::Timeout, later) == (after, StepModel::Continue)
            &&& polled(after, later) == (after, StepModel::Continue)
        }),
{
}

/// No report comes of nothing: without a batch neither silence nor time makes
/// one.
pub proof fn lemma_no_empty_report(batch: BatchModel, now: int)
    requires
        batch.wf(),
        batch.paths.len() == 0,
    ensures
        received(batch, WatchInput::Timeout, now) == (batch, StepModel::Continue),
        polled(batch, now) == (batch, StepModel::Continue),
{
}

/// A batch that goes on growing is reported in time: one that is still there
/// after a look at the clock has not reached its limit, and the wait for the next
/// event never reaches beyond it.
pub proof fn lemma_batch_is_bounded(batch: BatchModel, now: int)
    ensures
        polled(batch, now).0.start is Some ==> polled(batch, now).0.age(now) < MAX_BATCH_WINDOW,
        0 <= wait(batch, now) <= IDLE_POLL,
        batch.start is Some ==> wait(batch, now) <= QUIET_WINDOW,
        batch.start is Some && batch.age(now) <= MAX_BATCH_WINDOW ==> batch.age(now) + wait(
            batch,
            now,
        ) <= MAX_BATCH_WINDOW,
{
}

// ---------------------------------------------------------------------------
// The batch
// ---------------------------------------------------------------------------

/// Notes an event of this kind.
pub fn apply_kind(acc: &mut FilesChangedKind, event_kind: &EventKind)
    ensures
        *final(acc) == applied(*old(acc), *event_kind),
{
    match event_kind {
        EventKind::Create => {
            acc.created = true;
        },
        EventKind::Remove => {
            acc.deleted = true;
        },
        EventKind::Modify(ModifyKind::Name(mode)) => match mode {
            RenameMode::From => {
                acc.deleted = true;
            },
            RenameMode::To => {
                acc.created = true;
            },
            RenameMode::Both | RenameMode::Any | RenameMode::Other => {
                acc.renamed = true;
            },
        },
        EventKind::Modify(_) => {
            acc.modified = true;
        },
        EventKind::Access | EventKind::Other | EventKind::Any => {},
    }
}

/// Changes that are not yet reported.
#[derive(Debug)]
struct Pending {
    paths: Vec<WatchedPath>,
    kind: FilesChangedKind,
    start: u64,
}

/// The changes that the watcher of a workspace has collected and not yet
/// reported. Times are nanoseconds since a moment of the owner's choice.
#[derive(Debug)]
pub struct WatchBatch {
    workspace_id: String,
    cwd: WatchedPath,
    cwd_canonical: WatchedPath,
    pending: Option<Pending>,
}

impl View for WatchBatch {
    type V = BatchModel;

    closed spec fn view(&self) -> BatchModel {
        BatchModel {
            workspace_id: self.workspace_id@,
            cwd: self.cwd.deep_view().parts,
            cwd_canonical: self.cwd_canonical.deep_view().parts,
            paths: match self.pending {
                Some(pending) => pending.paths.deep_view(),
                None => Seq::empty(),
            },
            kind: match self.pending {
                Some(pending) => pending.kind,
                None => no_change(),
            },
            start: match self.pending {
                Some(pending) => Some(pending.start as int),
                None => None,
            },
        }
    }
}

/// Whether one of `paths` is the same as `path`.
fn contains_path(paths: &Vec<WatchedPath>, path: &WatchedPath) -> (yes: bool)
    ensures
        yes == has_path(paths.deep_view(), path.deep_view().parts),
{
    let ghost model = paths.deep_view();
    for i in 0..paths.len()
        invariant
            model == paths.deep_view(),
            forall|k: int| 0 <= k < i ==> (#[trigger] model[k]).parts != path.deep_view().parts,
    {
        if paths[i].same_path(path) {
            assert(model[i as int].parts == path.deep_view().parts);
            return true;
        }
    }
    false
}

impl WatchBatch {
    #[verifier::type_invariant]
    closed spec fn consistent(self) -> bool {
        self@.wf()
    }

    /// No changes yet, in the workspace whose directory is `cwd`.
    pub fn new(workspace_id: String, cwd: WatchedPath, cwd_canonical: WatchedPath) -> (batch: Self)
        ensures
            batch@ == (BatchModel {
                workspace_id: workspace_id@,
                cwd: cwd.deep_view().parts,
                cwd_canonical: cwd_canonical.deep_view().parts,
                paths: Seq::empty(),
                kind: no_change(),
                start: None,
            }),
            batch@.wf(),
    {
        WatchBatch { workspace_id, cwd, cwd_canonical, pending: None }
    }

    /// How long to wait for the next event, in nanoseconds.
    pub fn timeout(&self, now: u64) -> (nanos: u64)
        ensures
            nanos == wait(self@, now as int),
    {
        match &self.pending {
            Some(pending) => {
                let age: u64 = now.saturating_sub(pending.start);
                let remaining: u64 = MAX_BATCH_WINDOW.saturating_sub(age);
                if remaining < QUIET_WINDOW {
                    remaining
                } else {
                    QUIET_WINDOW
                }
            },
            None => IDLE_POLL,
        }
    }

    /// Takes in what came of the wait for an event.
    pub fn receive(&mut self, input: WatchInput, now: u64) -> (step: WatchStep)
        ensures
            (final(self)@, step.deep_view()) == received(old(self)@, input, now as int),
            final(self)@.wf(),
    {
        proof {
            use_type_invariant(&*self);
            lemma_batch_stays_wf(self@, input, now as int);
        }
        match input {
            WatchInput::Event { kind, paths } => {
                self.note(kind, paths, now);
                WatchStep::Continue
            },
            WatchInput::Error => WatchStep::Continue,
            WatchInput::Timeout => self.emit(),
            WatchInput::Disconnected => WatchStep::Stop,
        }
    }

    /// Reports the batch once it has been growing for too long.
    pub fn poll(&mut self, now: u64) -> (step: WatchStep)
        ensures
            (final(self)@, step.deep_view()) == polled(old(self)@, now as int),
            final(self)@.wf(),
    {
        proof {
            use_type_invariant(&*self);
        }
        let due = match &self.pending {
            Some(pending) => now.saturating_sub(pending.start) >= MAX_BATCH_WINDOW,
            None => false,
        };
        if due {
            self.emit()
        } else {
            WatchStep::Continue
        }
    }

    fn wants(&self, path: &WatchedPath) -> (yes: bool)
        ensures
            yes == self@.wants(path.deep_view()),
    {
        !path.same_path(&self.cwd_canonical) && !path.same_path(&self.cwd) && path.is_relevant()
    }

    /// Takes in an event.
    fn note(&mut self, kind: EventKind, paths: Vec<WatchedPath>, now: u64)
        ensures
            final(self)@ == noted(old(self)@, kind, paths.deep_view(), now as int),
    {
        proof {
            use_type_invariant(&*self);
        }
        let ghost batch = self@;
        let ghost incoming = paths.deep_view();
        let mut pending: Option<Pending> = None;
        std::mem::swap(&mut pending, &mut self.pending);
        let mut known = match pending {
            Some(pending) => pending,
            None => Pending { paths: Vec::new(), kind: FilesChangedKind::default(), start: now },
        };
        assert(known.paths.deep_view() =~= batch.paths);
        let mut accepted_any = false;
        assert(incoming.take(0) =~= Seq::<PathModel>::empty());
        for path in it: paths
            invariant
                it.seq() == paths@,
                incoming == paths.deep_view(),
                self@ == emptied(batch),
                known.paths.deep_view() == collected(batch, incoming.take(it.index() as int)),
                accepted_any == batch.wants_any(incoming.take(it.index() as int)),
                known.kind == batch.kind,
                known.start == (match batch.start {
                    Some(start) => start,
                    None => now as int,
                }),
        {
            let ghost i = it.index() as int;
            assert(path.deep_view() == incoming[i]);
            assert(incoming.take(i + 1).drop_last() =~= incoming.take(i));
            assert(self@.wants(path.deep_view()) == batch.wants(path.deep_view()));
            if self.wants(&path) {
                if !contains_path(&known.paths, &path) {
                    let ghost before = known.paths.deep_view();
                    known.paths.push(path);
                    assert(known.paths.deep_view() =~= before.push(incoming[i]));
                }
                accepted_any = true;
                assert(batch.wants(incoming.take(i + 1)[i]));
            }
        }
        assert(incoming.take(incoming.len() as int) =~= incoming);
        proof {
            lemma_collected(batch, incoming);
        }
        if accepted_any {
            apply_kind(&mut known.kind, &kind);
        }
        if known.paths.len() > 0 {
            self.pending = Some(known);
        }
    }

    /// Reports the batch, if there is one.
    fn emit(&mut self) -> (step: WatchStep)
        ensures
            (final(self)@, step.deep_view()) == flushed(old(self)@),
            final(self)@.wf(),
    {
        proof {
            use_type_invariant(&*self);
        }
        let mut pending: Option<Pending> = None;
        std::mem::swap(&mut pending, &mut self.pending);
        match pending {
            Some(pending) => {
                let ghost model = pending.paths.deep_view();
                let mut names: Vec<String> = Vec::new();
                assert(names.deep_view() =~= texts(model).take(0));
                for i in 0..pending.paths.len()
                    invariant
                        model == pending.paths.deep_view(),
                        names.deep_view() == texts(model).take(i as int),
                {
                    let ghost before = names.deep_view();
                    names.push(pending.paths[i].text.clone());
                    assert(names.deep_view() =~= before.push(model[i as int].text));
                    assert(names.deep_view() =~= texts(model).take(i + 1));
                }
                assert(texts(model).take(model.len() as int) =~= texts(model));
                let paths = order::sort_texts(&names);
                WatchStep::Emit(
                    FilesChanged { workspace_id: self.workspace_id.clone(), paths, kind: pending.kind },
                )
            },
            None => WatchStep::Continue,
        }
    }
}

} // verus!
