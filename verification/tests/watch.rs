use std::path::PathBuf;

use herdr::order::sort_texts;
use herdr::workspace::path::{noise_filter, PathPart, PathPrefix, WatchedPath};
use herdr::workspace::watch::{
    apply_kind, EventKind, FilesChanged, FilesChangedKind, ModifyKind, RenameMode, WatchBatch,
    WatchInput, WatchStep, IDLE_POLL, MAX_BATCH_WINDOW, QUIET_WINDOW,
};

fn keep(path: &str) -> bool {
    noise_filter(&PathBuf::from(path))
}

fn watched(path: &str) -> WatchedPath {
    WatchedPath::of(&PathBuf::from(path))
}

fn batch(id: &str) -> WatchBatch {
    WatchBatch::new(id.to_string(), watched("/repo"), watched("/private/repo"))
}

fn event(kind: EventKind, paths: &[&str]) -> WatchInput {
    WatchInput::Event { kind, paths: paths.iter().map(|p| watched(p)).collect() }
}

fn emitted(step: WatchStep) -> FilesChanged {
    match step {
        WatchStep::Emit(report) => report,
        other => panic!("expected a report, got {other:?}"),
    }
}

const DATA: EventKind = EventKind::Modify(ModifyKind::Data);

#[test]
fn noise_filter_rejects_known_noise() {
    assert!(!keep("/repo/target/debug/x"));
    assert!(!keep("/repo/node_modules/a/b"));
    assert!(!keep("/repo/.venv/lib/x"));
}

#[test]
fn noise_filter_allows_curated_git() {
    assert!(keep("/repo/.git/HEAD"));
    assert!(keep("/repo/.git/index"));
    assert!(keep("/repo/.git/refs/heads/main"));
}

#[test]
fn noise_filter_rejects_other_git() {
    assert!(!keep("/repo/.git/objects/ab/cd"));
    assert!(!keep("/repo/.git/logs/HEAD"));
}

#[test]
fn noise_filter_allows_regular_files() {
    assert!(keep("/repo/src/main.rs"));
    assert!(keep("/repo/Cargo.toml"));
}

#[test]
fn noise_filter_goes_by_whole_names() {
    assert!(!keep("/repo/dist/x"));
    assert!(!keep("/repo/build"));
    assert!(!keep("/repo/.next/x"));
    assert!(!keep("/repo/__pycache__/x.pyc"));
    assert!(keep("/repo/targets/x"));
    assert!(keep("/repo/my.build/x"));
    assert!(keep("/repo/.gitignore"));
    assert!(!keep("/repo/.git/refs/heads/target"));
}

#[test]
fn noise_filter_at_the_edges_of_git() {
    assert!(!keep("/repo/.git"));
    assert!(!keep("/repo/.git/refs/heads"));
    assert!(!keep("/repo/.git/HEAD.lock"));
    assert!(!keep("/repo/.git/refs/tags/v1"));
    assert!(keep("/repo/.git/refs/heads/feature/x"));
    assert!(!keep("/repo/.git/x/.git/HEAD"));
    assert!(keep(".git/HEAD"));
    assert!(keep(""));
}

#[test]
fn paths_are_taken_apart() {
    let path = watched("/a/../b.txt");
    assert_eq!(path.text, "/a/../b.txt");
    assert_eq!(
        path.parts,
        vec![
            PathPart::RootDir,
            PathPart::Normal(b"a".to_vec()),
            PathPart::ParentDir,
            PathPart::Normal(b"b.txt".to_vec()),
        ]
    );
    assert_eq!(watched("./x").parts[0], PathPart::CurDir);
}

#[test]
fn spelling_does_not_tell_paths_apart() {
    assert!(watched("/a//b/").same_path(&watched("/a/b")));
    assert!(watched("/a/./b").same_path(&watched("/a/b")));
    assert!(!watched("/a/b").same_path(&watched("a/b")));
    assert!(!watched("/a/b").same_path(&watched("/a/b/c")));
}

#[test]
fn prefixes_tell_paths_apart_by_what_they_are() {
    let on = |prefix: PathPrefix, text: &str| WatchedPath {
        parts: vec![PathPart::Prefix(prefix), PathPart::RootDir],
        text: text.to_string(),
    };
    let c = on(PathPrefix::Disk(67), "C:\\");
    assert!(c.same_path(&on(PathPrefix::Disk(67), "c:\\")));
    assert!(!c.same_path(&on(PathPrefix::Disk(68), "D:\\")));
    assert!(!c.same_path(&on(PathPrefix::VerbatimDisk(67), "\\\\?\\C:\\")));
    let share = |s: &[u8], t: &[u8]| on(PathPrefix::UNC(s.to_vec(), t.to_vec()), "");
    assert!(share(b"s", b"t").same_path(&share(b"s", b"t")));
    assert!(!share(b"s", b"t").same_path(&share(b"s", b"u")));
    assert!(!share(b"s", b"t").same_path(&watched("/s/t")));
}

#[test]
fn kinds_of_events() {
    let none = FilesChangedKind::default();
    let after = |kind: EventKind| {
        let mut acc = FilesChangedKind::default();
        apply_kind(&mut acc, &kind);
        acc
    };
    let name = |mode: RenameMode| after(EventKind::Modify(ModifyKind::Name(mode)));
    assert_eq!(after(EventKind::Create), FilesChangedKind { created: true, ..none });
    assert_eq!(after(EventKind::Remove), FilesChangedKind { deleted: true, ..none });
    assert_eq!(after(DATA), FilesChangedKind { modified: true, ..none });
    assert_eq!(
        after(EventKind::Modify(ModifyKind::Metadata)),
        FilesChangedKind { modified: true, ..none }
    );
    assert_eq!(
        after(EventKind::Modify(ModifyKind::Any)),
        FilesChangedKind { modified: true, ..none }
    );
    assert_eq!(
        after(EventKind::Modify(ModifyKind::Other)),
        FilesChangedKind { modified: true, ..none }
    );
    assert_eq!(name(RenameMode::From), FilesChangedKind { deleted: true, ..none });
    assert_eq!(name(RenameMode::To), FilesChangedKind { created: true, ..none });
    assert_eq!(name(RenameMode::Both), FilesChangedKind { renamed: true, ..none });
    assert_eq!(name(RenameMode::Any), FilesChangedKind { renamed: true, ..none });
    assert_eq!(name(RenameMode::Other), FilesChangedKind { renamed: true, ..none });
    assert_eq!(after(EventKind::Access), none);
    assert_eq!(after(EventKind::Any), none);
    assert_eq!(after(EventKind::Other), none);
}

#[test]
fn kinds_add_up() {
    let mut acc = FilesChangedKind::default();
    apply_kind(&mut acc, &EventKind::Create);
    apply_kind(&mut acc, &DATA);
    apply_kind(&mut acc, &EventKind::Access);
    assert_eq!(
        acc,
        FilesChangedKind { created: true, modified: true, deleted: false, renamed: false }
    );
}

#[test]
fn reports_event_on_file_write() {
    let mut batch = batch("ws-1");
    assert_eq!(batch.receive(event(EventKind::Create, &["/repo/a.txt"]), 1), WatchStep::Continue);
    let report = emitted(batch.receive(WatchInput::Timeout, 2));
    assert_eq!(report.workspace_id, "ws-1");
    assert_eq!(report.paths, vec!["/repo/a.txt"]);
    assert!(report.kind.created && !report.kind.modified);
}

#[test]
fn reports_a_burst_once() {
    let mut batch = batch("ws-burst");
    for i in (0..100u64).rev() {
        let path = format!("/repo/f{i}.txt");
        assert_eq!(batch.receive(event(DATA, &[&path]), i), WatchStep::Continue);
        assert_eq!(batch.receive(event(DATA, &[&path]), i), WatchStep::Continue);
    }
    let report = emitted(batch.receive(WatchInput::Timeout, 200));
    assert_eq!(report.paths.len(), 100);
    let mut sorted = report.paths.clone();
    sorted.sort();
    assert_eq!(report.paths, sorted);
    assert_eq!(batch.receive(WatchInput::Timeout, 300), WatchStep::Continue);
    assert_eq!(batch.poll(u64::MAX), WatchStep::Continue);
}

#[test]
fn noise_starts_no_batch() {
    let mut batch = batch("ws-noise");
    let input = event(EventKind::Create, &["/repo/target/foo", "/repo/.git/objects/x"]);
    assert_eq!(batch.receive(input, 5), WatchStep::Continue);
    assert_eq!(batch.timeout(5), IDLE_POLL);
    assert_eq!(batch.receive(WatchInput::Timeout, 6), WatchStep::Continue);
}

#[test]
fn the_root_itself_is_not_reported() {
    let mut batch = batch("ws-root");
    batch.receive(event(DATA, &["/repo", "/private/repo/", "/repo/./"]), 1);
    assert_eq!(batch.receive(WatchInput::Timeout, 2), WatchStep::Continue);
    batch.receive(event(DATA, &["/repo", "/repo/x"]), 3);
    assert_eq!(emitted(batch.receive(WatchInput::Timeout, 4)).paths, vec!["/repo/x"]);
}

#[test]
fn a_head_change_is_reported() {
    let mut batch = batch("ws-git");
    batch.receive(event(DATA, &["/repo/.git/HEAD"]), 1);
    let report = emitted(batch.receive(WatchInput::Timeout, 2));
    assert!(report.paths.iter().any(|p| p.ends_with(".git/HEAD")));
}

#[test]
fn the_same_path_is_reported_once_as_first_spelt() {
    let mut batch = batch("ws-same");
    batch.receive(event(DATA, &["/repo/a//b", "/repo/a/b", "/repo/a/./b"]), 1);
    assert_eq!(emitted(batch.receive(WatchInput::Timeout, 2)).paths, vec!["/repo/a//b"]);
}

#[test]
fn a_report_resets_the_kind() {
    let mut batch = batch("ws-kind");
    batch.receive(event(EventKind::Remove, &["/repo/a"]), 1);
    assert!(emitted(batch.receive(WatchInput::Timeout, 2)).kind.deleted);
    batch.receive(event(DATA, &["/repo/a"]), 3);
    let report = emitted(batch.receive(WatchInput::Timeout, 4));
    assert!(!report.kind.deleted && report.kind.modified);
}

#[test]
fn a_long_burst_is_reported_in_time() {
    let mut batch = batch("ws-long");
    batch.receive(event(DATA, &["/repo/a"]), 1_000);
    assert_eq!(batch.poll(1_000 + MAX_BATCH_WINDOW - 1), WatchStep::Continue);
    batch.receive(event(DATA, &["/repo/b"]), 1_000 + MAX_BATCH_WINDOW - 1);
    let report = emitted(batch.poll(1_000 + MAX_BATCH_WINDOW));
    assert_eq!(report.paths, vec!["/repo/a", "/repo/b"]);
    assert_eq!(batch.poll(1_000 + MAX_BATCH_WINDOW), WatchStep::Continue);
}

#[test]
fn waiting_times() {
    let mut batch = batch("ws-wait");
    assert_eq!(IDLE_POLL, 200_000_000);
    assert_eq!(QUIET_WINDOW, 50_000_000);
    assert_eq!(MAX_BATCH_WINDOW, 500_000_000);
    assert_eq!(batch.timeout(0), IDLE_POLL);
    batch.receive(event(DATA, &["/repo/a"]), 1_000);
    assert_eq!(batch.timeout(1_000), QUIET_WINDOW);
    assert_eq!(batch.timeout(0), QUIET_WINDOW);
    assert_eq!(batch.timeout(1_000 + MAX_BATCH_WINDOW - 7), 7);
    assert_eq!(batch.timeout(1_000 + MAX_BATCH_WINDOW), 0);
    assert_eq!(batch.timeout(u64::MAX), 0);
}

#[test]
fn errors_are_survived_and_the_end_is_not() {
    let mut batch = batch("ws-end");
    batch.receive(event(DATA, &["/repo/a"]), 1);
    assert_eq!(batch.receive(WatchInput::Error, 2), WatchStep::Continue);
    assert_eq!(batch.receive(WatchInput::Disconnected, 3), WatchStep::Stop);
}

#[test]
fn workspaces_do_not_mix() {
    let mut a = batch("ws-a");
    let mut b = batch("ws-b");
    a.receive(event(EventKind::Create, &["/repo/only-a.txt"]), 1);
    assert_eq!(b.receive(WatchInput::Timeout, 2), WatchStep::Continue);
    assert_eq!(emitted(a.receive(WatchInput::Timeout, 2)).workspace_id, "ws-a");
}

#[test]
fn sorting_agrees_with_the_standard_order() {
    let texts: Vec<String> = ["b", "", "a", "ab", "a", "é", "z", "Z", "\u{10ffff}", "\u{e000}", "a/b", "a.b"]
        .iter()
        .map(|s| s.to_string())
        .collect();
    let mut expected = texts.clone();
    expected.sort();
    assert_eq!(sort_texts(&texts), expected);
    assert!(sort_texts(&Vec::new()).is_empty());
}
