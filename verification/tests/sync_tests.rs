use ubercopy::copyop::CopyOp;
use ubercopy::copyop::FileKind;
use ubercopy::copyop::FileMeta;
use ubercopy::copyop::OpStat;
use ubercopy::error::Error;
use ubercopy::manifest::Manifest;
use ubercopy::path::MPath;
use ubercopy::sync::SyncEngine;
use ubercopy::sync::check_races;
use ubercopy::util::ErrKind;
use ubercopy::util::FsError;
use ubercopy::util::RetryState;
use ubercopy::util::remove_empty_dirs;

fn no_root() -> MPath {
    MPath::parse(b"")
}

fn meta(len: u64, sec: i64) -> FileMeta {
    FileMeta {
        len,
        kind: FileKind::File,
        mtime_sec: sec,
        mtime_nsec: 0,
        readonly: false,
    }
}

fn fs_err(kind: ErrKind) -> FsError {
    FsError { kind, message: String::from("injected failure") }
}

#[test]
fn two_new_files_are_copied() {
    let prev = Manifest::new();
    let next =
        Manifest::parse_reader(b"a.txt\tout/a.txt\nb.txt\tout/b.txt\n", &no_root(), false, false)
            .unwrap();
    let mut e = SyncEngine::new(&prev, next, false, false, false);
    e.check().unwrap();
    assert_eq!(e.delete_commands().len(), 0);
    e.report_deletes(Vec::new()).unwrap();
    assert_eq!(e.prune_dir_commands().len(), 0);
    e.report_prune_dirs(Vec::new()).unwrap();
    let reqs = e.stat_requests();
    assert_eq!(reqs.len(), 2);
    let outcomes = vec![
        OpStat { src: Ok(meta(3, 100)), dest: None },
        OpStat { src: Ok(meta(4, 100)), dest: None },
    ];
    e.report_stats(outcomes).unwrap();
    let dirs = e.mkdir_commands();
    assert_eq!(dirs.len(), 1);
    assert_eq!(dirs[0], MPath::parse(b"out"));
    e.report_mkdirs(Vec::new()).unwrap();
    let copies = e.copy_commands();
    assert_eq!(copies.len(), 2);
    e.report_copies(Vec::new()).unwrap();
    let n = e.report_verify(Vec::new()).unwrap();
    assert_eq!(n, 2);
    assert!(e.should_commit());
}

#[test]
fn removed_destination_is_pruned() {
    let prev =
        Manifest::parse_reader(b"src/old.txt\tout/old.txt\n", &no_root(), false, false).unwrap();
    let next = Manifest::new();
    let mut e = SyncEngine::new(&prev, next, false, false, false);
    e.check().unwrap();
    let del = e.delete_commands();
    assert_eq!(del.len(), 1);
    assert_eq!(del[0], MPath::parse(b"out/old.txt"));
    e.report_deletes(Vec::new()).unwrap();
    let dirs = e.prune_dir_commands();
    assert_eq!(dirs.len(), 1);
    assert_eq!(dirs[0], MPath::parse(b"out"));
    // "out" is a single ordinary component: the climb stops right there
    let chain = remove_empty_dirs(&dirs[0]);
    assert_eq!(chain.len(), 1);
    assert_eq!(chain[0], MPath::parse(b"out"));
}

#[test]
fn climb_chain_walks_removable_parents() {
    let chain = remove_empty_dirs(&MPath::parse(b"a/b/c"));
    assert_eq!(chain.len(), 3);
    assert_eq!(chain[0], MPath::parse(b"a/b/c"));
    assert_eq!(chain[1], MPath::parse(b"a/b"));
    assert_eq!(chain[2], MPath::parse(b"a"));
    // a rooted path stops before the root
    let rooted = remove_empty_dirs(&MPath::parse(b"/x/y"));
    assert_eq!(rooted.len(), 2);
    assert_eq!(rooted[1], MPath::parse(b"/x"));
}

#[test]
fn overlap_aborts_before_any_mutation() {
    let prev = Manifest::new();
    let next =
        Manifest::parse_reader(b"a/b\tout/x\nsrc2\ta/b\n", &no_root(), false, false).unwrap();
    let mut e = SyncEngine::new(&prev, next, false, false, false);
    match e.check() {
        Err(Error::Overlap(v)) => {
            assert_eq!(v.len(), 1);
            assert_eq!(v[0], MPath::parse(b"a/b"));
        }
        _ => panic!("expected an overlap failure"),
    }
}

#[test]
fn duplicate_destinations_abort() {
    let prev = Manifest::new();
    let next =
        Manifest::parse_reader(b"s1\tout/x.txt\ns2\tout/x.txt\n", &no_root(), false, false)
            .unwrap();
    let mut e = SyncEngine::new(&prev, next, false, false, false);
    match e.check() {
        Err(Error::Duplicates(d)) => {
            assert_eq!(d.len(), 1);
            assert_eq!(d[0].0, MPath::parse(b"out/x.txt"));
            assert_eq!(d[0].1, 2);
        }
        _ => panic!("expected a duplicate-destination failure"),
    }
}

#[test]
fn check_races_passes_disjoint_manifest() {
    let next = Manifest::parse_reader(b"a\tx\nb\ty\n", &no_root(), false, false).unwrap();
    assert!(check_races(&next.srcs(), &next.dests()).is_ok());
}

#[test]
fn force_copies_everything() {
    let prev = Manifest::new();
    let next = Manifest::parse_reader(b"a\tx\nb\ty\n", &no_root(), false, false).unwrap();
    let mut e = SyncEngine::new(&prev, next, false, true, false);
    e.check().unwrap();
    e.report_deletes(Vec::new()).unwrap();
    e.report_prune_dirs(Vec::new()).unwrap();
    // with force, no stat request is issued at all
    assert_eq!(e.stat_requests().len(), 0);
    e.report_stats(Vec::new()).unwrap();
    assert_eq!(e.outdated().len(), 2);
    e.report_mkdirs(Vec::new()).unwrap();
    let copies = e.copy_commands();
    assert_eq!(copies.len(), 2);
    e.report_copies(Vec::new()).unwrap();
    let n = e.report_verify(Vec::new()).unwrap();
    assert_eq!(n, 2);
}

#[test]
fn dryrun_never_mutates_but_checks_identically() {
    let prev =
        Manifest::parse_reader(b"old\tgone.txt\n", &no_root(), false, false).unwrap();
    let next = Manifest::parse_reader(b"a\tx\n", &no_root(), false, false).unwrap();
    let mut e = SyncEngine::new(&prev, next, true, false, false);
    e.check().unwrap();
    // the plan lists the deletion, the command list is empty
    assert_eq!(e.files_to_delete().len(), 1);
    assert_eq!(e.delete_commands().len(), 0);
    e.report_deletes(Vec::new()).unwrap();
    assert_eq!(e.dirs_to_prune().len(), 0);
    assert_eq!(e.prune_dir_commands().len(), 0);
    e.report_prune_dirs(Vec::new()).unwrap();
    // read-only stat requests still happen in a dry run
    assert_eq!(e.stat_requests().len(), 1);
    e.report_stats(vec![OpStat { src: Ok(meta(1, 1)), dest: None }]).unwrap();
    assert_eq!(e.mkdir_commands().len(), 0);
    e.report_mkdirs(Vec::new()).unwrap();
    assert_eq!(e.copy_commands().len(), 0);
    e.report_copies(Vec::new()).unwrap();
    e.report_verify(Vec::new()).unwrap();
    // a dry run never commits
    assert!(!e.should_commit());
}

#[test]
fn dryrun_still_reports_duplicates() {
    let prev = Manifest::new();
    let next =
        Manifest::parse_reader(b"s1\td\ns2\td\n", &no_root(), false, false).unwrap();
    let mut e = SyncEngine::new(&prev, next, true, false, false);
    assert!(matches!(e.check(), Err(Error::Duplicates(_))));
}

#[test]
fn verify_reports_external_races_as_errors() {
    let prev = Manifest::new();
    let next = Manifest::parse_reader(b"a\tx\n", &no_root(), false, false).unwrap();
    let mut e = SyncEngine::new(&prev, next, false, false, true);
    e.check().unwrap();
    e.report_deletes(Vec::new()).unwrap();
    e.report_prune_dirs(Vec::new()).unwrap();
    e.report_stats(vec![OpStat { src: Ok(meta(1, 1)), dest: None }]).unwrap();
    e.report_mkdirs(Vec::new()).unwrap();
    assert_eq!(e.copy_commands().len(), 1);
    e.report_copies(Vec::new()).unwrap();
    assert_eq!(e.verify_requests().len(), 1);
    // the source vanished between the copy and the re-check
    let outcomes = vec![OpStat { src: Err(fs_err(ErrKind::NotFound)), dest: Some(meta(1, 1)) }];
    match e.report_verify(outcomes) {
        Err(Error::VerifyErrors(v)) => {
            assert_eq!(v.len(), 1);
            assert_eq!(v[0].1.kind, ErrKind::NotFound);
        }
        _ => panic!("expected verification errors, not an incompleteness report"),
    }
}

#[test]
fn verify_reports_still_outdated_operations() {
    let prev = Manifest::new();
    let next = Manifest::parse_reader(b"a\tx\n", &no_root(), false, false).unwrap();
    let mut e = SyncEngine::new(&prev, next, false, false, true);
    e.check().unwrap();
    e.report_deletes(Vec::new()).unwrap();
    e.report_prune_dirs(Vec::new()).unwrap();
    e.report_stats(vec![OpStat { src: Ok(meta(1, 1)), dest: None }]).unwrap();
    e.report_mkdirs(Vec::new()).unwrap();
    e.report_copies(Vec::new()).unwrap();
    let outcomes = vec![OpStat { src: Ok(meta(1, 1)), dest: None }];
    match e.report_verify(outcomes) {
        Err(Error::VerifyIncomplete(v)) => {
            assert_eq!(v.len(), 1);
            assert_eq!(v[0].src, MPath::parse(b"a"));
        }
        _ => panic!("expected an incompleteness report"),
    }
}

#[test]
fn failed_deletions_abort_with_full_list() {
    let prev = Manifest::parse_reader(b"s\tgone\n", &no_root(), false, false).unwrap();
    let next = Manifest::new();
    let mut e = SyncEngine::new(&prev, next, false, false, false);
    e.check().unwrap();
    let failures = vec![(MPath::parse(b"gone"), fs_err(ErrKind::Other))];
    match e.report_deletes(failures) {
        Err(Error::Delete(v)) => assert_eq!(v.len(), 1),
        _ => panic!("expected a deletion failure"),
    }
}

#[test]
fn missing_sources_abort_the_run() {
    let prev = Manifest::new();
    let next = Manifest::parse_reader(b"a\tx\n", &no_root(), false, false).unwrap();
    let mut e = SyncEngine::new(&prev, next, false, false, false);
    e.check().unwrap();
    e.report_deletes(Vec::new()).unwrap();
    e.report_prune_dirs(Vec::new()).unwrap();
    let outcomes = vec![OpStat { src: Err(fs_err(ErrKind::NotFound)), dest: None }];
    match e.report_stats(outcomes) {
        Err(Error::MissingSrcs(v)) => assert_eq!(v.len(), 1),
        _ => panic!("expected missing sources"),
    }
}

#[test]
fn retry_backoff_doubles_and_gives_up() {
    let mut rs = RetryState::new(3, 100);
    assert_eq!(rs.on_failure(&ErrKind::Other), Some(100));
    assert_eq!(rs.on_failure(&ErrKind::Other), Some(200));
    assert_eq!(rs.on_failure(&ErrKind::Other), Some(400));
    assert_eq!(rs.on_failure(&ErrKind::Other), None);
}

#[test]
fn retry_never_retries_notfound_or_permission() {
    let mut rs = RetryState::new(3, 100);
    assert_eq!(rs.on_failure(&ErrKind::NotFound), None);
    assert_eq!(rs.on_failure(&ErrKind::PermissionDenied), None);
    // the budget is untouched by non-retryable failures
    assert_eq!(rs.on_failure(&ErrKind::Other), Some(100));
}

#[test]
fn completeness_requires_an_existing_matching_destination() {
    let op = CopyOp::new(MPath::parse(b"a"), MPath::parse(b"b"));
    let src = meta(5, 10);
    // a missing destination is never complete
    assert!(!op.is_complete(&src, &None));
    assert!(op.is_complete(&src, &Some(meta(5, 10))));
    assert!(!op.is_complete(&src, &Some(meta(6, 10))));
    assert!(!op.is_complete(&src, &Some(meta(5, 11))));
    let mut dir = meta(5, 10);
    dir.kind = FileKind::Dir;
    assert!(!op.is_complete(&src, &Some(dir)));
    let mut ro = meta(5, 10);
    ro.readonly = true;
    assert!(!op.is_complete(&src, &Some(ro)));
}

#[test]
fn copy_command_carries_the_budget() {
    let op = CopyOp::new(MPath::parse(b"a"), MPath::parse(b"out/b"));
    let cmd = op.copy(5, 1000);
    assert_eq!(cmd.src, MPath::parse(b"a"));
    assert_eq!(cmd.dest, MPath::parse(b"out/b"));
    assert_eq!(cmd.retry.retries, 5);
    assert_eq!(cmd.retry.delay_ms, 1000);
}

#[test]
fn error_descriptions_name_their_kind() {
    assert_eq!(
        Error::Overlap(Vec::new()).description(),
        "Overlapping sources and destinations"
    );
    assert_eq!(Error::Duplicates(Vec::new()).description(), "Duplicate destinations");
    assert_eq!(Error::Delete(Vec::new()).description(), "Failed to delete the following files");
}
