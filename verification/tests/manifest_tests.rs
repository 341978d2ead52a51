use ubercopy::copyop::FileKind;
use ubercopy::copyop::FileMeta;
use ubercopy::copyop::OpStat;
use ubercopy::manifest::Manifest;
use ubercopy::manifest::ParseError;
use ubercopy::path::MPath;
use ubercopy::util::ErrKind;
use ubercopy::util::FsError;

fn no_root() -> MPath {
    MPath::parse(b"")
}

fn meta(len: u64, sec: i64) -> FileMeta {
    FileMeta {
        len,
        kind: FileKind::File,
        mtime_sec: sec,
        mtime_nsec: 0,
        readonly: false,
    }
}

#[test]
fn parse_skips_blanks_and_comments() {
    let m = Manifest::parse_reader(b"# header\n\n  \na\tb\n", &no_root(), false, false).unwrap();
    assert_eq!(m.operations().len(), 1);
    assert_eq!(m.operations()[0].src, MPath::parse(b"a"));
    assert_eq!(m.operations()[0].dest, MPath::parse(b"b"));
}

#[test]
fn parse_missing_dest_carries_line_number() {
    let r = Manifest::parse_reader(b"# c\n\nonly-one-field\n", &no_root(), false, false);
    match r {
        Err(ParseError::MissingDest { line }) => assert_eq!(line, 3),
        _ => panic!("expected a missing-destination error"),
    }
}

#[test]
fn parse_normalizes_both_paths() {
    let m = Manifest::parse_reader(b"./a/../x\tout//y/\n", &no_root(), false, false).unwrap();
    assert_eq!(m.operations()[0].src, MPath::parse(b"x"));
    assert_eq!(m.operations()[0].dest, MPath::parse(b"out/y"));
}

#[test]
fn parse_rejects_unsandboxed_src() {
    let r = Manifest::parse_reader(b"../esc\tout\n", &no_root(), true, false);
    match r {
        Err(ParseError::SrcNotSandboxed { path }) => {
            assert_eq!(path, MPath::parse(b"../esc"));
        }
        _ => panic!("expected a sandbox error"),
    }
}

#[test]
fn parse_rejects_unsandboxed_dest() {
    let r = Manifest::parse_reader(b"a\t/abs\n", &no_root(), false, true);
    match r {
        Err(ParseError::DestNotSandboxed { path }) => {
            assert_eq!(path, MPath::parse(b"/abs"));
        }
        _ => panic!("expected a sandbox error"),
    }
}

#[test]
fn parse_rebases_dests_under_root() {
    let root = MPath::parse(b"stage");
    let m = Manifest::parse_reader(b"a\tx/y\n", &root, false, false).unwrap();
    assert_eq!(m.operations()[0].dest, MPath::parse(b"stage/x/y"));
}

#[test]
fn parse_sorts_and_dedups() {
    let m = Manifest::parse_reader(b"b\tx\na\ty\na\ty\n", &no_root(), false, false).unwrap();
    assert_eq!(m.operations().len(), 2);
    let srcs = m.srcs();
    assert_eq!(srcs[0], MPath::parse(b"a"));
    assert_eq!(srcs[1], MPath::parse(b"b"));
}

#[test]
fn dests_are_sorted() {
    let m = Manifest::parse_reader(b"a\tz\nb\tq\n", &no_root(), false, false).unwrap();
    let dests = m.dests();
    assert_eq!(dests[0], MPath::parse(b"q"));
    assert_eq!(dests[1], MPath::parse(b"z"));
}

#[test]
fn outdated_with_force_is_everything() {
    let m = Manifest::parse_reader(b"a\tx\nb\ty\n", &no_root(), false, false).unwrap();
    let r = m.outdated(true, Vec::new()).unwrap();
    assert_eq!(r.len(), 2);
}

#[test]
fn outdated_keeps_incomplete_operations() {
    let m = Manifest::parse_reader(b"a\tx\nb\ty\n", &no_root(), false, false).unwrap();
    let outcomes = vec![
        OpStat { src: Ok(meta(3, 1)), dest: Some(meta(3, 1)) },
        OpStat { src: Ok(meta(4, 1)), dest: None },
    ];
    let r = m.outdated(false, outcomes).unwrap();
    assert_eq!(r.len(), 1);
    assert_eq!(r[0].src, MPath::parse(b"b"));
}

#[test]
fn outdated_surfaces_missing_sources() {
    let m = Manifest::parse_reader(b"a\tx\n", &no_root(), false, false).unwrap();
    let outcomes = vec![OpStat {
        src: Err(FsError { kind: ErrKind::NotFound, message: String::from("missing") }),
        dest: None,
    }];
    let r = m.outdated(false, outcomes);
    match r {
        Err(errs) => {
            assert_eq!(errs.len(), 1);
            assert_eq!(errs[0].0.src, MPath::parse(b"a"));
            assert_eq!(errs[0].1.kind, ErrKind::NotFound);
        }
        _ => panic!("expected the missing source to surface"),
    }
}
