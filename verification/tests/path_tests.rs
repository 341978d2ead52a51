use ubercopy::path::MPath;
use ubercopy::path::PathExt;

#[test]
fn test_sandbox() {
    assert!(MPath::parse(b"foo").is_sandboxed());
    assert!(MPath::parse(b"./foo").is_sandboxed());
    assert!(MPath::parse(b".").is_sandboxed());
    assert!(MPath::parse(b"").is_sandboxed());
    assert!(!MPath::parse(b"../foo").is_sandboxed());
    assert!(!MPath::parse(b"/foo").is_sandboxed());
}

#[test]
fn test_parent_dir() {
    assert_eq!(MPath::parse(b"foo").removable_parent(), None);
    assert_eq!(MPath::parse(b"/foo").removable_parent(), None);
    assert_eq!(MPath::parse(b"/").removable_parent(), None);
    assert_eq!(
        MPath::parse(b"foo/bar").removable_parent(),
        Some(MPath::parse(b"foo"))
    );
}

#[test]
fn test_parent_dir_win() {
    assert_eq!(
        MPath::parse(br"C:\foo\bar").removable_parent(),
        Some(MPath::parse(br"C:\foo"))
    );
    assert_eq!(MPath::parse(br"C:\foo").removable_parent(), None);
    assert_eq!(MPath::parse(br"C:\").removable_parent(), None);
    assert_eq!(MPath::parse(br"\\?\C:\foo").removable_parent(), None);
    assert_eq!(MPath::parse(br"\\?\C:\").removable_parent(), None);
    assert_eq!(
        MPath::parse(br"\\?\C:\foo\bar").removable_parent(),
        Some(MPath::parse(br"\\?\C:\foo"))
    );
    assert_eq!(MPath::parse(br"\\server\share").removable_parent(), None);
    assert_eq!(MPath::parse(br"\\server\share\foo").removable_parent(), None);
    assert_eq!(
        MPath::parse(br"\\server\share\foo\bar").removable_parent(),
        Some(MPath::parse(br"\\server\share\foo"))
    );
    assert_eq!(MPath::parse(br"\\?\UNC\server\share").removable_parent(), None);
    assert_eq!(
        MPath::parse(br"\\?\UNC\server\share\foo").removable_parent(),
        None
    );
    assert_eq!(
        MPath::parse(br"\\?\UNC\server\share\foo\bar").removable_parent(),
        Some(MPath::parse(br"\\?\UNC\server\share\foo"))
    );
}

#[test]
fn test_norm() {
    assert_eq!(
        MPath::parse(br"../foo").parent(),
        Some(MPath::parse(br".."))
    );
    assert_eq!(MPath::parse(b"foo").norm(), MPath::parse(b"foo"));
    assert_eq!(MPath::parse(b"./foo").norm(), MPath::parse(b"foo"));
    assert_eq!(MPath::parse(b".").norm(), MPath::parse(b"."));
    assert_eq!(MPath::parse(b"..").norm(), MPath::parse(b".."));
    assert_eq!(MPath::parse(br"..\..").norm(), MPath::parse(br"..\.."));
    assert_eq!(MPath::parse(br"..\..\..").norm(), MPath::parse(br"..\..\.."));
    assert_eq!(MPath::parse(b"").norm(), MPath::parse(b"."));
    assert_eq!(MPath::parse(b"foo/bar").norm(), MPath::parse(br"foo\bar"));
    assert_eq!(MPath::parse(b"C:/foo/../bar").norm(), MPath::parse(br"C:\bar"));
    assert_eq!(MPath::parse(b"C:/../bar").norm(), MPath::parse(br"C:\bar"));
    assert_eq!(MPath::parse(b"C:/../../bar").norm(), MPath::parse(br"C:\bar"));
    assert_eq!(MPath::parse(b"foo//bar///").norm(), MPath::parse(br"foo\bar"));
    assert_eq!(
        MPath::parse(br"\\server\share\..\foo").norm(),
        MPath::parse(br"\\server\share\foo")
    );
    assert_eq!(
        MPath::parse(br"\\server\share\..\foo\..").norm(),
        MPath::parse(br"\\server\share")
    );
    assert_eq!(
        MPath::parse(br"..\foo\..\..\bar").norm(),
        MPath::parse(br"..\..\bar")
    );
}

#[test]
fn util_test_norm() {
    assert_eq!(
        MPath::parse(b"../foo").parent(),
        Some(MPath::parse(b".."))
    );
    assert_eq!(MPath::parse(b"foo").norm(), MPath::parse(b"foo"));
    assert_eq!(MPath::parse(b"./foo").norm(), MPath::parse(b"foo"));
    assert_eq!(MPath::parse(b".").norm(), MPath::parse(b"."));
    assert_eq!(MPath::parse(b"..").norm(), MPath::parse(b".."));
    assert_eq!(MPath::parse(b"../..").norm(), MPath::parse(b"../.."));
    assert_eq!(MPath::parse(b"../../..").norm(), MPath::parse(b"../../.."));
    assert_eq!(MPath::parse(b"").norm(), MPath::parse(b"."));
    assert_eq!(MPath::parse(b"foo/bar").norm(), MPath::parse(b"foo/bar"));
    assert_eq!(MPath::parse(b"/foo/../bar").norm(), MPath::parse(b"/bar"));
    assert_eq!(MPath::parse(b"/../bar").norm(), MPath::parse(b"/bar"));
    assert_eq!(MPath::parse(b"/../../bar").norm(), MPath::parse(b"/bar"));
    assert_eq!(MPath::parse(b"foo//bar///").norm(), MPath::parse(b"foo/bar"));
    assert_eq!(
        MPath::parse(b"../foo/../../bar").norm(),
        MPath::parse(b"../../bar")
    );
}

#[test]
fn test_norm_long_paths() {
    let long_name: String = "a".repeat(260);
    let long_name = long_name.as_str();

    // Long paths
    assert_eq!(
        MPath::parse((String::from(r"C:\") + long_name).as_bytes()).norm(),
        MPath::parse((String::from(r"\\?\C:\") + long_name).as_bytes())
    );
    assert_eq!(
        MPath::parse((String::from(r"\\server\share\") + long_name).as_bytes()).norm(),
        MPath::parse((String::from(r"\\?\UNC\server\share\") + long_name).as_bytes())
    );

    // Long relative paths
    assert_eq!(
        MPath::parse((String::from(r"..\relative\") + long_name).as_bytes()).norm(),
        MPath::parse((String::from(r"..\relative\") + long_name).as_bytes())
    );
    assert_eq!(
        MPath::parse((String::from(r".\relative\") + long_name).as_bytes()).norm(),
        MPath::parse((String::from(r"relative\") + long_name).as_bytes())
    );
}

#[test]
fn norm_twice_is_norm() {
    let cases: Vec<&[u8]> = vec![
        b"../foo/../../bar",
        b"C:/foo/../bar",
        b"a/./b/../c//",
        b"",
        b".",
        b"/..",
    ];
    for c in cases {
        let once = MPath::parse(c).norm();
        let twice = once.norm();
        assert_eq!(twice, once);
    }
}

#[test]
fn join_rebases_relative_paths() {
    let root = MPath::parse(b"out");
    assert_eq!(root.join(&MPath::parse(b"a/b")), MPath::parse(b"out/a/b"));
    // an absolute path replaces the base entirely
    assert_eq!(root.join(&MPath::parse(b"/a")), MPath::parse(b"/a"));
    // a drive-prefixed path replaces the base entirely
    assert_eq!(
        root.join(&MPath::parse(br"C:\a")),
        MPath::parse(br"C:\a")
    );
}

#[test]
fn render_round_trips() {
    let cases: Vec<&[u8]> = vec![b"a/b/c", b"/a/b", b"..", b"."];
    for c in cases {
        let p = MPath::parse(c);
        let rendered = p.render();
        assert_eq!(MPath::parse(rendered.as_slice()), p);
        assert_eq!(rendered, c.to_vec());
    }
}
