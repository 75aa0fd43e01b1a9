use mod_mirror::path::{normalize, path_entry, PathError};

const PREFIX: &str = "../../..";

#[test]
fn normalize_strips_containment_prefix() {
    let r = normalize("../../../FSD/Content/", "Foo/Bar.uasset", PREFIX).unwrap();
    assert_eq!(r, "FSD/Content/Foo/Bar.uasset");
}

#[test]
fn normalize_inserts_separator_after_mount_point() {
    let r = normalize("../../../FSD", "Bar.uexp", PREFIX).unwrap();
    assert_eq!(r, "FSD/Bar.uexp");
}

#[test]
fn normalize_exact_prefix_gives_empty_path() {
    assert_eq!(normalize("../../..", "", PREFIX).unwrap(), "");
    assert_eq!(normalize("", "../../..", PREFIX).unwrap(), "");
}

#[test]
fn normalize_rejects_other_mount_convention() {
    match normalize("../../FSD/", "a.uasset", PREFIX) {
        Err(PathError::PrefixMismatch { mount_point, record_path }) => {
            assert_eq!(mount_point, "../../FSD/");
            assert_eq!(record_path, "a.uasset");
        }
        other => panic!("unexpected {:?}", other),
    }
}

#[test]
fn normalize_requires_component_boundary() {
    assert!(matches!(
        normalize("../../..Foo/", "a", PREFIX),
        Err(PathError::PrefixMismatch { .. })
    ));
}

#[test]
fn normalize_absolute_record_replaces_mount_point() {
    assert!(matches!(
        normalize("../../../FSD/", "/etc/a", PREFIX),
        Err(PathError::PrefixMismatch { .. })
    ));
    assert_eq!(normalize("x/", "../../../y", PREFIX).is_err(), true);
    assert!(normalize("other/", "/../../../y", PREFIX).is_err());
}

#[test]
fn normalize_output_does_not_start_with_prefix() {
    for (m, r) in [("../../../A/", "b"), ("../../../", "c/d"), ("../../..", "e")] {
        let out = normalize(m, r, PREFIX).unwrap();
        assert!(!out.starts_with(PREFIX));
    }
}

#[test]
fn normalize_keeps_a_doubled_prefix() {
    assert_eq!(normalize("../../../../../../", "x", PREFIX).unwrap(), "../../../x");
}

#[test]
fn path_entry_splits_extension_and_stem() {
    let e = path_entry(7, "FSD/Content/Foo.uasset");
    assert_eq!(e.file_id, 7);
    assert_eq!(e.path, "FSD/Content/Foo.uasset");
    assert_eq!(e.extension.as_deref(), Some("uasset"));
    assert_eq!(e.stem.as_deref(), Some("Foo"));
    assert_eq!(e.path_without_extension, "FSD/Content/Foo.");
}

#[test]
fn path_entry_uses_last_dot() {
    let e = path_entry(1, "a/b.tar.gz");
    assert_eq!(e.extension.as_deref(), Some("gz"));
    assert_eq!(e.stem.as_deref(), Some("b.tar"));
    assert_eq!(e.path_without_extension, "a/b.tar.");
}

#[test]
fn path_entry_without_extension() {
    let e = path_entry(1, "dir/noext");
    assert_eq!(e.extension, None);
    assert_eq!(e.stem.as_deref(), Some("noext"));
    assert_eq!(e.path_without_extension, "dir/noext");
}

#[test]
fn path_entry_hidden_file_has_no_extension() {
    let e = path_entry(1, "dir/.hidden");
    assert_eq!(e.extension, None);
    assert_eq!(e.stem.as_deref(), Some(".hidden"));
}

#[test]
fn path_entry_without_file_name() {
    for p in ["", "a/..", ".", "..", "/", "./", "/."] {
        let e = path_entry(1, p);
        assert_eq!(e.extension, None);
        assert_eq!(e.stem, None);
        assert_eq!(e.path_without_extension, p);
    }
}

#[test]
fn path_entry_trailing_dot_has_empty_extension() {
    let e = path_entry(1, "a/b.");
    assert_eq!(e.extension.as_deref(), Some(""));
    assert_eq!(e.stem.as_deref(), Some("b"));
    assert_eq!(e.path_without_extension, "a/b.");
}

#[test]
fn path_entry_skips_trailing_separators() {
    let e = path_entry(1, "a/b/");
    assert_eq!(e.stem.as_deref(), Some("b"));
    assert_eq!(e.extension, None);
    assert_eq!(e.path_without_extension, "a/b/");
    let e = path_entry(1, "a/b.txt/");
    assert_eq!(e.extension.as_deref(), Some("txt"));
    assert_eq!(e.stem.as_deref(), Some("b"));
    assert_eq!(e.path_without_extension, "a/b.txt/");
    let e = path_entry(1, "dir//");
    assert_eq!(e.stem.as_deref(), Some("dir"));
}

#[test]
fn path_entry_skips_trailing_dot_components() {
    let e = path_entry(1, "a/b.uasset/.");
    assert_eq!(e.extension.as_deref(), Some("uasset"));
    assert_eq!(e.stem.as_deref(), Some("b"));
    let e = path_entry(1, "a/./c.x");
    assert_eq!(e.stem.as_deref(), Some("c"));
    assert_eq!(e.path_without_extension, "a/./c.");
}

#[test]
fn path_entry_matches_std_path() {
    for p in ["FSD/Content/Foo.uasset", "a/b/", "a/b.txt/", "a/b/.", "x.tar.gz", ".hidden", "b..", "a/.."] {
        let e = path_entry(1, p);
        let std_path = std::path::Path::new(p);
        assert_eq!(e.extension.as_deref(), std_path.extension().and_then(|s| s.to_str()), "{p}");
        assert_eq!(e.stem.as_deref(), std_path.file_stem().and_then(|s| s.to_str()), "{p}");
    }
}

#[test]
fn normalize_accepts_doubled_separator_in_mount_point() {
    assert_eq!(normalize("..//../..", "x", PREFIX).unwrap(), "x");
    assert_eq!(normalize("../.././../", "a//b", PREFIX).unwrap(), "a/b");
}

#[test]
fn normalize_drops_trailing_separator() {
    assert_eq!(normalize("../../../", "a/", PREFIX).unwrap(), "a");
    assert_eq!(normalize("../../../A/", "b/.", PREFIX).unwrap(), "A/b");
}

#[test]
fn normalize_with_empty_prefix_keeps_path() {
    assert_eq!(normalize("A/", "b", "").unwrap(), "A/b");
    assert_eq!(normalize("/A", "b", "").unwrap(), "/A/b");
}

#[test]
fn normalize_with_prefix_ending_in_separator() {
    assert_eq!(normalize("../../../FSD/", "x.uasset", "../../../").unwrap(), "FSD/x.uasset");
}

#[test]
fn normalize_matches_std_strip_prefix() {
    let cases = [
        ("../../../FSD/Content/", "Foo/Bar.uasset"),
        ("..//../..", "x"),
        ("../../../", "a/"),
        ("../../..", "y"),
        ("../../../A", "B/C"),
    ];
    for (m, r) in cases {
        let joined = std::path::Path::new(m).join(r);
        let expected = joined.strip_prefix(PREFIX).unwrap().to_str().unwrap().to_string();
        assert_eq!(normalize(m, r, PREFIX).unwrap(), expected, "{m} {r}");
    }
}

#[test]
fn path_error_message_names_mount_point_and_record() {
    let e = normalize("../FSD/", "a.uasset", PREFIX).unwrap_err();
    assert_eq!(e.message(), "prefix mismatch: mount point ../FSD/, record path a.uasset");
}
