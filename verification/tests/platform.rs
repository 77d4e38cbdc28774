use tag_crucible::path::PathKey;
use tag_crucible::platform::{
    build_file_info, build_file_info_from_properties, classify_entry, collect_windows_tags,
    enrich_with_windows_tags, is_direct_child, modified_text, modified_text_of, signed_time,
    to_ascii_lowercase,
    to_modified_timestamp, LinkStatus, PathEquivalence,
};

#[test]
fn modification_time_is_written_by_rfc3339() {
    assert_eq!(modified_text(0, 0).as_deref(), Some("1970-01-01T00:00:00+00:00"));
    assert_eq!(
        modified_text(1_431_648_000, 0).as_deref(),
        Some("2015-05-15T00:00:00+00:00")
    );
    assert_eq!(
        modified_text(1_431_648_000, 500_000_000).as_deref(),
        Some("2015-05-15T00:00:00.500+00:00")
    );
    assert_eq!(
        modified_text(-1, 250_000_000).as_deref(),
        Some("1969-12-31T23:59:59.250+00:00")
    );
    assert_eq!(
        modified_text(910_692_730_085, 999_999_999).as_deref(),
        Some("+30828-09-14T02:48:05.999999999+00:00")
    );
    assert!(modified_text(8_000_000_000_000, 0).is_some());
    assert!(modified_text(-8_000_000_000_000, 999_999_999).is_some());
    assert_eq!(modified_text(i64::MAX, 0), None);
    assert_eq!(modified_text(i64::MIN, 0), None);
    assert_eq!(modified_text(0, 1_000_000_000), None);
}

#[test]
fn ticks_since_1601_become_a_time_after_1970() {
    assert_eq!(to_modified_timestamp(0), None);
    assert_eq!(to_modified_timestamp(-5), None);
    assert_eq!(to_modified_timestamp(1), None);
    assert_eq!(
        to_modified_timestamp(116_444_736_000_000_000).as_deref(),
        Some("1970-01-01T00:00:00+00:00")
    );
    assert_eq!(
        to_modified_timestamp(116_444_736_000_000_001).as_deref(),
        Some("1970-01-01T00:00:00.000000100+00:00")
    );
    assert_eq!(
        to_modified_timestamp(130_761_216_000_000_000).as_deref(),
        Some("2015-05-15T00:00:00+00:00")
    );
    assert!(to_modified_timestamp(i64::MAX).is_some());
}

#[test]
fn links_take_the_kind_of_their_target() {
    assert_eq!(classify_entry(LinkStatus::Unknown, true), (true, false));
    assert_eq!(classify_entry(LinkStatus::Unknown, false), (false, false));
    assert_eq!(classify_entry(LinkStatus::Plain(true), false), (true, false));
    assert_eq!(classify_entry(LinkStatus::Plain(false), true), (false, false));
    assert_eq!(classify_entry(LinkStatus::Link(Some(true)), false), (true, true));
    assert_eq!(classify_entry(LinkStatus::Link(Some(false)), true), (false, true));
    assert_eq!(classify_entry(LinkStatus::Link(None), true), (true, true));
}

#[test]
fn fresh_entries_carry_no_tags() {
    let info = build_file_info(PathKey::new("/a/b"), false, true, 42, Some("when".to_string()));
    assert_eq!(info.path.as_str(), "/a/b");
    assert!(!info.is_directory);
    assert!(info.is_symlink);
    assert_eq!(info.size, 42);
    assert_eq!(info.hierarchy, vec!["/", "a", "b"]);
    assert_eq!(info.modified.as_deref(), Some("when"));
    assert!(info.own_tags.is_empty() && info.inherited_tags.is_empty());
    assert!(info.windows_tags.is_empty());

    let listed = build_file_info_from_properties(
        PathKey::new("/a/c"),
        7,
        130_761_216_000_000_000,
        vec!["kw".to_string()],
        LinkStatus::Link(None),
        true,
    );
    assert!(listed.is_directory && listed.is_symlink);
    assert_eq!(listed.size, 7);
    assert_eq!(listed.modified.as_deref(), Some("2015-05-15T00:00:00+00:00"));
    assert_eq!(listed.windows_tags, vec!["kw"]);
}

#[test]
fn ascii_capitals_become_small() {
    assert_eq!(to_ascii_lowercase("C:\\Users\\ME"), "c:\\users\\me");
    assert_eq!(to_ascii_lowercase("ÀBC-az[]"), "Àbc-az[]");
    assert_eq!(to_ascii_lowercase(""), "");
}

#[test]
fn equivalence_ignores_ascii_case() {
    let base = PathEquivalence::new(&PathKey::new("/Data/Root"));
    assert!(base.equals(&PathKey::new("/Data/Root")));
    assert!(base.equals(&PathKey::new("/Data/Root/")));
    assert!(base.equals(&PathKey::new("/data/ROOT")));
    assert!(!base.equals(&PathKey::new("/data/other")));

    assert!(is_direct_child(&PathKey::new("/DATA/root/file"), &base));
    assert!(!is_direct_child(&PathKey::new("/Data/Root/a/b"), &base));
    assert!(!is_direct_child(&PathKey::new("/"), &base));
}

#[test]
fn direct_children_lose_their_stale_tags() {
    let root = PathKey::new("/r");
    let mut entries = vec![
        build_file_info(PathKey::new("/r"), true, false, 0, None),
        build_file_info(PathKey::new("/r/a"), true, false, 0, None),
        build_file_info(PathKey::new("/r/a/b"), false, false, 0, None),
    ];
    for entry in entries.iter_mut() {
        entry.windows_tags = vec!["stale".to_string()];
    }

    collect_windows_tags(&root, &mut entries);

    assert_eq!(entries[0].windows_tags, vec!["stale"]);
    assert!(entries[1].windows_tags.is_empty());
    assert_eq!(entries[2].windows_tags, vec!["stale"]);
}

#[test]
fn enriching_without_an_index_changes_nothing() {
    let root = PathKey::new("/r");
    let mut entries = vec![build_file_info(PathKey::new("/r/a"), false, false, 3, None)];
    entries[0].windows_tags = vec!["kept".to_string()];
    enrich_with_windows_tags(&root, &mut entries);
    assert_eq!(entries.len(), 1);
    assert_eq!(entries[0].windows_tags, vec!["kept"]);
    assert_eq!(entries[0].size, 3);
}

#[test]
fn a_span_before_1970_counts_back() {
    assert_eq!(signed_time(true, 5, 7), Some((5, 7)));
    assert_eq!(signed_time(false, 5, 0), Some((-5, 0)));
    assert_eq!(signed_time(false, 5, 250_000_000), Some((-6, 750_000_000)));
    assert_eq!(signed_time(false, 0, 1), Some((-1, 999_999_999)));
    assert_eq!(signed_time(false, 0, 0), Some((0, 0)));
    assert_eq!(signed_time(true, 1, 1_000_000_000), None);
    assert_eq!(signed_time(true, u64::MAX, 0), None);
    assert_eq!(
        signed_time(false, i64::MAX as u64, 1),
        Some((i64::MIN, 999_999_999))
    );

    assert_eq!(
        modified_text_of(false, 0, 750_000_000).as_deref(),
        Some("1969-12-31T23:59:59.250+00:00")
    );
    assert_eq!(
        modified_text_of(true, 1_431_648_000, 0).as_deref(),
        Some("2015-05-15T00:00:00+00:00")
    );
    assert_eq!(modified_text_of(true, u64::MAX, 0), None);
    for (secs, nanos) in [(0u64, 1u32), (86_400, 0), (1_000_000, 999_999_999)] {
        let before = std::time::UNIX_EPOCH - std::time::Duration::new(secs, nanos);
        let (s, n) = signed_time(false, secs, nanos).unwrap();
        let back = if n == 0 {
            std::time::UNIX_EPOCH - std::time::Duration::new((-s) as u64, 0)
        } else {
            std::time::UNIX_EPOCH - std::time::Duration::new((-s) as u64, 0)
                + std::time::Duration::new(0, n)
        };
        assert_eq!(before, back);
    }
}
