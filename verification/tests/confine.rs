use mdatron::confine::{
    classify_reparse, confine_lexically, describe_reparse, LexicalViolation, ReparseClass,
};

#[test]
fn plain_relative_path_is_confined() {
    assert_eq!(confine_lexically("a/b/c.yaml").unwrap().as_path(), "a/b/c.yaml");
}

#[test]
fn cur_dir_components_are_dropped() {
    assert_eq!(confine_lexically("./a/./b.yaml").unwrap().as_path(), "a/b.yaml");
}

#[test]
fn leading_parent_segment_rejected() {
    assert_eq!(
        confine_lexically("../escape.yaml").unwrap_err(),
        LexicalViolation::ParentSegment
    );
}

#[test]
fn interior_parent_segment_rejected_even_when_non_escaping() {
    assert_eq!(
        confine_lexically("a/../b.yaml").unwrap_err(),
        LexicalViolation::ParentSegment
    );
}

#[test]
fn deep_traversal_rejected_without_filesystem() {
    assert_eq!(
        confine_lexically("../../etc/passwd").unwrap_err(),
        LexicalViolation::ParentSegment
    );
}

#[test]
fn absolute_path_rejected() {
    assert_eq!(
        confine_lexically("/etc/hosts").unwrap_err(),
        LexicalViolation::Absolute
    );
}

#[test]
fn empty_path_confines_to_empty() {
    assert_eq!(confine_lexically("").unwrap().as_path(), "");
}

#[test]
fn repeated_and_trailing_separators_collapse() {
    assert_eq!(confine_lexically("a//b/").unwrap().as_path(), "a/b");
    assert_eq!(confine_lexically(".").unwrap().as_path(), "");
}

#[test]
fn reparse_classes_are_named_with_their_own_remedy() {
    assert_eq!(classify_reparse(None), ReparseClass::NameSurrogate);
    assert_eq!(classify_reparse(Some(0xA000_000C)), ReparseClass::NameSurrogate);
    assert_eq!(classify_reparse(Some(0xA000_0003)), ReparseClass::NameSurrogate);
    assert_eq!(classify_reparse(Some(0x9000_001A)), ReparseClass::CloudPlaceholder);
    assert_eq!(classify_reparse(Some(0x9000_301A)), ReparseClass::CloudPlaceholder);
    assert_eq!(classify_reparse(Some(0x8000_0017)), ReparseClass::WofCompressed);
    assert_eq!(classify_reparse(Some(0x8000_0013)), ReparseClass::Deduplicated);
    assert_eq!(classify_reparse(Some(0x9000_001C)), ReparseClass::ProjectedFile);
    assert_eq!(classify_reparse(Some(0x8000_0099)), ReparseClass::Unknown);

    let link = describe_reparse(None);
    assert_eq!(link.what, "a symbolic link");
    assert!(
        link.help.is_none(),
        "the tagless class keeps each site's own remedy"
    );
    let symlink = describe_reparse(Some(0xA000_000C));
    assert_eq!(symlink.what, "a symbolic link");
    assert!(symlink.help.is_none());
    assert!(describe_reparse(Some(0xA000_0003)).what.contains("junction"));
    let cloud = describe_reparse(Some(0x9000_001A));
    assert!(cloud.what.contains("cloud-file placeholder") && cloud.what.contains("0x9000001a"));
    assert!(cloud.help.as_deref().is_some_and(|h| h.contains("hydrate")));
    assert!(describe_reparse(Some(0x8000_0017))
        .help
        .as_deref()
        .is_some_and(|h| h.contains("compact /u")));
    let unknown = describe_reparse(Some(0x8000_0099));
    assert!(unknown.what.contains("0x80000099") && !unknown.what.contains("never follows"));
    assert!(unknown
        .help
        .as_deref()
        .is_some_and(|h| h.contains("plain file") && h.contains("never follows")));
}
