use odoo_ls_core::file_state::{
    is_untitled, should_update_file, BuildStatus, FileBuildState, FileVersion, NOT_OPENED,
};
use odoo_ls_core::import_path::AstUtils;
use odoo_ls_core::file_state::{ast_type_of, python_source_kind, AstType, PythonSourceKind};

#[test]
fn newer_versions_only() {
    let mut v = FileVersion::new();
    assert!(v.accept_update(Some(1), false));
    assert!(v.opened);
    assert!(v.accept_update(Some(2), false));
    assert!(!v.accept_update(Some(2), false));
    assert!(!v.accept_update(Some(1), false));
    assert_eq!(v.version, Some(2));
    assert!(v.accept_update(Some(1), true));
    assert_eq!(v.version, Some(1));
}

#[test]
fn not_opened_sentinel() {
    let mut v = FileVersion::new();
    assert!(v.accept_update(Some(NOT_OPENED), false));
    assert_eq!(v.version, Some(-100));
    assert!(!v.opened);
    assert!(v.accept_update(Some(3), false));
    assert!(!v.accept_update(Some(NOT_OPENED), false));
    assert!(v.accept_update(Some(NOT_OPENED), true));
    assert_eq!(v.version, Some(3));
}

#[test]
fn no_version_only_before_any() {
    let mut v = FileVersion::new();
    assert!(v.accept_update(None, false));
    v.accept_update(Some(1), false);
    assert!(!v.accept_update(None, false));
    assert!(v.accept_update(None, true));
}

#[test]
fn update_decision() {
    assert!(should_update_file(Some(4), true, false));
    assert!(!should_update_file(Some(NOT_OPENED), true, false));
    assert!(!should_update_file(None, true, false));
    assert!(should_update_file(None, false, false));
    assert!(should_update_file(None, true, true));
}

#[test]
fn untitled_names() {
    assert!(is_untitled("untitled:Untitled-1"));
    assert!(!is_untitled("/home/untitled:x"));
    assert!(!is_untitled("untitled"));
}

#[test]
fn same_hash_keeps_done_steps() {
    let mut s = FileBuildState::restored(12345);
    s.arch_eval_status = BuildStatus::DONE;
    let before = s;
    assert!(!s.content_changed(12345));
    assert!(s == before);
    assert!(s.content_changed(999));
    assert!(s.arch_status == BuildStatus::PENDING);
    assert!(s.arch_eval_status == BuildStatus::PENDING);
    assert!(s.validation_status == BuildStatus::PENDING);
    assert_eq!(s.processed_text_hash, 999);
}

#[test]
fn import_prefix_in_the_middle() {
    // `import foo.bar.baz` with the name at offset 7, cursor on `bar`
    let r = AstUtils::import_prefix_at("foo.bar.baz", 7, 18, 12);
    assert!(!r.is_last);
    assert_eq!(r.prefix_len, 7);
    assert_eq!((r.range_start, r.range_end), (11, 14));
    // cursor on `foo`
    let r = AstUtils::import_prefix_at("foo.bar.baz", 7, 18, 8);
    assert_eq!(r.prefix_len, 3);
    assert_eq!((r.range_start, r.range_end), (7, 10));
}

#[test]
fn import_prefix_on_last_segment() {
    let r = AstUtils::import_prefix_at("foo.bar.baz", 7, 18, 16);
    assert!(r.is_last);
    assert_eq!(r.prefix_len, 11);
    assert_eq!((r.range_start, r.range_end), (7, 18));
}

#[test]
fn content_kind_from_suffix() {

    assert!(ast_type_of("/a/views.xml") == AstType::Xml);
    assert!(ast_type_of("/a/data.csv") == AstType::Csv);
    assert!(ast_type_of("/a/models.py") == AstType::Python);
    assert!(ast_type_of("xml") == AstType::Python);
    assert!(python_source_kind("/a/b.pyi") == PythonSourceKind::Stub);
    assert!(python_source_kind("/a/b.ipynb") == PythonSourceKind::Ipynb);
    assert!(python_source_kind("/a/b.py") == PythonSourceKind::Python);
}
