use odoo_ls_core::cache::{
    is_file_unchanged, ArgumentType, CacheData, CachedArgument, CachedTextRange, FileMetadata, CACHE_VERSION,
};

#[test]
fn test_argument_type_conversion() {
    let arg_pos = CachedArgument { name: "a".to_string(), arg_type: "POS_ONLY".to_string(), has_default: false };
    let arg_arg = CachedArgument { name: "b".to_string(), arg_type: "ARG".to_string(), has_default: true };
    let arg_vararg = CachedArgument { name: "c".to_string(), arg_type: "VARARG".to_string(), has_default: false };
    let arg_kwonly = CachedArgument { name: "d".to_string(), arg_type: "KWORD_ONLY".to_string(), has_default: false };
    let arg_kwarg = CachedArgument { name: "e".to_string(), arg_type: "KWARG".to_string(), has_default: false };
    assert!(matches!(arg_pos.to_argument_type(), ArgumentType::POS_ONLY));
    assert!(matches!(arg_arg.to_argument_type(), ArgumentType::ARG));
    assert!(matches!(arg_vararg.to_argument_type(), ArgumentType::VARARG));
    assert!(matches!(arg_kwonly.to_argument_type(), ArgumentType::KWORD_ONLY));
    assert!(matches!(arg_kwarg.to_argument_type(), ArgumentType::KWARG));
}

#[test]
fn unknown_argument_kind_reads_as_arg() {
    let a = CachedArgument { name: "x".to_string(), arg_type: "weird".to_string(), has_default: false };
    assert!(matches!(a.to_argument_type(), ArgumentType::ARG));
}

#[test]
fn argument_record_round_trip() {
    for t in [ArgumentType::POS_ONLY, ArgumentType::ARG, ArgumentType::VARARG, ArgumentType::KWORD_ONLY, ArgumentType::KWARG] {
        let a = CachedArgument::from_arg("param1", t, true);
        assert_eq!(a.name, "param1");
        assert!(a.has_default);
        assert!(a.to_argument_type() == t);
    }
    assert_eq!(CachedArgument::from_arg("self", ArgumentType::KWORD_ONLY, false).arg_type, "KWORD_ONLY");
}

#[test]
fn cache_header_checks() {
    let c = CacheData::new("/odoo", "1.2.0");
    assert_eq!(c.version, CACHE_VERSION);
    assert!(c.files.is_empty());
    assert!(c.is_valid_for("/odoo", "1.2.0"));
    assert!(!c.is_valid_for("/other", "1.2.0"));
    assert!(!c.is_valid_for("/odoo", "1.3.0"));
    let mut old = CacheData::new("/odoo", "1.2.0");
    old.version = 2;
    assert!(!old.is_valid_for("/odoo", "1.2.0"));
}

#[test]
fn file_metadata_comparison() {
    let m = FileMetadata { mtime: 10, size: 20 };
    assert!(is_file_unchanged(Some(FileMetadata { mtime: 10, size: 20 }), &m));
    assert!(!is_file_unchanged(Some(FileMetadata { mtime: 11, size: 20 }), &m));
    assert!(!is_file_unchanged(Some(FileMetadata { mtime: 10, size: 21 }), &m));
    assert!(!is_file_unchanged(None, &m));
}

#[test]
fn default_range_is_empty() {
    let r = CachedTextRange::default();
    assert_eq!((r.start, r.end), (0, 0));
}

use odoo_ls_core::cache::{CachedClass, CachedFile, CachedFunction, CachedModel, CachedSymbol, CachedVariable};
use odoo_ls_core::file_state::{BuildStatus, FileBuildState};
use odoo_ls_core::symbols::{
    get_content_symbol, restore_file_from_cache, restore_symbols_to_parent, symbols_to_cached, FileSymbol, Symbol,
};

fn create_test_parent() -> FileSymbol {
    FileSymbol {
        name: "test.py".to_string(),
        path: "/test/test.py".to_string(),
        build: FileBuildState::restored(0),
        symbols: vec![],
    }
}

#[test]
fn test_cached_variable_restoration() {
    let mut parent = create_test_parent();
    let cached_var = CachedVariable {
        name: "my_var".to_string(),
        range: CachedTextRange { start: 10, end: 20 },
        is_import_variable: true,
        is_parameter: false,
        doc_string: Some("Test docstring".to_string()),
    };
    let cached_symbols = vec![CachedSymbol::Variable(cached_var)];
    restore_symbols_to_parent(&cached_symbols, &mut parent.symbols);

    let content = get_content_symbol(&parent.symbols, "my_var", u32::MAX);
    assert_eq!(content.len(), 1);
    match &parent.symbols[content[0]] {
        Symbol::Variable(var) => {
            assert_eq!(var.name.as_str(), "my_var");
            assert_eq!(var.is_import_variable, true);
            assert_eq!(var.is_parameter, false);
            assert_eq!(var.doc_string, Some("Test docstring".to_string()));
        }
        _ => panic!("expected a variable"),
    }
}

#[test]
fn test_cached_function_restoration() {
    let mut parent = create_test_parent();
    let cached_func = CachedFunction {
        name: "my_func".to_string(),
        range: CachedTextRange { start: 0, end: 100 },
        body_start: 20,
        is_static: true,
        is_property: false,
        is_class_method: true,
        doc_string: Some("Function doc".to_string()),
        args: vec![
            CachedArgument { name: "self".to_string(), arg_type: "ARG".to_string(), has_default: false },
            CachedArgument { name: "param1".to_string(), arg_type: "ARG".to_string(), has_default: true },
        ],
        symbols: vec![
            CachedSymbol::Variable(CachedVariable {
                name: "self".to_string(),
                range: CachedTextRange { start: 10, end: 14 },
                is_import_variable: false,
                is_parameter: true,
                doc_string: None,
            }),
            CachedSymbol::Variable(CachedVariable {
                name: "param1".to_string(),
                range: CachedTextRange { start: 16, end: 22 },
                is_import_variable: false,
                is_parameter: true,
                doc_string: None,
            }),
        ],
    };
    let cached_symbols = vec![CachedSymbol::Function(cached_func)];
    restore_symbols_to_parent(&cached_symbols, &mut parent.symbols);

    let content = get_content_symbol(&parent.symbols, "my_func", u32::MAX);
    assert_eq!(content.len(), 1);
    match &parent.symbols[content[0]] {
        Symbol::Function(func) => {
            assert_eq!(func.name.as_str(), "my_func");
            assert_eq!(func.is_static, true);
            assert_eq!(func.is_property, false);
            assert_eq!(func.is_class_method, true);
            assert_eq!(func.doc_string, Some("Function doc".to_string()));
            assert_eq!(func.args.len(), 2);
        }
        _ => panic!("expected a function"),
    }
}

#[test]
fn test_cached_class_restoration() {
    let mut parent = create_test_parent();
    let cached_class = CachedClass {
        name: "MyClass".to_string(),
        range: CachedTextRange { start: 0, end: 200 },
        body_start: 15,
        doc_string: Some("Class documentation".to_string()),
        base_names: vec!["BaseClass".to_string()],
        model: Some(CachedModel {
            name: "my.model".to_string(),
            description: "Test model".to_string(),
            inherit: vec!["base.model".to_string()],
            inherits: vec![],
            fields: vec![],
            is_abstract: false,
            transient: false,
            table: "my_model".to_string(),
            rec_name: Some("name".to_string()),
            order: "id".to_string(),
            auto: true,
            log_access: true,
            parent_name: "parent_id".to_string(),
            active_name: Some("active".to_string()),
        }),
        symbols: vec![CachedSymbol::Variable(CachedVariable {
            name: "name".to_string(),
            range: CachedTextRange { start: 20, end: 24 },
            is_import_variable: false,
            is_parameter: false,
            doc_string: None,
        })],
    };
    let cached_symbols = vec![CachedSymbol::Class(cached_class)];
    restore_symbols_to_parent(&cached_symbols, &mut parent.symbols);

    let content = get_content_symbol(&parent.symbols, "MyClass", u32::MAX);
    assert_eq!(content.len(), 1);
    match &parent.symbols[content[0]] {
        Symbol::Class(class) => {
            assert_eq!(class.name.as_str(), "MyClass");
            assert_eq!(class.doc_string, Some("Class documentation".to_string()));
            let model = class.model.as_ref().unwrap();
            assert_eq!(model.name.as_str(), "my.model");
            assert_eq!(model.description, "Test model");
            assert_eq!(model.inherit.len(), 1);
            assert_eq!(model.inherit[0].as_str(), "base.model");
        }
        _ => panic!("expected a class"),
    }
}

#[test]
fn test_cached_file_restoration() {
    let cached_file = CachedFile {
        name: "restored.py".to_string(),
        path: "/test/restored.py".to_string(),
        processed_text_hash: 12345,
        symbols: vec![CachedSymbol::Variable(CachedVariable {
            name: "module_var".to_string(),
            range: CachedTextRange { start: 0, end: 10 },
            is_import_variable: false,
            is_parameter: false,
            doc_string: None,
        })],
    };
    let file = restore_file_from_cache(&cached_file);
    assert_eq!(file.name.as_str(), "restored.py");
    assert_eq!(file.path, "/test/restored.py");
    assert_eq!(file.build.processed_text_hash, 12345);
    assert!(file.build.arch_status == BuildStatus::DONE);
    assert!(file.build.validation_status == BuildStatus::PENDING);
    let content = get_content_symbol(&file.symbols, "module_var", u32::MAX);
    assert_eq!(content.len(), 1);
}

#[test]
fn save_then_restore_keeps_nesting_and_arguments() {
    let cached = vec![CachedSymbol::Class(CachedClass {
        name: "C".to_string(),
        range: CachedTextRange { start: 0, end: 50 },
        body_start: 9,
        doc_string: None,
        base_names: vec!["B".to_string()],
        model: None,
        symbols: vec![CachedSymbol::Function(CachedFunction {
            name: "m".to_string(),
            range: CachedTextRange { start: 10, end: 40 },
            body_start: 30,
            is_static: false,
            is_property: true,
            is_class_method: false,
            doc_string: Some("doc".to_string()),
            args: vec![CachedArgument { name: "kw".to_string(), arg_type: "KWORD_ONLY".to_string(), has_default: true }],
            symbols: vec![],
        })],
    })];
    let mut tree = vec![];
    restore_symbols_to_parent(&cached, &mut tree);
    let saved = symbols_to_cached(&tree);
    let mut again = vec![];
    restore_symbols_to_parent(&saved, &mut again);
    match &again[0] {
        Symbol::Class(c) => {
            assert_eq!(c.name, "C");
            assert_eq!((c.range.start, c.range.end, c.body_start), (0, 50, 9));
            assert_eq!(c.base_names, vec!["B".to_string()]);
            match &c.symbols[0] {
                Symbol::Function(f) => {
                    assert_eq!(f.name, "m");
                    assert!(f.is_property && !f.is_static);
                    assert_eq!(f.doc_string, Some("doc".to_string()));
                    assert!(f.args[0].arg_type == ArgumentType::KWORD_ONLY);
                    assert!(f.args[0].has_default);
                }
                _ => panic!("expected a function"),
            }
        }
        _ => panic!("expected a class"),
    }
}

#[test]
fn lookup_respects_position() {
    let cached = vec![
        CachedSymbol::Variable(CachedVariable { name: "a".to_string(), range: CachedTextRange { start: 5, end: 6 }, is_import_variable: false, is_parameter: false, doc_string: None }),
        CachedSymbol::Variable(CachedVariable { name: "a".to_string(), range: CachedTextRange { start: 50, end: 51 }, is_import_variable: false, is_parameter: false, doc_string: None }),
    ];
    let mut syms = vec![];
    restore_symbols_to_parent(&cached, &mut syms);
    assert_eq!(get_content_symbol(&syms, "a", 10), vec![0]);
    assert_eq!(get_content_symbol(&syms, "a", u32::MAX), vec![0, 1]);
    assert!(get_content_symbol(&syms, "b", u32::MAX).is_empty());
}

#[test]
fn module_cache_file_name_is_md5_hex() {
    let name = odoo_ls_core::cache::ModuleCacheManager::module_cache_file_name("base", "/odoo");
    assert_eq!(name.len(), 36);
    assert!(name.ends_with(".bin"));
    assert_eq!(name, format!("{:x}.bin", md5::compute("/odoo:base".as_bytes())));
    assert_ne!(name, odoo_ls_core::cache::ModuleCacheManager::module_cache_file_name("web", "/odoo"));
}
