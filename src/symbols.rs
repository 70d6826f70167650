//! The symbol tree of a file and its cache records.
//!
//! A file owns its top-level symbols; a class or a function owns the symbols
//! declared in its body. Saving a tree makes a plain record of each node
//! (name, range, flags, arguments, children in order); restoring a record
//! rebuilds the same tree.
use vstd::prelude::*;
use crate::cache::{
    argument_type_of, parse_arg_type, CachedArgument,
    CachedClass, CachedFile, CachedFunction, CachedModel, CachedSymbol, CachedTextRange, CachedVariable,
    ArgumentType,
};
use crate::file_state::{BuildStatus, FileBuildState};

verus! {

broadcast use vstd::std_specs::vec::group_vec_axioms, vstd::seq::group_seq_axioms;

/// A variable (or a parameter, or an imported name).
pub struct VariableSymbol {
    pub name: String,
    pub range: CachedTextRange,
    pub is_import_variable: bool,
    pub is_parameter: bool,
    pub doc_string: Option<String>,
}

/// An argument of a function, in declaration order.
pub struct Argument {
    pub name: String,
    pub arg_type: ArgumentType,
    pub has_default: bool,
}

/// A function and the symbols of its body.
pub struct FunctionSymbol {
    pub name: String,
    pub range: CachedTextRange,
    pub body_start: u32,
    pub is_static: bool,
    pub is_property: bool,
    pub is_class_method: bool,
    pub doc_string: Option<String>,
    pub args: Vec<Argument>,
    pub symbols: Vec<Symbol>,
}

/// A class and the symbols of its body.
pub struct ClassSymbol {
    pub name: String,
    pub range: CachedTextRange,
    pub body_start: u32,
    pub doc_string: Option<String>,
    pub base_names: Vec<String>,
    /// Metadata of a model class.
    pub model: Option<CachedModel>,
    pub symbols: Vec<Symbol>,
}

/// A symbol below a file.
pub enum Symbol {
    Variable(VariableSymbol),
    Function(FunctionSymbol),
    Class(ClassSymbol),
}

/// A file, its build state and its top-level symbols.
pub struct FileSymbol {
    pub name: String,
    pub path: String,
    pub build: FileBuildState,
    pub symbols: Vec<Symbol>,
}

pub open spec fn opt_view(o: Option<String>) -> Option<Seq<char>> {
    match o {
        Some(s) => Some(s@),
        None => None,
    }
}

pub open spec fn strs_view(v: Seq<String>) -> Seq<Seq<char>> {
    v.map_values(|s: String| s@)
}

/// The arguments and their records agree: name, kind (as the record reads)
/// and default flag, in order.
pub open spec fn args_match(a: Seq<Argument>, c: Seq<CachedArgument>) -> bool {
    &&& a.len() == c.len()
    &&& forall|i: int|
        0 <= i < a.len() ==> (#[trigger] a[i]).name@ == c[i].name@ && argument_type_of(c[i].arg_type@) == a[i].arg_type
            && a[i].has_default == c[i].has_default
}

/// A symbol and a record agree on kind, name, range, flags, documentation,
/// arguments and, recursively, children in order.
pub open spec fn sym_matches(s: Symbol, c: CachedSymbol) -> bool
    decreases s,
{
    match s {
        Symbol::Variable(v) => match c {
            CachedSymbol::Variable(cv) => v.name@ == cv.name@ && v.range == cv.range
                && v.is_import_variable == cv.is_import_variable && v.is_parameter == cv.is_parameter
                && opt_view(v.doc_string) == opt_view(cv.doc_string),
            _ => false,
        },
        Symbol::Function(f) => match c {
            CachedSymbol::Function(cf) => f.name@ == cf.name@ && f.range == cf.range && f.body_start == cf.body_start
                && f.is_static == cf.is_static && f.is_property == cf.is_property
                && f.is_class_method == cf.is_class_method && opt_view(f.doc_string) == opt_view(cf.doc_string)
                && args_match(f.args@, cf.args@) && syms_match(f.symbols@, cf.symbols@),
            _ => false,
        },
        Symbol::Class(k) => match c {
            CachedSymbol::Class(ck) => k.name@ == ck.name@ && k.range == ck.range && k.body_start == ck.body_start
                && opt_view(k.doc_string) == opt_view(ck.doc_string)
                && strs_view(k.base_names@) == strs_view(ck.base_names@) && syms_match(k.symbols@, ck.symbols@),
            _ => false,
        },
    }
}

/// Symbols and records agree one by one, in order.
pub open spec fn syms_match(s: Seq<Symbol>, c: Seq<CachedSymbol>) -> bool
    decreases s,
{
    s.len() == c.len() && (s.len() == 0 || (sym_matches(s.last(), c.last()) && syms_match(
        s.drop_last(),
        c.drop_last(),
    )))
}

/// Two symbols hold the same data: kind, name, range, flags, documentation,
/// arguments and, recursively, children in order.
pub open spec fn same_symbol(a: Symbol, b: Symbol) -> bool
    decreases a,
{
    match a {
        Symbol::Variable(v) => match b {
            Symbol::Variable(w) => v.name@ == w.name@ && v.range == w.range
                && v.is_import_variable == w.is_import_variable && v.is_parameter == w.is_parameter
                && opt_view(v.doc_string) == opt_view(w.doc_string),
            _ => false,
        },
        Symbol::Function(f) => match b {
            Symbol::Function(g) => f.name@ == g.name@ && f.range == g.range && f.body_start == g.body_start
                && f.is_static == g.is_static && f.is_property == g.is_property
                && f.is_class_method == g.is_class_method && opt_view(f.doc_string) == opt_view(g.doc_string)
                && f.args@.len() == g.args@.len() && (forall|i: int|
                    0 <= i < f.args@.len() ==> (#[trigger] f.args@[i]).name@ == g.args@[i].name@
                        && f.args@[i].arg_type == g.args@[i].arg_type
                        && f.args@[i].has_default == g.args@[i].has_default)
                && same_symbols(f.symbols@, g.symbols@),
            _ => false,
        },
        Symbol::Class(k) => match b {
            Symbol::Class(l) => k.name@ == l.name@ && k.range == l.range && k.body_start == l.body_start
                && opt_view(k.doc_string) == opt_view(l.doc_string)
                && strs_view(k.base_names@) == strs_view(l.base_names@) && same_symbols(k.symbols@, l.symbols@),
            _ => false,
        },
    }
}

pub open spec fn same_symbols(a: Seq<Symbol>, b: Seq<Symbol>) -> bool
    decreases a,
{
    a.len() == b.len() && (a.len() == 0 || (same_symbol(a.last(), b.last()) && same_symbols(
        a.drop_last(),
        b.drop_last(),
    )))
}

/// Two symbols that agree with the same record hold the same data.
proof fn lemma_match_same(a: Symbol, b: Symbol, c: CachedSymbol)
    requires
        sym_matches(a, c),
        sym_matches(b, c),
    ensures
        same_symbol(a, b),
    decreases a,
{
    match a {
        Symbol::Function(f) => {
            let g = b->Function_0;
            let cf = c->Function_0;
            lemma_matches_same(f.symbols@, g.symbols@, cf.symbols@);
            assert forall|i: int| 0 <= i < f.args@.len() implies (#[trigger] f.args@[i]).name@ == g.args@[i].name@
                && f.args@[i].arg_type == g.args@[i].arg_type && f.args@[i].has_default == g.args@[i].has_default by {
                assert(argument_type_of(cf.args@[i].arg_type@) == f.args@[i].arg_type);
                assert(argument_type_of(cf.args@[i].arg_type@) == g.args@[i].arg_type);
            }
        },
        Symbol::Class(k) => {
            lemma_matches_same(k.symbols@, b->Class_0.symbols@, c->Class_0.symbols@);
        },
        Symbol::Variable(_) => {},
    }
}

proof fn lemma_matches_same(a: Seq<Symbol>, b: Seq<Symbol>, c: Seq<CachedSymbol>)
    requires
        syms_match(a, c),
        syms_match(b, c),
    ensures
        same_symbols(a, b),
    decreases a,
{
    if a.len() > 0 {
        lemma_match_same(a.last(), b.last(), c.last());
        lemma_matches_same(a.drop_last(), b.drop_last(), c.drop_last());
    }
}

/// Restoring the record of a symbol gives a symbol with the same data:
/// names, ranges, flags, documentation, arguments with their kinds and
/// default flags, and the nesting of every node below it.
pub proof fn lemma_cache_round_trip(s: Symbol, c: CachedSymbol, r: Symbol)
    requires
        sym_matches(s, c),
        sym_matches(r, c),
    ensures
        same_symbol(s, r),
{
    lemma_match_same(s, r, c);
}

fn copy_string(s: &String) -> (r: String)
    ensures
        r@ == s@,
{
    s.clone()
}

fn copy_opt(o: &Option<String>) -> (r: Option<String>)
    ensures
        opt_view(r) == opt_view(*o),
{
    match o {
        Some(s) => Some(s.clone()),
        None => None,
    }
}

fn copy_strings(v: &Vec<String>) -> (r: Vec<String>)
    ensures
        strs_view(r@) == strs_view(v@),
{
    let mut r: Vec<String> = Vec::new();
    let mut i: usize = 0;
    while i < v.len()
        invariant
            i <= v@.len(),
            r@.len() == i,
            forall|j: int| 0 <= j < i ==> r@[j]@ == v@[j]@,
        decreases v@.len() - i,
    {
        r.push(v[i].clone());
        i = i + 1;
    }
    assert(strs_view(r@) =~= strs_view(v@));
    r
}

/// Records of a list of symbols, in order.
pub fn symbols_to_cached(ss: &Vec<Symbol>) -> (cs: Vec<CachedSymbol>)
    ensures
        syms_match(ss@, cs@),
    decreases ss,
{
    let mut cs: Vec<CachedSymbol> = Vec::new();
    let mut i: usize = 0;
    assert(ss@.take(0) =~= Seq::<Symbol>::empty());
    assert(cs@ =~= Seq::<CachedSymbol>::empty());
    while i < ss.len()
        invariant
            i <= ss@.len(),
            syms_match(ss@.take(i as int), cs@),
        decreases ss@.len() - i,
    {
        let c = symbol_to_cached(&ss[i]);
        let ghost before = cs@;
        cs.push(c);
        assert(ss@.take(i + 1).drop_last() =~= ss@.take(i as int));
        assert(cs@.drop_last() =~= before);
        i = i + 1;
    }
    assert(ss@.take(i as int) =~= ss@);
    cs
}

/// The record of a symbol and of everything below it.
pub fn symbol_to_cached(s: &Symbol) -> (c: CachedSymbol)
    ensures
        sym_matches(*s, c),
    decreases s,
{
    match s {
        Symbol::Variable(v) => CachedSymbol::Variable(CachedVariable {
            name: copy_string(&v.name),
            range: v.range,
            is_import_variable: v.is_import_variable,
            is_parameter: v.is_parameter,
            doc_string: copy_opt(&v.doc_string),
        }),
        Symbol::Function(f) => {
            let mut args: Vec<CachedArgument> = Vec::new();
            let mut i: usize = 0;
            while i < f.args.len()
                invariant
                    i <= f.args@.len(),
                    args@.len() == i,
                    forall|j: int|
                        0 <= j < i ==> (#[trigger] f.args@[j]).name@ == args@[j].name@ && argument_type_of(args@[j].arg_type@)
                            == f.args@[j].arg_type && f.args@[j].has_default == args@[j].has_default,
                decreases f.args@.len() - i,
            {
                let a = &f.args[i];
                proof {
                    crate::cache::lemma_argument_round_trip(a.arg_type);
                }
                args.push(CachedArgument::from_arg(a.name.as_str(), a.arg_type, a.has_default));
                i = i + 1;
            }
            let symbols = symbols_to_cached(&f.symbols);
            CachedSymbol::Function(CachedFunction {
                name: copy_string(&f.name),
                range: f.range,
                body_start: f.body_start,
                is_static: f.is_static,
                is_property: f.is_property,
                is_class_method: f.is_class_method,
                doc_string: copy_opt(&f.doc_string),
                args,
                symbols,
            })
        },
        Symbol::Class(k) => {
            let symbols = symbols_to_cached(&k.symbols);
            CachedSymbol::Class(CachedClass {
                name: copy_string(&k.name),
                range: k.range,
                body_start: k.body_start,
                doc_string: copy_opt(&k.doc_string),
                base_names: copy_strings(&k.base_names),
                model: k.model.clone(),
                symbols,
            })
        },
    }
}

/// Rebuilds a symbol, and everything below it, from its record.
pub fn restore_symbol(c: &CachedSymbol) -> (s: Symbol)
    ensures
        sym_matches(s, *c),
    decreases c,
{
    match c {
        CachedSymbol::Variable(cv) => Symbol::Variable(VariableSymbol {
            name: copy_string(&cv.name),
            range: cv.range,
            is_import_variable: cv.is_import_variable,
            is_parameter: cv.is_parameter,
            doc_string: copy_opt(&cv.doc_string),
        }),
        CachedSymbol::Function(cf) => {
            let mut args: Vec<Argument> = Vec::new();
            let mut i: usize = 0;
            while i < cf.args.len()
                invariant
                    i <= cf.args@.len(),
                    args@.len() == i,
                    forall|j: int|
                        0 <= j < i ==> (#[trigger] args@[j]).name@ == cf.args@[j].name@ && args@[j].arg_type
                            == argument_type_of(cf.args@[j].arg_type@) && args@[j].has_default == cf.args@[j].has_default,
                decreases cf.args@.len() - i,
            {
                let a = &cf.args[i];
                args.push(Argument { name: copy_string(&a.name), arg_type: parse_arg_type(a.arg_type.as_str()), has_default: a.has_default });
                i = i + 1;
            }
            let mut symbols: Vec<Symbol> = Vec::new();
            restore_symbols_to_parent(&cf.symbols, &mut symbols);
            assert(symbols@.skip(0) =~= symbols@);
            let r = Symbol::Function(FunctionSymbol {
                name: copy_string(&cf.name),
                range: cf.range,
                body_start: cf.body_start,
                is_static: cf.is_static,
                is_property: cf.is_property,
                is_class_method: cf.is_class_method,
                doc_string: copy_opt(&cf.doc_string),
                args,
                symbols,
            });
            r
        },
        CachedSymbol::Class(ck) => {
            let mut symbols: Vec<Symbol> = Vec::new();
            restore_symbols_to_parent(&ck.symbols, &mut symbols);
            assert(symbols@.skip(0) =~= symbols@);
            Symbol::Class(ClassSymbol {
                name: copy_string(&ck.name),
                range: ck.range,
                body_start: ck.body_start,
                doc_string: copy_opt(&ck.doc_string),
                base_names: copy_strings(&ck.base_names),
                model: ck.model.clone(),
                symbols,
            })
        },
    }
}

/// Rebuilds symbols from their records and adds them, in order, after the
/// symbols a parent (a file, a class or a function) already has.
pub fn restore_symbols_to_parent(cached: &Vec<CachedSymbol>, parent: &mut Vec<Symbol>)
    ensures
        final(parent)@.len() == old(parent)@.len() + cached@.len(),
        final(parent)@.take(old(parent)@.len() as int) == old(parent)@,
        syms_match(final(parent)@.skip(old(parent)@.len() as int), cached@),
    decreases cached,
{
    let ghost start = parent@;
    let n0 = parent.len();
    let mut i: usize = 0;
    assert(cached@.take(0) =~= Seq::<CachedSymbol>::empty());
    assert(parent@.skip(n0 as int) =~= Seq::<Symbol>::empty());
    assert(parent@.take(n0 as int) =~= start);
    while i < cached.len()
        invariant
            i <= cached@.len(),
            n0 == start.len(),
            parent@.len() == n0 + i,
            parent@.take(n0 as int) == start,
            syms_match(parent@.skip(n0 as int), cached@.take(i as int)),
        decreases cached@.len() - i,
    {
        let s = restore_symbol(&cached[i]);
        let ghost before = parent@;
        parent.push(s);
        assert(cached@.take(i + 1).drop_last() =~= cached@.take(i as int));
        assert(parent@.skip(n0 as int).drop_last() =~= before.skip(n0 as int));
        assert(parent@.skip(n0 as int).last() == s);
        assert(parent@.take(n0 as int) =~= before.take(n0 as int));
        i = i + 1;
    }
    assert(cached@.take(i as int) =~= cached@);
}

pub open spec fn symbol_name(s: Symbol) -> Seq<char> {
    match s {
        Symbol::Variable(v) => v.name@,
        Symbol::Function(f) => f.name@,
        Symbol::Class(k) => k.name@,
    }
}

pub open spec fn symbol_start(s: Symbol) -> u32 {
    match s {
        Symbol::Variable(v) => v.range.start,
        Symbol::Function(f) => f.range.start,
        Symbol::Class(k) => k.range.start,
    }
}

/// Positions, in order, of the symbols named `name` that start at or before `max_position`.
pub fn get_content_symbol(symbols: &Vec<Symbol>, name: &str, max_position: u32) -> (r: Vec<usize>)
    ensures
        forall|k: int| 0 <= k < r@.len() ==> r@[k] < symbols@.len() && symbol_name(symbols@[r@[k] as int]) == name@
            && symbol_start(symbols@[r@[k] as int]) <= max_position,
        forall|k: int, l: int| 0 <= k < l < r@.len() ==> r@[k] < r@[l],
        forall|j: int| 0 <= j < symbols@.len() && symbol_name(#[trigger] symbols@[j]) == name@
            && symbol_start(symbols@[j]) <= max_position ==> r@.contains(j as usize),
{
    let key = name.to_owned();
    let mut r: Vec<usize> = Vec::new();
    let mut i: usize = 0;
    while i < symbols.len()
        invariant
            i <= symbols@.len(),
            key@ == name@,
            forall|k: int| 0 <= k < r@.len() ==> r@[k] < i && symbol_name(symbols@[r@[k] as int]) == name@
                && symbol_start(symbols@[r@[k] as int]) <= max_position,
            forall|k: int, l: int| 0 <= k < l < r@.len() ==> r@[k] < r@[l],
            forall|j: int| 0 <= j < i && symbol_name(#[trigger] symbols@[j]) == name@
                && symbol_start(symbols@[j]) <= max_position ==> r@.contains(j as usize),
        decreases symbols@.len() - i,
    {
        let (n, start) = match &symbols[i] {
            Symbol::Variable(v) => (&v.name, v.range.start),
            Symbol::Function(f) => (&f.name, f.range.start),
            Symbol::Class(k) => (&k.name, k.range.start),
        };
        if *n == key && start <= max_position {
            let ghost before = r@;
            r.push(i);
            assert forall|j: int| 0 <= j < i + 1 && symbol_name(#[trigger] symbols@[j]) == name@
                && symbol_start(symbols@[j]) <= max_position implies r@.contains(j as usize) by {
                if j < i {
                    let k = choose|k: int| 0 <= k < before.len() && before[k] == j as usize;
                    assert(r@[k] == j as usize);
                } else {
                    assert(r@[r@.len() - 1] == j as usize);
                }
            }
        }
        i = i + 1;
    }
    r
}

/// The record of a file: its name, path, content hash and symbols.
pub fn file_to_cached(f: &FileSymbol) -> (c: CachedFile)
    ensures
        c.name@ == f.name@,
        c.path@ == f.path@,
        c.processed_text_hash == f.build.processed_text_hash,
        syms_match(f.symbols@, c.symbols@),
{
    CachedFile {
        name: copy_string(&f.name),
        path: copy_string(&f.path),
        processed_text_hash: f.build.processed_text_hash,
        symbols: symbols_to_cached(&f.symbols),
    }
}

/// Rebuilds a file from its record. Its structure is known again; the
/// evaluation and validation steps have to run.
pub fn restore_file_from_cache(cached: &CachedFile) -> (f: FileSymbol)
    ensures
        f.name@ == cached.name@,
        f.path@ == cached.path@,
        f.build.processed_text_hash == cached.processed_text_hash,
        f.build.arch_status == BuildStatus::DONE,
        f.build.arch_eval_status == BuildStatus::PENDING,
        f.build.validation_status == BuildStatus::PENDING,
        syms_match(f.symbols@, cached.symbols@),
{
    let mut symbols: Vec<Symbol> = Vec::new();
    restore_symbols_to_parent(&cached.symbols, &mut symbols);
    assert(symbols@.skip(0) =~= symbols@);
    FileSymbol {
        name: copy_string(&cached.name),
        path: copy_string(&cached.path),
        build: FileBuildState::restored(cached.processed_text_hash),
        symbols,
    }
}

/// The symbols of a file saved and restored are its symbols.
pub proof fn lemma_file_round_trip(a: Seq<Symbol>, c: Seq<CachedSymbol>, b: Seq<Symbol>)
    requires
        syms_match(a, c),
        syms_match(b, c),
    ensures
        same_symbols(a, b),
{
    lemma_matches_same(a, b, c);
}

} // verus!
