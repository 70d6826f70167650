//! Load order of addon modules.
//!
//! A module is named by the bytes of its name. The graph maps each declared
//! module to the modules it depends on; a module that declares no dependency
//! depends on `base`, but `base` itself.
use vstd::prelude::*;
use vstd::string::StringSliceAdditionalSpecFns;

verus! {

/// The input of the sort, seen as byte strings.
pub type ModuleList = Seq<(Seq<u8>, Seq<Seq<u8>>)>;

/// A dependency graph: declared module name to its declared dependencies.
pub type DepGraph = Map<Seq<u8>, Seq<Seq<u8>>>;

pub open spec fn base_name() -> Seq<u8> {
    seq![98u8, 97u8, 115u8, 101u8]
}

pub open spec fn test_prefix() -> Seq<u8> {
    seq![116u8, 101u8, 115u8, 116u8, 95u8]
}

/// Modules whose name starts with `test_` load right after their last dependency.
pub open spec fn is_test_module(m: Seq<u8>) -> bool {
    m.len() >= 5 && m.subrange(0, 5) == test_prefix()
}

pub open spec fn str_bytes(s: &str) -> Seq<u8> {
    s.spec_bytes()
}

pub open spec fn strs_bytes(v: Seq<&str>) -> Seq<Seq<u8>> {
    v.map_values(|s: &str| s.spec_bytes())
}

pub open spec fn module_list(v: Seq<(&str, Vec<&str>)>) -> ModuleList {
    v.map_values(|p: (&str, Vec<&str>)| (p.0.spec_bytes(), strs_bytes(p.1@)))
}

/// The graph that a list of declarations describes: when a name is declared
/// twice, the later declaration wins.
pub open spec fn declared_graph(l: ModuleList) -> DepGraph
    decreases l.len(),
{
    if l.len() == 0 {
        Map::empty()
    } else {
        let rest = declared_graph(l.drop_first());
        if rest.contains_key(l[0].0) {
            rest
        } else {
            rest.insert(l[0].0, l[0].1)
        }
    }
}

/// Dependencies of `m`, with the implicit dependency on `base`.
pub open spec fn deps_of(g: DepGraph, m: Seq<u8>) -> Seq<Seq<u8>> {
    if !g.contains_key(m) {
        seq![]
    } else if g[m].len() == 0 && m != base_name() {
        seq![base_name()]
    } else {
        g[m]
    }
}

/// Every module of `ds` is valid within `fuel` steps.
pub open spec fn all_valid_within(g: DepGraph, ds: Seq<Seq<u8>>, fuel: nat) -> bool
    decreases fuel, ds.len(),
{
    ds.len() == 0 || (valid_within(g, ds.last(), fuel) && all_valid_within(
        g,
        ds.drop_last(),
        fuel,
    ))
}

/// `m` is declared and every chain of dependencies from it ends, within `fuel`
/// steps, at declared modules. With `fuel` at least the number of modules this
/// says: no dependency of `m`, direct or not, is missing or lies on a cycle.
pub open spec fn valid_within(g: DepGraph, m: Seq<u8>, fuel: nat) -> bool
    decreases fuel, 0nat,
{
    fuel > 0 && g.contains_key(m) && all_valid_within(g, deps_of(g, m), (fuel - 1) as nat)
}

/// Largest depth among `ds`, 0 for none.
pub open spec fn max_depth_within(g: DepGraph, ds: Seq<Seq<u8>>, fuel: nat) -> nat
    decreases fuel, ds.len(),
{
    if ds.len() == 0 {
        0
    } else {
        let a = depth_within(g, ds.last(), fuel);
        let b = max_depth_within(g, ds.drop_last(), fuel);
        if a > b {
            a
        } else {
            b
        }
    }
}

/// Depth of a module: one more than its deepest dependency (as deep, for a
/// `test_` module), 0 without dependencies.
pub open spec fn depth_within(g: DepGraph, m: Seq<u8>, fuel: nat) -> nat
    decreases fuel, 0nat,
{
    if fuel == 0 {
        0
    } else if deps_of(g, m).len() == 0 {
        0
    } else if is_test_module(m) {
        max_depth_within(g, deps_of(g, m), (fuel - 1) as nat)
    } else {
        max_depth_within(g, deps_of(g, m), (fuel - 1) as nat) + 1
    }
}

/// Strict lexicographic order on byte strings (the order of `str`).
pub open spec fn lex_lt(a: Seq<u8>, b: Seq<u8>) -> bool
    decreases a.len(),
{
    if a.len() == 0 {
        b.len() > 0
    } else if b.len() == 0 {
        false
    } else if a[0] != b[0] {
        a[0] < b[0]
    } else {
        lex_lt(a.drop_first(), b.drop_first())
    }
}

/// Order of (depth, order name) pairs.
pub open spec fn pair_lt(d1: nat, o1: Seq<u8>, d2: nat, o2: Seq<u8>) -> bool {
    d1 < d2 || (d1 == d2 && lex_lt(o1, o2))
}

/// Among `ds` (not empty), the last one with the greatest (depth, order name).
pub open spec fn last_loaded_within(g: DepGraph, ds: Seq<Seq<u8>>, fuel: nat) -> Seq<u8>
    decreases fuel, ds.len(),
{
    if ds.len() <= 1 {
        ds[0]
    } else {
        let b = last_loaded_within(g, ds.drop_last(), fuel);
        let x = ds.last();
        if pair_lt(
            depth_within(g, x, fuel),
            order_name_within(g, x, fuel),
            depth_within(g, b, fuel),
            order_name_within(g, b, fuel),
        ) {
            b
        } else {
            x
        }
    }
}

/// The name a module sorts by among modules of equal depth: its own name, or
/// for a `test_` module the order name of its last loaded dependency, a
/// space, and its own name.
pub open spec fn order_name_within(g: DepGraph, m: Seq<u8>, fuel: nat) -> Seq<u8>
    decreases fuel, 0nat,
{
    if fuel == 0 || !is_test_module(m) || deps_of(g, m).len() == 0 {
        m
    } else {
        let l = last_loaded_within(g, deps_of(g, m), (fuel - 1) as nat);
        order_name_within(g, l, (fuel - 1) as nat) + seq![32u8] + m
    }
}

/// Some module of `ds` is `b` or reaches `b` within `fuel` steps.
pub open spec fn any_reach_within(g: DepGraph, ds: Seq<Seq<u8>>, b: Seq<u8>, fuel: nat) -> bool
    decreases fuel, ds.len(),
{
    ds.len() > 0 && (ds.last() == b || reach_within(g, ds.last(), b, fuel) || any_reach_within(
        g,
        ds.drop_last(),
        b,
        fuel,
    ))
}

/// `b` is reached from `a` by following one or more dependencies, within `fuel` steps.
pub open spec fn reach_within(g: DepGraph, a: Seq<u8>, b: Seq<u8>, fuel: nat) -> bool
    decreases fuel, 0nat,
{
    fuel > 0 && any_reach_within(g, deps_of(g, a), b, (fuel - 1) as nat)
}

/// Order of modules in the load order: depth, then order name, then name.
pub open spec fn load_lt(g: DepGraph, fuel: nat, a: Seq<u8>, b: Seq<u8>) -> bool {
    let (da, db) = (depth_within(g, a, fuel), depth_within(g, b, fuel));
    let (oa, ob) = (order_name_within(g, a, fuel), order_name_within(g, b, fuel));
    da < db || (da == db && (lex_lt(oa, ob) || (oa == ob && lex_lt(a, b))))
}

/// `x` is depended on by a declared module but is not declared itself.
pub open spec fn is_missing(g: DepGraph, x: Seq<u8>) -> bool {
    !g.contains_key(x) && exists|m: Seq<u8>, t: int|
        g.contains_key(m) && 0 <= t < deps_of(g, m).len() && #[trigger] deps_of(g, m)[t] == x
}

/// A declared module that reaches itself.
pub open spec fn on_cycle(g: DepGraph, fuel: nat, x: Seq<u8>) -> bool {
    g.contains_key(x) && reach_within(g, x, x, fuel)
}

/// Every member of `c` is declared, reaches `h` and is reached from it.
pub open spec fn cycles_through(g: DepGraph, fuel: nat, c: Seq<Seq<u8>>, h: Seq<u8>) -> bool {
    forall|k: int|
        0 <= k < c.len() ==> g.contains_key(#[trigger] c[k]) && reach_within(g, h, c[k], fuel)
            && reach_within(g, c[k], h, fuel)
}

/// `c` is a non-empty group of declared modules, each reaching and reached
/// from one member of the group.
pub open spec fn is_cycle_group(g: DepGraph, fuel: nat, c: Seq<Seq<u8>>) -> bool {
    c.len() > 0 && exists|h: int| 0 <= h < c.len() && #[trigger] cycles_through(g, fuel, c, c[h])
}

/// `s` lists exactly the valid modules, each once, in load order.
pub open spec fn is_load_order(g: DepGraph, fuel: nat, s: Seq<Seq<u8>>) -> bool {
    &&& forall|i: int| 0 <= i < s.len() ==> valid_within(g, #[trigger] s[i], fuel)
    &&& forall|m: Seq<u8>| valid_within(g, m, fuel) ==> s.contains(m)
    &&& forall|i: int, j: int| 0 <= i < j < s.len() ==> load_lt(g, fuel, s[i], s[j])
}

/// `s` lists exactly the declared modules that are not valid, each once, by name.
pub open spec fn is_invalid_list(g: DepGraph, fuel: nat, s: Seq<Seq<u8>>) -> bool {
    &&& forall|i: int| 0 <= i < s.len() ==> g.contains_key(#[trigger] s[i]) && !valid_within(g, s[i], fuel)
    &&& forall|m: Seq<u8>| g.contains_key(m) && !valid_within(g, m, fuel) ==> s.contains(m)
    &&& forall|i: int, j: int| 0 <= i < j < s.len() ==> lex_lt(s[i], s[j])
}

/// `s` lists the missing names, each once.
pub open spec fn is_missing_list(g: DepGraph, s: Seq<Seq<u8>>) -> bool {
    &&& forall|i: int| 0 <= i < s.len() ==> is_missing(g, #[trigger] s[i])
    &&& forall|x: Seq<u8>| is_missing(g, x) ==> s.contains(x)
    &&& forall|i: int, j: int| 0 <= i < j < s.len() ==> s[i] != s[j]
}

/// `c` holds cycle groups, and every module on a cycle is in one of them.
pub open spec fn is_cycle_list(g: DepGraph, fuel: nat, c: Seq<Seq<Seq<u8>>>) -> bool {
    &&& forall|i: int| 0 <= i < c.len() ==> is_cycle_group(g, fuel, #[trigger] c[i])
    &&& forall|x: Seq<u8>| on_cycle(g, fuel, x) ==> exists|i: int| 0 <= i < c.len() && (#[trigger] c[i]).contains(x)
}

/// Each error names a missing module or a cycle group, and every missing
/// module and every module on a cycle is reported.
pub open spec fn errors_ok<'a>(g: DepGraph, fuel: nat, e: Seq<ValidationError<'a>>) -> bool {
    &&& forall|p: int| 0 <= p < e.len() ==> match #[trigger] e[p] {
        ValidationError::MissingModule(x) => is_missing(g, str_bytes(x)),
        ValidationError::DependencyCycle(c) => is_cycle_group(g, fuel, strs_bytes(c@)),
    }
    &&& forall|x: Seq<u8>| is_missing(g, x) ==> exists|p: int|
        0 <= p < e.len() && ((#[trigger] e[p]) matches ValidationError::MissingModule(y) && str_bytes(y) == x)
    &&& forall|x: Seq<u8>| on_cycle(g, fuel, x) ==> exists|p: int|
        0 <= p < e.len() && ((#[trigger] e[p]) matches ValidationError::DependencyCycle(c) && strs_bytes(c@).contains(x))
}

// ====== Lexicographic order ==========

pub proof fn lemma_lex_irreflexive(a: Seq<u8>)
    ensures
        !lex_lt(a, a),
    decreases a.len(),
{
    if a.len() > 0 {
        lemma_lex_irreflexive(a.drop_first());
    }
}

pub proof fn lemma_lex_asymmetric(a: Seq<u8>, b: Seq<u8>)
    ensures
        !(lex_lt(a, b) && lex_lt(b, a)),
    decreases a.len(),
{
    if a.len() > 0 && b.len() > 0 && a[0] == b[0] {
        lemma_lex_asymmetric(a.drop_first(), b.drop_first());
    }
}

pub proof fn lemma_lex_total(a: Seq<u8>, b: Seq<u8>)
    ensures
        a == b || lex_lt(a, b) || lex_lt(b, a),
    decreases a.len(),
{
    if a.len() > 0 && b.len() > 0 && a[0] == b[0] {
        lemma_lex_total(a.drop_first(), b.drop_first());
        if a.drop_first() == b.drop_first() {
            assert(a =~= seq![a[0]] + a.drop_first());
            assert(b =~= seq![b[0]] + b.drop_first());
        }
    } else if a.len() == 0 && b.len() == 0 {
        assert(a =~= b);
    }
}

pub proof fn lemma_lex_transitive(a: Seq<u8>, b: Seq<u8>, c: Seq<u8>)
    requires
        lex_lt(a, b),
        lex_lt(b, c),
    ensures
        lex_lt(a, c),
    decreases a.len(),
{
    if a.len() > 0 && b.len() > 0 && c.len() > 0 && a[0] == b[0] && b[0] == c[0] {
        lemma_lex_transitive(a.drop_first(), b.drop_first(), c.drop_first());
    }
}

/// A string is below any longer string that extends it.
pub proof fn lemma_lex_prefix(a: Seq<u8>, s: Seq<u8>)
    requires
        s.len() > 0,
    ensures
        lex_lt(a, a + s),
    decreases a.len(),
{
    if a.len() > 0 {
        assert((a + s).drop_first() =~= a.drop_first() + s);
        lemma_lex_prefix(a.drop_first(), s);
    }
}

/// Order used to sort: the load order, or the order of names.
pub open spec fn sort_lt(g: DepGraph, fuel: nat, by_load: bool, a: Seq<u8>, b: Seq<u8>) -> bool {
    if by_load {
        load_lt(g, fuel, a, b)
    } else {
        lex_lt(a, b)
    }
}

pub proof fn lemma_sort_lt_order(g: DepGraph, fuel: nat, by_load: bool, a: Seq<u8>, b: Seq<u8>, c: Seq<u8>)
    ensures
        !sort_lt(g, fuel, by_load, a, a),
        a != b ==> sort_lt(g, fuel, by_load, a, b) || sort_lt(g, fuel, by_load, b, a),
        sort_lt(g, fuel, by_load, a, b) && sort_lt(g, fuel, by_load, b, c) ==> sort_lt(g, fuel, by_load, a, c),
{
    lemma_lex_irreflexive(a);
    lemma_lex_total(a, b);
    let (oa, ob, oc) = (order_name_within(g, a, fuel), order_name_within(g, b, fuel), order_name_within(g, c, fuel));
    lemma_lex_irreflexive(oa);
    lemma_lex_total(oa, ob);
    if lex_lt(a, b) && lex_lt(b, c) {
        lemma_lex_transitive(a, b, c);
    }
    if lex_lt(oa, ob) && lex_lt(ob, oc) {
        lemma_lex_transitive(oa, ob, oc);
    }
}

// ====== Why dependencies load first ==========

proof fn lemma_all_valid_at(g: DepGraph, ds: Seq<Seq<u8>>, f: nat, t: int)
    requires
        all_valid_within(g, ds, f),
        0 <= t < ds.len(),
    ensures
        valid_within(g, ds[t], f),
    decreases ds.len(),
{
    if t < ds.len() - 1 {
        lemma_all_valid_at(g, ds.drop_last(), f, t);
    }
}

/// More fuel changes nothing for a module that is already valid.
proof fn lemma_stable(g: DepGraph, m: Seq<u8>, f: nat)
    requires
        valid_within(g, m, f),
    ensures
        valid_within(g, m, f + 1),
        depth_within(g, m, f + 1) == depth_within(g, m, f),
        order_name_within(g, m, f + 1) == order_name_within(g, m, f),
    decreases f, 0nat,
{
    let ds = deps_of(g, m);
    let f0 = (f - 1) as nat;
    assert(f0 + 1 == f);
    assert(((f + 1) - 1) as nat == f);
    lemma_stable_list(g, ds, f0);
    if ds.len() > 0 && is_test_module(m) {
        let l = last_loaded_within(g, ds, f0);
        lemma_last_loaded_in(g, ds, f0);
        let u = choose|u: int| 0 <= u < ds.len() && ds[u] == l;
        lemma_all_valid_at(g, ds, f0, u);
        lemma_stable(g, l, f0);
    }
}

proof fn lemma_stable_list(g: DepGraph, ds: Seq<Seq<u8>>, f: nat)
    requires
        all_valid_within(g, ds, f),
    ensures
        all_valid_within(g, ds, f + 1),
        max_depth_within(g, ds, f + 1) == max_depth_within(g, ds, f),
        ds.len() > 0 ==> last_loaded_within(g, ds, f + 1) == last_loaded_within(g, ds, f),
    decreases f, ds.len(),
{
    if ds.len() > 0 {
        lemma_stable(g, ds.last(), f);
        lemma_stable_list(g, ds.drop_last(), f);
        if ds.len() > 1 {
            let b = last_loaded_within(g, ds.drop_last(), f);
            lemma_last_loaded_in(g, ds.drop_last(), f);
            let u = choose|u: int| 0 <= u < ds.drop_last().len() && ds.drop_last()[u] == b;
            lemma_all_valid_at(g, ds.drop_last(), f, u);
            lemma_stable(g, b, f);
        }
    }
}

proof fn lemma_last_loaded_in(g: DepGraph, ds: Seq<Seq<u8>>, f: nat)
    requires
        ds.len() > 0,
    ensures
        exists|u: int| 0 <= u < ds.len() && ds[u] == last_loaded_within(g, ds, f),
    decreases ds.len(),
{
    if ds.len() > 1 {
        lemma_last_loaded_in(g, ds.drop_last(), f);
        let u = choose|u: int| 0 <= u < ds.drop_last().len() && ds.drop_last()[u] == last_loaded_within(g, ds.drop_last(), f);
        assert(ds[u] == ds.drop_last()[u]);
        assert(ds[ds.len() - 1] == ds.last());
    } else {
        assert(ds[0] == last_loaded_within(g, ds, f));
    }
}

proof fn lemma_max_depth_ge(g: DepGraph, ds: Seq<Seq<u8>>, f: nat, t: int)
    requires
        0 <= t < ds.len(),
    ensures
        depth_within(g, ds[t], f) <= max_depth_within(g, ds, f),
    decreases ds.len(),
{
    if t < ds.len() - 1 {
        lemma_max_depth_ge(g, ds.drop_last(), f, t);
    }
}

/// (depth, order name) pairs are totally preordered by `pair_lt`.
proof fn lemma_pair_order(d1: nat, o1: Seq<u8>, d2: nat, o2: Seq<u8>, d3: nat, o3: Seq<u8>)
    ensures
        !pair_lt(d1, o1, d1, o1),
        !(pair_lt(d1, o1, d2, o2) && pair_lt(d2, o2, d1, o1)),
        !pair_lt(d1, o1, d2, o2) && !pair_lt(d2, o2, d3, o3) ==> !pair_lt(d1, o1, d3, o3),
{
    lemma_lex_irreflexive(o1);
    lemma_lex_asymmetric(o1, o2);
    lemma_lex_total(o1, o2);
    lemma_lex_total(o2, o3);
    if lex_lt(o1, o3) && lex_lt(o3, o2) {
        lemma_lex_transitive(o1, o3, o2);
    }
    if lex_lt(o3, o2) && lex_lt(o2, o1) {
        lemma_lex_transitive(o3, o2, o1);
    }
    if lex_lt(o1, o3) && o3 == o2 {
        lemma_lex_asymmetric(o1, o2);
    }
    lemma_lex_total(o1, o3);
}

/// The last loaded dependency is not below any other dependency.
proof fn lemma_last_loaded_max(g: DepGraph, ds: Seq<Seq<u8>>, f: nat, t: int)
    requires
        0 <= t < ds.len(),
    ensures
        !pair_lt(
            depth_within(g, last_loaded_within(g, ds, f), f),
            order_name_within(g, last_loaded_within(g, ds, f), f),
            depth_within(g, ds[t], f),
            order_name_within(g, ds[t], f),
        ),
    decreases ds.len(),
{
    let l = last_loaded_within(g, ds, f);
    let (dl, ol) = (depth_within(g, l, f), order_name_within(g, l, f));
    let (dt, ot) = (depth_within(g, ds[t], f), order_name_within(g, ds[t], f));
    if ds.len() <= 1 {
        assert(l == ds[t]);
        lemma_pair_order(dl, ol, dl, ol, dl, ol);
    } else {
        let b = last_loaded_within(g, ds.drop_last(), f);
        let x = ds.last();
        let (db, ob) = (depth_within(g, b, f), order_name_within(g, b, f));
        let (dx, ox) = (depth_within(g, x, f), order_name_within(g, x, f));
        if t < ds.len() - 1 {
            lemma_last_loaded_max(g, ds.drop_last(), f, t);
            assert(ds.drop_last()[t] == ds[t]);
            if !pair_lt(dx, ox, db, ob) {
                lemma_pair_order(dx, ox, db, ob, dt, ot);
            }
        } else {
            assert(ds[t] == x);
            lemma_pair_order(db, ob, dx, ox, dx, ox);
            lemma_pair_order(dx, ox, db, ob, dx, ox);
        }
    }
}

/// A dependency of a valid module comes strictly before it in the load order,
/// with `f + 1` steps for the module and `f` for the dependency.
proof fn lemma_dep_key_below(g: DepGraph, m: Seq<u8>, f: nat, t: int)
    requires
        valid_within(g, m, f + 1),
        0 <= t < deps_of(g, m).len(),
    ensures
        pair_lt(
            depth_within(g, deps_of(g, m)[t], f),
            order_name_within(g, deps_of(g, m)[t], f),
            depth_within(g, m, f + 1),
            order_name_within(g, m, f + 1),
        ),
{
    let ds = deps_of(g, m);
    let d = ds[t];
    assert(((f + 1) - 1) as nat == f);
    lemma_max_depth_ge(g, ds, f, t);
    if is_test_module(m) {
        let l = last_loaded_within(g, ds, f);
        lemma_last_loaded_max(g, ds, f, t);
        lemma_last_loaded_in(g, ds, f);
        let u = choose|u: int| 0 <= u < ds.len() && ds[u] == l;
        lemma_max_depth_ge(g, ds, f, u);
        let (ol, od) = (order_name_within(g, l, f), order_name_within(g, d, f));
        let om = order_name_within(g, m, f + 1);
        assert(om == ol + seq![32u8] + m);
        assert(om =~= ol + (seq![32u8] + m));
        lemma_lex_prefix(ol, seq![32u8] + m);
        lemma_lex_total(od, ol);
        if lex_lt(od, ol) {
            lemma_lex_transitive(od, ol, om);
        }
    }
}

/// In the load order, every dependency of a module comes before it.
///
/// `s` is what [`sort_by_load_order`] returns for the declarations `l`.
pub proof fn lemma_dependencies_load_first(l: ModuleList, s: Seq<Seq<u8>>, i: int, t: int)
    requires
        is_load_order(declared_graph(l), l.len(), s),
        0 <= i < s.len(),
        0 <= t < deps_of(declared_graph(l), s[i]).len(),
    ensures
        exists|j: int| 0 <= j < i && s[j] == deps_of(declared_graph(l), s[i])[t],
{
    let g = declared_graph(l);
    let f = l.len();
    let m = s[i];
    let d = deps_of(g, m)[t];
    assert(valid_within(g, m, f));
    let f0 = (f - 1) as nat;
    assert(f0 + 1 == f);
    lemma_all_valid_at(g, deps_of(g, m), f0, t);
    lemma_stable(g, d, f0);
    lemma_dep_key_below(g, m, f0, t);
    assert(load_lt(g, f, d, m));
    assert(s.contains(d));
    let j = choose|j: int| 0 <= j < s.len() && s[j] == d;
    lemma_sort_lt_order(g, f, true, d, m, d);
    if j >= i {
        if j > i {
            assert(load_lt(g, f, m, d));
            lemma_lex_asymmetric(order_name_within(g, m, f), order_name_within(g, d, f));
            lemma_lex_asymmetric(m, d);
        }
        assert(false);
    }
}

// ====== Byte helpers ==========

/// Whether two byte strings are equal.
fn bytes_eq(a: &[u8], b: &[u8]) -> (r: bool)
    ensures
        r == (a@ == b@),
{
    if a.len() != b.len() {
        return false;
    }
    let mut i: usize = 0;
    while i < a.len()
        invariant
            a@.len() == b@.len(),
            i <= a@.len(),
            a@.subrange(0, i as int) == b@.subrange(0, i as int),
        decreases a@.len() - i,
    {
        if a[i] != b[i] {
            return false;
        }
        assert(a@.subrange(0, i + 1) =~= a@.subrange(0, i as int).push(a@[i as int]));
        assert(b@.subrange(0, i + 1) =~= b@.subrange(0, i as int).push(b@[i as int]));
        i = i + 1;
    }
    assert(a@ =~= a@.subrange(0, i as int));
    assert(b@ =~= b@.subrange(0, i as int));
    true
}

/// Whether `a` comes strictly before `b` in lexicographic order.
fn bytes_lt(a: &[u8], b: &[u8]) -> (r: bool)
    ensures
        r == lex_lt(a@, b@),
{
    let mut i: usize = 0;
    assert(a@.skip(0) =~= a@);
    assert(b@.skip(0) =~= b@);
    while i < a.len() && i < b.len() && a[i] == b[i]
        invariant
            i <= a@.len(),
            i <= b@.len(),
            lex_lt(a@, b@) == lex_lt(a@.skip(i as int), b@.skip(i as int)),
        decreases a@.len() - i,
    {
        assert(a@.skip(i as int).drop_first() =~= a@.skip(i + 1));
        assert(b@.skip(i as int).drop_first() =~= b@.skip(i + 1));
        i = i + 1;
    }
    if i < a.len() && i < b.len() {
        a[i] < b[i]
    } else {
        i == a.len() && i < b.len()
    }
}

/// A copy of a byte string.
fn copy_bytes(b: &[u8]) -> (r: Vec<u8>)
    ensures
        r@ == b@,
{
    let mut r: Vec<u8> = Vec::new();
    append_bytes(&mut r, b);
    assert(r@ =~= b@);
    r
}

/// Appends `b` to `v`.
fn append_bytes(v: &mut Vec<u8>, b: &[u8])
    ensures
        final(v)@ == old(v)@ + b@,
{
    let ghost start = v@;
    let mut i: usize = 0;
    while i < b.len()
        invariant
            i <= b@.len(),
            v@ == start + b@.subrange(0, i as int),
        decreases b@.len() - i,
    {
        v.push(b[i]);
        assert(b@.subrange(0, i + 1) =~= b@.subrange(0, i as int).push(b@[i as int]));
        i = i + 1;
    }
    assert(b@.subrange(0, i as int) =~= b@);
}

/// The name `base`.
fn base_str() -> (r: &'static str)
    ensures
        str_bytes(r) == base_name(),
{
    let r = "base";
    proof {
        reveal_strlit("base");
        assert(r@ =~= seq!['b', 'a', 's', 'e']);
        vstd::utf8::is_ascii_chars_encode_utf8(r@);
        assert(r.spec_bytes() =~= base_name());
    }
    r
}

/// A copy of a list of names.
fn copy_strs<'a>(v: &Vec<&'a str>) -> (r: Vec<&'a str>)
    ensures
        r@ == v@,
{
    let mut r: Vec<&'a str> = Vec::new();
    let mut i: usize = 0;
    while i < v.len()
        invariant
            i <= v@.len(),
            r@ == v@.subrange(0, i as int),
        decreases v@.len() - i,
    {
        r.push(v[i]);
        assert(v@.subrange(0, i + 1) =~= v@.subrange(0, i as int).push(v@[i as int]));
        i = i + 1;
    }
    assert(v@.subrange(0, i as int) =~= v@);
    r
}

/// Whether a module name starts with `test_`.
fn is_test_name(name: &str) -> (r: bool)
    ensures
        r == is_test_module(str_bytes(name)),
{
    let b = name.as_bytes();
    if b.len() < 5 {
        return false;
    }
    let r = b[0] == 116u8 && b[1] == 101u8 && b[2] == 115u8 && b[3] == 116u8 && b[4] == 95u8;
    assert(r ==> b@.subrange(0, 5) =~= test_prefix());
    r
}

/// Whether a module name is `base`.
fn is_base_name(name: &str) -> (r: bool)
    ensures
        r == (str_bytes(name) == base_name()),
{
    let b = name.as_bytes();
    let r = b.len() == 4 && b[0] == 98u8 && b[1] == 97u8 && b[2] == 115u8 && b[3] == 101u8;
    assert(r ==> b@ =~= base_name());
    r
}


// ====== Sorting ==========

/// The graph a list of (module, dependencies) declarations describes.
pub open spec fn load_graph(modules: Seq<(&str, Vec<&str>)>) -> DepGraph {
    declared_graph(module_list(modules))
}

pub open spec fn groups_bytes<'a>(c: Seq<Vec<&'a str>>) -> Seq<Seq<Seq<u8>>> {
    c.map_values(|v: Vec<&'a str>| strs_bytes(v@))
}

/// Sorts modules in the order they load.
///
/// Valid modules come out in load order: by depth, then by order name, then
/// by name; a module whose dependencies are missing or cyclic is left out and
/// listed as invalid, and the problems are listed too.
pub fn sort_by_load_order<'a>(modules: Vec<(&'a str, Vec<&'a str>)>) -> (r: SortResult<'a>)
    ensures
        is_load_order(load_graph(modules@), modules@.len() as nat, strs_bytes(r.sorted@)),
        is_invalid_list(load_graph(modules@), modules@.len() as nat, strs_bytes(r.invalid@)),
        is_missing_list(load_graph(modules@), strs_bytes(r.missing@)),
        is_cycle_list(load_graph(modules@), modules@.len() as nat, groups_bytes(r.cycles@)),
{
    let mut graph = Graph::from(modules);
    let (sorted, invalid, missing, cycles) = graph.load_order_parts();
    proof {
        assert(groups_bytes(cycles@) =~= cycles@.map_values(|c: Vec<&'a str>| strs_bytes(c@)));
    }
    SortResult { sorted, invalid, missing, cycles }
}

/// Index just after the last occurrence of `top` in `s` at or before `k`, 0 if none.
pub open spec fn after_last(s: Seq<Seq<u8>>, top: Seq<u8>, k: int) -> int
    decreases k + 1,
{
    if k < 0 {
        0
    } else if s[k] == top {
        k + 1
    } else {
        after_last(s, top, k - 1)
    }
}

// ====== The graph ==========

/// Outcome of [`sort_by_load_order`].
pub struct SortResult<'a> {
    /// Valid modules in load order.
    pub sorted: Vec<&'a str>,
    /// Declared modules that cannot load: a dependency, direct or not, is
    /// missing or lies on a cycle. In lexicographic order.
    pub invalid: Vec<&'a str>,
    /// Names depended on but not declared, each once.
    pub missing: Vec<&'a str>,
    /// Groups of modules that depend on each other in a cycle.
    pub cycles: Vec<Vec<&'a str>>,
}

/// A problem found while validating the graph.
pub enum ValidationError<'a> {
    MissingModule(&'a str),
    DependencyCycle(Vec<&'a str>),
}

impl<'a> ValidationError<'a> {
    /// The cycle that closes at the top of a recursion stack: the modules from
    /// just after the previous occurrence of the top one (or from the bottom)
    /// up to the top.
    pub fn new_dep_cycle_error(recursion_stack: &[&'a str]) -> (r: Self)
        requires
            recursion_stack@.len() > 0,
        ensures
            r matches ValidationError::DependencyCycle(c) && c@ == recursion_stack@.subrange(
                after_last(
                    strs_bytes(recursion_stack@),
                    str_bytes(recursion_stack@.last()),
                    recursion_stack@.len() - 2,
                ),
                recursion_stack@.len() as int,
            ),
    {
        let ghost sb = strs_bytes(recursion_stack@);
        let len = recursion_stack.len();
        let top = recursion_stack[len - 1];
        let mut start: usize = len - 1;
        while start > 0 && !bytes_eq(recursion_stack[start - 1].as_bytes(), top.as_bytes())
            invariant
                0 <= start < len,
                len == recursion_stack@.len(),
                sb == strs_bytes(recursion_stack@),
                top == recursion_stack@[len - 1],
                after_last(sb, str_bytes(top), len - 2) == after_last(sb, str_bytes(top), start - 1),
            decreases start,
        {
            start = start - 1;
        }
        let mut c: Vec<&'a str> = Vec::new();
        let mut i: usize = start;
        while i < len
            invariant
                start <= i <= len,
                len == recursion_stack@.len(),
                c@ == recursion_stack@.subrange(start as int, i as int),
            decreases len - i,
        {
            c.push(recursion_stack[i]);
            assert(recursion_stack@.subrange(start as int, i + 1) =~= recursion_stack@.subrange(start as int, i as int).push(recursion_stack@[i as int]));
            i = i + 1;
        }
        ValidationError::DependencyCycle(c)
    }
}

/// Declared modules and their dependencies, each name once.
pub struct Graph<'a> {
    pub names: Vec<&'a str>,
    pub deps: Vec<Vec<&'a str>>,
    /// Number of declarations the graph was built from.
    pub fuel: usize,
    pub model: Ghost<DepGraph>,
    /// Problems found by the last [`Graph::get_load_order`].
    pub errors: Vec<ValidationError<'a>>,
}

/// Finds the position of a name among `names`.
fn find_name(names: &Vec<&str>, name: &str) -> (r: Option<usize>)
    ensures
        r matches Some(i) ==> i < names@.len() && str_bytes(names@[i as int]) == str_bytes(name),
        r is None ==> forall|i: int| 0 <= i < names@.len() ==> str_bytes(names@[i]) != str_bytes(name),
{
    let mut i: usize = 0;
    while i < names.len()
        invariant
            i <= names@.len(),
            forall|j: int| 0 <= j < i ==> str_bytes(names@[j]) != str_bytes(name),
        decreases names@.len() - i,
    {
        if bytes_eq(names[i].as_bytes(), name.as_bytes()) {
            return Some(i);
        }
        i = i + 1;
    }
    None
}

impl<'a> Graph<'a> {
    /// The dependency graph, by module name.
    pub closed spec fn graph(&self) -> DepGraph {
        self.model@
    }

    pub closed spec fn fuel(&self) -> nat {
        self.fuel as nat
    }

    pub closed spec fn wf(&self) -> bool {
        &&& self.names@.len() == self.deps@.len()
        &&& forall|i: int, j: int|
            0 <= i < j < self.names@.len() ==> str_bytes(self.names@[i]) != str_bytes(
                self.names@[j],
            )
        &&& forall|i: int|
            0 <= i < self.names@.len() ==> self.model@.contains_key(str_bytes(self.names@[i]))
                && self.model@[str_bytes(self.names@[i])] == strs_bytes(self.deps@[i]@)
        &&& forall|k: Seq<u8>|
            self.model@.contains_key(k) ==> exists|i: int|
                0 <= i < self.names@.len() && str_bytes(self.names@[i]) == k
        &&& self.names@.len() <= self.fuel
    }

    /// Builds the graph of a list of (module, dependencies) declarations.
    pub fn from(nodes: Vec<(&'a str, Vec<&'a str>)>) -> (g: Self)
        ensures
            g.wf(),
            g.graph() == declared_graph(module_list(nodes@)),
            g.fuel() == nodes@.len(),
            g.errors@.len() == 0,
    {
        let ghost all = module_list(nodes@);
        let total = nodes.len();
        let mut nodes = nodes;
        let mut g = Graph {
            names: Vec::new(),
            deps: Vec::new(),
            fuel: total,
            model: Ghost(Map::empty()),
            errors: Vec::new(),
        };
        assert(all.skip(total as int) =~= Seq::<(Seq<u8>, Seq<Seq<u8>>)>::empty());
        assert(module_list(nodes@) + all.skip(nodes@.len() as int) =~= all);
        while nodes.len() > 0
            invariant
                all == module_list(nodes@) + all.skip(nodes@.len() as int),
                nodes@.len() <= total,
                all.len() == total,
                g.wf(),
                g.fuel == total,
                g.names@.len() <= total - nodes@.len(),
                g.graph() == declared_graph(all.skip(nodes@.len() as int)),
                g.errors@.len() == 0,
            decreases nodes@.len(),
        {
            let ghost old_nodes = nodes@;
            let ghost k = nodes@.len() - 1;
            let (name, ds) = nodes.pop().unwrap();
            proof {
                assert(all.skip(k).drop_first() =~= all.skip(k + 1));
                assert(all[k] == module_list(old_nodes)[k]);
                assert(module_list(nodes@) + all.skip(k) =~= all) by {
                    assert(module_list(old_nodes) =~= module_list(nodes@).push(all[k]));
                }
            }
            match find_name(&g.names, name) {
                Some(_) => {},
                None => {
                    let ghost m = g.model@;
                    let ghost old_names = g.names@;
                    g.names.push(name);
                    g.deps.push(ds);
                    g.model = Ghost(m.insert(str_bytes(name), strs_bytes(ds@)));
                    assert forall|q: Seq<u8>| g.model@.contains_key(q) implies exists|i: int|
                        0 <= i < g.names@.len() && str_bytes(g.names@[i]) == q by {
                        if q == str_bytes(name) {
                            assert(str_bytes(g.names@[g.names@.len() - 1]) == q);
                        } else {
                            assert(m.contains_key(q));
                            let i = choose|i: int|
                                0 <= i < old_names.len() && str_bytes(old_names[i]) == q;
                            assert(g.names@[i] == old_names[i]);
                        }
                    }
                },
            }
        }
        assert(all.skip(0) =~= all);
        g
    }

    /// Dependencies of the `i`-th module, with the implicit `base`.
    pub open spec fn eff(&self, i: int) -> Seq<Seq<u8>> {
        deps_of(self.graph(), str_bytes(self.names@[i]))
    }

    /// `idx` gives, for each dependency of each module, its position in
    /// `names`, or the number of names where it is not declared.
    pub open spec fn resolved(&self, idx: Seq<Vec<usize>>) -> bool {
        &&& idx.len() == self.names@.len()
        &&& forall|i: int|
            0 <= i < idx.len() ==> (#[trigger] idx[i])@.len() == self.eff(i).len()
        &&& forall|i: int, t: int|
            0 <= i < idx.len() && 0 <= t < self.eff(i).len() ==> {
                let x = #[trigger] idx[i]@[t];
                &&& x <= self.names@.len()
                &&& x < self.names@.len() ==> str_bytes(self.names@[x as int]) == self.eff(i)[t]
                &&& x == self.names@.len() ==> !self.graph().contains_key(self.eff(i)[t])
            }
    }

    fn find_base(&self) -> (r: usize)
        requires
            self.wf(),
        ensures
            r <= self.names@.len(),
            r < self.names@.len() ==> str_bytes(self.names@[r as int]) == base_name(),
            r == self.names@.len() ==> !self.graph().contains_key(base_name()),
    {
        let mut i: usize = 0;
        while i < self.names.len()
            invariant
                self.wf(),
                i <= self.names@.len(),
                forall|j: int| 0 <= j < i ==> str_bytes(self.names@[j]) != base_name(),
            decreases self.names@.len() - i,
        {
            if is_base_name(self.names[i]) {
                return i;
            }
            i = i + 1;
        }
        i
    }

    fn resolve_deps(&self) -> (idx: Vec<Vec<usize>>)
        requires
            self.wf(),
        ensures
            self.resolved(idx@),
    {
        let n = self.names.len();
        let base = self.find_base();
        let mut idx: Vec<Vec<usize>> = Vec::new();
        let mut i: usize = 0;
        while i < n
            invariant
                self.wf(),
                n == self.names@.len(),
                i <= n,
                idx@.len() == i,
                base <= n,
                base < n ==> str_bytes(self.names@[base as int]) == base_name(),
                base == n ==> !self.graph().contains_key(base_name()),
                forall|a: int| 0 <= a < i ==> (#[trigger] idx@[a])@.len() == self.eff(a).len(),
                forall|a: int, t: int|
                    0 <= a < i && 0 <= t < self.eff(a).len() ==> {
                        let x = #[trigger] idx@[a]@[t];
                        &&& x <= n
                        &&& x < n ==> str_bytes(self.names@[x as int]) == self.eff(a)[t]
                        &&& x == n ==> !self.graph().contains_key(self.eff(a)[t])
                    },
            decreases n - i,
        {
            let mut row: Vec<usize> = Vec::new();
            let ghost e = self.eff(i as int);
            assert(self.graph().contains_key(str_bytes(self.names@[i as int])));
            if self.deps[i].len() == 0 && !is_base_name(self.names[i]) {
                row.push(base);
                assert(e =~= seq![base_name()]);
            } else {
                assert(e == strs_bytes(self.deps@[i as int]@));
                let mut t: usize = 0;
                while t < self.deps[i].len()
                    invariant
                        self.wf(),
                        n == self.names@.len(),
                        i < n,
                        t <= self.deps@[i as int]@.len(),
                        e == self.eff(i as int),
                        e == strs_bytes(self.deps@[i as int]@),
                        row@.len() == t,
                        forall|u: int|
                            0 <= u < t ==> {
                                let x = #[trigger] row@[u];
                                &&& x <= n
                                &&& x < n ==> str_bytes(self.names@[x as int]) == e[u]
                                &&& x == n ==> !self.graph().contains_key(e[u])
                            },
                    decreases self.deps@[i as int]@.len() - t,
                {
                    let d = self.deps[i][t];
                    match find_name(&self.names, d) {
                        Some(x) => {
                            row.push(x);
                        },
                        None => {
                            row.push(n);
                            assert(!self.graph().contains_key(str_bytes(d)));
                        },
                    }
                    t = t + 1;
                }
            }
            idx.push(row);
            i = i + 1;
        }
        idx
    }

    /// Bytes of the `u`-th dependency of the `i`-th module.
    fn dep_bytes(&self, i: usize, u: usize) -> (r: Vec<u8>)
        requires
            self.wf(),
            i < self.names@.len(),
            u < self.eff(i as int).len(),
        ensures
            r@ == self.eff(i as int)[u as int],
    {
        proof {
            assert(self.graph().contains_key(str_bytes(self.names@[i as int])));
        }
        if self.deps[i].len() == 0 {
            let r = vec![98u8, 97u8, 115u8, 101u8];
            assert(r@ =~= base_name());
            r
        } else {
            copy_bytes(self.deps[i][u].as_bytes())
        }
    }

    /// One round of depth computation.
    fn depth_round(&self, idx: &Vec<Vec<usize>>, old: &Vec<usize>, k: usize) -> (new: Vec<usize>)
        requires
            self.wf(),
            self.resolved(idx@),
            k < usize::MAX,
            old@.len() == self.names@.len(),
            forall|j: int| 0 <= j < old@.len() ==> old@[j] == depth_within(self.graph(), str_bytes(self.names@[j]), k as nat),
            forall|j: int| 0 <= j < old@.len() ==> old@[j] <= k,
        ensures
            new@.len() == self.names@.len(),
            forall|j: int| 0 <= j < new@.len() ==> new@[j] == depth_within(self.graph(), str_bytes(self.names@[j]), (k + 1) as nat),
            forall|j: int| 0 <= j < new@.len() ==> new@[j] <= k + 1,
    {
        let n = self.names.len();
        let mut new: Vec<usize> = Vec::new();
        let mut i: usize = 0;
        while i < n
            invariant
                self.wf(),
                self.resolved(idx@),
                k < usize::MAX,
                n == self.names@.len(),
                old@.len() == n,
                forall|j: int| 0 <= j < n ==> old@[j] == depth_within(self.graph(), str_bytes(self.names@[j]), k as nat),
                forall|j: int| 0 <= j < n ==> old@[j] <= k,
                i <= n,
                new@.len() == i,
                forall|j: int| 0 <= j < i ==> new@[j] == depth_within(self.graph(), str_bytes(self.names@[j]), (k + 1) as nat),
                forall|j: int| 0 <= j < i ==> new@[j] <= k + 1,
            decreases n - i,
        {
            let ghost e = self.eff(i as int);
            let ghost m = str_bytes(self.names@[i as int]);
            let row = &idx[i];
            let mut acc: usize = 0;
            let mut t: usize = 0;
            assert(e.take(0) =~= Seq::<Seq<u8>>::empty());
            while t < row.len()
                invariant
                    self.wf(),
                    self.resolved(idx@),
                    n == self.names@.len(),
                    i < n,
                    old@.len() == n,
                    forall|j: int| 0 <= j < n ==> old@[j] == depth_within(self.graph(), str_bytes(self.names@[j]), k as nat),
                    forall|j: int| 0 <= j < n ==> old@[j] <= k,
                    row == idx@[i as int],
                    e == self.eff(i as int),
                    row@.len() == e.len(),
                    t <= row@.len(),
                    acc == max_depth_within(self.graph(), e.take(t as int), k as nat),
                    acc <= k,
                decreases row@.len() - t,
            {
                let x = row[t];
                let ghost d = e[t as int];
                assert(idx@[i as int]@[t as int] == x);
                assert(e.take(t + 1).drop_last() =~= e.take(t as int));
                assert(e.take(t + 1).last() == d);
                let v = if x < n {
                    assert(str_bytes(self.names@[x as int]) == d);
                    old[x]
                } else {
                    assert(!self.graph().contains_key(d));
                    assert(depth_within(self.graph(), d, k as nat) == 0);
                    0
                };
                if v > acc {
                    acc = v;
                }
                t = t + 1;
            }
            assert(e.take(e.len() as int) =~= e);
            let d = if row.len() == 0 {
                0
            } else if is_test_name(self.names[i]) {
                acc
            } else {
                acc + 1
            };
            new.push(d);
            i = i + 1;
        }
        new
    }

    /// One round of order name computation.
    fn order_round(
        &self,
        idx: &Vec<Vec<usize>>,
        old_depth: &Vec<usize>,
        old_order: &Vec<Vec<u8>>,
        Ghost(k): Ghost<nat>,
    ) -> (new: Vec<Vec<u8>>)
        requires
            self.wf(),
            self.resolved(idx@),
            old_depth@.len() == self.names@.len(),
            old_order@.len() == self.names@.len(),
            forall|j: int| 0 <= j < old_depth@.len() ==> old_depth@[j] == depth_within(self.graph(), str_bytes(self.names@[j]), k),
            forall|j: int| 0 <= j < old_order@.len() ==> old_order@[j]@ == order_name_within(self.graph(), str_bytes(self.names@[j]), k),
        ensures
            new@.len() == self.names@.len(),
            forall|j: int| 0 <= j < new@.len() ==> new@[j]@ == order_name_within(self.graph(), str_bytes(self.names@[j]), (k + 1) as nat),
    {
        let n = self.names.len();
        let mut new: Vec<Vec<u8>> = Vec::new();
        let mut i: usize = 0;
        while i < n
            invariant
                self.wf(),
                self.resolved(idx@),
                n == self.names@.len(),
                old_depth@.len() == n,
                old_order@.len() == n,
                forall|j: int| 0 <= j < n ==> old_depth@[j] == depth_within(self.graph(), str_bytes(self.names@[j]), k),
                forall|j: int| 0 <= j < n ==> old_order@[j]@ == order_name_within(self.graph(), str_bytes(self.names@[j]), k),
                i <= n,
                new@.len() == i,
                forall|j: int| 0 <= j < i ==> new@[j]@ == order_name_within(self.graph(), str_bytes(self.names@[j]), (k + 1) as nat),
            decreases n - i,
        {
            let ghost e = self.eff(i as int);
            let ghost m = str_bytes(self.names@[i as int]);
            let row = &idx[i];
            let name = self.names[i].as_bytes();
            if row.len() == 0 || !is_test_name(self.names[i]) {
                new.push(copy_bytes(name));
            } else {
                let (mut best_d, mut best_o) = self.dep_key(idx, old_depth, old_order, i, 0, Ghost(k));
                let ghost mut best_u: int = 0;
                assert(e.take(1).len() == 1);
                let mut t: usize = 1;
                while t < row.len()
                    invariant
                        self.wf(),
                        self.resolved(idx@),
                        n == self.names@.len(),
                        i < n,
                        old_depth@.len() == n,
                        old_order@.len() == n,
                        forall|j: int| 0 <= j < n ==> old_depth@[j] == depth_within(self.graph(), str_bytes(self.names@[j]), k),
                        forall|j: int| 0 <= j < n ==> old_order@[j]@ == order_name_within(self.graph(), str_bytes(self.names@[j]), k),
                        row == idx@[i as int],
                        e == self.eff(i as int),
                        row@.len() == e.len(),
                        1 <= t <= row@.len(),
                        0 <= best_u < t,
                        e[best_u] == last_loaded_within(self.graph(), e.take(t as int), k),
                        best_d == depth_within(self.graph(), e[best_u], k),
                        best_o@ == order_name_within(self.graph(), e[best_u], k),
                    decreases row@.len() - t,
                {
                    let (d, o) = self.dep_key(idx, old_depth, old_order, i, t, Ghost(k));
                    assert(e.take(t + 1).drop_last() =~= e.take(t as int));
                    assert(e.take(t + 1).last() == e[t as int]);
                    if !(d < best_d || (d == best_d && bytes_lt(o.as_slice(), best_o.as_slice()))) {
                        best_d = d;
                        best_o = o;
                        proof {
                            best_u = t as int;
                        }
                    }
                    t = t + 1;
                }
                assert(e.take(e.len() as int) =~= e);
                let mut r = best_o;
                r.push(32u8);
                append_bytes(&mut r, name);
                assert(r@ =~= order_name_within(self.graph(), e[best_u], k) + seq![32u8] + m);
                new.push(r);
            }
            i = i + 1;
        }
        new
    }

    /// Depth and order name of the `u`-th dependency of the `i`-th module.
    fn dep_key(
        &self,
        idx: &Vec<Vec<usize>>,
        old_depth: &Vec<usize>,
        old_order: &Vec<Vec<u8>>,
        i: usize,
        u: usize,
        Ghost(k): Ghost<nat>,
    ) -> (r: (usize, Vec<u8>))
        requires
            self.wf(),
            self.resolved(idx@),
            i < self.names@.len(),
            u < self.eff(i as int).len(),
            old_depth@.len() == self.names@.len(),
            old_order@.len() == self.names@.len(),
            forall|j: int| 0 <= j < old_depth@.len() ==> old_depth@[j] == depth_within(self.graph(), str_bytes(self.names@[j]), k),
            forall|j: int| 0 <= j < old_order@.len() ==> old_order@[j]@ == order_name_within(self.graph(), str_bytes(self.names@[j]), k),
        ensures
            r.0 == depth_within(self.graph(), self.eff(i as int)[u as int], k),
            r.1@ == order_name_within(self.graph(), self.eff(i as int)[u as int], k),
    {
        let x = idx[i][u];
        let ghost d = self.eff(i as int)[u as int];
        assert(idx@[i as int]@[u as int] == x);
        if x < self.names.len() {
            (old_depth[x], copy_bytes(old_order[x].as_slice()))
        } else {
            assert(!self.graph().contains_key(d));
            assert(deps_of(self.graph(), d).len() == 0);
            (0, self.dep_bytes(i, u))
        }
    }

    /// One round of reachability: `b` is reached from `a` within `k + 1` steps
    /// when a dependency of `a` is `b` or reaches it within `k` steps.
    fn reach_round(&self, idx: &Vec<Vec<usize>>, old: &Vec<Vec<bool>>, Ghost(k): Ghost<nat>) -> (new: Vec<Vec<bool>>)
        requires
            self.wf(),
            self.resolved(idx@),
            old@.len() == self.names@.len(),
            forall|a: int| 0 <= a < old@.len() ==> (#[trigger] old@[a])@.len() == self.names@.len(),
            forall|a: int, b: int| 0 <= a < old@.len() && 0 <= b < self.names@.len() ==>
                (#[trigger] old@[a]@[b]) == reach_within(self.graph(), str_bytes(self.names@[a]), str_bytes(self.names@[b]), k),
        ensures
            new@.len() == self.names@.len(),
            forall|a: int| 0 <= a < new@.len() ==> (#[trigger] new@[a])@.len() == self.names@.len(),
            forall|a: int, b: int| 0 <= a < new@.len() && 0 <= b < self.names@.len() ==>
                (#[trigger] new@[a]@[b]) == reach_within(self.graph(), str_bytes(self.names@[a]), str_bytes(self.names@[b]), (k + 1) as nat),
    {
        let n = self.names.len();
        let mut new: Vec<Vec<bool>> = Vec::new();
        let mut i: usize = 0;
        while i < n
            invariant
                self.wf(),
                self.resolved(idx@),
                n == self.names@.len(),
                old@.len() == n,
                forall|a: int| 0 <= a < n ==> (#[trigger] old@[a])@.len() == n,
                forall|a: int, b: int| 0 <= a < n && 0 <= b < n ==>
                    (#[trigger] old@[a]@[b]) == reach_within(self.graph(), str_bytes(self.names@[a]), str_bytes(self.names@[b]), k),
                i <= n,
                new@.len() == i,
                forall|a: int| 0 <= a < i ==> (#[trigger] new@[a])@.len() == n,
                forall|a: int, b: int| 0 <= a < i && 0 <= b < n ==>
                    (#[trigger] new@[a]@[b]) == reach_within(self.graph(), str_bytes(self.names@[a]), str_bytes(self.names@[b]), (k + 1) as nat),
            decreases n - i,
        {
            let ghost e = self.eff(i as int);
            let row = &idx[i];
            let mut line: Vec<bool> = Vec::new();
            let mut j: usize = 0;
            while j < n
                invariant
                    self.wf(),
                    self.resolved(idx@),
                    n == self.names@.len(),
                    i < n,
                    old@.len() == n,
                    forall|a: int| 0 <= a < n ==> (#[trigger] old@[a])@.len() == n,
                    forall|a: int, b: int| 0 <= a < n && 0 <= b < n ==>
                        (#[trigger] old@[a]@[b]) == reach_within(self.graph(), str_bytes(self.names@[a]), str_bytes(self.names@[b]), k),
                    row == idx@[i as int],
                    e == self.eff(i as int),
                    row@.len() == e.len(),
                    j <= n,
                    line@.len() == j,
                    forall|b: int| 0 <= b < j ==> line@[b] == reach_within(self.graph(), str_bytes(self.names@[i as int]), str_bytes(self.names@[b]), (k + 1) as nat),
                decreases n - j,
            {
                let ghost b = str_bytes(self.names@[j as int]);
                let mut acc = false;
                let mut t: usize = 0;
                assert(e.take(0) =~= Seq::<Seq<u8>>::empty());
                while t < row.len()
                    invariant
                        self.wf(),
                        self.resolved(idx@),
                        n == self.names@.len(),
                        i < n,
                        j < n,
                        b == str_bytes(self.names@[j as int]),
                        old@.len() == n,
                        forall|a: int| 0 <= a < n ==> (#[trigger] old@[a])@.len() == n,
                        forall|a: int, c: int| 0 <= a < n && 0 <= c < n ==>
                            (#[trigger] old@[a]@[c]) == reach_within(self.graph(), str_bytes(self.names@[a]), str_bytes(self.names@[c]), k),
                        row == idx@[i as int],
                        e == self.eff(i as int),
                        row@.len() == e.len(),
                        t <= row@.len(),
                        acc == any_reach_within(self.graph(), e.take(t as int), b, k),
                    decreases row@.len() - t,
                {
                    let x = row[t];
                    let ghost d = e[t as int];
                    assert(idx@[i as int]@[t as int] == x);
                    assert(e.take(t + 1).drop_last() =~= e.take(t as int));
                    assert(e.take(t + 1).last() == d);
                    if x < n {
                        assert(str_bytes(self.names@[x as int]) == d);
                        assert((d == b) == (x == j));
                        acc = acc || x == j || old[x][j];
                    } else {
                        assert(!self.graph().contains_key(d));
                        assert(self.graph().contains_key(b));
                        assert(!reach_within(self.graph(), d, b, k)) by {
                            if k > 0 {
                                assert(deps_of(self.graph(), d).len() == 0);
                            }
                        }
                    }
                    t = t + 1;
                }
                assert(e.take(e.len() as int) =~= e);
                line.push(acc);
                j = j + 1;
            }
            new.push(line);
            i = i + 1;
        }
        new
    }

    /// Whether the `a`-th module sorts before the `b`-th one.
    fn sorts_before(&self, depth: &Vec<usize>, order: &Vec<Vec<u8>>, by_load: bool, a: usize, b: usize) -> (r: bool)
        requires
            self.wf(),
            a < self.names@.len(),
            b < self.names@.len(),
            depth@.len() == self.names@.len(),
            order@.len() == self.names@.len(),
            forall|j: int| 0 <= j < depth@.len() ==> depth@[j] == depth_within(self.graph(), str_bytes(self.names@[j]), self.fuel as nat),
            forall|j: int| 0 <= j < order@.len() ==> order@[j]@ == order_name_within(self.graph(), str_bytes(self.names@[j]), self.fuel as nat),
        ensures
            r == sort_lt(self.graph(), self.fuel as nat, by_load, str_bytes(self.names@[a as int]), str_bytes(self.names@[b as int])),
    {
        let na = self.names[a].as_bytes();
        let nb = self.names[b].as_bytes();
        if !by_load {
            return bytes_lt(na, nb);
        }
        let oa = order[a].as_slice();
        let ob = order[b].as_slice();
        depth[a] < depth[b] || (depth[a] == depth[b] && (bytes_lt(oa, ob) || (bytes_eq(oa, ob) && bytes_lt(na, nb))))
    }

    /// Inserts module `c` in `out`, kept in increasing order.
    fn insert_sorted(&self, out: &mut Vec<usize>, c: usize, depth: &Vec<usize>, order: &Vec<Vec<u8>>, by_load: bool)
        requires
            self.wf(),
            c < self.names@.len(),
            depth@.len() == self.names@.len(),
            order@.len() == self.names@.len(),
            forall|j: int| 0 <= j < depth@.len() ==> depth@[j] == depth_within(self.graph(), str_bytes(self.names@[j]), self.fuel as nat),
            forall|j: int| 0 <= j < order@.len() ==> order@[j]@ == order_name_within(self.graph(), str_bytes(self.names@[j]), self.fuel as nat),
            forall|p: int| 0 <= p < old(out)@.len() ==> old(out)@[p] < self.names@.len() && old(out)@[p] != c,
            forall|p: int, q: int| 0 <= p < q < old(out)@.len() ==> sort_lt(self.graph(), self.fuel as nat, by_load,
                str_bytes(self.names@[old(out)@[p] as int]), str_bytes(self.names@[old(out)@[q] as int])),
        ensures
            forall|x: usize| final(out)@.contains(x) <==> (old(out)@.contains(x) || x == c),
            forall|p: int| 0 <= p < final(out)@.len() ==> final(out)@[p] < self.names@.len(),
            forall|p: int, q: int| 0 <= p < q < final(out)@.len() ==> sort_lt(self.graph(), self.fuel as nat, by_load,
                str_bytes(self.names@[final(out)@[p] as int]), str_bytes(self.names@[final(out)@[q] as int])),
    {
        let ghost g = self.graph();
        let ghost f = self.fuel as nat;
        let ghost o = out@;
        let mut p: usize = 0;
        let mut stop = false;
        while p < out.len() && !stop
            invariant
                g == self.graph(),
                f == self.fuel as nat,
                stop ==> p < o.len() && sort_lt(g, f, by_load, str_bytes(self.names@[c as int]), str_bytes(self.names@[o[p as int] as int])),
                self.wf(),
                out@ == o,
                p <= o.len(),
                c < self.names@.len(),
                depth@.len() == self.names@.len(),
                order@.len() == self.names@.len(),
                forall|j: int| 0 <= j < depth@.len() ==> depth@[j] == depth_within(self.graph(), str_bytes(self.names@[j]), self.fuel as nat),
                forall|j: int| 0 <= j < order@.len() ==> order@[j]@ == order_name_within(self.graph(), str_bytes(self.names@[j]), self.fuel as nat),
                forall|q: int| 0 <= q < o.len() ==> o[q] < self.names@.len() && o[q] != c,
                forall|q: int| 0 <= q < p ==> sort_lt(g, f, by_load, str_bytes(self.names@[o[q] as int]), str_bytes(self.names@[c as int])),
            decreases o.len() - p, (if stop { 0int } else { 1int }),
        {
            if self.sorts_before(depth, order, by_load, c, out[p]) {
                stop = true;
            } else {
            proof {
                let a = str_bytes(self.names@[c as int]);
                let b = str_bytes(self.names@[o[p as int] as int]);
                lemma_sort_lt_order(g, f, by_load, a, b, a);
                let (ic, ip) = (c as int, o[p as int] as int);
                if ic < ip {
                    assert(str_bytes(self.names@[ic]) != str_bytes(self.names@[ip]));
                } else {
                    assert(str_bytes(self.names@[ip]) != str_bytes(self.names@[ic]));
                }
                assert(a != b);
            }
            p = p + 1;
            }
        }
        proof {
            if p < o.len() {
                assert(sort_lt(g, f, by_load, str_bytes(self.names@[c as int]), str_bytes(self.names@[o[p as int] as int])));
            }
        }
        out.insert(p, c);
        proof {
            assert(out@ =~= o.take(p as int).push(c) + o.skip(p as int));
            assert forall|a: int, b: int| 0 <= a < b < out@.len() implies sort_lt(g, f, by_load,
                str_bytes(self.names@[out@[a] as int]), str_bytes(self.names@[out@[b] as int])) by {
                let na = str_bytes(self.names@[out@[a] as int]);
                let nb = str_bytes(self.names@[out@[b] as int]);
                let nc = str_bytes(self.names@[c as int]);
                if a < p && b > p {
                    lemma_sort_lt_order(g, f, by_load, na, nc, nb);
                } else if a == p && b > p + 1 {
                    let np = str_bytes(self.names@[o[p as int] as int]);
                    lemma_sort_lt_order(g, f, by_load, nc, np, nb);
                }
            }
            assert forall|x: usize| out@.contains(x) <==> (o.contains(x) || x == c) by {
                if out@.contains(x) {
                    let q = choose|q: int| 0 <= q < out@.len() && out@[q] == x;
                    if q < p {
                        assert(o[q] == x);
                    } else if q > p {
                        assert(o[q - 1] == x);
                    }
                }
                if o.contains(x) {
                    let q = choose|q: int| 0 <= q < o.len() && o[q] == x;
                    if q < p {
                        assert(out@[q] == x);
                    } else {
                        assert(out@[q + 1] == x);
                    }
                }
                if x == c {
                    assert(out@[p as int] == x);
                }
            }
        }
    }

    /// The `u`-th dependency of the `i`-th module.
    fn dep_str(&self, i: usize, u: usize) -> (r: &'a str)
        requires
            self.wf(),
            i < self.names@.len(),
            u < self.eff(i as int).len(),
        ensures
            str_bytes(r) == self.eff(i as int)[u as int],
    {
        proof {
            assert(self.graph().contains_key(str_bytes(self.names@[i as int])));
        }
        if self.deps[i].len() == 0 {
            base_str()
        } else {
            self.deps[i][u]
        }
    }

    /// Names depended on but not declared, each once.
    fn find_missing(&self, idx: &Vec<Vec<usize>>) -> (missing: Vec<&'a str>)
        requires
            self.wf(),
            self.resolved(idx@),
        ensures
            forall|q: int| 0 <= q < missing@.len() ==> is_missing(self.graph(), str_bytes(#[trigger] missing@[q])),
            forall|q: int, r: int| 0 <= q < r < missing@.len() ==> str_bytes(missing@[q]) != str_bytes(missing@[r]),
            forall|x: Seq<u8>| is_missing(self.graph(), x) ==> exists|q: int| 0 <= q < missing@.len() && str_bytes(#[trigger] missing@[q]) == x,
    {
        let n = self.names.len();
        let ghost g = self.graph();
        let mut missing: Vec<&'a str> = Vec::new();
        let mut i: usize = 0;
        while i < n
            invariant
                self.wf(),
                self.resolved(idx@),
                g == self.graph(),
                n == self.names@.len(),
                i <= n,
                forall|q: int| 0 <= q < missing@.len() ==> is_missing(g, str_bytes(#[trigger] missing@[q])),
                forall|q: int, r: int| 0 <= q < r < missing@.len() ==> str_bytes(missing@[q]) != str_bytes(missing@[r]),
                forall|a: int, t: int| 0 <= a < i && 0 <= t < self.eff(a).len() && !g.contains_key(#[trigger] self.eff(a)[t]) ==>
                    exists|q: int| 0 <= q < missing@.len() && str_bytes(#[trigger] missing@[q]) == self.eff(a)[t],
            decreases n - i,
        {
            let mut t: usize = 0;
            while t < idx[i].len()
                invariant
                    self.wf(),
                    self.resolved(idx@),
                    g == self.graph(),
                    n == self.names@.len(),
                    i < n,
                    t <= idx@[i as int]@.len(),
                    forall|q: int| 0 <= q < missing@.len() ==> is_missing(g, str_bytes(#[trigger] missing@[q])),
                    forall|q: int, r: int| 0 <= q < r < missing@.len() ==> str_bytes(missing@[q]) != str_bytes(missing@[r]),
                    forall|a: int, u: int| 0 <= a < i && 0 <= u < self.eff(a).len() && !g.contains_key(#[trigger] self.eff(a)[u]) ==>
                        exists|q: int| 0 <= q < missing@.len() && str_bytes(#[trigger] missing@[q]) == self.eff(a)[u],
                    forall|u: int| 0 <= u < t && !g.contains_key(#[trigger] self.eff(i as int)[u]) ==>
                        exists|q: int| 0 <= q < missing@.len() && str_bytes(#[trigger] missing@[q]) == self.eff(i as int)[u],
                decreases idx@[i as int]@.len() - t,
            {
                let ghost d = self.eff(i as int)[t as int];
                let x = idx[i][t];
                assert(idx@[i as int]@[t as int] == x);
                let ghost old_missing = missing@;
                if x == n {
                    let ds = self.dep_str(i, t);
                    assert(self.graph().contains_key(str_bytes(self.names@[i as int])));
                    assert(is_missing(g, d)) by {
                        assert(deps_of(g, str_bytes(self.names@[i as int]))[t as int] == d);
                    }
                    match find_name(&missing, ds) {
                        Some(q) => {
                            assert(str_bytes(missing@[q as int]) == d);
                        },
                        None => {
                            missing.push(ds);
                            assert(str_bytes(missing@[missing@.len() - 1]) == d);
                        },
                    }
                } else {
                    assert(str_bytes(self.names@[idx@[i as int]@[t as int] as int]) == d);
                    assert(g.contains_key(d));
                }
                proof {
                    assert(forall|q: int| 0 <= q < old_missing.len() ==> missing@[q] == old_missing[q]);
                    assert forall|a: int, u: int| 0 <= a < i && 0 <= u < self.eff(a).len() && !g.contains_key(#[trigger] self.eff(a)[u]) implies
                        exists|q: int| 0 <= q < missing@.len() && str_bytes(#[trigger] missing@[q]) == self.eff(a)[u] by {
                        let q = choose|q: int| 0 <= q < old_missing.len() && str_bytes(#[trigger] old_missing[q]) == self.eff(a)[u];
                        assert(missing@[q] == old_missing[q]);
                    }
                    assert forall|u: int| 0 <= u < t + 1 && !g.contains_key(#[trigger] self.eff(i as int)[u]) implies
                        exists|q: int| 0 <= q < missing@.len() && str_bytes(#[trigger] missing@[q]) == self.eff(i as int)[u] by {
                        if u < t {
                            let q = choose|q: int| 0 <= q < old_missing.len() && str_bytes(#[trigger] old_missing[q]) == self.eff(i as int)[u];
                            assert(missing@[q] == old_missing[q]);
                        } else {
                            assert(u == t);
                            assert(!g.contains_key(d));
                            assert(x == n);
                        }
                    }
                }
                t = t + 1;
            }
            i = i + 1;
        }
        proof {
            assert forall|x: Seq<u8>| is_missing(g, x) implies exists|q: int| 0 <= q < missing@.len() && str_bytes(#[trigger] missing@[q]) == x by {
                let (m, t) = choose|m: Seq<u8>, t: int|
                    g.contains_key(m) && 0 <= t < deps_of(g, m).len() && #[trigger] deps_of(g, m)[t] == x;
                let a = choose|a: int| 0 <= a < self.names@.len() && str_bytes(self.names@[a]) == m;
                assert(self.eff(a)[t] == x);
            }
        }
        missing
    }

    /// Groups of modules on cycles: for each module on a cycle not yet in a
    /// group, the modules it reaches and is reached from.
    fn find_cycles(&self, reach: &Vec<Vec<bool>>) -> (cycles: Vec<Vec<&'a str>>)
        requires
            self.wf(),
            reach@.len() == self.names@.len(),
            forall|a: int| 0 <= a < reach@.len() ==> (#[trigger] reach@[a])@.len() == self.names@.len(),
            forall|a: int, b: int| 0 <= a < reach@.len() && 0 <= b < self.names@.len() ==>
                (#[trigger] reach@[a]@[b]) == reach_within(self.graph(), str_bytes(self.names@[a]), str_bytes(self.names@[b]), self.fuel as nat),
        ensures
            forall|q: int| 0 <= q < cycles@.len() ==> is_cycle_group(self.graph(), self.fuel as nat, strs_bytes((#[trigger] cycles@[q])@)),
            forall|x: Seq<u8>| on_cycle(self.graph(), self.fuel as nat, x) ==> exists|q: int|
                0 <= q < cycles@.len() && strs_bytes((#[trigger] cycles@[q])@).contains(x),
    {
        let n = self.names.len();
        let ghost g = self.graph();
        let ghost f = self.fuel as nat;
        let mut owner: Vec<usize> = Vec::new();
        let mut j0: usize = 0;
        while j0 < n
            invariant
                j0 <= n,
                owner@.len() == j0,
                forall|a: int| 0 <= a < j0 ==> owner@[a] == usize::MAX,
            decreases n - j0,
        {
            owner.push(usize::MAX);
            j0 = j0 + 1;
        }
        let mut cycles: Vec<Vec<&'a str>> = Vec::new();
        let mut i: usize = 0;
        while i < n
            invariant
                self.wf(),
                g == self.graph(),
                f == self.fuel as nat,
                n == self.names@.len(),
                reach@.len() == n,
                forall|a: int| 0 <= a < n ==> (#[trigger] reach@[a])@.len() == n,
                forall|a: int, b: int| 0 <= a < n && 0 <= b < n ==>
                    (#[trigger] reach@[a]@[b]) == reach_within(g, str_bytes(self.names@[a]), str_bytes(self.names@[b]), f),
                i <= n,
                owner@.len() == n,
                forall|a: int| 0 <= a < n && (#[trigger] owner@[a]) != usize::MAX ==> owner@[a] < cycles@.len()
                    && strs_bytes(cycles@[owner@[a] as int]@).contains(str_bytes(self.names@[a])),
                forall|a: int| 0 <= a < i && reach@[a]@[a] ==> (#[trigger] owner@[a]) != usize::MAX,
                forall|q: int| 0 <= q < cycles@.len() ==> is_cycle_group(g, f, strs_bytes((#[trigger] cycles@[q])@)),
                cycles@.len() <= i,
            decreases n - i,
        {
            if reach[i][i] && owner[i] == usize::MAX {
                let ghost h = str_bytes(self.names@[i as int]);
                let ghost mut hpos: int = 0;
                let mut group: Vec<&'a str> = Vec::new();
                let k = cycles.len();
                let mut j: usize = 0;
                while j < n
                    invariant
                        self.wf(),
                        g == self.graph(),
                        f == self.fuel as nat,
                        n == self.names@.len(),
                        reach@.len() == n,
                        forall|a: int| 0 <= a < n ==> (#[trigger] reach@[a])@.len() == n,
                        forall|a: int, b: int| 0 <= a < n && 0 <= b < n ==>
                            (#[trigger] reach@[a]@[b]) == reach_within(g, str_bytes(self.names@[a]), str_bytes(self.names@[b]), f),
                        i < n,
                        reach@[i as int]@[i as int],
                        h == str_bytes(self.names@[i as int]),
                        j <= n,
                        k == cycles@.len(),
                        owner@.len() == n,
                        forall|a: int| 0 <= a < n && (#[trigger] owner@[a]) != usize::MAX && owner@[a] != k ==> owner@[a] < cycles@.len()
                            && strs_bytes(cycles@[owner@[a] as int]@).contains(str_bytes(self.names@[a])),
                        forall|a: int| 0 <= a < n && (#[trigger] owner@[a]) == k ==> strs_bytes(group@).contains(str_bytes(self.names@[a])),
                        forall|a: int| 0 <= a < i && reach@[a]@[a] ==> (#[trigger] owner@[a]) != usize::MAX,
                        j > i ==> owner@[i as int] == k,
                        j > i ==> 0 <= hpos < group@.len() && str_bytes(group@[hpos]) == h,
                        cycles_through(g, f, strs_bytes(group@), h),
                        k < usize::MAX,
                    decreases n - j,
                {
                    if reach[i][j] && reach[j][i] {
                        proof {
                            if j == i {
                                hpos = group@.len() as int;
                            }
                        }
                        let ghost old_group = group@;
                        let ghost old_owner = owner@;
                        group.push(self.names[j]);
                        owner.set(j, k);
                        assert(strs_bytes(group@).last() == str_bytes(self.names@[j as int]));
                        assert forall|q: int| 0 <= q < group@.len() implies g.contains_key(#[trigger] strs_bytes(group@)[q])
                            && reach_within(g, h, strs_bytes(group@)[q], f) && reach_within(g, strs_bytes(group@)[q], h, f) by {
                            if q < old_group.len() {
                                assert(group@[q] == old_group[q]);
                                assert(strs_bytes(old_group)[q] == strs_bytes(group@)[q]);
                            } else {
                                assert(reach@[i as int]@[j as int]);
                                assert(reach@[j as int]@[i as int]);
                            }
                        }
                        assert forall|a: int| 0 <= a < n && (#[trigger] owner@[a]) == k implies strs_bytes(group@).contains(str_bytes(self.names@[a])) by {
                            if a != j {
                                assert(old_owner[a] == k);
                                assert(strs_bytes(old_group).contains(str_bytes(self.names@[a])));
                                let q = choose|q: int| 0 <= q < old_group.len() && strs_bytes(old_group)[q] == str_bytes(self.names@[a]);
                                assert(group@[q] == old_group[q]);
                                assert(strs_bytes(group@)[q] == str_bytes(self.names@[a]));
                            } else {
                                assert(strs_bytes(group@)[group@.len() - 1] == str_bytes(self.names@[a]));
                            }
                        }
                    }
                    j = j + 1;
                }
                proof {
                    assert(strs_bytes(group@)[hpos] == h);
                    assert(cycles_through(g, f, strs_bytes(group@), strs_bytes(group@)[hpos]));
                }
                let ghost old_cycles = cycles@;
                cycles.push(group);
                assert forall|a: int| 0 <= a < n && (#[trigger] owner@[a]) != usize::MAX implies owner@[a] < cycles@.len()
                    && strs_bytes(cycles@[owner@[a] as int]@).contains(str_bytes(self.names@[a])) by {
                    if owner@[a] == k {
                        assert(cycles@[k as int] == group);
                    } else {
                        assert(cycles@[owner@[a] as int] == old_cycles[owner@[a] as int]);
                    }
                }
            }
            i = i + 1;
        }
        proof {
            assert forall|x: Seq<u8>| on_cycle(g, f, x) implies exists|q: int|
                0 <= q < cycles@.len() && strs_bytes((#[trigger] cycles@[q])@).contains(x) by {
                let a = choose|a: int| 0 <= a < self.names@.len() && str_bytes(self.names@[a]) == x;
                assert(reach@[a]@[a]);
                assert(owner@[a] != usize::MAX);
                assert(strs_bytes(cycles@[owner@[a] as int]@).contains(x));
            }
        }
        cycles
    }

    /// All results of the sort: valid modules in load order, invalid ones by
    /// name, missing names and cycle groups. Records the problems in `errors`.
    fn load_order_parts(&mut self) -> (r: (Vec<&'a str>, Vec<&'a str>, Vec<&'a str>, Vec<Vec<&'a str>>))
        requires
            old(self).wf(),
        ensures
            final(self).wf(),
            final(self).graph() == old(self).graph(),
            final(self).fuel() == old(self).fuel(),
            is_load_order(old(self).graph(), old(self).fuel(), strs_bytes(r.0@)),
            is_invalid_list(old(self).graph(), old(self).fuel(), strs_bytes(r.1@)),
            is_missing_list(old(self).graph(), strs_bytes(r.2@)),
            is_cycle_list(old(self).graph(), old(self).fuel(), r.3@.map_values(|c: Vec<&'a str>| strs_bytes(c@))),
            errors_ok(old(self).graph(), old(self).fuel(), final(self).errors@),
    {
        let ghost g = self.graph();
        let ghost f = self.fuel as nat;
        let n = self.names.len();
        let idx = self.resolve_deps();
        let mut valid: Vec<bool> = Vec::new();
        let mut depth: Vec<usize> = Vec::new();
        let mut order: Vec<Vec<u8>> = Vec::new();
        let mut reach: Vec<Vec<bool>> = Vec::new();
        let mut i: usize = 0;
        while i < n
            invariant
                self.wf(),
                g == self.graph(),
                n == self.names@.len(),
                i <= n,
                valid@.len() == i,
                depth@.len() == i,
                order@.len() == i,
                reach@.len() == i,
                forall|j: int| 0 <= j < i ==> valid@[j] == valid_within(g, str_bytes(self.names@[j]), 0),
                forall|j: int| 0 <= j < i ==> depth@[j] == depth_within(g, str_bytes(self.names@[j]), 0),
                forall|j: int| 0 <= j < i ==> depth@[j] <= 0,
                forall|j: int| 0 <= j < i ==> order@[j]@ == order_name_within(g, str_bytes(self.names@[j]), 0),
                forall|a: int| 0 <= a < i ==> (#[trigger] reach@[a])@.len() == n,
                forall|a: int, b: int| 0 <= a < i && 0 <= b < n ==>
                    (#[trigger] reach@[a]@[b]) == reach_within(g, str_bytes(self.names@[a]), str_bytes(self.names@[b]), 0),
            decreases n - i,
        {
            valid.push(false);
            depth.push(0);
            order.push(copy_bytes(self.names[i].as_bytes()));
            let mut line: Vec<bool> = Vec::new();
            let mut j: usize = 0;
            while j < n
                invariant
                    j <= n,
                    line@.len() == j,
                    forall|b: int| 0 <= b < j ==> line@[b] == false,
                decreases n - j,
            {
                line.push(false);
                j = j + 1;
            }
            reach.push(line);
            i = i + 1;
        }
        let mut k: usize = 0;
        while k < self.fuel
            invariant
                self.wf(),
                self.resolved(idx@),
                g == self.graph(),
                f == self.fuel as nat,
                n == self.names@.len(),
                k <= self.fuel,
                valid@.len() == n,
                depth@.len() == n,
                order@.len() == n,
                reach@.len() == n,
                forall|j: int| 0 <= j < n ==> valid@[j] == valid_within(g, str_bytes(self.names@[j]), k as nat),
                forall|j: int| 0 <= j < n ==> depth@[j] == depth_within(g, str_bytes(self.names@[j]), k as nat),
                forall|j: int| 0 <= j < n ==> depth@[j] <= k,
                forall|j: int| 0 <= j < n ==> order@[j]@ == order_name_within(g, str_bytes(self.names@[j]), k as nat),
                forall|a: int| 0 <= a < n ==> (#[trigger] reach@[a])@.len() == n,
                forall|a: int, b: int| 0 <= a < n && 0 <= b < n ==>
                    (#[trigger] reach@[a]@[b]) == reach_within(g, str_bytes(self.names@[a]), str_bytes(self.names@[b]), k as nat),
            decreases self.fuel - k,
        {
            let nv = self.valid_round(&idx, &valid, Ghost(k as nat));
            let nd = self.depth_round(&idx, &depth, k);
            let no = self.order_round(&idx, &depth, &order, Ghost(k as nat));
            let nr = self.reach_round(&idx, &reach, Ghost(k as nat));
            valid = nv;
            depth = nd;
            order = no;
            reach = nr;
            k = k + 1;
        }
        // valid modules in load order, the others by name
        let mut sorted_idx: Vec<usize> = Vec::new();
        let mut invalid_idx: Vec<usize> = Vec::new();
        let mut i: usize = 0;
        while i < n
            invariant
                self.wf(),
                g == self.graph(),
                f == self.fuel as nat,
                n == self.names@.len(),
                i <= n,
                valid@.len() == n,
                depth@.len() == n,
                order@.len() == n,
                forall|j: int| 0 <= j < n ==> valid@[j] == valid_within(g, str_bytes(self.names@[j]), f),
                forall|j: int| 0 <= j < n ==> depth@[j] == depth_within(g, str_bytes(self.names@[j]), f),
                forall|j: int| 0 <= j < n ==> order@[j]@ == order_name_within(g, str_bytes(self.names@[j]), f),
                forall|p: int| 0 <= p < sorted_idx@.len() ==> sorted_idx@[p] < i && valid@[sorted_idx@[p] as int],
                forall|p: int| 0 <= p < invalid_idx@.len() ==> invalid_idx@[p] < i && !valid@[invalid_idx@[p] as int],
                forall|j: usize| j < i && valid@[j as int] ==> sorted_idx@.contains(j),
                forall|j: usize| j < i && !valid@[j as int] ==> invalid_idx@.contains(j),
                forall|p: int, q: int| 0 <= p < q < sorted_idx@.len() ==> sort_lt(g, f, true,
                    str_bytes(self.names@[sorted_idx@[p] as int]), str_bytes(self.names@[sorted_idx@[q] as int])),
                forall|p: int, q: int| 0 <= p < q < invalid_idx@.len() ==> sort_lt(g, f, false,
                    str_bytes(self.names@[invalid_idx@[p] as int]), str_bytes(self.names@[invalid_idx@[q] as int])),
            decreases n - i,
        {
            let ghost old_s = sorted_idx@;
            let ghost old_v = invalid_idx@;
            if valid[i] {
                self.insert_sorted(&mut sorted_idx, i, &depth, &order, true);
            } else {
                self.insert_sorted(&mut invalid_idx, i, &depth, &order, false);
            }
            proof {
                assert forall|p: int| 0 <= p < sorted_idx@.len() implies sorted_idx@[p] < i + 1 && valid@[sorted_idx@[p] as int] by {
                    assert(sorted_idx@.contains(sorted_idx@[p]));
                    if old_s.contains(sorted_idx@[p]) {
                        let q = choose|q: int| 0 <= q < old_s.len() && old_s[q] == sorted_idx@[p];
                    }
                }
                assert forall|p: int| 0 <= p < invalid_idx@.len() implies invalid_idx@[p] < i + 1 && !valid@[invalid_idx@[p] as int] by {
                    assert(invalid_idx@.contains(invalid_idx@[p]));
                    if old_v.contains(invalid_idx@[p]) {
                        let q = choose|q: int| 0 <= q < old_v.len() && old_v[q] == invalid_idx@[p];
                    }
                }
            }
            i = i + 1;
        }
        let sorted = self.names_at(&sorted_idx);
        let invalid = self.names_at(&invalid_idx);
        proof {
            let ss = strs_bytes(sorted@);
            assert forall|m: Seq<u8>| valid_within(g, m, f) implies ss.contains(m) by {
                let a = choose|a: int| 0 <= a < self.names@.len() && str_bytes(self.names@[a]) == m;
                assert(sorted_idx@.contains(a as usize));
                let p = choose|p: int| 0 <= p < sorted_idx@.len() && sorted_idx@[p] == a as usize;
                assert(ss[p] == m);
            }
            let iv = strs_bytes(invalid@);
            assert forall|m: Seq<u8>| g.contains_key(m) && !valid_within(g, m, f) implies iv.contains(m) by {
                let a = choose|a: int| 0 <= a < self.names@.len() && str_bytes(self.names@[a]) == m;
                assert(invalid_idx@.contains(a as usize));
                let p = choose|p: int| 0 <= p < invalid_idx@.len() && invalid_idx@[p] == a as usize;
                assert(iv[p] == m);
            }
            assert forall|p: int| 0 <= p < iv.len() implies g.contains_key(#[trigger] iv[p]) && !valid_within(g, iv[p], f) by {
                assert(iv[p] == str_bytes(self.names@[invalid_idx@[p] as int]));
            }
            assert forall|p: int| 0 <= p < ss.len() implies valid_within(g, #[trigger] ss[p], f) by {
                assert(ss[p] == str_bytes(self.names@[sorted_idx@[p] as int]));
            }
            assert forall|p: int, q: int| 0 <= p < q < ss.len() implies load_lt(g, f, ss[p], ss[q]) by {
                assert(ss[p] == str_bytes(self.names@[sorted_idx@[p] as int]));
                assert(ss[q] == str_bytes(self.names@[sorted_idx@[q] as int]));
                assert(sort_lt(g, f, true, ss[p], ss[q]));
            }
            assert forall|p: int, q: int| 0 <= p < q < iv.len() implies lex_lt(iv[p], iv[q]) by {
                assert(iv[p] == str_bytes(self.names@[invalid_idx@[p] as int]));
                assert(iv[q] == str_bytes(self.names@[invalid_idx@[q] as int]));
                assert(sort_lt(g, f, false, iv[p], iv[q]));
            }
        }
        let missing = self.find_missing(&idx);
        let cycles = self.find_cycles(&reach);
        let mut errors: Vec<ValidationError<'a>> = Vec::new();
        let mut q: usize = 0;
        while q < missing.len()
            invariant
                q <= missing@.len(),
                errors@.len() == q,
                forall|p: int| 0 <= p < q ==> (#[trigger] errors@[p]) == ValidationError::MissingModule(missing@[p]),
            decreases missing@.len() - q,
        {
            errors.push(ValidationError::MissingModule(missing[q]));
            q = q + 1;
        }
        let mut q: usize = 0;
        while q < cycles.len()
            invariant
                q <= cycles@.len(),
                errors@.len() == missing@.len() + q,
                forall|p: int| 0 <= p < missing@.len() ==> (#[trigger] errors@[p]) == ValidationError::MissingModule(missing@[p]),
                forall|p: int| 0 <= p < q ==> ((#[trigger] errors@[missing@.len() + p]) matches ValidationError::DependencyCycle(c) && c@ == cycles@[p]@),
            decreases cycles@.len() - q,
        {
            errors.push(ValidationError::DependencyCycle(copy_strs(&cycles[q])));
            q = q + 1;
        }
        proof {
            let ml = missing@.len() as int;
            assert forall|p: int| 0 <= p < errors@.len() implies match #[trigger] errors@[p] {
                ValidationError::MissingModule(x) => is_missing(g, str_bytes(x)),
                ValidationError::DependencyCycle(c) => is_cycle_group(g, f, strs_bytes(c@)),
            } by {
                if p >= ml {
                    assert(errors@[ml + (p - ml)] matches ValidationError::DependencyCycle(c) && c@ == cycles@[p - ml]@);
                }
            }
            assert forall|x: Seq<u8>| is_missing(g, x) implies exists|p: int|
                0 <= p < errors@.len() && ((#[trigger] errors@[p]) matches ValidationError::MissingModule(y) && str_bytes(y) == x) by {
                let p = choose|p: int| 0 <= p < missing@.len() && str_bytes(#[trigger] missing@[p]) == x;
                assert(errors@[p] == ValidationError::MissingModule(missing@[p]));
            }
            assert forall|x: Seq<u8>| on_cycle(g, f, x) implies exists|p: int|
                0 <= p < errors@.len() && ((#[trigger] errors@[p]) matches ValidationError::DependencyCycle(c) && strs_bytes(c@).contains(x)) by {
                let p = choose|p: int| 0 <= p < cycles@.len() && strs_bytes((#[trigger] cycles@[p])@).contains(x);
                assert(errors@[ml + p] matches ValidationError::DependencyCycle(c) && c@ == cycles@[p]@);
            }
            let ms = strs_bytes(missing@);
            assert forall|x: Seq<u8>| is_missing(g, x) implies ms.contains(x) by {
                let p = choose|p: int| 0 <= p < missing@.len() && str_bytes(#[trigger] missing@[p]) == x;
                assert(ms[p] == x);
            }
            let cs = cycles@.map_values(|c: Vec<&'a str>| strs_bytes(c@));
            assert forall|x: Seq<u8>| on_cycle(g, f, x) implies exists|i: int| 0 <= i < cs.len() && (#[trigger] cs[i]).contains(x) by {
                let p = choose|p: int| 0 <= p < cycles@.len() && strs_bytes((#[trigger] cycles@[p])@).contains(x);
                assert(cs[p] == strs_bytes(cycles@[p]@));
            }
        }
        self.errors = errors;
        (sorted, invalid, missing, cycles)
    }

    /// The names at the given positions.
    fn names_at(&self, at: &Vec<usize>) -> (r: Vec<&'a str>)
        requires
            forall|p: int| 0 <= p < at@.len() ==> at@[p] < self.names@.len(),
        ensures
            r@.len() == at@.len(),
            forall|p: int| 0 <= p < at@.len() ==> r@[p] == self.names@[at@[p] as int],
    {
        let mut r: Vec<&'a str> = Vec::new();
        let mut p: usize = 0;
        while p < at.len()
            invariant
                p <= at@.len(),
                forall|q: int| 0 <= q < at@.len() ==> at@[q] < self.names@.len(),
                r@.len() == p,
                forall|q: int| 0 <= q < p ==> r@[q] == self.names@[at@[q] as int],
            decreases at@.len() - p,
        {
            r.push(self.names[at[p]]);
            p = p + 1;
        }
        r
    }

    /// Sorts the modules: valid ones in load order, invalid ones by name.
    /// The problems found are left in `errors`.
    pub fn get_load_order(&mut self) -> (r: (Vec<&'a str>, Vec<&'a str>))
        requires
            old(self).wf(),
        ensures
            final(self).wf(),
            final(self).graph() == old(self).graph(),
            final(self).fuel() == old(self).fuel(),
            is_load_order(old(self).graph(), old(self).fuel(), strs_bytes(r.0@)),
            is_invalid_list(old(self).graph(), old(self).fuel(), strs_bytes(r.1@)),
            errors_ok(old(self).graph(), old(self).fuel(), final(self).errors@),
    {
        let (sorted, invalid, _missing, _cycles) = self.load_order_parts();
        (sorted, invalid)
    }

    /// One round of validation: a module is valid within `k + 1` steps when
    /// each dependency is declared and valid within `k` steps.
    fn valid_round(&self, idx: &Vec<Vec<usize>>, old: &Vec<bool>, Ghost(k): Ghost<nat>) -> (new: Vec<bool>)
        requires
            self.wf(),
            self.resolved(idx@),
            old@.len() == self.names@.len(),
            forall|j: int| 0 <= j < old@.len() ==> old@[j] == valid_within(self.graph(), str_bytes(self.names@[j]), k),
        ensures
            new@.len() == self.names@.len(),
            forall|j: int| 0 <= j < new@.len() ==> new@[j] == valid_within(self.graph(), str_bytes(self.names@[j]), (k + 1) as nat),
    {
        let n = self.names.len();
        let mut new: Vec<bool> = Vec::new();
        let mut i: usize = 0;
        while i < n
            invariant
                self.wf(),
                self.resolved(idx@),
                n == self.names@.len(),
                old@.len() == n,
                forall|j: int| 0 <= j < n ==> old@[j] == valid_within(self.graph(), str_bytes(self.names@[j]), k),
                i <= n,
                new@.len() == i,
                forall|j: int| 0 <= j < i ==> new@[j] == valid_within(self.graph(), str_bytes(self.names@[j]), (k + 1) as nat),
            decreases n - i,
        {
            let ghost e = self.eff(i as int);
            let ghost m = str_bytes(self.names@[i as int]);
            assert(self.graph().contains_key(m));
            let row = &idx[i];
            let mut ok = true;
            assert(e.take(0) =~= Seq::<Seq<u8>>::empty());
            let mut t: usize = 0;
            while t < row.len()
                invariant
                    self.wf(),
                    self.resolved(idx@),
                    n == self.names@.len(),
                    i < n,
                    old@.len() == n,
                    forall|j: int| 0 <= j < n ==> old@[j] == valid_within(self.graph(), str_bytes(self.names@[j]), k),
                    row == idx@[i as int],
                    e == self.eff(i as int),
                    row@.len() == e.len(),
                    t <= row@.len(),
                    ok == all_valid_within(self.graph(), e.take(t as int), k),
                decreases row@.len() - t,
            {
                let x = row[t];
                let ghost d = e[t as int];
                assert(idx@[i as int]@[t as int] == x);
                assert(e.take(t + 1).drop_last() =~= e.take(t as int));
                assert(e.take(t + 1).last() == d);
                if x < n {
                    assert(str_bytes(self.names@[x as int]) == d);
                    ok = ok && old[x];
                } else {
                    assert(!self.graph().contains_key(d));
                    assert(!valid_within(self.graph(), d, k));
                    ok = false;
                }
                t = t + 1;
            }
            assert(e.take(e.len() as int) =~= e);
            new.push(ok);
            i = i + 1;
        }
        new
    }
}

} // verus!
