use typer::prelude::{class, iface, method, module, type_param};
use typer::prelude_buildfrom::{
    add_factory_evidence, add_mutable_map_removed, add_to_factory, install, link, widen_set_concat,
};
use typer::symbols::{Intrinsic, SymKind, SymbolId, SymbolTable, Ty, FLAG_FINAL, FLAG_IMPLICIT, FLAG_PACKAGE};

fn package(st: &mut SymbolTable, name: &str, jvm: &str) -> SymbolId {
    st.new_symbol(name, None, SymKind::Package, FLAG_PACKAGE, jvm)
}

fn names(st: &SymbolTable, owner: SymbolId) -> Vec<String> {
    st.get(owner).members.iter().map(|m| st.get(*m).name.clone()).collect()
}

fn generic_class(st: &mut SymbolTable, owner: SymbolId, name: &str, jvm: &str, tps: &[&str]) -> SymbolId {
    let c = class(st, owner, name, jvm, vec![]);
    let ids: Vec<SymbolId> = tps.iter().map(|t| type_param(st, c, t)).collect();
    st.set_tparams(c, ids);
    c
}

/// A table with the factory traits, `Factory`, `Tuple2`, `List` and its
/// companion, and `immutable.Map` and its companion.
fn collections() -> (SymbolTable, SymbolId) {
    let mut st = SymbolTable::new();
    let coll = package(&mut st, "collection", "scala/collection");
    iface(&mut st, coll, "IterableFactory", "scala/collection/IterableFactory");
    iface(&mut st, coll, "MapFactory", "scala/collection/MapFactory");
    iface(&mut st, coll, "Factory", "scala/collection/Factory");
    class(&mut st, coll, "Tuple2", "scala/Tuple2", vec![]);
    generic_class(&mut st, coll, "List", "scala/collection/immutable/List", &["A"]);
    module(&mut st, coll, "List", "scala/collection/immutable/List$");
    generic_class(&mut st, coll, "Map", "scala/collection/immutable/Map", &["K", "V"]);
    module(&mut st, coll, "Map", "scala/collection/immutable/Map$");
    module(&mut st, coll, "IterableFactory", "scala/collection/IterableFactory$");
    module(&mut st, coll, "MapFactory", "scala/collection/MapFactory$");
    (st, coll)
}

fn find(st: &SymbolTable, jvm: &str) -> SymbolId {
    st.find_by_jvm(jvm).expect("present")
}

#[test]
fn private_runtime_installs_nothing() {
    let (mut st, _) = collections();
    let before = st.syms.len();
    install(&mut st, false);
    assert_eq!(st.syms.len(), before);
}

#[test]
fn companions_extend_their_factory_and_get_evidence() {
    let (mut st, _) = collections();
    let fac = find(&st, "scala/collection/IterableFactory");
    let list = find(&st, "scala/collection/immutable/List");
    let list_mc = find(&st, "scala/collection/immutable/List$");
    let map_mc = find(&st, "scala/collection/immutable/Map$");
    install(&mut st, true);
    let parents = &st.get(list_mc).parents;
    assert_eq!(parents.len(), 1);
    assert!(matches!(&parents[0], Ty::Class { sym, args }
        if *sym == fac && matches!(&args[0], Ty::Class { sym: c, args: a } if *c == list && a.is_empty())));
    assert_eq!(names(&st, list_mc), vec!["iterableFactory"]);
    let ev = st.get(list_mc).members[0];
    assert_eq!(st.get(ev).flags, FLAG_FINAL | FLAG_IMPLICIT);
    assert_eq!(names(&st, map_mc), vec!["mapFactory"]);
    // the module beside `List$` is looked up under the class's own name,
    // which the prelude's `List` module does not have
    let list_mod = SymbolId(list_mc.0 + 1);
    assert!(st.get(list_mod).members.is_empty());
    // the factory trait carries no members of its own
    assert!(st.get(fac).members.is_empty());
    // `toFactory` on both factory companions
    let ifac = find(&st, "scala/collection/IterableFactory$");
    assert_eq!(names(&st, ifac), vec!["toFactory"]);
    let tf = st.get(ifac).members[0];
    assert_eq!(st.get(tf).flags, FLAG_FINAL | FLAG_IMPLICIT);
    assert_eq!(st.get(tf).tparams.len(), 2);
    match &st.get(tf).ty {
        Ty::Method { ret, .. } => match &**ret {
            Ty::Class { args, .. } => assert!(matches!(&args[1], Ty::Applied { .. })),
            _ => panic!("toFactory returns a Factory"),
        },
        _ => panic!("toFactory is a method"),
    }
    let mfac = find(&st, "scala/collection/MapFactory$");
    let mtf = st.get(mfac).members[0];
    assert_eq!(st.get(mtf).tparams.len(), 3);
}

#[test]
fn linking_twice_adds_the_edge_and_the_evidence_once() {
    let (mut st, _) = collections();
    let fac = find(&st, "scala/collection/IterableFactory");
    let list_mc = find(&st, "scala/collection/immutable/List$");
    link(&mut st, fac, "scala/collection/immutable/List$", "scala/collection/immutable/List", false);
    let after_one = st.syms.len();
    link(&mut st, fac, "scala/collection/immutable/List$", "scala/collection/immutable/List", false);
    assert_eq!(st.syms.len(), after_one);
    assert_eq!(st.get(list_mc).parents.len(), 1);
    assert_eq!(names(&st, list_mc), vec!["iterableFactory"]);
    // an absent companion links nothing
    let before = st.syms.len();
    link(&mut st, fac, "scala/collection/immutable/Vector$", "scala/collection/immutable/Vector", false);
    assert_eq!(st.syms.len(), before);
}

#[test]
fn map_evidence_needs_tuple2() {
    let mut st = SymbolTable::new();
    let coll = package(&mut st, "collection", "scala/collection");
    iface(&mut st, coll, "Factory", "scala/collection/Factory");
    let map = generic_class(&mut st, coll, "Map", "scala/collection/immutable/Map", &["K", "V"]);
    let m = module(&mut st, coll, "Map", "scala/collection/immutable/Map$");
    let mc = SymbolId(m.0 - 1);
    let before = st.syms.len();
    add_factory_evidence(&mut st, mc, map, true);
    assert_eq!(st.syms.len(), before);
    add_factory_evidence(&mut st, mc, map, false);
    assert_eq!(names(&st, mc), vec!["iterableFactory"]);
}

#[test]
fn to_factory_replaces_the_class_file_version() {
    let (mut st, _) = collections();
    let ifac = find(&st, "scala/collection/IterableFactory$");
    method(&mut st, ifac, "toFactory", vec![], Ty::Unit, Intrinsic::Plain);
    method(&mut st, ifac, "from", vec![], Ty::Unit, Intrinsic::Plain);
    add_to_factory(&mut st);
    assert_eq!(names(&st, ifac), vec!["from", "toFactory"]);
}

#[test]
fn mutable_map_gets_minus_once() {
    let mut st = SymbolTable::new();
    let coll = package(&mut st, "mutable", "scala/collection/mutable");
    let map = generic_class(&mut st, coll, "Map", "scala/collection/mutable/Map", &["K", "V"]);
    add_mutable_map_removed(&mut st);
    add_mutable_map_removed(&mut st);
    assert_eq!(names(&st, map), vec!["K", "V", "-"]);
    let minus = st.get(map).members[2];
    let k = st.get(map).tparams[0];
    assert!(matches!(&st.get(minus).ty, Ty::Method { paramss, .. } if matches!(paramss[0][0], Ty::TypeParam(x) if x == k)));
}

#[test]
fn set_concat_takes_any_iterable_once() {
    let mut st = SymbolTable::new();
    let coll = package(&mut st, "collection", "scala/collection");
    let ioc = generic_class(&mut st, coll, "IterableOnce", "scala/collection/IterableOnce", &["A"]);
    let set = generic_class(&mut st, coll, "Set", "scala/collection/immutable/Set", &["A"]);
    let a = st.get(set).tparams[0];
    let set_a = || Ty::Class { sym: set, args: vec![Ty::TypeParam(a)] };
    let plus = method(&mut st, set, "++", vec![set_a()], set_a(), Intrinsic::Plain);
    let that = st.new_symbol("that", Some(plus), SymKind::Term, 0, "");
    st.set_ty(that, set_a());
    st.set_params(plus, vec![that]);
    // a `++` of another shape is left alone
    let other = method(&mut st, set, "++", vec![Ty::Str], set_a(), Intrinsic::Plain);
    widen_set_concat(&mut st);
    let is_ioc = |t: &Ty| matches!(t, Ty::Class { sym, .. } if *sym == ioc);
    assert!(matches!(&st.get(plus).ty, Ty::Method { paramss, .. } if is_ioc(&paramss[0][0])));
    assert!(is_ioc(&st.get(that).ty));
    assert!(matches!(&st.get(other).ty, Ty::Method { paramss, .. } if matches!(paramss[0][0], Ty::Str)));
}

#[test]
fn a_module_of_the_class_name_gets_the_evidence_too() {
    let mut st = SymbolTable::new();
    let coll = package(&mut st, "immutable", "scala/collection/immutable");
    iface(&mut st, coll, "Factory", "scala/collection/Factory");
    let list = generic_class(&mut st, coll, "List", "scala/collection/immutable/List", &["A"]);
    let mc = st.new_symbol("List$", Some(coll), SymKind::ModuleClass, 0, "scala/collection/immutable/List$");
    let same = st.new_symbol("List$", Some(coll), SymKind::Module, 0, "scala/collection/immutable/List$");
    add_factory_evidence(&mut st, mc, list, false);
    assert_eq!(names(&st, mc), vec!["iterableFactory"]);
    assert_eq!(st.get(same).members, st.get(mc).members);
}
