use typer::prelude::{class, module_class_of, type_param};
use typer::prelude_arrayops2::add_array_ops;
use typer::prelude_arrconv::{
    add_array_ops_simple_extensions, add_array_ops_wrapped_conversions, add_map_view, add_numeric,
    find_iterable_once, install,
};
use typer::symbols::{Prim, SymKind, SymbolId, SymbolTable, Ty, FLAG_IMPLICIT, FLAG_PACKAGE, FLAG_PARAM};

fn names(st: &SymbolTable, owner: SymbolId) -> Vec<String> {
    st.get(owner).members.iter().map(|m| st.get(*m).name.clone()).collect()
}

fn is_param(t: &Ty, id: SymbolId) -> bool {
    matches!(t, Ty::TypeParam(x) if *x == id)
}

fn method_type(st: &SymbolTable, m: SymbolId) -> (&Vec<Vec<Ty>>, &Ty) {
    match &st.get(m).ty {
        Ty::Method { paramss, ret } => (paramss, &**ret),
        _ => panic!("not a method"),
    }
}

struct World {
    st: SymbolTable,
    scala: SymbolId,
    coll: SymbolId,
    reflect: SymbolId,
    list: SymbolId,
    list_a: SymbolId,
    ordering: SymbolId,
    tuple2: SymbolId,
}

/// `scala` with `Seq`, `IndexedSeq`, `Map`, `Set`, `Vector`, `Ordering` and
/// `Tuple2`; `scala.collection` with `List[A]`; `scala.reflect` with
/// `ClassTag`.
fn world() -> World {
    let mut st = SymbolTable::new();
    let scala = st.new_symbol("scala", None, SymKind::Package, FLAG_PACKAGE, "scala");
    st.scala_pkg = Some(scala);
    let coll = st.new_symbol("collection", Some(scala), SymKind::Package, FLAG_PACKAGE, "scala/collection");
    let reflect = st.new_symbol("reflect", Some(scala), SymKind::Package, FLAG_PACKAGE, "scala/reflect");
    for (n, j) in [
        ("Seq", "scala/collection/immutable/Seq"),
        ("IndexedSeq", "scala/collection/immutable/IndexedSeq"),
        ("Map", "scala/collection/immutable/Map"),
        ("Set", "scala/collection/immutable/Set"),
        ("Vector", "scala/collection/immutable/Vector"),
    ] {
        class(&mut st, scala, n, j, vec![]);
    }
    let ordering = class(&mut st, scala, "Ordering", "scala/math/Ordering", vec![]);
    let tuple2 = class(&mut st, scala, "Tuple2", "scala/Tuple2", vec![]);
    class(&mut st, reflect, "ClassTag", "scala/reflect/ClassTag", vec![]);
    let list = class(&mut st, coll, "List", "scala/collection/immutable/List", vec![Ty::AnyRef]);
    let list_a = type_param(&mut st, list, "A");
    st.set_tparams(list, vec![list_a]);
    st.list_sym = Some(list);
    World { st, scala, coll, reflect, list, list_a, ordering, tuple2 }
}

fn find_in(st: &SymbolTable, owner: SymbolId, name: &str) -> SymbolId {
    *st.get(owner).members.iter().find(|m| st.get(**m).name == name).unwrap()
}

#[test]
fn wrapped_conversions_come_in_order() {
    let mut w = world();
    let aops = add_array_ops(&mut w.st);
    let a = w.st.get(aops).tparams[0];
    let numeric = class(&mut w.st, w.scala, "Numeric", "scala/math/Numeric", vec![]);
    let before = w.st.get(aops).members.len();
    let first = w.st.syms.len() as u32;
    add_array_ops_wrapped_conversions(&mut w.st, aops, w.ordering, numeric);
    assert_eq!(w.st.syms.len() as u32, first + 24);
    let n = names(&w.st, aops);
    assert_eq!(
        &n[before..],
        &["toList", "toSet", "toVector", "mkString", "mkString", "mkString", "reduce", "reduceLeft", "sum", "product",
            "min", "max", "minBy", "maxBy"]
            .map(|s| s.to_string())
    );
    let set = find_in(&w.st, w.scala, "Set");
    let (_, ret) = method_type(&w.st, SymbolId(first + 1));
    assert!(matches!(ret, Ty::Class { sym, args } if *sym == set && is_param(&args[0], a)));
    let (_, ret) = method_type(&w.st, SymbolId(first));
    assert!(matches!(ret, Ty::Class { sym, .. } if *sym == w.list));
    // sum(implicit num: Numeric[A]): A
    let (pss, ret) = method_type(&w.st, SymbolId(first + 8));
    assert!(matches!(&pss[0][0], Ty::Class { sym, args } if *sym == numeric && is_param(&args[0], a)));
    assert!(is_param(ret, a));
    assert_eq!(w.st.get(SymbolId(first + 9)).name, "num");
    assert_eq!(w.st.get(SymbolId(first + 9)).flags, FLAG_PARAM | FLAG_IMPLICIT);
    // reduce(op: (A, A) => A): A
    let (pss, _) = method_type(&w.st, SymbolId(first + 6));
    assert!(matches!(&pss[0][0], Ty::Function { params, .. } if params.len() == 2));
    // maxBy[B](f: A => B)(implicit ord: Ordering[B]): A
    let (pss, ret) = method_type(&w.st, SymbolId(first + 20));
    assert_eq!(pss.len(), 2);
    assert!(is_param(ret, a));
    let (pss, _) = method_type(&w.st, SymbolId(first + 5));
    assert_eq!(pss[0].len(), 3);
}

#[test]
fn to_set_without_a_set_class_refers_to_no_symbol() {
    let mut st = SymbolTable::new();
    let scala = st.new_symbol("scala", None, SymKind::Package, FLAG_PACKAGE, "scala");
    st.scala_pkg = Some(scala);
    let aops = add_array_ops(&mut st);
    let first = st.syms.len() as u32;
    add_array_ops_wrapped_conversions(&mut st, aops, SymbolId(0), SymbolId(0));
    let (_, ret) = method_type(&st, SymbolId(first + 1));
    assert!(matches!(ret, Ty::Class { sym, .. } if *sym == SymbolId(u32::MAX)));
}

#[test]
fn numeric_has_three_implicit_instances_and_is_declared_once() {
    let mut st = SymbolTable::new();
    let math = st.new_symbol("math", None, SymKind::Package, FLAG_PACKAGE, "scala/math");
    let first = st.syms.len() as u32;
    let numeric = add_numeric(&mut st, math);
    assert_eq!(numeric, SymbolId(first));
    assert_eq!(st.syms.len() as u32, first + 10);
    let num_mod = SymbolId(first + 3);
    let num_cls = module_class_of(&st, num_mod).unwrap();
    assert_eq!(names(&st, num_cls), vec!["IntIsIntegral$", "IntIsIntegral", "LongIsIntegral$", "LongIsIntegral", "DoubleIsFractional$", "DoubleIsFractional"]);
    assert_eq!(st.get(num_mod).members, st.get(num_cls).members);
    let int_obj = SymbolId(first + 5);
    assert_eq!(st.get(int_obj).flags & FLAG_IMPLICIT, FLAG_IMPLICIT);
    assert!(matches!(&st.get(int_obj).ty, Ty::Class { sym, args } if *sym == numeric && matches!(args[0], Ty::Prim(Prim::Int))));
    assert!(matches!(st.get(SymbolId(first + 4)).parents.as_slice(), [Ty::Class { sym, .. }] if *sym == numeric));
    // a second call finds it
    let again = add_numeric(&mut st, math);
    assert_eq!(again, numeric);
    assert_eq!(st.syms.len() as u32, first + 10);
}

#[test]
fn iterable_once_is_declared_once_and_list_extends_it_once() {
    let mut w = world();
    let first = w.st.syms.len() as u32;
    let ioc = find_iterable_once(&mut w.st, w.coll);
    assert_eq!(ioc, SymbolId(first));
    assert_eq!(w.st.get(ioc).name, "IterableOnce");
    let ps = w.st.get(w.list).parents.len();
    assert_eq!(ps, 2);
    assert!(matches!(&w.st.get(w.list).parents[1], Ty::Class { sym, args } if *sym == ioc && is_param(&args[0], w.list_a)));
    let again = find_iterable_once(&mut w.st, w.coll);
    assert_eq!(again, ioc);
    assert_eq!(w.st.syms.len() as u32, first + 2);
    assert_eq!(w.st.get(w.list).parents.len(), 2);
}

#[test]
fn simple_extensions_declare_the_array_ops_extension_members() {
    let mut w = world();
    let aops = add_array_ops(&mut w.st);
    let a = w.st.get(aops).tparams[0];
    let before = w.st.get(aops).members.len();
    let first = w.st.syms.len() as u32;
    add_array_ops_simple_extensions(&mut w.st, aops, w.tuple2, w.ordering, w.reflect, w.coll);
    // no IterableOnce yet: it takes two slots
    assert_eq!(w.st.syms.len() as u32, first + 43);
    let n = names(&w.st, aops);
    assert_eq!(
        &n[before..],
        &["toSeq", "toIndexedSeq", "groupBy", "sortBy", "ord", "sorted", "sortWith", "zipAll", "indexWhere",
            "indexWhere", "lastIndexOf", "patch", "updated", "appended", "prepended", "concat", "++"]
            .map(|s| s.to_string())
    );
    let ioc = SymbolId(first + 12);
    assert_eq!(w.st.get(ioc).name, "IterableOnce");
    assert_eq!(w.st.get(w.list).parents.len(), 2);
    let map = find_in(&w.st, w.scala, "Map");
    let ct = find_in(&w.st, w.reflect, "ClassTag");
    // groupBy[K](f: A => K): Map[K, Array[A]]
    let k = SymbolId(first + 3);
    let (_, ret) = method_type(&w.st, SymbolId(first + 2));
    assert!(matches!(ret, Ty::Class { sym, args } if *sym == map && is_param(&args[0], k) && matches!(&args[1], Ty::Array(e) if is_param(e, a))));
    // sorted(implicit ord: Ordering[A]): Array[A], its parameter held by aops
    assert_eq!(w.st.get(SymbolId(first + 9)).owner, Some(aops));
    assert_eq!(w.st.get(SymbolId(first + 10)).params, vec![SymbolId(first + 9)]);
    // zipAll[B](that: IterableOnce[B], thisElem: A, thatElem: B)
    let q = first + 14;
    let (pss, _) = method_type(&w.st, SymbolId(q));
    assert!(matches!(&pss[0][0], Ty::Class { sym, .. } if *sym == ioc));
    assert_eq!(pss[0].len(), 3);
    // patch(from, other, replaced)(implicit evidence$1: ClassTag[A]): Array[A]
    let patch = SymbolId(q + 8);
    assert_eq!(w.st.get(patch).name, "patch");
    let (pss, ret) = method_type(&w.st, patch);
    assert!(matches!(&pss[0][1], Ty::Class { sym, .. } if *sym == ioc));
    assert!(matches!(&pss[1][0], Ty::Class { sym, .. } if *sym == ct));
    assert!(matches!(ret, Ty::Array(e) if is_param(e, a)));
    assert_eq!(w.st.get(SymbolId(q + 9)).name, "from");
    // updated(p0: Int, p1: A)
    assert_eq!(w.st.get(SymbolId(q + 14)).name, "p0");
    assert_eq!(w.st.get(SymbolId(q + 15)).name, "p1");
    assert_eq!(w.st.get(SymbolId(q + 16)).name, "evidence$1");
}

#[test]
fn simple_extensions_reuse_an_existing_iterable_once() {
    let mut w = world();
    let ioc = find_iterable_once(&mut w.st, w.coll);
    let aops = add_array_ops(&mut w.st);
    let first = w.st.syms.len() as u32;
    add_array_ops_simple_extensions(&mut w.st, aops, w.tuple2, w.ordering, w.reflect, w.coll);
    assert_eq!(w.st.syms.len() as u32, first + 41);
    let (pss, _) = method_type(&w.st, SymbolId(first + 12));
    assert_eq!(w.st.get(SymbolId(first + 12)).name, "zipAll");
    assert!(matches!(&pss[0][0], Ty::Class { sym, .. } if *sym == ioc));
    assert_eq!(w.st.get(w.list).parents.len(), 2);
}

/// `World` with `scala.Map[K, V]` given its type parameters.
fn with_map(w: &mut World) -> SymbolId {
    let map = find_in(&w.st, w.scala, "Map");
    let k = type_param(&mut w.st, map, "K");
    let v = type_param(&mut w.st, map, "V");
    w.st.set_tparams(map, vec![k, v]);
    map
}

#[test]
fn map_view_is_declared_with_its_members_and_map_gets_view() {
    let mut w = world();
    let map = with_map(&mut w);
    let first = w.st.syms.len() as u32;
    add_map_view(&mut w.st, map, w.tuple2, w.coll);
    let mapview = SymbolId(first);
    assert_eq!(w.st.get(mapview).name, "MapView");
    assert_eq!(w.st.get(mapview).tparams.len(), 2);
    let n = names(&w.st, mapview);
    for m in ["keys", "values", "filterKeys", "mapValues", "toMap", "toList", "toSeq", "size", "isEmpty", "foreach"] {
        assert!(n.contains(&m.to_string()), "{}", m);
    }
    let iterable = find_in(&w.st, w.coll, "Iterable");
    assert_eq!(names(&w.st, iterable)[1..].to_vec(), vec!["toList", "foreach", "size"]);
    // mapValues[W](f: V => W): MapView[K, W]
    let mvm = find_in(&w.st, mapview, "mapValues");
    let wp = w.st.get(mvm).tparams[0];
    let (pss, ret) = method_type(&w.st, mvm);
    assert_eq!(pss.len(), 1);
    assert!(matches!(ret, Ty::Class { sym, args } if *sym == mapview && is_param(&args[1], wp)));
    // Map.view: MapView[Map.K, Map.V]
    let view = *w.st.get(map).members.last().unwrap();
    assert_eq!(w.st.get(view).name, "view");
    let mk = w.st.get(map).tparams[0];
    let (_, ret) = method_type(&w.st, view);
    assert!(matches!(ret, Ty::Class { sym, args } if *sym == mapview && is_param(&args[0], mk)));
}

#[test]
fn map_view_keeps_what_is_declared_but_retypes_map_values() {
    let mut w = world();
    let map = with_map(&mut w);
    add_map_view(&mut w.st, map, w.tuple2, w.coll);
    let mapview = find_in(&w.st, w.coll, "MapView");
    let keys = find_in(&w.st, mapview, "keys");
    let before = w.st.get(mapview).members.len();
    add_map_view(&mut w.st, map, w.tuple2, w.coll);
    // only `size` is declared again; the other members are found
    assert_eq!(w.st.get(mapview).members.len(), before + 1);
    assert_eq!(find_in(&w.st, mapview, "keys"), keys);
    let mvm = find_in(&w.st, mapview, "mapValues");
    assert_eq!(w.st.get(mvm).tparams.len(), 1);
}

#[test]
fn install_puts_every_part_in_place() {
    let mut w = world();
    with_map(&mut w);
    let math = w.st.new_symbol("math", Some(w.scala), SymKind::Package, FLAG_PACKAGE, "scala/math");
    let aops = add_array_ops(&mut w.st);
    install(&mut w.st, aops, w.tuple2, w.ordering, math, w.reflect, w.coll);
    let n = names(&w.st, aops);
    for m in ["toSeq", "sorted", "patch", "++", "toList", "sum", "maxBy"] {
        assert!(n.contains(&m.to_string()), "{}", m);
    }
    assert!(names(&w.st, math).contains(&"Numeric".to_string()));
    assert!(names(&w.st, w.coll).contains(&"MapView".to_string()));
}
