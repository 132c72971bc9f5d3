use typer::prelude::{class, module_class_of, type_param};
use typer::prelude_arrayops2::{
    add_array_companion, add_array_ops, add_array_ops_collect, add_array_ops_filter_not_opts_part,
    add_array_ops_flat_map, add_array_ops_folds, add_array_ops_length_index_copy, add_array_ops_map,
    add_array_ops_remaining, add_array_ops_scan_left, add_array_ops_zip, add_array_ops_zip_index_size,
};
use typer::symbols::{Prim, SymKind, SymbolId, SymbolTable, Ty, FLAG_FINAL, FLAG_IMPLICIT, FLAG_PACKAGE, FLAG_PARAM};

fn names(st: &SymbolTable, owner: SymbolId) -> Vec<String> {
    st.get(owner).members.iter().map(|m| st.get(*m).name.clone()).collect()
}

/// A table with the `scala` package and, under it, `ClassTag[T]`,
/// `Tuple2[T1, T2]` and `Option[A]`; the answer holds the table, `scala`,
/// `ClassTag` and `Tuple2`.
fn scala() -> (SymbolTable, SymbolId, SymbolId, SymbolId) {
    let mut st = SymbolTable::new();
    let scala = st.new_symbol("scala", None, SymKind::Package, FLAG_PACKAGE, "scala");
    st.scala_pkg = Some(scala);
    let ct = class(&mut st, scala, "ClassTag", "scala/reflect/ClassTag", vec![]);
    let t = type_param(&mut st, ct, "T");
    st.set_tparams(ct, vec![t]);
    let tuple2 = class(&mut st, scala, "Tuple2", "scala/Tuple2", vec![]);
    let opt = class(&mut st, scala, "Option", "scala/Option", vec![]);
    st.option_sym = Some(opt);
    (st, scala, ct, tuple2)
}

fn method_type(st: &SymbolTable, m: SymbolId) -> (&Vec<Vec<Ty>>, &Ty) {
    match &st.get(m).ty {
        Ty::Method { paramss, ret } => (paramss, &**ret),
        _ => panic!("not a method"),
    }
}

fn is_param(t: &Ty, id: SymbolId) -> bool {
    matches!(t, Ty::TypeParam(x) if *x == id)
}

#[test]
fn array_ops_declares_the_value_class_and_its_table() {
    let (mut st, scala, _, _) = scala();
    let first = st.syms.len() as u32;
    let aops = add_array_ops(&mut st);
    assert_eq!(aops, SymbolId(first));
    assert_eq!(st.syms.len() as u32, first + 20);
    assert_eq!(st.get(aops).name, "ArrayOps");
    assert_eq!(st.get(aops).owner, Some(scala));
    assert_eq!(st.get(aops).jvm_name, "scala/collection/ArrayOps");
    assert!(matches!(st.get(aops).parents.as_slice(), [Ty::AnyVal]));
    let a = st.get(aops).tparams[0];
    assert_eq!(st.get(a).name, "A");
    let xs = st.get(aops).ctor_fields[0];
    assert!(matches!(&st.get(xs).ty, Ty::Array(e) if is_param(e, a)));
    let n = names(&st, aops);
    assert_eq!(n.len(), 19);
    assert_eq!(&n[..2], &["A".to_string(), "xs".to_string()]);
    assert_eq!(
        &n[2..],
        &[
            "head", "tail", "foreach", "filter", "take", "drop", "dropWhile", "exists", "count", "forall", "slice",
            "last", "init", "reverse", "size", "isEmpty", "nonEmpty"
        ]
    );
    // `head: A` takes no clause.
    let (pss, ret) = method_type(&st, SymbolId(first + 3));
    assert!(pss.is_empty());
    assert!(is_param(ret, a));
    // `slice(Int, Int): Array[A]`
    let (pss, ret) = method_type(&st, SymbolId(first + 13));
    assert!(matches!(pss[0].as_slice(), [Ty::Prim(Prim::Int), Ty::Prim(Prim::Int)]));
    assert!(matches!(ret, Ty::Array(e) if is_param(e, a)));
    // `count(A => Boolean): Int`
    let (pss, ret) = method_type(&st, SymbolId(first + 11));
    assert!(matches!(&pss[0][0], Ty::Function { params, ret } if params.len() == 1 && is_param(&params[0], a) && matches!(**ret, Ty::Prim(Prim::Boolean))));
    assert!(matches!(ret, Ty::Prim(Prim::Int)));
    assert_eq!(st.get(SymbolId(first + 3)).flags, FLAG_FINAL);
}

#[test]
fn map_takes_its_class_tag_as_an_implicit_second_clause() {
    let (mut st, _, ct, _) = scala();
    let aops = add_array_ops(&mut st);
    let a = st.get(aops).tparams[0];
    let first = st.syms.len() as u32;
    add_array_ops_map(&mut st, aops, ct);
    assert_eq!(st.syms.len() as u32, first + 4);
    let m = SymbolId(first);
    let b = SymbolId(first + 1);
    let f = SymbolId(first + 2);
    let ev = SymbolId(first + 3);
    assert_eq!(*st.get(aops).members.last().unwrap(), m);
    assert_eq!(st.get(m).name, "map");
    assert_eq!(st.get(b).name, "B");
    assert_eq!(st.get(m).tparams, vec![b]);
    assert_eq!(st.get(m).params, vec![f, ev]);
    assert_eq!(st.get(m).paramss, vec![vec![f], vec![ev]]);
    assert_eq!(st.get(f).name, "f");
    assert_eq!(st.get(f).flags, FLAG_PARAM);
    assert_eq!(st.get(ev).name, "evidence$1");
    assert_eq!(st.get(ev).flags, FLAG_PARAM | FLAG_IMPLICIT);
    assert!(matches!(&st.get(ev).ty, Ty::Class { sym, args } if *sym == ct && args.len() == 1 && is_param(&args[0], b)));
    let (pss, ret) = method_type(&st, m);
    assert_eq!(pss.len(), 2);
    assert!(matches!(&pss[0][0], Ty::Function { params, ret } if is_param(&params[0], a) && is_param(ret, b)));
    assert!(matches!(ret, Ty::Array(e) if is_param(e, b)));
}

#[test]
fn flat_map_takes_a_function_to_any() {
    let (mut st, _, ct, _) = scala();
    let aops = add_array_ops(&mut st);
    let first = st.syms.len() as u32;
    add_array_ops_flat_map(&mut st, aops, ct);
    let m = SymbolId(first);
    assert_eq!(st.get(m).name, "flatMap");
    let (pss, _) = method_type(&st, m);
    assert!(matches!(&pss[0][0], Ty::Function { ret, .. } if matches!(**ret, Ty::Any)));
}

#[test]
fn folds_come_in_order_with_their_operand_shapes() {
    let (mut st, _, _, _) = scala();
    let aops = add_array_ops(&mut st);
    let a = st.get(aops).tparams[0];
    let first = st.syms.len() as u32;
    add_array_ops_folds(&mut st, aops);
    assert_eq!(st.syms.len() as u32, first + 12);
    let n = names(&st, aops);
    assert_eq!(&n[n.len() - 3..], &["foldLeft".to_string(), "fold".to_string(), "foldRight".to_string()]);
    // foldLeft[B](z: B)(op: (B, A) => B): B
    let b = SymbolId(first + 1);
    let (pss, ret) = method_type(&st, SymbolId(first));
    assert!(is_param(&pss[0][0], b));
    assert!(matches!(&pss[1][0], Ty::Function { params, ret } if is_param(&params[0], b) && is_param(&params[1], a) && is_param(ret, b)));
    assert!(is_param(ret, b));
    // fold[A1](z: A1)(op: (A1, A1) => A1): A1
    let a1 = SymbolId(first + 5);
    assert_eq!(st.get(a1).name, "A1");
    let (pss, _) = method_type(&st, SymbolId(first + 4));
    assert!(matches!(&pss[1][0], Ty::Function { params, .. } if is_param(&params[0], a1) && is_param(&params[1], a1)));
    // foldRight[B](z: B)(op: (A, B) => B): B
    let b2 = SymbolId(first + 9);
    let (pss, _) = method_type(&st, SymbolId(first + 8));
    assert!(matches!(&pss[1][0], Ty::Function { params, .. } if is_param(&params[0], a) && is_param(&params[1], b2)));
    assert_eq!(st.get(SymbolId(first + 10)).name, "z");
    assert_eq!(st.get(SymbolId(first + 11)).name, "op");
}

#[test]
fn zip_with_index_pairs_each_element_with_an_int() {
    let (mut st, _, _, tuple2) = scala();
    let aops = add_array_ops(&mut st);
    let a = st.get(aops).tparams[0];
    let first = st.syms.len() as u32;
    add_array_ops_zip_index_size(&mut st, aops, tuple2);
    let n = names(&st, aops);
    assert_eq!(&n[n.len() - 3..], &["zipWithIndex".to_string(), "knownSize".to_string(), "sizeCompare".to_string()]);
    let (pss, ret) = method_type(&st, SymbolId(first));
    assert!(pss.is_empty());
    assert!(matches!(ret, Ty::Array(e) if matches!(&**e, Ty::Class { sym, args } if *sym == tuple2 && is_param(&args[0], a) && matches!(args[1], Ty::Prim(Prim::Int)))));
    let (pss, _) = method_type(&st, SymbolId(first + 2));
    assert!(matches!(pss[0].as_slice(), [Ty::Prim(Prim::Int)]));
}

#[test]
fn iterator_is_over_the_element_type() {
    let (mut st, scala, _, _) = scala();
    let iterator = class(&mut st, scala, "Iterator", "scala/collection/Iterator", vec![]);
    let aops = add_array_ops(&mut st);
    let a = st.get(aops).tparams[0];
    let first = st.syms.len() as u32;
    add_array_ops_length_index_copy(&mut st, aops, iterator);
    let n = names(&st, aops);
    assert_eq!(
        &n[n.len() - 5..],
        &["lengthIs", "sizeIs", "indexOf", "copyToArray", "iterator"].map(|s| s.to_string())
    );
    let (pss, _) = method_type(&st, SymbolId(first + 2));
    assert!(matches!(pss[0].as_slice(), [x, Ty::Prim(Prim::Int)] if is_param(x, a)));
    let (pss, _) = method_type(&st, SymbolId(first + 3));
    assert!(matches!(pss[0].as_slice(), [Ty::Array(e)] if is_param(e, a)));
    let (_, ret) = method_type(&st, SymbolId(first + 4));
    assert!(matches!(ret, Ty::Class { sym, args } if *sym == iterator && is_param(&args[0], a)));
}

#[test]
fn partition_split_and_span_answer_a_pair_of_arrays() {
    let (mut st, _, _, tuple2) = scala();
    let opt = st.option_sym.unwrap();
    let aops = add_array_ops(&mut st);
    let a = st.get(aops).tparams[0];
    let first = st.syms.len() as u32;
    add_array_ops_filter_not_opts_part(&mut st, aops, tuple2);
    assert_eq!(st.syms.len() as u32, first + 6);
    let n = names(&st, aops);
    assert_eq!(
        &n[n.len() - 6..],
        &["filterNot", "headOption", "lastOption", "partition", "splitAt", "span"].map(|s| s.to_string())
    );
    let (pss, ret) = method_type(&st, SymbolId(first + 1));
    assert!(pss.is_empty());
    assert!(matches!(ret, Ty::Class { sym, args } if *sym == opt && is_param(&args[0], a)));
    for k in [3u32, 4, 5] {
        let (_, ret) = method_type(&st, SymbolId(first + k));
        assert!(matches!(ret, Ty::Class { sym, args } if *sym == tuple2 && args.len() == 2
            && matches!(&args[0], Ty::Array(e) if is_param(e, a))
            && matches!(&args[1], Ty::Array(e) if is_param(e, a))));
    }
    let (pss, _) = method_type(&st, SymbolId(first + 4));
    assert!(matches!(pss[0].as_slice(), [Ty::Prim(Prim::Int)]));
}

#[test]
fn collect_refers_to_the_partial_function_class_of_scala() {
    let (mut st, scala, ct, _) = scala();
    let pf = class(&mut st, scala, "PartialFunction", "scala/PartialFunction", vec![]);
    let aops = add_array_ops(&mut st);
    let a = st.get(aops).tparams[0];
    let first = st.syms.len() as u32;
    add_array_ops_collect(&mut st, aops, ct);
    let m = SymbolId(first);
    let b = SymbolId(first + 1);
    assert_eq!(st.get(m).name, "collect");
    assert_eq!(st.get(SymbolId(first + 2)).name, "pf");
    let (pss, ret) = method_type(&st, m);
    assert!(matches!(&pss[0][0], Ty::Class { sym, args } if *sym == pf && is_param(&args[0], a) && is_param(&args[1], b)));
    assert!(matches!(&pss[1][0], Ty::Class { sym, .. } if *sym == ct));
    assert!(matches!(ret, Ty::Array(e) if is_param(e, b)));
}

#[test]
fn collect_without_a_partial_function_class_refers_to_no_symbol() {
    let (mut st, _, ct, _) = scala();
    let aops = add_array_ops(&mut st);
    let first = st.syms.len() as u32;
    add_array_ops_collect(&mut st, aops, ct);
    let (pss, _) = method_type(&st, SymbolId(first));
    assert!(matches!(&pss[0][0], Ty::Class { sym, .. } if *sym == SymbolId(u32::MAX)));
}

#[test]
fn remaining_members_find_an_option_and_index_a_range() {
    let (mut st, scala, _, _) = scala();
    let opt = st.option_sym.unwrap();
    let range = class(&mut st, scala, "Range", "scala/collection/immutable/Range", vec![]);
    let aops = add_array_ops(&mut st);
    let a = st.get(aops).tparams[0];
    let first = st.syms.len() as u32;
    add_array_ops_remaining(&mut st, aops, range);
    assert_eq!(st.syms.len() as u32, first + 8);
    let n = names(&st, aops);
    assert_eq!(
        &n[n.len() - 8..],
        &["find", "contains", "distinct", "takeRight", "dropRight", "takeWhile", "lengthCompare", "indices"]
            .map(|s| s.to_string())
    );
    let (pss, ret) = method_type(&st, SymbolId(first));
    assert!(matches!(&pss[0][0], Ty::Function { .. }));
    assert!(matches!(ret, Ty::Class { sym, args } if *sym == opt && is_param(&args[0], a)));
    let (pss, ret) = method_type(&st, SymbolId(first + 1));
    assert!(matches!(pss[0].as_slice(), [x] if is_param(x, a)));
    assert!(matches!(ret, Ty::Prim(Prim::Boolean)));
    let (pss, ret) = method_type(&st, SymbolId(first + 7));
    assert!(pss.is_empty());
    assert!(matches!(ret, Ty::Class { sym, args } if *sym == range && args.is_empty()));
}

#[test]
fn scan_left_takes_three_clauses() {
    let (mut st, _, ct, _) = scala();
    let aops = add_array_ops(&mut st);
    let a = st.get(aops).tparams[0];
    let first = st.syms.len() as u32;
    add_array_ops_scan_left(&mut st, aops, ct);
    assert_eq!(st.syms.len() as u32, first + 5);
    let m = SymbolId(first);
    let b = SymbolId(first + 1);
    assert_eq!(st.get(m).name, "scanLeft");
    assert_eq!(st.get(m).paramss, vec![vec![SymbolId(first + 2)], vec![SymbolId(first + 3)], vec![SymbolId(first + 4)]]);
    assert_eq!(st.get(SymbolId(first + 4)).flags, FLAG_PARAM | FLAG_IMPLICIT);
    let (pss, ret) = method_type(&st, m);
    assert_eq!(pss.len(), 3);
    assert!(is_param(&pss[0][0], b));
    assert!(matches!(&pss[1][0], Ty::Function { params, ret } if is_param(&params[0], b) && is_param(&params[1], a) && is_param(ret, b)));
    assert!(matches!(&pss[2][0], Ty::Class { sym, args } if *sym == ct && is_param(&args[0], b)));
    assert!(matches!(ret, Ty::Array(e) if is_param(e, b)));
}

#[test]
fn zip_declares_iterable_once_and_lets_list_extend_it() {
    let (mut st, scala, _, tuple2) = scala();
    let coll = st.new_symbol("collection", Some(scala), SymKind::Package, FLAG_PACKAGE, "scala/collection");
    let list = class(&mut st, coll, "List", "scala/collection/immutable/List", vec![Ty::AnyRef]);
    let la = type_param(&mut st, list, "A");
    st.set_tparams(list, vec![la]);
    st.list_sym = Some(list);
    let aops = add_array_ops(&mut st);
    let a = st.get(aops).tparams[0];
    let first = st.syms.len() as u32;
    add_array_ops_zip(&mut st, aops, tuple2, coll);
    assert_eq!(st.syms.len() as u32, first + 5);
    let ioc = SymbolId(first);
    assert_eq!(st.get(ioc).name, "IterableOnce");
    assert_eq!(st.get(ioc).owner, Some(coll));
    assert_eq!(st.get(ioc).tparams, vec![SymbolId(first + 1)]);
    assert_eq!(*st.get(coll).members.last().unwrap(), ioc);
    // List[A] extends IterableOnce[A], once.
    let ps = &st.get(list).parents;
    assert_eq!(ps.len(), 2);
    assert!(matches!(&ps[1], Ty::Class { sym, args } if *sym == ioc && is_param(&args[0], la)));
    let m = SymbolId(first + 2);
    let b = SymbolId(first + 3);
    assert_eq!(st.get(m).name, "zip");
    assert_eq!(st.get(SymbolId(first + 4)).name, "that");
    let (pss, ret) = method_type(&st, m);
    assert!(matches!(&pss[0][0], Ty::Class { sym, args } if *sym == ioc && is_param(&args[0], b)));
    assert!(matches!(ret, Ty::Array(e) if matches!(&**e, Ty::Class { sym, args } if *sym == tuple2 && is_param(&args[0], a) && is_param(&args[1], b))));
}

#[test]
fn zip_leaves_a_list_without_type_parameters_alone() {
    let (mut st, scala, _, tuple2) = scala();
    let coll = st.new_symbol("collection", Some(scala), SymKind::Package, FLAG_PACKAGE, "scala/collection");
    let list = class(&mut st, coll, "List", "scala/collection/immutable/List", vec![Ty::AnyRef]);
    st.list_sym = Some(list);
    let aops = add_array_ops(&mut st);
    add_array_ops_zip(&mut st, aops, tuple2, coll);
    assert_eq!(st.get(list).parents.len(), 1);
}

#[test]
fn array_companion_applies_repeated_elements() {
    let (mut st, scala, ct, _) = scala();
    let first = st.syms.len() as u32;
    let am = add_array_companion(&mut st, ct);
    assert_eq!(st.syms.len() as u32, first + 6);
    let mc = module_class_of(&st, am).unwrap();
    assert_eq!(mc, SymbolId(first));
    assert_eq!(st.get(am).name, "Array");
    assert_eq!(st.get(mc).name, "Array$");
    assert_eq!(st.get(am).owner, Some(scala));
    let apply = SymbolId(first + 2);
    assert_eq!(st.get(mc).members, vec![apply]);
    assert_eq!(st.get(am).members, vec![apply]);
    assert_eq!(st.get(apply).name, "apply");
    let t = SymbolId(first + 3);
    let (pss, ret) = method_type(&st, apply);
    assert!(matches!(&pss[0][0], Ty::Repeated(e) if is_param(e, t)));
    assert!(matches!(&pss[1][0], Ty::Class { sym, .. } if *sym == ct));
    assert!(matches!(ret, Ty::Array(e) if is_param(e, t)));
    assert_eq!(st.get(SymbolId(first + 4)).name, "xs");
}
