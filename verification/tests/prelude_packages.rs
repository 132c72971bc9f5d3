use typer::prelude::{add_annotation_pkg, add_java_sam};
use typer::prelude_bignum::{add_big_decimal, add_big_int};
use typer::symbols::{
    SymKind, SymbolId, SymbolTable, Ty, Prim, FLAG_ABSTRACT, FLAG_FINAL, FLAG_IMPLICIT, FLAG_INTERFACE, FLAG_JAVA,
    FLAG_MODULE, FLAG_PACKAGE, FLAG_PARAM, FLAG_TRAIT,
};

fn package(st: &mut SymbolTable, name: &str, jvm: &str) -> SymbolId {
    st.new_symbol(name, None, SymKind::Package, FLAG_PACKAGE, jvm)
}

fn is_class_of(t: &Ty, id: SymbolId) -> bool {
    matches!(t, Ty::Class { sym, args } if *sym == id && args.is_empty())
}

/// The one parameter of a one-clause method type, and its result.
fn unary(t: &Ty) -> (&Ty, &Ty) {
    match t {
        Ty::Method { paramss, ret } => {
            assert_eq!(paramss.len(), 1);
            assert_eq!(paramss[0].len(), 1);
            (&paramss[0][0], &**ret)
        }
        _ => panic!("not a method type"),
    }
}

#[test]
fn java_sam_interfaces_have_one_abstract_method_each() {
    let mut st = SymbolTable::new();
    let java = package(&mut st, "java", "java");
    let lang = package(&mut st, "lang", "java/lang");
    let first = st.syms.len() as u32;
    add_java_sam(&mut st, java, lang);
    assert_eq!(st.syms.len() as u32, first + 11);
    let runnable = SymbolId(first);
    let iface = FLAG_INTERFACE | FLAG_ABSTRACT | FLAG_TRAIT | FLAG_JAVA;
    assert_eq!(st.get(runnable).name, "Runnable");
    assert_eq!(st.get(runnable).flags, iface);
    assert_eq!(st.get(runnable).owner, Some(lang));
    let run = SymbolId(first + 1);
    assert_eq!(st.get(run).name, "run");
    assert_eq!(st.get(run).flags, FLAG_ABSTRACT);
    assert!(matches!(&st.get(run).ty, Ty::Method { paramss, ret } if paramss.is_empty() && matches!(**ret, Ty::Unit)));
    assert_eq!(st.get(runnable).members, vec![run]);
    let util = SymbolId(first + 2);
    assert_eq!(st.get(util).jvm_name, "java/util");
    assert_eq!(st.get(util).owner, Some(java));
    let comparator = SymbolId(first + 3);
    assert_eq!(st.get(comparator).jvm_name, "java/util/Comparator");
    assert_eq!(st.get(comparator).tparams, vec![SymbolId(first + 4)]);
    let compare = SymbolId(first + 5);
    assert_eq!(st.get(compare).name, "compare");
    assert!(matches!(&st.get(compare).ty, Ty::Method { paramss, ret }
        if paramss.len() == 1 && paramss[0].len() == 2 && matches!(**ret, Ty::Prim(Prim::Int))));
    let function = SymbolId(first + 7);
    assert_eq!(st.get(function).name, "Function");
    assert_eq!(st.get(function).owner, Some(SymbolId(first + 6)));
    assert_eq!(st.get(function).tparams, vec![SymbolId(first + 8), SymbolId(first + 9)]);
    assert_eq!(st.get(SymbolId(first + 9)).name, "R");
    let (p, r) = unary(&st.get(SymbolId(first + 10)).ty);
    assert!(matches!(p, Ty::TypeParam(x) if *x == SymbolId(first + 8)));
    assert!(matches!(r, Ty::TypeParam(x) if *x == SymbolId(first + 9)));
}

#[test]
fn annotation_package_and_static_annotations() {
    let mut st = SymbolTable::new();
    let scala = package(&mut st, "scala", "scala");
    st.scala_pkg = Some(scala);
    let first = st.syms.len() as u32;
    add_annotation_pkg(&mut st);
    assert_eq!(st.syms.len() as u32, first + 14);
    let pkg = SymbolId(first);
    assert_eq!(st.get(pkg).jvm_name, "scala/annotation");
    assert_eq!(st.get(pkg).owner, Some(scala));
    let annotation = SymbolId(first + 1);
    assert_eq!(st.get(annotation).flags, FLAG_ABSTRACT);
    let init = SymbolId(first + 2);
    assert_eq!(st.get(init).name, "<init>");
    assert!(matches!(&st.get(init).ty, Ty::Method { paramss, ret } if paramss.is_empty() && is_class_of(ret, annotation)));
    let static_annot = SymbolId(first + 3);
    assert_eq!(st.get(static_annot).name, "StaticAnnotation");
    assert_eq!(st.get(static_annot).flags, FLAG_INTERFACE | FLAG_ABSTRACT | FLAG_TRAIT);
    assert!(is_class_of(&st.get(static_annot).parents[0], annotation));
    let not_found = SymbolId(first + 5);
    assert_eq!(st.get(not_found).name, "implicitNotFound");
    assert_eq!(st.get(not_found).ctor_fields, vec![SymbolId(first + 6)]);
    assert_eq!(st.get(SymbolId(first + 6)).flags, FLAG_PARAM);
    assert!(matches!(st.get(SymbolId(first + 6)).ty, Ty::Str));
    assert_eq!(st.get(SymbolId(first + 8)).jvm_name, "scala/annotation/unchecked/uncheckedVariance");
    let names: Vec<&str> = (9..14).map(|k| st.get(SymbolId(first + k)).name.as_str()).collect();
    assert_eq!(names, vec!["inline", "noinline", "volatile", "transient", "native"]);
    for k in 9..14 {
        let s = st.get(SymbolId(first + k));
        assert_eq!(s.owner, Some(scala));
        assert!(is_class_of(&s.parents[0], static_annot));
    }
}

#[test]
fn big_int_has_operators_apply_and_an_implicit_conversion() {
    let mut st = SymbolTable::new();
    let math = package(&mut st, "math", "scala/math");
    let first = st.syms.len() as u32;
    add_big_int(&mut st, math);
    assert_eq!(st.syms.len() as u32, first + 8);
    let big = SymbolId(first);
    assert_eq!(st.get(big).name, "BigInt");
    assert_eq!(st.get(big).jvm_name, "scala/math/BigInt");
    assert_eq!(st.get(big).flags, FLAG_FINAL);
    assert!(matches!(st.get(big).parents[0], Ty::AnyRef));
    assert_eq!(st.get(big).members, vec![SymbolId(first + 1), SymbolId(first + 2)]);
    assert_eq!(st.get(SymbolId(first + 1)).name, "+");
    assert_eq!(st.get(SymbolId(first + 2)).name, "*");
    let (p, r) = unary(&st.get(SymbolId(first + 2)).ty);
    assert!(is_class_of(p, big) && is_class_of(r, big));
    let mcls = SymbolId(first + 3);
    let module = SymbolId(first + 4);
    assert_eq!(st.get(mcls).name, "BigInt$");
    assert_eq!(st.get(mcls).flags, FLAG_MODULE | FLAG_FINAL);
    assert_eq!(st.get(module).jvm_name, "scala/math/BigInt$");
    let applies = vec![SymbolId(first + 5), SymbolId(first + 6), SymbolId(first + 7)];
    assert_eq!(st.get(mcls).members, applies);
    assert_eq!(st.get(module).members, applies);
    let (p, r) = unary(&st.get(SymbolId(first + 5)).ty);
    assert!(matches!(p, Ty::Prim(Prim::Int)) && is_class_of(r, big));
    let (p, _) = unary(&st.get(SymbolId(first + 6)).ty);
    assert!(matches!(p, Ty::Str));
    let conv = st.get(SymbolId(first + 7));
    assert_eq!(conv.name, "int2bigInt");
    assert_eq!(conv.flags, FLAG_FINAL | FLAG_IMPLICIT);
    assert_eq!(st.get(math).members, vec![big, mcls, module]);
}

#[test]
fn big_decimal_has_no_implicit_conversion() {
    let mut st = SymbolTable::new();
    let math = package(&mut st, "math", "scala/math");
    let first = st.syms.len() as u32;
    add_big_decimal(&mut st, math);
    assert_eq!(st.syms.len() as u32, first + 7);
    assert_eq!(st.get(SymbolId(first)).name, "BigDecimal");
    assert_eq!(st.get(SymbolId(first + 3)).name, "BigDecimal$");
    let module = SymbolId(first + 4);
    assert_eq!(st.get(module).members, vec![SymbolId(first + 5), SymbolId(first + 6)]);
    assert!(st.get(module).members.iter().all(|m| st.get(*m).name == "apply"));
}
