use typer::descriptor::desc_arity;
use typer::prelude::module;
use typer::prelude_chainusing::{add_chaining, add_using_resources};
use typer::symbols::{Intrinsic, SymKind, SymbolId, SymbolTable, Ty, FLAG_FINAL, FLAG_IMPLICIT, FLAG_PACKAGE, FLAG_PARAM};

fn package(st: &mut SymbolTable, name: &str, jvm: &str) -> SymbolId {
    st.new_symbol(name, None, SymKind::Package, FLAG_PACKAGE, jvm)
}

fn names(st: &SymbolTable, ids: &[SymbolId]) -> Vec<String> {
    ids.iter().map(|m| st.get(*m).name.clone()).collect()
}

#[test]
fn chaining_ops_pipe_tap_and_the_implicit_conversion() {
    let mut st = SymbolTable::new();
    let util = package(&mut st, "util", "scala/util");
    let first = st.syms.len() as u32;
    add_chaining(&mut st, util);
    assert_eq!(st.syms.len() as u32, first + 13);
    let ops = SymbolId(first);
    assert_eq!(st.get(ops).name, "ChainingOps");
    assert!(matches!(st.get(ops).parents[0], Ty::AnyVal));
    assert_eq!(names(&st, &st.get(ops).members), vec!["A", "self", "pipe", "tap"]);
    assert_eq!(st.get(ops).ctor_fields, vec![SymbolId(first + 2)]);
    let pipe = SymbolId(first + 3);
    let b = SymbolId(first + 4);
    assert_eq!(st.get(pipe).tparams, vec![b]);
    assert_eq!(st.get(pipe).paramss, vec![vec![SymbolId(first + 5)]]);
    // `pipe[B](f: A => B): B`
    assert!(matches!(&st.get(pipe).ty, Ty::Method { ret, .. } if matches!(**ret, Ty::TypeParam(x) if x == b)));
    // `tap[U](f: A => U): A`
    let tap = SymbolId(first + 6);
    let a = SymbolId(first + 1);
    assert!(matches!(&st.get(tap).ty, Ty::Method { ret, .. } if matches!(**ret, Ty::TypeParam(x) if x == a)));
    assert_eq!(st.get(SymbolId(first + 7)).name, "U");
    let conv = SymbolId(first + 11);
    assert_eq!(st.get(conv).name, "scalaUtilChainingOps");
    assert_eq!(st.get(conv).flags, FLAG_FINAL | FLAG_IMPLICIT);
    assert_eq!(st.get(conv).intrinsic, Intrinsic::Identity);
    assert_eq!(st.get(SymbolId(first + 10)).members, vec![conv]);
    assert_eq!(st.get(SymbolId(first + 10)).jvm_name, "scala/util/package$chaining$");
}

#[test]
fn using_resources_overloads() {
    let mut st = SymbolTable::new();
    let util = package(&mut st, "util", "scala/util");
    let releasable = st.new_symbol("Releasable", Some(util), SymKind::Class, 0, "scala/util/Using$Releasable");
    let using = module(&mut st, util, "Using", "scala/util/Using$");
    let using_cls = SymbolId(using.0 - 1);
    for n in 2..5usize {
        let first = st.syms.len() as u32;
        add_using_resources(&mut st, using_cls, releasable, n);
        assert_eq!(st.syms.len() as u32, first + 3 * n as u32 + 3);
        let m = SymbolId(first);
        let s = st.get(m);
        assert_eq!(s.name, "resources");
        assert_eq!(s.tparams.len(), n + 1);
        assert_eq!(s.params.len(), 2 * n + 1);
        assert_eq!(s.paramss.len(), 3);
        assert_eq!(desc_arity(&s.jvm_name), Some(2 * n + 1));
        let tnames = names(&st, &s.tparams);
        assert_eq!(tnames[0], "R1");
        assert_eq!(tnames[n - 1], format!("R{n}"));
        assert_eq!(tnames[n], "A");
        let pnames = names(&st, &s.params);
        assert_eq!(pnames[0], "resource1");
        assert_eq!(pnames[n], "f");
        assert_eq!(pnames[2 * n], format!("evidence${n}"));
        let ev = st.get(s.params[2 * n]);
        assert_eq!(ev.flags, FLAG_PARAM | FLAG_IMPLICIT);
        match &s.ty {
            Ty::Method { paramss, ret } => {
                assert!(matches!(paramss[0][0], Ty::TypeParam(_)));
                assert!(matches!(paramss[0][1], Ty::ByName(_)));
                assert!(matches!(&paramss[1][0], Ty::Function { params, .. } if params.len() == n));
                assert!(matches!(&paramss[2][0], Ty::Class { sym, .. } if *sym == releasable));
                assert!(matches!(**ret, Ty::TypeParam(x) if x == s.tparams[n]));
            }
            _ => panic!("resources is a method"),
        }
    }
    let two = st.get(st.get(using_cls).members[0]);
    assert_eq!(
        two.jvm_name,
        "(Ljava/lang/Object;Lscala/Function0;Lscala/Function2;Lscala/util/Using$Releasable;Lscala/util/Using$Releasable;)Ljava/lang/Object;"
    );
}

#[test]
fn using_resources_descriptor_for_ten_resources() {
    let mut st = SymbolTable::new();
    let util = package(&mut st, "util", "scala/util");
    let releasable = st.new_symbol("Releasable", Some(util), SymKind::Class, 0, "scala/util/Using$Releasable");
    add_using_resources(&mut st, util, releasable, 10);
    let m = *st.get(util).members.last().unwrap();
    let s = st.get(m);
    assert!(s.jvm_name.contains("Lscala/Function10;"));
    assert_eq!(desc_arity(&s.jvm_name), Some(21));
    assert_eq!(st.get(s.tparams[9]).name, "R10");
}
