use typer::ancestry::{class_sym_of, inherits_from};
use typer::symbols::{SymKind, SymbolId, SymbolTable, Ty};

fn class(st: &mut SymbolTable, name: &str) -> SymbolId {
    st.new_symbol(name, None, SymKind::Class, 0, name)
}

fn of(sym: SymbolId) -> Ty {
    Ty::Class { sym, args: vec![] }
}

#[test]
fn a_class_type_names_its_class() {
    assert_eq!(class_sym_of(&of(SymbolId(3))), Some(SymbolId(3)));
    assert_eq!(class_sym_of(&Ty::Other), None);
    assert_eq!(class_sym_of(&Ty::Unit), None);
}

#[test]
fn ancestors_are_found_through_every_parent() {
    // D extends B with C; B extends A; C extends A.
    let mut st = SymbolTable::new();
    let a = class(&mut st, "A");
    let b = class(&mut st, "B");
    let c = class(&mut st, "C");
    let d = class(&mut st, "D");
    let e = class(&mut st, "E");
    st.set_parents(b, vec![of(a)]);
    st.set_parents(c, vec![Ty::Other, of(a)]);
    st.set_parents(d, vec![of(b), of(c)]);
    assert!(inherits_from(&st, d, a));
    assert!(inherits_from(&st, d, c));
    assert!(inherits_from(&st, d, d));
    assert!(!inherits_from(&st, d, e));
    assert!(!inherits_from(&st, a, d));
    assert!(!inherits_from(&st, b, c));
}

#[test]
fn a_cycle_of_parents_ends() {
    let mut st = SymbolTable::new();
    let a = class(&mut st, "A");
    let b = class(&mut st, "B");
    let other = class(&mut st, "Other");
    st.set_parents(a, vec![of(b)]);
    st.set_parents(b, vec![of(a)]);
    assert!(inherits_from(&st, a, b));
    assert!(inherits_from(&st, b, a));
    assert!(!inherits_from(&st, a, other));
}

#[test]
fn the_walk_climbs_from_at_most_257_classes() {
    // a chain c0 <: c1 <: ... <: c299
    let mut st = SymbolTable::new();
    let ids: Vec<SymbolId> = (0..300).map(|i| class(&mut st, &format!("C{i}"))).collect();
    for i in 0..299 {
        st.set_parents(ids[i], vec![of(ids[i + 1])]);
    }
    assert!(inherits_from(&st, ids[0], ids[257]));
    assert!(!inherits_from(&st, ids[0], ids[258]));
    assert!(inherits_from(&st, ids[100], ids[299]));
}
