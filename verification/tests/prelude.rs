use typer::prelude_boolbit;
use typer::prelude_boxed::{desc_of, primitive_of};
use typer::prelude_bsops;
use typer::prelude::add_scala_aliases;
use typer::symbols::{BinOp, Intrinsic, Prim, SymKind, SymbolId, SymbolTable, Ty, UnOp, FLAG_FINAL};

fn count_named(st: &SymbolTable, owner: SymbolId, name: &str) -> usize {
    st.get(owner).members.iter().filter(|&&m| st.get(m).name == name).count()
}

/// The member of `owner` named `name` whose first parameter is `arg`.
fn find(st: &SymbolTable, owner: SymbolId, name: &str, arg: Prim) -> Option<SymbolId> {
    st.get(owner).members.iter().copied().find(|&m| {
        let s = st.get(m);
        s.name == name
            && matches!(&s.ty, Ty::Method { paramss, .. }
                if matches!(paramss.first().and_then(|c| c.first()), Some(Ty::Prim(p)) if *p == arg))
    })
}

fn ret_of(st: &SymbolTable, m: SymbolId) -> Option<Prim> {
    match &st.get(m).ty {
        Ty::Method { ret, .. } => match **ret {
            Ty::Prim(p) => Some(p),
            _ => None,
        },
        _ => None,
    }
}

#[test]
fn narrow_operands_get_the_mixed_operator_table() {
    let mut st = SymbolTable::new();
    prelude_bsops::install(&mut st);
    // `Byte.+(x: Byte): Int`
    let m = find(&st, st.byte_sym, "+", Prim::Byte).expect("Byte.+(Byte)");
    assert_eq!(ret_of(&st, m), Some(Prim::Int));
    assert_eq!(st.get(m).intrinsic, Intrinsic::IntBin(BinOp::Add));
    // `Int.<(x: Short): Boolean`
    let m = find(&st, st.int_sym, "<", Prim::Short).expect("Int.<(Short)");
    assert_eq!(ret_of(&st, m), Some(Prim::Boolean));
    // `Double.*(x: Char): Double`
    let m = find(&st, st.double_sym, "*", Prim::Char).expect("Double.*(Char)");
    assert_eq!(ret_of(&st, m), Some(Prim::Double));
    assert_eq!(st.get(m).intrinsic, Intrinsic::DoubleBin(BinOp::Mul));
    // `Char.*(x: Long): Long`
    let m = find(&st, st.char_sym, "*", Prim::Long).expect("Char.*(Long)");
    assert_eq!(ret_of(&st, m), Some(Prim::Long));
    // a shift follows the left operand
    let m = find(&st, st.byte_sym, "<<", Prim::Long).expect("Byte.<<(Long)");
    assert_eq!(ret_of(&st, m), Some(Prim::Int));
    assert_eq!(st.get(m).intrinsic, Intrinsic::IntBin(BinOp::Shl));
    // `1.0 & 2` is not a Scala expression
    assert!(find(&st, st.double_sym, "&", Prim::Byte).is_none());
    // rows with no narrow side are not this table's
    assert!(find(&st, st.int_sym, "+", Prim::Long).is_none());
    // unary minus on a narrow type widens to Int
    assert_eq!(count_named(&st, st.short_sym, "unary_-"), 1);
    assert_eq!(count_named(&st, st.short_sym, "unary_~"), 1);
    assert_eq!(count_named(&st, st.int_sym, "unary_-"), 0);
}

#[test]
fn operator_table_count_and_idempotence() {
    let mut st = SymbolTable::new();
    prelude_bsops::install(&mut st);
    let after_once = st.syms.len();
    // 33 operand pairs name a narrow type: the 21 integral ones get 17
    // operators each, the 12 with a floating side 11; plus 6 unary members.
    assert_eq!(after_once, 8 + 21 * 17 + 12 * 11 + 6);
    prelude_bsops::install(&mut st);
    assert_eq!(st.syms.len(), after_once);
}

#[test]
fn operator_table_keeps_a_hand_written_declaration() {
    let mut st = SymbolTable::new();
    let byte = st.byte_sym;
    let mine = typer::prelude::prelude_method(
        &mut st,
        byte,
        "+",
        vec![Ty::Prim(Prim::Byte)],
        Ty::Prim(Prim::Int),
        Intrinsic::Plain,
    );
    prelude_bsops::install(&mut st);
    assert_eq!(find(&st, byte, "+", Prim::Byte), Some(mine));
    assert_eq!(st.get(mine).intrinsic, Intrinsic::Plain);
}

#[test]
fn rank_helpers() {
    assert_eq!(prelude_bsops::ty_of(0), Prim::Int);
    assert_eq!(prelude_bsops::ty_of(1), Prim::Long);
    assert_eq!(prelude_bsops::ty_of(2), Prim::Float);
    assert_eq!(prelude_bsops::ty_of(3), Prim::Double);
    assert_eq!(prelude_bsops::bin(2, BinOp::Rem), Intrinsic::FloatBin(BinOp::Rem));
    assert_eq!(prelude_bsops::bin(1, BinOp::Xor), Intrinsic::LongBin(BinOp::Xor));
    assert!(prelude_bsops::is_narrow(Prim::Char));
    assert!(!prelude_bsops::is_narrow(Prim::Int));
    assert_eq!(prelude_bsops::bin_name(BinOp::Ushr), ">>>");
    assert_eq!(prelude_bsops::un_name(UnOp::Inv), "unary_~");
}

#[test]
fn boolean_bitwise_and_unary_plus() {
    let mut st = SymbolTable::new();
    prelude_boolbit::install(&mut st);
    for op in ["&", "|", "^"] {
        let m = find(&st, st.boolean_sym, op, Prim::Boolean).expect("Boolean bitwise");
        assert_eq!(ret_of(&st, m), Some(Prim::Boolean));
    }
    let m = find(&st, st.boolean_sym, "&", Prim::Boolean).unwrap();
    assert_eq!(st.get(m).intrinsic, Intrinsic::BoolBin(BinOp::And));
    // unary_+ follows nsc's widening
    for (owner, ret) in [
        (st.byte_sym, Prim::Int),
        (st.char_sym, Prim::Int),
        (st.long_sym, Prim::Long),
        (st.double_sym, Prim::Double),
    ] {
        assert_eq!(count_named(&st, owner, "unary_+"), 1);
        let m = st.get(owner).members.iter().copied().find(|&m| st.get(m).name == "unary_+").unwrap();
        assert_eq!(ret_of(&st, m), Some(ret));
    }
    let n = st.syms.len();
    assert_eq!(n, 8 + 3 + 7);
    prelude_boolbit::install(&mut st);
    assert_eq!(st.syms.len(), n);
}

#[test]
fn box_descriptors() {
    assert_eq!(desc_of("java/lang/Boolean"), "Z");
    assert_eq!(desc_of("java/lang/Character"), "C");
    assert_eq!(desc_of("java/lang/Long"), "J");
    assert_eq!(desc_of("java/lang/Double"), "D");
    assert_eq!(desc_of("anything/Else"), "D");
    assert_eq!(primitive_of("java/lang/Integer"), Prim::Int);
    assert_eq!(primitive_of("java/lang/Short"), Prim::Short);
    assert_eq!(primitive_of("java/lang/Float"), Prim::Float);
}

#[test]
fn scala_aliases_enter_the_classes_that_are_present() {
    let mut st = SymbolTable::new();
    let ordering = st.new_symbol("Ordering", None, SymKind::Class, 0, "scala/math/Ordering");
    let numeric = st.new_symbol("Numeric", None, SymKind::Class, 0, "scala/math/Numeric");
    // a module of the same JVM name further on is not what is found
    let _ = st.new_symbol("Numeric", None, SymKind::Module, 0, "scala/math/Numeric");
    let big_int = st.new_symbol("BigInt", None, SymKind::Class, FLAG_FINAL, "scala/math/BigInt");
    st.enter_in_current("BigInt", big_int);
    add_scala_aliases(&mut st);
    assert_eq!(
        st.scope,
        vec![
            ("BigInt".to_string(), big_int),
            ("Ordering".to_string(), ordering),
            ("Numeric".to_string(), numeric),
        ]
    );
    assert!(st.is_entered("Numeric", numeric));
    assert!(!st.is_entered("Integral", numeric));
    // a second pass finds every alias already entered
    add_scala_aliases(&mut st);
    assert_eq!(st.scope.len(), 3);
}

#[test]
fn a_module_found_under_an_alias_is_entered_on_every_pass() {
    let mut st = SymbolTable::new();
    let module = st.new_symbol("Equiv", None, SymKind::Module, 0, "scala/math/Equiv");
    add_scala_aliases(&mut st);
    add_scala_aliases(&mut st);
    assert_eq!(st.scope, vec![("Equiv".to_string(), module), ("Equiv".to_string(), module)]);
}

#[test]
fn scala_aliases_skip_a_value_class_and_an_empty_table() {
    let mut st = SymbolTable::new();
    add_scala_aliases(&mut st);
    assert!(st.scope.is_empty());
    assert_eq!(st.find_by_jvm("scala/Int"), None);
    assert_eq!(st.find_by_jvm("scala/math/Ordering"), None);
}

#[test]
fn value_class_member_tables() {
    use_tables();
}

fn use_tables() {
    let mut st = SymbolTable::new();
    typer::prelude_anyval2::add_int_members(&mut st);
    assert_eq!(st.get(st.int_sym).members.len(), 27);
    let to_long = st.get(st.int_sym).members.iter().copied().find(|&m| st.get(m).name == "toLong").unwrap();
    assert_eq!(st.get(to_long).intrinsic, Intrinsic::IntToLong);
    assert_eq!(ret_of(&st, to_long), Some(Prim::Long));
    let to_string = st.get(st.int_sym).members[24];
    assert_eq!(st.get(to_string).name, "toString");
    assert!(matches!(&st.get(to_string).ty, Ty::Method { ret, .. } if matches!(**ret, Ty::Str)));
    assert_eq!(find(&st, st.int_sym, "+", Prim::Double).map(|m| st.get(m).intrinsic), Some(Intrinsic::DoubleBin(BinOp::Add)));
    assert_eq!(find(&st, st.int_sym, ">>>", Prim::Int).map(|m| st.get(m).intrinsic), Some(Intrinsic::IntBin(BinOp::Ushr)));
    typer::prelude_anyval2::add_long_members(&mut st);
    let to_int = st.get(st.long_sym).members.iter().copied().find(|&m| st.get(m).name == "toInt").unwrap();
    assert_eq!(st.get(to_int).intrinsic, Intrinsic::NumConv(Prim::Long, Prim::Int));
    typer::prelude_anyval2::add_double_members(&mut st);
    typer::prelude_anyval2::add_float_members(&mut st);
    typer::prelude_anyval2::add_bool_members(&mut st);
    assert_eq!(st.syms.len(), 8 + 27 + 16 + 12 + 13 + 5);
    let and = find(&st, st.boolean_sym, "&&", Prim::Boolean).unwrap();
    assert_eq!(st.get(and).intrinsic, Intrinsic::BoolBin(BinOp::CondAnd));
    assert_eq!(count_named(&st, st.boolean_sym, "unary_!"), 1);
    assert_eq!(count_named(&st, st.float_sym, "toDouble"), 1);
    // the narrow operand table then leaves `Int`'s own rows alone
    let before = st.syms.len();
    prelude_bsops::install(&mut st);
    assert_eq!(st.syms.len(), before + 495);
}

/// `&`, `|` and `^` stand on `Boolean` exactly once, however often the
/// install runs; a second run changes no member list.
#[test]
fn boolean_bitwise_stays_single_over_repeated_installs() {
    let mut st = SymbolTable::new();
    prelude_boolbit::install(&mut st);
    let members: Vec<Vec<SymbolId>> = (0..st.syms.len()).map(|i| st.get(SymbolId(i as u32)).members.clone()).collect();
    prelude_boolbit::install(&mut st);
    prelude_boolbit::install(&mut st);
    for op in ["&", "|", "^"] {
        assert_eq!(count_named(&st, st.boolean_sym, op), 1);
    }
    for (i, ms) in members.iter().enumerate() {
        assert_eq!(&st.get(SymbolId(i as u32)).members, ms);
    }
}

/// Each operator of the table lands on its own left operand's class.
#[test]
fn operator_members_belong_to_their_class() {
    let mut st = SymbolTable::new();
    prelude_bsops::install(&mut st);
    for c in [st.byte_sym, st.short_sym, st.char_sym, st.int_sym, st.long_sym, st.float_sym, st.double_sym] {
        for &m in &st.get(c).members {
            assert_eq!(st.get(m).owner, Some(c));
        }
    }
    let m = find(&st, st.float_sym, "*", Prim::Char).expect("Float.*(Char)");
    assert_eq!(ret_of(&st, m), Some(Prim::Float));
    assert_eq!(st.get(m).intrinsic, Intrinsic::FloatBin(BinOp::Mul));
}
