//! The members the prelude declares on the value classes `Int`, `Long`,
//! `Double`, `Float` and `Boolean`: their own operators, unary operators and
//! conversions, each emitted as an intrinsic.
use vstd::prelude::*;

use crate::prelude::{fresh_symbol, is_generic_method, is_prelude_method, method, method_with_tparam, slot};
use crate::prelude_bsops::{bin_name, spec_bin_name, spec_un_name, un_name};
use crate::symbols::{
    lemma_grows_fresh_slot, lemma_grows_trans, BinOp, Intrinsic, Prim, SymKind, Symbol, SymbolId, SymbolTable, Ty, UnOp,
    FLAG_FINAL,
};

verus! {

/// Which value class's table.
#[derive(Clone, Copy, PartialEq, Eq, Structural)]
pub enum MemberTable {
    Int,
    Long,
    Double,
    Float,
    Bool,
}

/// How many members a table declares.
pub open spec fn table_len(t: MemberTable) -> nat {
    match t {
        MemberTable::Int => 27,
        MemberTable::Long => 16,
        MemberTable::Double => 12,
        MemberTable::Float => 13,
        MemberTable::Bool => 5,
    }
}

/// `Int`'s own binary operators with an `Int` result, in declaration order.
pub open spec fn int_ops() -> Seq<BinOp> {
    seq![
        BinOp::Add,
        BinOp::Sub,
        BinOp::Mul,
        BinOp::Div,
        BinOp::Rem,
        BinOp::And,
        BinOp::Or,
        BinOp::Xor,
        BinOp::Shl,
        BinOp::Shr,
        BinOp::Ushr,
    ]
}

pub open spec fn arith_ops() -> Seq<BinOp> {
    seq![BinOp::Add, BinOp::Sub, BinOp::Mul, BinOp::Div, BinOp::Rem]
}

pub open spec fn compare_ops() -> Seq<BinOp> {
    seq![BinOp::Eq, BinOp::Ne, BinOp::Lt, BinOp::Le, BinOp::Gt, BinOp::Ge]
}

/// The binary intrinsic of a numeric class.
pub open spec fn bin_of(t: MemberTable, op: BinOp) -> Intrinsic {
    match t {
        MemberTable::Int => Intrinsic::IntBin(op),
        MemberTable::Long => Intrinsic::LongBin(op),
        MemberTable::Double => Intrinsic::DoubleBin(op),
        MemberTable::Float => Intrinsic::FloatBin(op),
        MemberTable::Bool => Intrinsic::BoolBin(op),
    }
}

/// The class's own type.
pub open spec fn prim_of(t: MemberTable) -> Prim {
    match t {
        MemberTable::Int => Prim::Int,
        MemberTable::Long => Prim::Long,
        MemberTable::Double => Prim::Double,
        MemberTable::Float => Prim::Float,
        MemberTable::Bool => Prim::Boolean,
    }
}

/// Member `k` of table `t`: its name, its one parameter's type (if it takes
/// one), its result and its intrinsic.
pub open spec fn member_row(t: MemberTable, k: int) -> (Seq<char>, Option<Prim>, Ty, Intrinsic) {
    let p = prim_of(t);
    match t {
        MemberTable::Int => if k < 11 {
            (spec_bin_name(int_ops()[k]), Some(p), Ty::Prim(p), bin_of(t, int_ops()[k]))
        } else if k < 17 {
            (spec_bin_name(compare_ops()[k - 11]), Some(p), Ty::Prim(Prim::Boolean), bin_of(t, compare_ops()[k - 11]))
        } else if k == 17 {
            (spec_un_name(UnOp::Neg), None, Ty::Prim(p), Intrinsic::IntUn(UnOp::Neg))
        } else if k == 18 {
            (spec_un_name(UnOp::Inv), None, Ty::Prim(p), Intrinsic::IntUn(UnOp::Inv))
        } else if k == 19 {
            ("toLong"@, None, Ty::Prim(Prim::Long), Intrinsic::IntToLong)
        } else if k == 20 {
            ("toFloat"@, None, Ty::Prim(Prim::Float), Intrinsic::IntToFloat)
        } else if k == 21 {
            ("toDouble"@, None, Ty::Prim(Prim::Double), Intrinsic::IntToDouble)
        } else if k == 22 {
            ("toByte"@, None, Ty::Prim(Prim::Byte), Intrinsic::IntToByte)
        } else if k == 23 {
            ("toShort"@, None, Ty::Prim(Prim::Short), Intrinsic::IntToShort)
        } else if k == 24 {
            ("toString"@, None, Ty::Str, Intrinsic::AnyToString)
        } else if k == 25 {
            (spec_bin_name(BinOp::Add), Some(Prim::Long), Ty::Prim(Prim::Long), Intrinsic::LongBin(BinOp::Add))
        } else {
            (spec_bin_name(BinOp::Add), Some(Prim::Double), Ty::Prim(Prim::Double), Intrinsic::DoubleBin(BinOp::Add))
        },
        MemberTable::Bool => if k == 0 {
            (spec_bin_name(BinOp::CondAnd), Some(p), Ty::Prim(p), Intrinsic::BoolBin(BinOp::CondAnd))
        } else if k == 1 {
            (spec_bin_name(BinOp::CondOr), Some(p), Ty::Prim(p), Intrinsic::BoolBin(BinOp::CondOr))
        } else if k == 2 {
            (spec_un_name(UnOp::Not), None, Ty::Prim(p), Intrinsic::BoolUn(UnOp::Not))
        } else if k == 3 {
            (spec_bin_name(BinOp::Eq), Some(p), Ty::Prim(p), Intrinsic::BoolBin(BinOp::Eq))
        } else {
            (spec_bin_name(BinOp::Ne), Some(p), Ty::Prim(p), Intrinsic::BoolBin(BinOp::Ne))
        },
        _ => if k < 5 {
            (spec_bin_name(arith_ops()[k]), Some(p), Ty::Prim(p), bin_of(t, arith_ops()[k]))
        } else if k < 11 {
            (spec_bin_name(compare_ops()[k - 5]), Some(p), Ty::Prim(Prim::Boolean), bin_of(t, compare_ops()[k - 5]))
        } else {
            match t {
                MemberTable::Long => if k == 11 {
                    (spec_un_name(UnOp::Neg), None, Ty::Prim(p), Intrinsic::LongUn(UnOp::Neg))
                } else if k == 12 {
                    (spec_un_name(UnOp::Inv), None, Ty::Prim(p), Intrinsic::LongUn(UnOp::Inv))
                } else if k == 13 {
                    ("toInt"@, None, Ty::Prim(Prim::Int), Intrinsic::NumConv(Prim::Long, Prim::Int))
                } else if k == 14 {
                    ("toDouble"@, None, Ty::Prim(Prim::Double), Intrinsic::LongToDouble)
                } else {
                    ("toFloat"@, None, Ty::Prim(Prim::Float), Intrinsic::LongToFloat)
                },
                MemberTable::Double => (spec_un_name(UnOp::Neg), None, Ty::Prim(p), Intrinsic::DoubleUn(UnOp::Neg)),
                _ => if k == 11 {
                    ("toDouble"@, None, Ty::Prim(Prim::Double), Intrinsic::FloatToDouble)
                } else {
                    (spec_un_name(UnOp::Neg), None, Ty::Prim(p), Intrinsic::FloatUn(UnOp::Neg))
                },
            }
        },
    }
}

/// The parameter list of a row.
pub open spec fn row_params(param: Option<Prim>) -> Seq<Ty> {
    match param {
        Some(p) => seq![Ty::Prim(p)],
        None => Seq::empty(),
    }
}

fn bin_intrinsic(t: MemberTable, op: BinOp) -> (r: Intrinsic)
    ensures
        r == bin_of(t, op),
{
    match t {
        MemberTable::Int => Intrinsic::IntBin(op),
        MemberTable::Long => Intrinsic::LongBin(op),
        MemberTable::Double => Intrinsic::DoubleBin(op),
        MemberTable::Float => Intrinsic::FloatBin(op),
        MemberTable::Bool => Intrinsic::BoolBin(op),
    }
}

fn table_prim(t: MemberTable) -> (p: Prim)
    ensures
        p == prim_of(t),
{
    match t {
        MemberTable::Int => Prim::Int,
        MemberTable::Long => Prim::Long,
        MemberTable::Double => Prim::Double,
        MemberTable::Float => Prim::Float,
        MemberTable::Bool => Prim::Boolean,
    }
}

fn member_row_exec(t: MemberTable, k: usize) -> (r: (&'static str, Option<Prim>, Ty, Intrinsic))
    requires
        k < table_len(t),
    ensures
        (r.0@, r.1, r.2, r.3) == member_row(t, k as int),
{
    let p = table_prim(t);
    let own = [
        BinOp::Add,
        BinOp::Sub,
        BinOp::Mul,
        BinOp::Div,
        BinOp::Rem,
        BinOp::And,
        BinOp::Or,
        BinOp::Xor,
        BinOp::Shl,
        BinOp::Shr,
        BinOp::Ushr,
    ];
    let arith = [BinOp::Add, BinOp::Sub, BinOp::Mul, BinOp::Div, BinOp::Rem];
    let compare = [BinOp::Eq, BinOp::Ne, BinOp::Lt, BinOp::Le, BinOp::Gt, BinOp::Ge];
    assert(own@ == int_ops());
    assert(arith@ == arith_ops());
    assert(compare@ == compare_ops());
    match t {
        MemberTable::Int => if k < 11 {
            let op = own[k];
            (bin_name(op), Some(p), Ty::Prim(p), bin_intrinsic(t, op))
        } else if k < 17 {
            let op = compare[k - 11];
            (bin_name(op), Some(p), Ty::Prim(Prim::Boolean), bin_intrinsic(t, op))
        } else if k == 17 {
            (un_name(UnOp::Neg), None, Ty::Prim(p), Intrinsic::IntUn(UnOp::Neg))
        } else if k == 18 {
            (un_name(UnOp::Inv), None, Ty::Prim(p), Intrinsic::IntUn(UnOp::Inv))
        } else if k == 19 {
            ("toLong", None, Ty::Prim(Prim::Long), Intrinsic::IntToLong)
        } else if k == 20 {
            ("toFloat", None, Ty::Prim(Prim::Float), Intrinsic::IntToFloat)
        } else if k == 21 {
            ("toDouble", None, Ty::Prim(Prim::Double), Intrinsic::IntToDouble)
        } else if k == 22 {
            ("toByte", None, Ty::Prim(Prim::Byte), Intrinsic::IntToByte)
        } else if k == 23 {
            ("toShort", None, Ty::Prim(Prim::Short), Intrinsic::IntToShort)
        } else if k == 24 {
            ("toString", None, Ty::Str, Intrinsic::AnyToString)
        } else if k == 25 {
            (bin_name(BinOp::Add), Some(Prim::Long), Ty::Prim(Prim::Long), Intrinsic::LongBin(BinOp::Add))
        } else {
            (bin_name(BinOp::Add), Some(Prim::Double), Ty::Prim(Prim::Double), Intrinsic::DoubleBin(BinOp::Add))
        },
        MemberTable::Bool => if k == 0 {
            (bin_name(BinOp::CondAnd), Some(p), Ty::Prim(p), Intrinsic::BoolBin(BinOp::CondAnd))
        } else if k == 1 {
            (bin_name(BinOp::CondOr), Some(p), Ty::Prim(p), Intrinsic::BoolBin(BinOp::CondOr))
        } else if k == 2 {
            (un_name(UnOp::Not), None, Ty::Prim(p), Intrinsic::BoolUn(UnOp::Not))
        } else if k == 3 {
            (bin_name(BinOp::Eq), Some(p), Ty::Prim(p), Intrinsic::BoolBin(BinOp::Eq))
        } else {
            (bin_name(BinOp::Ne), Some(p), Ty::Prim(p), Intrinsic::BoolBin(BinOp::Ne))
        },
        _ => if k < 5 {
            let op = arith[k];
            (bin_name(op), Some(p), Ty::Prim(p), bin_intrinsic(t, op))
        } else if k < 11 {
            let op = compare[k - 5];
            (bin_name(op), Some(p), Ty::Prim(Prim::Boolean), bin_intrinsic(t, op))
        } else {
            match t {
                MemberTable::Long => if k == 11 {
                    (un_name(UnOp::Neg), None, Ty::Prim(p), Intrinsic::LongUn(UnOp::Neg))
                } else if k == 12 {
                    (un_name(UnOp::Inv), None, Ty::Prim(p), Intrinsic::LongUn(UnOp::Inv))
                } else if k == 13 {
                    ("toInt", None, Ty::Prim(Prim::Int), Intrinsic::NumConv(Prim::Long, Prim::Int))
                } else if k == 14 {
                    ("toDouble", None, Ty::Prim(Prim::Double), Intrinsic::LongToDouble)
                } else {
                    ("toFloat", None, Ty::Prim(Prim::Float), Intrinsic::LongToFloat)
                },
                MemberTable::Double => (un_name(UnOp::Neg), None, Ty::Prim(p), Intrinsic::DoubleUn(UnOp::Neg)),
                _ => if k == 11 {
                    ("toDouble", None, Ty::Prim(Prim::Double), Intrinsic::FloatToDouble)
                } else {
                    (un_name(UnOp::Neg), None, Ty::Prim(p), Intrinsic::FloatUn(UnOp::Neg))
                },
            }
        },
    }
}

/// The slots a table's members are allocated in, from `len0` on.
pub open spec fn fresh_ids(len0: int, n: nat) -> Seq<SymbolId> {
    Seq::new(n, |k: int| SymbolId((len0 + k) as u32))
}

/// What declaring table `t` on `owner` leaves: the table's members, in
/// order, in fresh slots from `o`'s end on, appended to `owner`'s members.
pub open spec fn table_installed(n: SymbolTable, o: SymbolTable, owner: SymbolId, t: MemberTable) -> bool {
    let len0 = o.syms@.len() as int;
    &&& n.wf()
    &&& n.grows_from(o)
    &&& n.syms@.len() == len0 + table_len(t)
    &&& forall|k: int| 0 <= k < table_len(t) ==> {
        let (name, param, ret, ic) = #[trigger] member_row(t, k);
        is_prelude_method(n.sym(SymbolId((len0 + k) as u32)), owner, name, row_params(param), ret, ic)
    }
    &&& n.sym(owner).members@ == o.sym(owner).members@ + fresh_ids(len0, table_len(t))
    &&& forall|i: int| 0 <= i < len0 && i != owner.0 ==> (#[trigger] n.syms@[i]).members@ == o.syms@[i].members@
}

/// Declare every member of table `t` on `owner`, in order.
fn install_table(st: &mut SymbolTable, owner: SymbolId, t: MemberTable)
    requires
        old(st).wf(),
        old(st).valid(owner),
        old(st).syms@.len() + 30 < u32::MAX,
    ensures
        table_installed(*final(st), *old(st), owner, t),
{
    let ghost st0 = *st;
    let ghost len0 = st0.syms@.len() as int;
    let n: usize = match t {
        MemberTable::Int => 27,
        MemberTable::Long => 16,
        MemberTable::Double => 12,
        MemberTable::Float => 13,
        MemberTable::Bool => 5,
    };
    let mut k: usize = 0;
    while k < n
        invariant
            n == table_len(t),
            k <= n,
            st0.wf(),
            st0.valid(owner),
            len0 == st0.syms@.len(),
            len0 + 30 < u32::MAX,
            st.wf(),
            st.grows_from(st0),
            st.syms@.len() == len0 + k,
            forall|j: int| 0 <= j < k ==> {
                let (name, param, ret, ic) = #[trigger] member_row(t, j);
                is_prelude_method(st.sym(SymbolId((len0 + j) as u32)), owner, name, row_params(param), ret, ic)
            },
            st.sym(owner).members@ == st0.sym(owner).members@ + fresh_ids(len0, k as nat),
            forall|i: int| 0 <= i < len0 && i != owner.0 ==> (#[trigger] st.syms@[i]).members@ == st0.syms@[i].members@,
        decreases n - k,
    {
        let (name, param, ret, ic) = member_row_exec(t, k);
        let params: Vec<Ty> = match param {
            Some(p) => vec![Ty::Prim(p)],
            None => Vec::new(),
        };
        assert(params@ == row_params(param));
        let ghost before = *st;
        let id = method(st, owner, name, params, ret, ic);
        proof {
            lemma_grows_trans(st0, before, *st);
            assert(id == SymbolId((len0 + k) as u32));
            assert forall|j: int| 0 <= j < k + 1 implies {
                let (name, param, ret, ic) = #[trigger] member_row(t, j);
                is_prelude_method(st.sym(SymbolId((len0 + j) as u32)), owner, name, row_params(param), ret, ic)
            } by {
                if j < k {
                    let x = SymbolId((len0 + j) as u32);
                    assert(st.syms@[x.0 as int].same_except_members(before.syms@[x.0 as int]));
                    let _ = member_row(t, j);
                }
            }
            assert(st.sym(owner).members@ =~= st0.sym(owner).members@ + fresh_ids(len0, (k + 1) as nat));
        }
        k += 1;
    }
}

/// `Int`'s own operators, unary operators and conversions.
pub fn add_int_members(st: &mut SymbolTable)
    requires
        old(st).wf(),
        old(st).syms@.len() + 30 < u32::MAX,
    ensures
        table_installed(*final(st), *old(st), old(st).int_sym, MemberTable::Int),
{
    let c = st.int_sym;
    install_table(st, c, MemberTable::Int);
}

/// `Long`'s own operators, unary operators and conversions.
pub fn add_long_members(st: &mut SymbolTable)
    requires
        old(st).wf(),
        old(st).syms@.len() + 30 < u32::MAX,
    ensures
        table_installed(*final(st), *old(st), old(st).long_sym, MemberTable::Long),
{
    let c = st.long_sym;
    install_table(st, c, MemberTable::Long);
}

/// `Double`'s own operators and negation.
pub fn add_double_members(st: &mut SymbolTable)
    requires
        old(st).wf(),
        old(st).syms@.len() + 30 < u32::MAX,
    ensures
        table_installed(*final(st), *old(st), old(st).double_sym, MemberTable::Double),
{
    let c = st.double_sym;
    install_table(st, c, MemberTable::Double);
}

/// `Float`'s own operators, `toDouble` and negation.
pub fn add_float_members(st: &mut SymbolTable)
    requires
        old(st).wf(),
        old(st).syms@.len() + 30 < u32::MAX,
    ensures
        table_installed(*final(st), *old(st), old(st).float_sym, MemberTable::Float),
{
    let c = st.float_sym;
    install_table(st, c, MemberTable::Float);
}

/// `Boolean`'s `&&`, `||`, `unary_!`, `==` and `!=`.
pub fn add_bool_members(st: &mut SymbolTable)
    requires
        old(st).wf(),
        old(st).syms@.len() + 30 < u32::MAX,
    ensures
        table_installed(*final(st), *old(st), old(st).boolean_sym, MemberTable::Bool),
{
    let c = st.boolean_sym;
    install_table(st, c, MemberTable::Bool);
}

/// Row `c` of `String`'s full member table: name, parameter types, result
/// and intrinsic. Rows 3 and 10 to 13 (`isEmpty`, `length` and the parsing
/// conversions) are declared only for the private runtime.
pub open spec fn string_full_row(c: int) -> (Seq<char>, Seq<Ty>, Ty, Intrinsic) {
    if c == 0 {
        ("+"@, seq![Ty::Any], Ty::Str, Intrinsic::StringConcat)
    } else if c == 1 {
        ("charAt"@, seq![Ty::Prim(Prim::Int)], Ty::Prim(Prim::Char), Intrinsic::Plain)
    } else if c == 2 {
        ("concat"@, seq![Ty::Str], Ty::Str, Intrinsic::Plain)
    } else if c == 3 {
        ("isEmpty"@, Seq::empty(), Ty::Prim(Prim::Boolean), Intrinsic::Plain)
    } else if c == 4 {
        ("equals"@, seq![Ty::Any], Ty::Prim(Prim::Boolean), Intrinsic::Plain)
    } else if c == 5 {
        ("toString"@, Seq::empty(), Ty::Str, Intrinsic::Identity)
    } else if c == 6 {
        ("startsWith"@, seq![Ty::Str], Ty::Prim(Prim::Boolean), Intrinsic::Plain)
    } else if c == 7 {
        ("endsWith"@, seq![Ty::Str], Ty::Prim(Prim::Boolean), Intrinsic::Plain)
    } else if c == 8 {
        ("indexOf"@, seq![Ty::Str], Ty::Prim(Prim::Int), Intrinsic::Plain)
    } else if c == 9 {
        ("split"@, seq![Ty::Str], Ty::Array(Box::new(Ty::Str)), Intrinsic::Plain)
    } else if c == 10 {
        ("length"@, Seq::empty(), Ty::Prim(Prim::Int), Intrinsic::Plain)
    } else if c == 11 {
        ("toInt"@, Seq::empty(), Ty::Prim(Prim::Int), Intrinsic::StringToInt)
    } else if c == 12 {
        ("toLong"@, Seq::empty(), Ty::Prim(Prim::Long), Intrinsic::StringToLong)
    } else {
        ("toDouble"@, Seq::empty(), Ty::Prim(Prim::Double), Intrinsic::StringToDouble)
    }
}

/// How many members `String` gets: nine against the library, fourteen for
/// the private runtime.
pub open spec fn string_member_count(library_abi: bool) -> nat {
    if library_abi { 9 } else { 14 }
}

/// The row of the full table that member `k` of `String` is: against the
/// library, the full table without row 3 (and without the last four).
pub open spec fn string_row_index(library_abi: bool, k: int) -> int {
    if library_abi && k >= 3 { k + 1 } else { k }
}

/// Row `c` of `String`'s full member table.
fn string_full_row_at(c: usize) -> (r: (&'static str, Vec<Ty>, Ty, Intrinsic))
    requires
        c < 14,
    ensures
        (r.0@, r.1@, r.2, r.3) == string_full_row(c as int),
{
    let r = match c {
        0 => ("+", vec![Ty::Any], Ty::Str, Intrinsic::StringConcat),
        1 => ("charAt", vec![Ty::Prim(Prim::Int)], Ty::Prim(Prim::Char), Intrinsic::Plain),
        2 => ("concat", vec![Ty::Str], Ty::Str, Intrinsic::Plain),
        3 => ("isEmpty", Vec::new(), Ty::Prim(Prim::Boolean), Intrinsic::Plain),
        4 => ("equals", vec![Ty::Any], Ty::Prim(Prim::Boolean), Intrinsic::Plain),
        5 => ("toString", Vec::new(), Ty::Str, Intrinsic::Identity),
        6 => ("startsWith", vec![Ty::Str], Ty::Prim(Prim::Boolean), Intrinsic::Plain),
        7 => ("endsWith", vec![Ty::Str], Ty::Prim(Prim::Boolean), Intrinsic::Plain),
        8 => ("indexOf", vec![Ty::Str], Ty::Prim(Prim::Int), Intrinsic::Plain),
        9 => ("split", vec![Ty::Str], Ty::Array(Box::new(Ty::Str)), Intrinsic::Plain),
        10 => ("length", Vec::new(), Ty::Prim(Prim::Int), Intrinsic::Plain),
        11 => ("toInt", Vec::new(), Ty::Prim(Prim::Int), Intrinsic::StringToInt),
        12 => ("toLong", Vec::new(), Ty::Prim(Prim::Long), Intrinsic::StringToLong),
        _ => ("toDouble", Vec::new(), Ty::Prim(Prim::Double), Intrinsic::StringToDouble),
    };
    assert(r.1@ == string_full_row(c as int).1);
    r
}

/// `java.lang.String`'s members: `+` (concatenation), `charAt`, `concat`,
/// `equals`, `toString`, `startsWith`, `endsWith`, `indexOf` and `split`;
/// for the private runtime (not `library_abi`) also `isEmpty`, `length`,
/// `toInt`, `toLong` and `toDouble`.
pub fn add_string_members(st: &mut SymbolTable, library_abi: bool)
    requires
        old(st).wf(),
        old(st).string_sym is Some,
        old(st).syms@.len() + 14 < u32::MAX,
    ensures
        final(st).wf(),
        final(st).grows_from(*old(st)),
        final(st).syms@.len() == old(st).syms@.len() + string_member_count(library_abi),
        forall|k: int| 0 <= k < string_member_count(library_abi) ==> {
            let (name, params, ret, ic) = #[trigger] string_full_row(string_row_index(library_abi, k));
            is_prelude_method(
                final(st).sym(SymbolId((old(st).syms@.len() + k) as u32)),
                old(st).string_sym.unwrap(),
                name,
                params,
                ret,
                ic,
            )
        },
        final(st).sym(old(st).string_sym.unwrap()).members@ == old(st).sym(old(st).string_sym.unwrap()).members@
            + fresh_ids(old(st).syms@.len() as int, string_member_count(library_abi)),
{
    let ghost st0 = *st;
    let ghost len0 = st0.syms@.len() as int;
    let owner = st.string_sym.unwrap();
    let n: usize = if library_abi { 9 } else { 14 };
    let mut k: usize = 0;
    while k < n
        invariant
            n == string_member_count(library_abi),
            k <= n,
            st0.wf(),
            st0.valid(owner),
            len0 == st0.syms@.len(),
            len0 + 14 < u32::MAX,
            st.wf(),
            st.grows_from(st0),
            st.syms@.len() == len0 + k,
            forall|j: int| 0 <= j < k ==> {
                let (name, params, ret, ic) = #[trigger] string_full_row(string_row_index(library_abi, j));
                is_prelude_method(st.sym(SymbolId((len0 + j) as u32)), owner, name, params, ret, ic)
            },
            st.sym(owner).members@ == st0.sym(owner).members@ + fresh_ids(len0, k as nat),
        decreases n - k,
    {
        let c: usize = if library_abi && k >= 3 { k + 1 } else { k };
        let (name, params, ret, ic) = string_full_row_at(c);
        let ghost before = *st;
        let id = method(st, owner, name, params, ret, ic);
        proof {
            lemma_grows_trans(st0, before, *st);
            assert(id == SymbolId((len0 + k) as u32));
            assert forall|j: int| 0 <= j < k + 1 implies {
                let (name, params, ret, ic) = #[trigger] string_full_row(string_row_index(library_abi, j));
                is_prelude_method(st.sym(SymbolId((len0 + j) as u32)), owner, name, params, ret, ic)
            } by {
                if j < k {
                    let x = SymbolId((len0 + j) as u32);
                    assert(st.syms@[x.0 as int].same_except_members(before.syms@[x.0 as int]));
                    let _ = string_full_row(string_row_index(library_abi, j));
                }
            }
            assert(st.sym(owner).members@ =~= st0.sym(owner).members@ + fresh_ids(len0, (k + 1) as nat));
        }
        k += 1;
    }
}

/// The members every value has, on `Any` (`==`, `!=`, `equals`, `hashCode`,
/// `toString`, `asInstanceOf[T0]`, `isInstanceOf[T0]`,
/// `synchronized[T0](=> T0)`), and reference equality `eq` / `ne` on
/// `AnyRef`, from slot `l` on.
pub open spec fn any_members_installed(n: SymbolTable, l: int, any: SymbolId, anyref: SymbolId) -> bool {
    let boolean = Ty::Prim(Prim::Boolean);
    &&& is_prelude_method(n.sym(slot(l, 0)), any, "=="@, seq![Ty::Any], boolean, Intrinsic::AnyEq)
    &&& is_prelude_method(n.sym(slot(l, 1)), any, "!="@, seq![Ty::Any], boolean, Intrinsic::AnyNe)
    &&& is_prelude_method(n.sym(slot(l, 2)), any, "equals"@, seq![Ty::Any], boolean, Intrinsic::Plain)
    &&& is_prelude_method(n.sym(slot(l, 3)), any, "hashCode"@, Seq::empty(), Ty::Prim(Prim::Int), Intrinsic::Plain)
    &&& is_prelude_method(n.sym(slot(l, 4)), any, "toString"@, Seq::empty(), Ty::Str, Intrinsic::AnyToString)
    &&& is_generic_method(
        n.sym(slot(l, 5)),
        any,
        "asInstanceOf"@,
        Seq::empty(),
        Ty::TypeParam(slot(l, 6)),
        Intrinsic::AsInstanceOf,
        slot(l, 6),
    )
    &&& is_generic_method(n.sym(slot(l, 7)), any, "isInstanceOf"@, Seq::empty(), boolean, Intrinsic::IsInstanceOf, slot(l, 8))
    &&& is_generic_method(
        n.sym(slot(l, 9)),
        any,
        "synchronized"@,
        seq![seq![Ty::ByName(Box::new(Ty::TypeParam(slot(l, 10))))]],
        Ty::TypeParam(slot(l, 10)),
        Intrinsic::Synchronized,
        slot(l, 10),
    )
    &&& forall|k: int| #![trigger slot(l, k)] k == 6 || k == 8 || k == 10 ==> {
        &&& fresh_symbol(n.sym(slot(l, k)), "T0"@, SymKind::TypeParam, Some(slot(l, k - 1)), 0, ""@)
        &&& n.sym(slot(l, k)).ty == Ty::TypeParam(slot(l, k))
    }
    &&& is_prelude_method(n.sym(slot(l, 11)), anyref, "eq"@, seq![Ty::AnyRef], boolean, Intrinsic::RefEq)
    &&& is_prelude_method(n.sym(slot(l, 12)), anyref, "ne"@, seq![Ty::AnyRef], boolean, Intrinsic::RefNe)
}

/// The members of `Any` and `AnyRef`.
#[verifier::spinoff_prover]
#[verifier::rlimit(40)]
pub fn add_any_members(st: &mut SymbolTable)
    requires
        old(st).wf(),
        old(st).any_sym is Some,
        old(st).anyref_sym is Some,
        old(st).syms@.len() + 13 < u32::MAX,
    ensures
        final(st).wf(),
        final(st).grows_from(*old(st)),
        final(st).syms@.len() == old(st).syms@.len() + 13,
        any_members_installed(*final(st), old(st).syms@.len() as int, old(st).any_sym.unwrap(), old(st).anyref_sym.unwrap()),
        ({
            let l = old(st).syms@.len() as int;
            let any = old(st).any_sym.unwrap();
            let anyref = old(st).anyref_sym.unwrap();
            let on_any = seq![slot(l, 0), slot(l, 1), slot(l, 2), slot(l, 3), slot(l, 4), slot(l, 5), slot(l, 7), slot(l, 9)];
            let on_anyref = seq![slot(l, 11), slot(l, 12)];
            if any == anyref {
                final(st).sym(any).members@ == old(st).sym(any).members@ + on_any + on_anyref
            } else {
                &&& final(st).sym(any).members@ == old(st).sym(any).members@ + on_any
                &&& final(st).sym(anyref).members@ == old(st).sym(anyref).members@ + on_anyref
            }
        }),
{
    let ghost st0 = *st;
    let ghost l = st0.syms@.len() as int;
    let any = st.any_sym.unwrap();
    let anyref = st.anyref_sym.unwrap();
    let p0 = vec![Ty::Any];
    let ghost p0g = p0@;
    let eq = method(st, any, "==", p0, Ty::Prim(Prim::Boolean), Intrinsic::AnyEq);
    let ghost s0 = *st;
    let p1 = vec![Ty::Any];
    let ghost p1g = p1@;
    let ne = method(st, any, "!=", p1, Ty::Prim(Prim::Boolean), Intrinsic::AnyNe);
    let ghost s1 = *st;
    let p2 = vec![Ty::Any];
    let ghost p2g = p2@;
    let equals = method(st, any, "equals", p2, Ty::Prim(Prim::Boolean), Intrinsic::Plain);
    let ghost s2 = *st;
    let hash = method(st, any, "hashCode", Vec::new(), Ty::Prim(Prim::Int), Intrinsic::Plain);
    let ghost s3 = *st;
    let to_string = method(st, any, "toString", Vec::new(), Ty::Str, Intrinsic::AnyToString);
    let ghost s4 = *st;
    let (as_instance_of, aio_t) = method_with_tparam(st, any, "asInstanceOf", Vec::new(), Ty::Any, Intrinsic::AsInstanceOf, "T0");
    let ghost s5 = *st;
    let aio_ty = Ty::Method { paramss: Vec::new(), ret: Box::new(Ty::TypeParam(aio_t)) };
    let ghost aio_tg = aio_ty;
    st.set_ty(as_instance_of, aio_ty);
    let ghost s6 = *st;
    proof {
        lemma_grows_fresh_slot(s4, s5, s6, as_instance_of, Symbol { ty: aio_tg, ..s5.sym(as_instance_of) });
        match aio_tg {
            Ty::Method { paramss, .. } => assert(paramss@.map_values(|c: Vec<Ty>| c@) =~= Seq::<Seq<Ty>>::empty()),
            _ => {},
        }
    }
    let (is_instance_of, iio_t) = method_with_tparam(st, any, "isInstanceOf", Vec::new(), Ty::Prim(Prim::Boolean), Intrinsic::IsInstanceOf, "T0");
    let ghost s7 = *st;
    let sp = vec![Ty::ByName(Box::new(Ty::Any))];
    let (sync, t0) = method_with_tparam(st, any, "synchronized", sp, Ty::Any, Intrinsic::Synchronized, "T0");
    let ghost s8 = *st;
    let clause = vec![Ty::ByName(Box::new(Ty::TypeParam(t0)))];
    let ghost clg = clause@;
    assert(clg == seq![Ty::ByName(Box::new(Ty::TypeParam(t0)))]);
    let clauses = vec![clause];
    let ghost cg = clauses;
    let sync_ty = Ty::Method { paramss: clauses, ret: Box::new(Ty::TypeParam(t0)) };
    let ghost sync_tg = sync_ty;
    st.set_ty(sync, sync_ty);
    let ghost s9 = *st;
    proof {
        lemma_grows_fresh_slot(s7, s8, s9, sync, Symbol { ty: sync_tg, ..s8.sym(sync) });
        assert(cg@.map_values(|c: Vec<Ty>| c@) =~= seq![seq![Ty::ByName(Box::new(Ty::TypeParam(t0)))]]);
    }
    let p3 = vec![Ty::AnyRef];
    let ghost p3g = p3@;
    let ref_eq = method(st, anyref, "eq", p3, Ty::Prim(Prim::Boolean), Intrinsic::RefEq);
    let ghost s10 = *st;
    let p4 = vec![Ty::AnyRef];
    let ghost p4g = p4@;
    let ref_ne = method(st, anyref, "ne", p4, Ty::Prim(Prim::Boolean), Intrinsic::RefNe);
    proof {
        lemma_grows_trans(st0, s0, s1);
        lemma_grows_trans(st0, s1, s2);
        lemma_grows_trans(st0, s2, s3);
        lemma_grows_trans(st0, s3, s4);
        lemma_grows_trans(st0, s4, s6);
        lemma_grows_trans(st0, s6, s7);
        lemma_grows_trans(st0, s7, s9);
        lemma_grows_trans(st0, s9, s10);
        lemma_grows_trans(st0, s10, *st);
        assert(p0g == seq![Ty::Any] && p1g == seq![Ty::Any] && p2g == seq![Ty::Any]);
        assert(p3g == seq![Ty::AnyRef] && p4g == seq![Ty::AnyRef]);
        assert(eq == slot(l, 0) && ne == slot(l, 1) && equals == slot(l, 2) && hash == slot(l, 3) && to_string == slot(l, 4));
        assert(as_instance_of == slot(l, 5) && aio_t == slot(l, 6) && is_instance_of == slot(l, 7) && iio_t == slot(l, 8));
        assert(sync == slot(l, 9) && t0 == slot(l, 10) && ref_eq == slot(l, 11) && ref_ne == slot(l, 12));
        assert(st.syms@[eq.0 as int].same_except_members(s0.syms@[eq.0 as int]));
        assert(st.syms@[ne.0 as int].same_except_members(s1.syms@[ne.0 as int]));
        assert(st.syms@[equals.0 as int].same_except_members(s2.syms@[equals.0 as int]));
        assert(st.syms@[hash.0 as int].same_except_members(s3.syms@[hash.0 as int]));
        assert(st.syms@[to_string.0 as int].same_except_members(s4.syms@[to_string.0 as int]));
        assert(st.syms@[as_instance_of.0 as int].same_except_members(s6.syms@[as_instance_of.0 as int]));
        assert(s6.syms@[aio_t.0 as int] == s5.syms@[aio_t.0 as int]);
        assert(st.syms@[aio_t.0 as int].same_except_members(s6.syms@[aio_t.0 as int]));
        assert(st.syms@[is_instance_of.0 as int].same_except_members(s7.syms@[is_instance_of.0 as int]));
        assert(st.syms@[iio_t.0 as int].same_except_members(s7.syms@[iio_t.0 as int]));
        assert(st.syms@[sync.0 as int].same_except_members(s9.syms@[sync.0 as int]));
        assert(s9.syms@[t0.0 as int] == s8.syms@[t0.0 as int]);
        assert(st.syms@[t0.0 as int].same_except_members(s9.syms@[t0.0 as int]));
        assert(st.syms@[ref_eq.0 as int].same_except_members(s10.syms@[ref_eq.0 as int]));
        assert(is_generic_method(st.sym(as_instance_of), any, "asInstanceOf"@, Seq::empty(), Ty::TypeParam(aio_t), Intrinsic::AsInstanceOf, aio_t));
        assert(is_generic_method(st.sym(sync), any, "synchronized"@, seq![seq![Ty::ByName(Box::new(Ty::TypeParam(t0)))]], Ty::TypeParam(t0), Intrinsic::Synchronized, t0));
        let on_any = seq![slot(l, 0), slot(l, 1), slot(l, 2), slot(l, 3), slot(l, 4), slot(l, 5), slot(l, 7), slot(l, 9)];
        let on_anyref = seq![slot(l, 11), slot(l, 12)];
        if any == anyref {
            assert(st.sym(any).members@ =~= st0.sym(any).members@ + on_any + on_anyref);
        } else {
            assert(st.sym(any).members@ =~= st0.sym(any).members@ + on_any);
            assert(st.sym(anyref).members@ =~= st0.sym(anyref).members@ + on_anyref);
        }
    }
}

/// `scala.Array`'s `length`, `apply(Int): Any`, `update(Int, Any)` and
/// `clone()`, whose one clause is empty.
pub fn add_array_members(st: &mut SymbolTable)
    requires
        old(st).wf(),
        old(st).array_sym is Some,
        old(st).syms@.len() + 4 < u32::MAX,
    ensures
        final(st).wf(),
        final(st).grows_from(*old(st)),
        final(st).syms@.len() == old(st).syms@.len() + 4,
        ({
            let l = old(st).syms@.len() as int;
            let c = old(st).array_sym.unwrap();
            &&& is_prelude_method(final(st).sym(slot(l, 0)), c, "length"@, Seq::empty(), Ty::Prim(Prim::Int), Intrinsic::Plain)
            &&& is_prelude_method(final(st).sym(slot(l, 1)), c, "apply"@, seq![Ty::Prim(Prim::Int)], Ty::Any, Intrinsic::Plain)
            &&& is_prelude_method(
                final(st).sym(slot(l, 2)),
                c,
                "update"@,
                seq![Ty::Prim(Prim::Int), Ty::Any],
                Ty::Unit,
                Intrinsic::Plain,
            )
            &&& {
                let s = final(st).sym(slot(l, 3));
                &&& s.name@ == "clone"@
                &&& s.kind == SymKind::Method
                &&& s.owner == Some(c)
                &&& s.flags == FLAG_FINAL
                &&& s.intrinsic == Intrinsic::Plain
                &&& SymbolTable::method_shape(s.ty) == Some((seq![Seq::<Ty>::empty()], Ty::Any))
            }
            &&& final(st).sym(c).members@ == old(st).sym(c).members@ + seq![slot(l, 0), slot(l, 1), slot(l, 2), slot(l, 3)]
        }),
{
    let ghost st0 = *st;
    let ghost l = st0.syms@.len() as int;
    let c = st.array_sym.unwrap();
    let length = method(st, c, "length", Vec::new(), Ty::Prim(Prim::Int), Intrinsic::Plain);
    let ghost s1 = *st;
    let pa = vec![Ty::Prim(Prim::Int)];
    let ghost pag = pa@;
    let apply = method(st, c, "apply", pa, Ty::Any, Intrinsic::Plain);
    let ghost s2 = *st;
    let pu = vec![Ty::Prim(Prim::Int), Ty::Any];
    let ghost pug = pu@;
    let update = method(st, c, "update", pu, Ty::Unit, Intrinsic::Plain);
    let ghost s3 = *st;
    let cl = method(st, c, "clone", Vec::new(), Ty::Any, Intrinsic::Plain);
    let ghost s4 = *st;
    let empty_clause: Vec<Ty> = Vec::new();
    let clauses = vec![empty_clause];
    let ghost cg = clauses;
    let cl_ty = Ty::Method { paramss: clauses, ret: Box::new(Ty::Any) };
    let ghost cl_tg = cl_ty;
    st.set_ty(cl, cl_ty);
    proof {
        lemma_grows_fresh_slot(s3, s4, *st, cl, Symbol { ty: cl_tg, ..s4.sym(cl) });
        lemma_grows_trans(st0, s1, s2);
        lemma_grows_trans(st0, s2, s3);
        lemma_grows_trans(st0, s3, *st);
        assert(cg@.map_values(|v: Vec<Ty>| v@) =~= seq![Seq::<Ty>::empty()]);
        assert(pag == seq![Ty::Prim(Prim::Int)] && pug == seq![Ty::Prim(Prim::Int), Ty::Any]);
        assert(length == slot(l, 0) && apply == slot(l, 1) && update == slot(l, 2) && cl == slot(l, 3));
        assert(st.syms@[length.0 as int].same_except_members(s1.syms@[length.0 as int]));
        assert(st.syms@[apply.0 as int].same_except_members(s2.syms@[apply.0 as int]));
        assert(st.syms@[update.0 as int].same_except_members(s3.syms@[update.0 as int]));
        assert(st.sym(c).members@ =~= st0.sym(c).members@ + seq![slot(l, 0), slot(l, 1), slot(l, 2), slot(l, 3)]);
    }
}

} // verus!
