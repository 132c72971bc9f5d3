//! `Byte`, `Short` and `Char` as operands of the numeric operators.
//!
//! nsc declares the mixed-type operator table on `scala.Byte`, `scala.Short`
//! and `scala.Char`, and lists `Byte`/`Short`/`Char` among every class's
//! operand types too -- `Byte.+(x: Byte): Int`, `Int.<(x: Short): Boolean`,
//! `Double.*(x: Char): Double` and so on. The rows and columns that mention a
//! narrow type are installed here.
//!
//! On the JVM `Byte`, `Short` and `Char` are all `int`, so they share a
//! promotion rank with `Int` and the `IntBin` / `LongBin` / `FloatBin` /
//! `DoubleBin` intrinsics cover every combination.
use vstd::prelude::*;
use vstd::string::*;

use crate::prelude::{is_prelude_method, prelude_method};
use crate::symbols::{adds_owned, lemma_adds_owned_trans, lemma_no_new_members, lemma_declares_kept, lemma_grows_trans, prims_distinct, BinOp, Intrinsic, Prim, Symbol, SymbolId, SymbolTable, Ty, UnOp};

verus! {

/// The name a binary operator is declared under.
pub open spec fn spec_bin_name(op: BinOp) -> Seq<char> {
    match op {
        BinOp::Add => seq!['+'],
        BinOp::Sub => seq!['-'],
        BinOp::Mul => seq!['*'],
        BinOp::Div => seq!['/'],
        BinOp::Rem => seq!['%'],
        BinOp::Eq => seq!['=', '='],
        BinOp::Ne => seq!['!', '='],
        BinOp::Lt => seq!['<'],
        BinOp::Le => seq!['<', '='],
        BinOp::Gt => seq!['>'],
        BinOp::Ge => seq!['>', '='],
        BinOp::And => seq!['&'],
        BinOp::Or => seq!['|'],
        BinOp::Xor => seq!['^'],
        BinOp::Shl => seq!['<', '<'],
        BinOp::Shr => seq!['>', '>'],
        BinOp::Ushr => seq!['>', '>', '>'],
        BinOp::CondAnd => seq!['&', '&'],
        BinOp::CondOr => seq!['|', '|'],
    }
}

pub fn bin_name(op: BinOp) -> (r: &'static str)
    ensures
        r@ == spec_bin_name(op),
{
    match op {
        BinOp::Add => { proof { reveal_strlit("+"); } "+" },
        BinOp::Sub => { proof { reveal_strlit("-"); } "-" },
        BinOp::Mul => { proof { reveal_strlit("*"); } "*" },
        BinOp::Div => { proof { reveal_strlit("/"); } "/" },
        BinOp::Rem => { proof { reveal_strlit("%"); } "%" },
        BinOp::Eq => { proof { reveal_strlit("=="); } "==" },
        BinOp::Ne => { proof { reveal_strlit("!="); } "!=" },
        BinOp::Lt => { proof { reveal_strlit("<"); } "<" },
        BinOp::Le => { proof { reveal_strlit("<="); } "<=" },
        BinOp::Gt => { proof { reveal_strlit(">"); } ">" },
        BinOp::Ge => { proof { reveal_strlit(">="); } ">=" },
        BinOp::And => { proof { reveal_strlit("&"); } "&" },
        BinOp::Or => { proof { reveal_strlit("|"); } "|" },
        BinOp::Xor => { proof { reveal_strlit("^"); } "^" },
        BinOp::Shl => { proof { reveal_strlit("<<"); } "<<" },
        BinOp::Shr => { proof { reveal_strlit(">>"); } ">>" },
        BinOp::Ushr => { proof { reveal_strlit(">>>"); } ">>>" },
        BinOp::CondAnd => { proof { reveal_strlit("&&"); } "&&" },
        BinOp::CondOr => { proof { reveal_strlit("||"); } "||" },
    }
}

/// The name a unary operator is declared under.
pub open spec fn spec_un_name(op: UnOp) -> Seq<char> {
    match op {
        UnOp::Neg => seq!['u', 'n', 'a', 'r', 'y', '_', '-'],
        UnOp::Inv => seq!['u', 'n', 'a', 'r', 'y', '_', '~'],
        UnOp::Plus => seq!['u', 'n', 'a', 'r', 'y', '_', '+'],
        UnOp::Not => seq!['u', 'n', 'a', 'r', 'y', '_', '!'],
    }
}

pub fn un_name(op: UnOp) -> (r: &'static str)
    ensures
        r@ == spec_un_name(op),
{
    match op {
        UnOp::Neg => { proof { reveal_strlit("unary_-"); } "unary_-" },
        UnOp::Inv => { proof { reveal_strlit("unary_~"); } "unary_~" },
        UnOp::Plus => { proof { reveal_strlit("unary_+"); } "unary_+" },
        UnOp::Not => { proof { reveal_strlit("unary_!"); } "unary_!" },
    }
}

pub open spec fn is_arith(op: BinOp) -> bool {
    op == BinOp::Add || op == BinOp::Sub || op == BinOp::Mul || op == BinOp::Div || op == BinOp::Rem
}

pub open spec fn is_compare(op: BinOp) -> bool {
    op == BinOp::Eq || op == BinOp::Ne || op == BinOp::Lt || op == BinOp::Le || op == BinOp::Gt
        || op == BinOp::Ge
}

pub open spec fn is_bitwise(op: BinOp) -> bool {
    op == BinOp::And || op == BinOp::Or || op == BinOp::Xor
}

pub open spec fn is_shift(op: BinOp) -> bool {
    op == BinOp::Shl || op == BinOp::Shr || op == BinOp::Ushr
}

/// The operators of each group, in declaration order: arithmetic,
/// comparison, bitwise, shift.
pub open spec fn group_ops(group: int) -> Seq<BinOp> {
    if group == 0 {
        seq![BinOp::Add, BinOp::Sub, BinOp::Mul, BinOp::Div, BinOp::Rem]
    } else if group == 1 {
        seq![BinOp::Eq, BinOp::Ne, BinOp::Lt, BinOp::Le, BinOp::Gt, BinOp::Ge]
    } else if group == 2 {
        seq![BinOp::And, BinOp::Or, BinOp::Xor]
    } else {
        seq![BinOp::Shl, BinOp::Shr, BinOp::Ushr]
    }
}

pub open spec fn in_group(op: BinOp, group: int) -> bool {
    if group == 0 {
        is_arith(op)
    } else if group == 1 {
        is_compare(op)
    } else if group == 2 {
        is_bitwise(op)
    } else {
        is_shift(op)
    }
}

pub proof fn lemma_group_ops(group: int)
    requires
        0 <= group < 4,
    ensures
        forall|op: BinOp| in_group(op, group) <==> group_ops(group).contains(op),
{
    let g = group_ops(group);
    assert forall|op: BinOp| in_group(op, group) implies g.contains(op) by {
        match op {
            BinOp::Add => assert(g[0] == op),
            BinOp::Sub => assert(g[1] == op),
            BinOp::Mul => assert(g[2] == op),
            BinOp::Div => assert(g[3] == op),
            BinOp::Rem => assert(g[4] == op),
            BinOp::Eq => assert(g[0] == op),
            BinOp::Ne => assert(g[1] == op),
            BinOp::Lt => assert(g[2] == op),
            BinOp::Le => assert(g[3] == op),
            BinOp::Gt => assert(g[4] == op),
            BinOp::Ge => assert(g[5] == op),
            BinOp::And => assert(g[0] == op),
            BinOp::Or => assert(g[1] == op),
            BinOp::Xor => assert(g[2] == op),
            BinOp::Shl => assert(g[0] == op),
            BinOp::Shr => assert(g[1] == op),
            BinOp::Ushr => assert(g[2] == op),
            BinOp::CondAnd | BinOp::CondOr => {},
        }
    }
}

fn group_ops_exec(group: u8) -> (r: Vec<BinOp>)
    requires
        group < 4,
    ensures
        r@ == group_ops(group as int),
{
    let r = if group == 0 {
        vec![BinOp::Add, BinOp::Sub, BinOp::Mul, BinOp::Div, BinOp::Rem]
    } else if group == 1 {
        vec![BinOp::Eq, BinOp::Ne, BinOp::Lt, BinOp::Le, BinOp::Gt, BinOp::Ge]
    } else if group == 2 {
        vec![BinOp::And, BinOp::Or, BinOp::Xor]
    } else {
        vec![BinOp::Shl, BinOp::Shr, BinOp::Ushr]
    };
    assert(r@ =~= group_ops(group as int));
    r
}

/// The promotion rank of each numeric operand: `Byte`, `Short`, `Char` and
/// `Int` are all rank 0 (`int`), then `Long`, `Float`, `Double`.
pub open spec fn rank(p: Prim) -> Option<u8> {
    match p {
        Prim::Boolean => None,
        Prim::Byte => Some(0),
        Prim::Short => Some(0),
        Prim::Char => Some(0),
        Prim::Int => Some(0),
        Prim::Long => Some(1),
        Prim::Float => Some(2),
        Prim::Double => Some(3),
    }
}

/// Every operand type of the numeric tower, with its rank.
pub open spec fn operand(i: int) -> (u8, Prim) {
    if i == 0 {
        (0, Prim::Byte)
    } else if i == 1 {
        (0, Prim::Short)
    } else if i == 2 {
        (0, Prim::Char)
    } else if i == 3 {
        (0, Prim::Int)
    } else if i == 4 {
        (1, Prim::Long)
    } else if i == 5 {
        (2, Prim::Float)
    } else {
        (3, Prim::Double)
    }
}

pub proof fn lemma_operands()
    ensures
        forall|i: int| 0 <= i < 7 ==> rank((#[trigger] operand(i)).1) == Some(operand(i).0),
        forall|p: Prim| rank(p) is Some ==> exists|i: int| 0 <= i < 7 && #[trigger] operand(i).1 == p,
{
    assert forall|p: Prim| rank(p) is Some implies exists|i: int| 0 <= i < 7 && #[trigger] operand(i).1 == p by {
        match p {
            Prim::Byte => assert(operand(0).1 == p),
            Prim::Short => assert(operand(1).1 == p),
            Prim::Char => assert(operand(2).1 == p),
            Prim::Int => assert(operand(3).1 == p),
            Prim::Long => assert(operand(4).1 == p),
            Prim::Float => assert(operand(5).1 == p),
            Prim::Double => assert(operand(6).1 == p),
            Prim::Boolean => {},
        }
    }
}

fn operand_exec(i: usize) -> (r: (u8, Prim))
    requires
        i < 7,
    ensures
        r == operand(i as int),
{
    if i == 0 {
        (0, Prim::Byte)
    } else if i == 1 {
        (0, Prim::Short)
    } else if i == 2 {
        (0, Prim::Char)
    } else if i == 3 {
        (0, Prim::Int)
    } else if i == 4 {
        (1, Prim::Long)
    } else if i == 5 {
        (2, Prim::Float)
    } else {
        (3, Prim::Double)
    }
}

pub open spec fn spec_is_narrow(t: Prim) -> bool {
    t == Prim::Byte || t == Prim::Short || t == Prim::Char
}

pub fn is_narrow(t: Prim) -> (r: bool)
    ensures
        r == spec_is_narrow(t),
{
    t == Prim::Byte || t == Prim::Short || t == Prim::Char
}

pub open spec fn spec_ty_of(rank: u8) -> Prim {
    if rank == 0 {
        Prim::Int
    } else if rank == 1 {
        Prim::Long
    } else if rank == 2 {
        Prim::Float
    } else {
        Prim::Double
    }
}

/// The type a rank promotes to.
pub fn ty_of(rank: u8) -> (r: Prim)
    ensures
        r == spec_ty_of(rank),
{
    if rank == 0 {
        Prim::Int
    } else if rank == 1 {
        Prim::Long
    } else if rank == 2 {
        Prim::Float
    } else {
        Prim::Double
    }
}

pub open spec fn spec_bin(rank: u8, op: BinOp) -> Intrinsic {
    if rank == 0 {
        Intrinsic::IntBin(op)
    } else if rank == 1 {
        Intrinsic::LongBin(op)
    } else if rank == 2 {
        Intrinsic::FloatBin(op)
    } else {
        Intrinsic::DoubleBin(op)
    }
}

/// The binary intrinsic of each rank is the family of that rank's type:
/// `Int` arithmetic at rank 0, `Long` at 1, `Float` at 2, `Double` at 3, for
/// every operator, comparisons included.
pub proof fn lemma_bin_family(op: BinOp)
    ensures
        spec_ty_of(0) == Prim::Int && spec_ty_of(1) == Prim::Long && spec_ty_of(2) == Prim::Float && spec_ty_of(3)
            == Prim::Double,
        spec_bin(0, op) == Intrinsic::IntBin(op),
        spec_bin(1, op) == Intrinsic::LongBin(op),
        spec_bin(2, op) == Intrinsic::FloatBin(op),
        spec_bin(3, op) == Intrinsic::DoubleBin(op),
        forall|rank: u8| rank < 4 ==> #[trigger] spec_bin(rank, op) == match spec_ty_of(rank) {
            Prim::Int => Intrinsic::IntBin(op),
            Prim::Long => Intrinsic::LongBin(op),
            Prim::Float => Intrinsic::FloatBin(op),
            _ => Intrinsic::DoubleBin(op),
        },
{
}

/// The type two numeric operands promote to: `Double` over `Float` over
/// `Long` over `Int`, which the narrow types become.
pub open spec fn promoted(l: Prim, r: Prim) -> Prim {
    if l == Prim::Double || r == Prim::Double {
        Prim::Double
    } else if l == Prim::Float || r == Prim::Float {
        Prim::Float
    } else if l == Prim::Long || r == Prim::Long {
        Prim::Long
    } else {
        Prim::Int
    }
}

/// The binary intrinsic family of a promoted type.
pub open spec fn family(p: Prim, op: BinOp) -> Intrinsic {
    match p {
        Prim::Int => Intrinsic::IntBin(op),
        Prim::Long => Intrinsic::LongBin(op),
        Prim::Float => Intrinsic::FloatBin(op),
        _ => Intrinsic::DoubleBin(op),
    }
}

/// The mixed operator table: an entry exactly for two numeric operands of
/// which one is `Byte`, `Short` or `Char`, and an arithmetic or comparison
/// operator, or a bitwise or shift operator on two integral operands.
/// Arithmetic and bitwise operators return the promoted type, comparisons
/// `Boolean`, shifts the promoted left operand; the intrinsic is always the
/// family of the type the operation is carried out in.
pub proof fn lemma_table_semantics(l: Prim, r: Prim, op: BinOp)
    ensures
        table_entry(l, r, op) is Some <==> ({
            let narrow = |p: Prim| p == Prim::Byte || p == Prim::Short || p == Prim::Char;
            let floating = |p: Prim| p == Prim::Float || p == Prim::Double;
            &&& l != Prim::Boolean && r != Prim::Boolean
            &&& narrow(l) || narrow(r)
            &&& (is_arith(op) || is_compare(op) || ((is_bitwise(op) || is_shift(op)) && !floating(l) && !floating(r)))
        }),
        table_entry(l, r, op) matches Some(e) ==> {
            &&& (is_arith(op) || is_bitwise(op)) ==> e == (promoted(l, r), family(promoted(l, r), op))
            &&& is_compare(op) ==> e == (Prim::Boolean, family(promoted(l, r), op))
            &&& is_shift(op) ==> e == (promoted(l, l), family(promoted(l, l), op))
        },
{
}

/// The binary intrinsic of a rank.
pub fn bin(rank: u8, op: BinOp) -> (r: Intrinsic)
    ensures
        r == spec_bin(rank, op),
{
    if rank == 0 {
        Intrinsic::IntBin(op)
    } else if rank == 1 {
        Intrinsic::LongBin(op)
    } else if rank == 2 {
        Intrinsic::FloatBin(op)
    } else {
        Intrinsic::DoubleBin(op)
    }
}

/// The class declaring the operators of a numeric type.
pub fn class_of(st: &SymbolTable, t: Prim) -> (r: Option<SymbolId>)
    ensures
        r == (if rank(t) is Some {
            Some(st.prim_class(t))
        } else {
            None
        }),
{
    match t {
        Prim::Byte => Some(st.byte_sym),
        Prim::Short => Some(st.short_sym),
        Prim::Char => Some(st.char_sym),
        Prim::Int => Some(st.int_sym),
        Prim::Long => Some(st.long_sym),
        Prim::Float => Some(st.float_sym),
        Prim::Double => Some(st.double_sym),
        Prim::Boolean => None,
    }
}

pub open spec fn max_rank(a: u8, b: u8) -> u8 {
    if a >= b {
        a
    } else {
        b
    }
}

/// What the table declares for `l op r`: the result type and the intrinsic,
/// or `None` where it declares nothing (neither side narrow, or a bitwise
/// or shift operator with a floating-point side).
pub open spec fn table_entry(l: Prim, r: Prim, op: BinOp) -> Option<(Prim, Intrinsic)> {
    match (rank(l), rank(r)) {
        (Some(lp), Some(rp)) => if !spec_is_narrow(l) && !spec_is_narrow(r) {
            None
        } else {
            let wide = max_rank(lp, rp);
            if is_arith(op) {
                Some((spec_ty_of(wide), spec_bin(wide, op)))
            } else if is_compare(op) {
                Some((Prim::Boolean, spec_bin(wide, op)))
            } else if lp > 1 || rp > 1 {
                None
            } else if is_bitwise(op) {
                Some((spec_ty_of(wide), spec_bin(wide, op)))
            } else if is_shift(op) {
                Some((spec_ty_of(lp), spec_bin(lp, op)))
            } else {
                None
            }
        },
        _ => None,
    }
}

/// `-b` and `~b` on a narrow integral widen to `Int`.
pub open spec fn unary_entry(t: Prim, op: UnOp) -> Option<Intrinsic> {
    if spec_is_narrow(t) && (op == UnOp::Neg || op == UnOp::Inv) {
        Some(Intrinsic::IntUn(op))
    } else {
        None
    }
}

/// A symbol the table installs.
pub open spec fn is_table_symbol(st: SymbolTable, s: Symbol) -> bool {
    ||| exists|l: Prim, r: Prim, op: BinOp| #[trigger] table_entry(l, r, op) matches Some(e)
        && is_prelude_method(s, st.prim_class(l), spec_bin_name(op), seq![Ty::Prim(r)], Ty::Prim(e.0), e.1)
    ||| exists|t: Prim, op: UnOp| #[trigger] unary_entry(t, op) matches Some(ic)
        && is_prelude_method(s, st.prim_class(t), spec_un_name(op), Seq::empty(), Ty::Prim(Prim::Int), ic)
}

/// Every symbol from `base` on is one the table installs.
pub open spec fn new_symbols_from_table(st: SymbolTable, base: int) -> bool {
    forall|i: int| base <= i < st.syms@.len() ==> is_table_symbol(st, #[trigger] st.syms@[i])
}

/// Every declaration of the table is present.
pub open spec fn table_complete(st: SymbolTable) -> bool {
    &&& forall|l: Prim, r: Prim, op: BinOp| (#[trigger] table_entry(l, r, op)) is Some
        ==> st.declares_with_first(st.prim_class(l), spec_bin_name(op), r)
    &&& forall|t: Prim, op: UnOp| (#[trigger] unary_entry(t, op)) is Some
        ==> st.declares_nullary(st.prim_class(t), spec_un_name(op))
}

proof fn lemma_table_symbols_kept(a: SymbolTable, b: SymbolTable, base: int)
    requires
        0 <= base,
        b.grows_from(a),
        new_symbols_from_table(a, base),
    ensures
        forall|i: int| base <= i < a.syms@.len() ==> is_table_symbol(b, #[trigger] b.syms@[i]),
{
    assert forall|i: int| base <= i < a.syms@.len() implies is_table_symbol(b, #[trigger] b.syms@[i]) by {
        assert(b.syms@[i].same_except_members(a.syms@[i]));
        assert(is_table_symbol(a, a.syms@[i]));
    }
}

/// Already declared with exactly this parameter type?
pub fn has_member(st: &SymbolTable, owner: SymbolId, name: &str, arg: Prim) -> (r: bool)
    requires
        st.wf(),
        st.valid(owner),
    ensures
        r == st.declares_with_first(owner, name@, arg),
{
    let want = name.to_owned();
    let members = &st.get(owner).members;
    let mut j: usize = 0;
    while j < members.len()
        invariant
            st.wf(),
            st.valid(owner),
            members@ == st.sym(owner).members@,
            want@ == name@,
            j <= members.len(),
            forall|k: int| 0 <= k < j ==> {
                let m = st.sym(#[trigger] st.sym(owner).members@[k]);
                !(m.name@ == name@ && match SymbolTable::first_clause(m.ty) {
                    Some(c) => c.len() > 0 && c[0] == Ty::Prim(arg),
                    None => false,
                })
            },
        decreases members.len() - j,
    {
        let m = members[j];
        assert(st.valid(st.sym(owner).members@[j as int]));
        let s = st.get(m);
        let hit = s.name == want && match &s.ty {
            Ty::Method { paramss, .. } => paramss.len() > 0 && paramss[0].len() > 0 && match &paramss[0][0] {
                Ty::Prim(p) => *p == arg,
                _ => false,
            },
            _ => false,
        };
        if hit {
            return true;
        }
        j += 1;
    }
    false
}

fn add(st: &mut SymbolTable, recv: SymbolId, op: BinOp, arg: Prim, ret: Prim, ic: Intrinsic)
    requires
        old(st).wf(),
        old(st).syms@.len() + 1 < u32::MAX,
        old(st).valid(recv),
    ensures
        final(st).wf(),
        final(st).grows_from(*old(st)),
        final(st).declares_with_first(recv, spec_bin_name(op), arg),
        final(st).syms@.len() <= old(st).syms@.len() + 1,
        old(st).declares_with_first(recv, spec_bin_name(op), arg) ==> final(st).syms@.len()
            == old(st).syms@.len(),
        final(st).syms@.len() == old(st).syms@.len() + 1 ==> is_prelude_method(
            final(st).syms@[old(st).syms@.len() as int],
            recv,
            spec_bin_name(op),
            seq![Ty::Prim(arg)],
            Ty::Prim(ret),
            ic,
        ),
        adds_owned(*old(st), *final(st)),
{
    let name = bin_name(op);
    if has_member(st, recv, name, arg) {
        return;
    }
    let mut params: Vec<Ty> = Vec::new();
    params.push(Ty::Prim(arg));
    assert(params@ =~= seq![Ty::Prim(arg)]);
    let id = prelude_method(st, recv, name, params, Ty::Prim(ret), ic);
    proof {
        let ms = st.sym(recv).members@;
        let k = ms.len() - 1;
        assert(ms[k] == id);
        match st.sym(id).ty {
            Ty::Method { paramss, ret } => {
                let mv = paramss@.map_values(|c: Vec<Ty>| c@);
                assert(crate::prelude::clauses_of(seq![Ty::Prim(arg)]) == seq![seq![Ty::Prim(arg)]]);
                assert(mv == seq![seq![Ty::Prim(arg)]]);
                assert(mv.len() == 1);
                assert(paramss@.len() == 1);
                assert(mv[0] == paramss@[0]@);
            },
            _ => {},
        }
        assert(SymbolTable::first_clause(st.sym(id).ty) == Some(seq![Ty::Prim(arg)]));
        assert(st.declares_with_first(recv, spec_bin_name(op), arg));
    }
}

/// Declare `l op r` for every operator of one group on `l`'s class.
fn add_group(st: &mut SymbolTable, l: Prim, r: Prim, lp: u8, rp: u8, group: u8)
    requires
        old(st).wf(),
        old(st).syms@.len() + 7 < u32::MAX,
        rank(l) == Some(lp),
        rank(r) == Some(rp),
        spec_is_narrow(l) || spec_is_narrow(r),
        group < 4,
        group >= 2 ==> lp <= 1 && rp <= 1,
    ensures
        final(st).wf(),
        final(st).grows_from(*old(st)),
        final(st).syms@.len() <= old(st).syms@.len() + group_ops(group as int).len(),
        forall|op: BinOp| in_group(op, group as int) ==> final(st).declares_with_first(
            final(st).prim_class(l),
            spec_bin_name(op),
            r,
        ),
        forall|op: BinOp| #[trigger] in_group(op, group as int) ==> table_entry(l, r, op) is Some,
        forall|i: int| old(st).syms@.len() <= i < final(st).syms@.len() ==> is_table_symbol(
            *final(st),
            #[trigger] final(st).syms@[i],
        ),
        (forall|op: BinOp| in_group(op, group as int) ==> old(st).declares_with_first(
            old(st).prim_class(l),
            spec_bin_name(op),
            r,
        )) ==> final(st).syms@.len() == old(st).syms@.len(),
        adds_owned(*old(st), *final(st)),
{
    proof {
        lemma_group_ops(group as int);
    }
    let ghost st0 = *st;
    let recv = match class_of(st, l) {
        Some(c) => c,
        None => {
            return;
        },
    };
    let wide = if lp >= rp { lp } else { rp };
    let ops = group_ops_exec(group);
    let mut k: usize = 0;
    while k < ops.len()
        invariant
            st.wf(),
            st.grows_from(st0),
            st0.wf(),
            st0.valid(recv),
            recv == st0.prim_class(l),
            ops@ == group_ops(group as int),
            rank(l) == Some(lp),
            rank(r) == Some(rp),
            spec_is_narrow(l) || spec_is_narrow(r),
            group < 4,
            group >= 2 ==> lp <= 1 && rp <= 1,
            wide == max_rank(lp, rp),
            st0.syms@.len() + 7 < u32::MAX,
            k <= ops.len(),
            st.syms@.len() <= st0.syms@.len() + k,
            forall|j: int| 0 <= j < k ==> st.declares_with_first(recv, spec_bin_name(#[trigger] ops@[j]), r),
            forall|i: int| st0.syms@.len() <= i < st.syms@.len() ==> is_table_symbol(*st, #[trigger] st.syms@[i]),
            (forall|op: BinOp| in_group(op, group as int) ==> st0.declares_with_first(
                st0.prim_class(l),
                spec_bin_name(op),
                r,
            )) ==> st.syms@.len() == st0.syms@.len(),
            adds_owned(st0, *st),
        decreases ops.len() - k,
    {
        let op = ops[k];
        assert(group_ops(group as int).contains(op));
        assert(in_group(op, group as int));
        let (ret, ic) = if group == 0 {
            (ty_of(wide), bin(wide, op))
        } else if group == 1 {
            (Prim::Boolean, bin(wide, op))
        } else if group == 2 {
            (ty_of(wide), bin(wide, op))
        } else {
            (ty_of(lp), bin(lp, op))
        };
        assert(table_entry(l, r, op) == Some((ret, ic)));
        let ghost before = *st;
        proof {
            lemma_declares_kept(st0, before, recv, spec_bin_name(op), r);
        }
        self::add(st, recv, op, r, ret, ic);
        proof {
            lemma_adds_owned_trans(st0, before, *st);
            lemma_grows_trans(st0, before, *st);
            assert forall|j: int| 0 <= j < k + 1 implies st.declares_with_first(
                recv,
                spec_bin_name(#[trigger] ops@[j]),
                r,
            ) by {
                if j < k {
                    lemma_declares_kept(before, *st, recv, spec_bin_name(ops@[j]), r);
                }
            }
            lemma_table_symbols_kept(before, *st, st0.syms@.len() as int);
            if st.syms@.len() == before.syms@.len() + 1 {
                let ns = st.syms@[before.syms@.len() as int];
                assert(table_entry(l, r, op) matches Some(e) && is_prelude_method(
                    ns,
                    st.prim_class(l),
                    spec_bin_name(op),
                    seq![Ty::Prim(r)],
                    Ty::Prim(e.0),
                    e.1,
                ));
                assert(is_table_symbol(*st, ns));
            }
        }
        k += 1;
    }
    proof {
        assert forall|op: BinOp| in_group(op, group as int) implies st.declares_with_first(
            st.prim_class(l),
            spec_bin_name(op),
            r,
        ) by {
            assert(group_ops(group as int).contains(op));
            let j = choose|j: int| 0 <= j < ops@.len() && ops@[j] == op;
            assert(st.declares_with_first(recv, spec_bin_name(ops@[j]), r));
        }
        assert forall|op: BinOp| #[trigger] in_group(op, group as int) implies table_entry(l, r, op) is Some by {
        }
    }
}

/// `owner` has a member named `name` of nullary method type.
pub fn has_nullary_member(st: &SymbolTable, owner: SymbolId, name: &str) -> (r: bool)
    requires
        st.wf(),
        st.valid(owner),
    ensures
        r == st.declares_nullary(owner, name@),
{
    let want = name.to_owned();
    let members = &st.get(owner).members;
    let mut j: usize = 0;
    while j < members.len()
        invariant
            st.wf(),
            st.valid(owner),
            members@ == st.sym(owner).members@,
            want@ == name@,
            j <= members.len(),
            forall|k: int| 0 <= k < j ==> {
                let m = st.sym(#[trigger] st.sym(owner).members@[k]);
                !(m.name@ == name@ && SymbolTable::is_nullary_method(m.ty))
            },
        decreases members.len() - j,
    {
        let m = members[j];
        assert(st.valid(st.sym(owner).members@[j as int]));
        let s = st.get(m);
        let hit = s.name == want && match &s.ty {
            Ty::Method { paramss, .. } => paramss.len() == 0,
            _ => false,
        };
        if hit {
            return true;
        }
        j += 1;
    }
    false
}

/// Whether the pair of operands is one the table has rows for.
pub open spec fn pair_done(l: Prim, r: Prim, st: SymbolTable) -> bool {
    forall|op: BinOp| (#[trigger] table_entry(l, r, op)) is Some ==> st.declares_with_first(
        st.prim_class(l),
        spec_bin_name(op),
        r,
    )
}

proof fn lemma_pair_done_kept(a: SymbolTable, b: SymbolTable, l: Prim, r: Prim)
    requires
        a.wf(),
        b.grows_from(a),
        a.valid(a.prim_class(l)),
        pair_done(l, r, a),
    ensures
        pair_done(l, r, b),
{
    assert forall|op: BinOp| (#[trigger] table_entry(l, r, op)) is Some implies b.declares_with_first(
        b.prim_class(l),
        spec_bin_name(op),
        r,
    ) by {
        lemma_declares_kept(a, b, a.prim_class(l), spec_bin_name(op), r);
    }
}

/// Declare the operators of one (left operand, right operand) pair of the
/// table, as `install` does for each pair in turn.
#[verifier::rlimit(60)]
#[verifier::spinoff_prover]
fn install_pair(st: &mut SymbolTable, li: usize, ri: usize, Ghost(st0): Ghost<SymbolTable>)
    requires
        li < 7,
        ri < 7,
        old(st).wf(),
        old(st).grows_from(st0),
        st0.wf(),
        st0.syms@.len() + 1000 < u32::MAX,
        old(st).syms@.len() <= st0.syms@.len() + 119 * li + 17 * ri,
        new_symbols_from_table(*old(st), st0.syms@.len() as int),
        table_complete(st0) ==> old(st).syms@.len() == st0.syms@.len(),
    ensures
        final(st).wf(),
        final(st).grows_from(*old(st)),
        final(st).grows_from(st0),
        final(st).syms@.len() <= st0.syms@.len() + 119 * li + 17 * (ri + 1),
        pair_done(operand(li as int).1, operand(ri as int).1, *final(st)),
        new_symbols_from_table(*final(st), st0.syms@.len() as int),
        table_complete(st0) ==> final(st).syms@.len() == st0.syms@.len(),
        adds_owned(*old(st), *final(st)),
{
    let (lp, lt) = operand_exec(li);
    let (rp, rt) = operand_exec(ri);
    proof {
        lemma_operands();
        assert(rank(operand(li as int).1) == Some(operand(li as int).0));
        assert(rank(operand(ri as int).1) == Some(operand(ri as int).0));
    }
    let ghost before = *st;
    assert(group_ops(0).len() == 5);
    assert(group_ops(1).len() == 6);
    assert(group_ops(2).len() == 3);
    assert(group_ops(3).len() == 3);
    if !is_narrow(lt) && !is_narrow(rt) {
        assert(pair_done(lt, rt, *st));
    } else {
        proof {
            if table_complete(st0) {
                assert forall|op: BinOp| (#[trigger] table_entry(lt, rt, op)) is Some implies st.declares_with_first(
                    st.prim_class(lt),
                    spec_bin_name(op),
                    rt,
                ) by {
                    lemma_declares_kept(st0, *st, st0.prim_class(lt), spec_bin_name(op), rt);
                }
            }
        }
        let ghost s_a = *st;
        add_group(st, lt, rt, lp, rp, 0);
        let ghost s_b = *st;
        proof {
            lemma_grows_trans(st0, s_a, s_b);
            lemma_grows_trans(before, s_a, s_b);
            lemma_table_symbols_kept(s_a, s_b, st0.syms@.len() as int);
            if table_complete(st0) {
                assert forall|op: BinOp| (#[trigger] table_entry(lt, rt, op)) is Some implies st.declares_with_first(
                    st.prim_class(lt),
                    spec_bin_name(op),
                    rt,
                ) by {
                    lemma_declares_kept(st0, *st, st0.prim_class(lt), spec_bin_name(op), rt);
                }
            }
        }
        add_group(st, lt, rt, lp, rp, 1);
        let ghost s_c = *st;
        proof {
            lemma_adds_owned_trans(before, s_b, s_c);
            lemma_grows_trans(st0, s_b, s_c);
            lemma_table_symbols_kept(s_b, s_c, st0.syms@.len() as int);
            assert forall|op: BinOp| is_arith(op) implies s_c.declares_with_first(
                s_c.prim_class(lt),
                spec_bin_name(op),
                rt,
            ) by {
                assert(in_group(op, 0));
                lemma_declares_kept(s_b, s_c, s_b.prim_class(lt), spec_bin_name(op), rt);
            }
            if table_complete(st0) {
                assert forall|op: BinOp| (#[trigger] table_entry(lt, rt, op)) is Some implies st.declares_with_first(
                    st.prim_class(lt),
                    spec_bin_name(op),
                    rt,
                ) by {
                    lemma_declares_kept(st0, *st, st0.prim_class(lt), spec_bin_name(op), rt);
                }
            }
        }
        if lp > 1 || rp > 1 {
            assert forall|op: BinOp| (#[trigger] table_entry(lt, rt, op)) is Some implies st.declares_with_first(
                st.prim_class(lt),
                spec_bin_name(op),
                rt,
            ) by {
                if is_arith(op) {
                } else {
                    assert(in_group(op, 1));
                }
            }
        } else {
            add_group(st, lt, rt, lp, rp, 2);
            let ghost s_d = *st;
            proof {
                lemma_grows_trans(before, s_b, s_c);
                lemma_adds_owned_trans(before, s_c, s_d);
                lemma_grows_trans(st0, s_c, s_d);
                lemma_table_symbols_kept(s_c, s_d, st0.syms@.len() as int);
                if table_complete(st0) {
                    assert forall|op: BinOp| (#[trigger] table_entry(lt, rt, op)) is Some implies st.declares_with_first(
                        st.prim_class(lt),
                        spec_bin_name(op),
                        rt,
                    ) by {
                        lemma_declares_kept(st0, *st, st0.prim_class(lt), spec_bin_name(op), rt);
                    }
                }
            }
            add_group(st, lt, rt, lp, rp, 3);
            let ghost s_e = *st;
            proof {
                lemma_grows_trans(before, s_c, s_d);
                lemma_adds_owned_trans(before, s_d, s_e);
                lemma_grows_trans(st0, s_d, s_e);
                lemma_table_symbols_kept(s_d, s_e, st0.syms@.len() as int);
                assert forall|op: BinOp| (#[trigger] table_entry(lt, rt, op)) is Some implies s_e.declares_with_first(
                    s_e.prim_class(lt),
                    spec_bin_name(op),
                    rt,
                ) by {
                    if is_arith(op) {
                        assert(in_group(op, 0));
                        lemma_declares_kept(s_c, s_e, s_c.prim_class(lt), spec_bin_name(op), rt);
                    } else if is_compare(op) {
                        assert(in_group(op, 1));
                        lemma_declares_kept(s_c, s_e, s_c.prim_class(lt), spec_bin_name(op), rt);
                    } else if is_bitwise(op) {
                        assert(in_group(op, 2));
                        lemma_declares_kept(s_d, s_e, s_d.prim_class(lt), spec_bin_name(op), rt);
                    } else if is_shift(op) {
                        assert(in_group(op, 3));
                    }
                }
            }
        }
    }
    proof {
        lemma_grows_trans(st0, before, *st);
    }
}

/// `owner` has a member that is exactly the prelude method `name(params): ret`
/// emitted as `ic`.
pub open spec fn declares_entry(
    st: SymbolTable,
    owner: SymbolId,
    name: Seq<char>,
    params: Seq<Ty>,
    ret: Ty,
    ic: Intrinsic,
) -> bool {
    exists|j: int|
        0 <= j < st.sym(owner).members@.len() && is_prelude_method(
            st.sym(#[trigger] st.sym(owner).members@[j]),
            owner,
            name,
            params,
            ret,
            ic,
        )
}

/// Each declaration of the table that `o` lacked is now on its own class,
/// with the entry's result type and intrinsic.
pub open spec fn table_installed(o: SymbolTable, st: SymbolTable) -> bool {
    &&& forall|l: Prim, r: Prim, op: BinOp| #[trigger] table_entry(l, r, op) matches Some(e)
        ==> !o.declares_with_first(o.prim_class(l), spec_bin_name(op), r) ==> declares_entry(
            st,
            st.prim_class(l),
            spec_bin_name(op),
            seq![Ty::Prim(r)],
            Ty::Prim(e.0),
            e.1,
        )
    &&& forall|t: Prim, op: UnOp| #[trigger] unary_entry(t, op) matches Some(ic)
        ==> !o.declares_nullary(o.prim_class(t), spec_un_name(op)) ==> declares_entry(
            st,
            st.prim_class(t),
            spec_un_name(op),
            Seq::empty(),
            Ty::Prim(Prim::Int),
            ic,
        )
}

/// The operator a binary name stands for.
pub open spec fn bin_of_name(s: Seq<char>) -> BinOp {
    if s.len() == 1 {
        if s[0] == '+' { BinOp::Add }
        else if s[0] == '-' { BinOp::Sub }
        else if s[0] == '*' { BinOp::Mul }
        else if s[0] == '/' { BinOp::Div }
        else if s[0] == '%' { BinOp::Rem }
        else if s[0] == '<' { BinOp::Lt }
        else if s[0] == '>' { BinOp::Gt }
        else if s[0] == '&' { BinOp::And }
        else if s[0] == '|' { BinOp::Or }
        else { BinOp::Xor }
    } else if s.len() == 2 {
        if s[0] == '=' { BinOp::Eq }
        else if s[0] == '!' { BinOp::Ne }
        else if s[0] == '<' { if s[1] == '=' { BinOp::Le } else { BinOp::Shl } }
        else if s[0] == '>' { if s[1] == '=' { BinOp::Ge } else { BinOp::Shr } }
        else if s[0] == '&' { BinOp::CondAnd }
        else { BinOp::CondOr }
    } else {
        BinOp::Ushr
    }
}

/// The operator a unary name stands for.
pub open spec fn un_of_name(s: Seq<char>) -> UnOp {
    if s[6] == '-' { UnOp::Neg }
    else if s[6] == '~' { UnOp::Inv }
    else if s[6] == '+' { UnOp::Plus }
    else { UnOp::Not }
}

/// No two operators share a name.
pub proof fn lemma_names_injective()
    ensures
        forall|a: BinOp| #[trigger] bin_of_name(spec_bin_name(a)) == a,
        forall|a: UnOp| #[trigger] un_of_name(spec_un_name(a)) == a,
{
    assert forall|a: BinOp| #[trigger] bin_of_name(spec_bin_name(a)) == a by {
        match a {
            BinOp::Add => {},
            BinOp::Sub => {},
            BinOp::Mul => {},
            BinOp::Div => {},
            BinOp::Rem => {},
            BinOp::Eq => {},
            BinOp::Ne => {},
            BinOp::Lt => {},
            BinOp::Le => {},
            BinOp::Gt => {},
            BinOp::Ge => {},
            BinOp::And => {},
            BinOp::Or => {},
            BinOp::Xor => {},
            BinOp::Shl => {},
            BinOp::Shr => {},
            BinOp::Ushr => {},
            BinOp::CondAnd => {},
            BinOp::CondOr => {},
        }
    }
    assert forall|a: UnOp| #[trigger] un_of_name(spec_un_name(a)) == a by {
        match a {
            UnOp::Neg => {},
            UnOp::Inv => {},
            UnOp::Plus => {},
            UnOp::Not => {},
        }
    }
}

/// What `install` leaves behind places each new declaration on its own
/// class, so a missing declaration arrives with its entry's result and
/// intrinsic.
proof fn lemma_table_installed(o: SymbolTable, st: SymbolTable)
    requires
        o.wf(),
        st.wf(),
        st.grows_from(o),
        adds_owned(o, st),
        table_complete(st),
        new_symbols_from_table(st, o.syms@.len() as int),
        prims_distinct(o),
    ensures
        table_installed(o, st),
{
    lemma_names_injective();
    assert forall|l: Prim, r: Prim, op: BinOp| #[trigger] table_entry(l, r, op) is Some
        && !o.declares_with_first(o.prim_class(l), spec_bin_name(op), r) implies declares_entry(
            st,
            st.prim_class(l),
            spec_bin_name(op),
            seq![Ty::Prim(r)],
            Ty::Prim(table_entry(l, r, op).unwrap().0),
            table_entry(l, r, op).unwrap().1,
        ) by {
        let e = table_entry(l, r, op).unwrap();
        let c = st.prim_class(l);
        assert(c == o.prim_class(l));
        assert(st.declares_with_first(c, spec_bin_name(op), r));
        let j = choose|j: int|
            0 <= j < st.sym(c).members@.len() && {
                let m = st.sym(#[trigger] st.sym(c).members@[j]);
                &&& m.name@ == spec_bin_name(op)
                &&& match SymbolTable::first_clause(m.ty) {
                    Some(cl) => cl.len() > 0 && cl[0] == Ty::Prim(r),
                    None => false,
                }
            };
        let m = st.sym(c).members@[j];
        let ol = o.sym(c).members@.len();
        if j < ol {
            assert(o.sym(c).members@.is_prefix_of(st.sym(c).members@));
            assert(o.sym(c).members@[j] == m);
            assert(o.valid(m));
            assert(st.syms@[m.0 as int].same_except_members(o.syms@[m.0 as int]));
            assert(o.declares_with_first(c, spec_bin_name(op), r));
        }
        assert(m.0 >= o.syms@.len());
        let sm = st.sym(m);
        assert(is_table_symbol(st, st.syms@[m.0 as int]));
        if exists|t: Prim, u: UnOp| #[trigger] unary_entry(t, u) matches Some(ic)
            && is_prelude_method(sm, st.prim_class(t), spec_un_name(u), Seq::empty(), Ty::Prim(Prim::Int), ic) {
            assert(crate::prelude::clauses_of(Seq::empty()).len() == 0);
            match sm.ty {
                Ty::Method { paramss, .. } => {
                    assert(paramss@.map_values(|cl: Vec<Ty>| cl@).len() == 0);
                },
                _ => {},
            }
        } else {
            let (l2, r2, op2) = choose|l2: Prim, r2: Prim, op2: BinOp| #[trigger] table_entry(l2, r2, op2) matches Some(e2)
                && is_prelude_method(sm, st.prim_class(l2), spec_bin_name(op2), seq![Ty::Prim(r2)], Ty::Prim(e2.0), e2.1);
            assert(st.prim_class(l2) == c);
            assert(o.prim_class(l2) == o.prim_class(l));
            assert(l2 == l);
            assert(bin_of_name(spec_bin_name(op2)) == bin_of_name(spec_bin_name(op)));
            assert(op2 == op);
            assert(crate::prelude::clauses_of(seq![Ty::Prim(r2)]) == seq![seq![Ty::Prim(r2)]]);
            match sm.ty {
                Ty::Method { paramss, .. } => {
                    let mv = paramss@.map_values(|cl: Vec<Ty>| cl@);
                    assert(mv == seq![seq![Ty::Prim(r2)]]);
                    assert(mv[0] == paramss@[0]@);
                    assert(paramss@[0]@[0] == Ty::Prim(r2));
                },
                _ => {},
            }
            assert(r2 == r);
            assert(is_prelude_method(st.sym(st.sym(c).members@[j]), c, spec_bin_name(op), seq![Ty::Prim(r)], Ty::Prim(e.0), e.1));
        }
    }
    assert forall|t: Prim, op: UnOp| #[trigger] unary_entry(t, op) is Some
        && !o.declares_nullary(o.prim_class(t), spec_un_name(op)) implies declares_entry(
            st,
            st.prim_class(t),
            spec_un_name(op),
            Seq::empty(),
            Ty::Prim(Prim::Int),
            unary_entry(t, op).unwrap(),
        ) by {
        let ic = unary_entry(t, op).unwrap();
        let c = st.prim_class(t);
        assert(c == o.prim_class(t));
        assert(st.declares_nullary(c, spec_un_name(op)));
        let j = choose|j: int|
            0 <= j < st.sym(c).members@.len() && {
                let m = st.sym(#[trigger] st.sym(c).members@[j]);
                &&& m.name@ == spec_un_name(op)
                &&& SymbolTable::is_nullary_method(m.ty)
            };
        let m = st.sym(c).members@[j];
        let ol = o.sym(c).members@.len();
        if j < ol {
            assert(o.sym(c).members@.is_prefix_of(st.sym(c).members@));
            assert(o.sym(c).members@[j] == m);
            assert(o.valid(m));
            assert(st.syms@[m.0 as int].same_except_members(o.syms@[m.0 as int]));
            assert(o.declares_nullary(c, spec_un_name(op)));
        }
        assert(m.0 >= o.syms@.len());
        let sm = st.sym(m);
        assert(is_table_symbol(st, st.syms@[m.0 as int]));
        if exists|l2: Prim, r2: Prim, op2: BinOp| #[trigger] table_entry(l2, r2, op2) matches Some(e2)
            && is_prelude_method(sm, st.prim_class(l2), spec_bin_name(op2), seq![Ty::Prim(r2)], Ty::Prim(e2.0), e2.1) {
            let (l2, r2, op2) = choose|l2: Prim, r2: Prim, op2: BinOp| #[trigger] table_entry(l2, r2, op2) matches Some(e2)
                && is_prelude_method(sm, st.prim_class(l2), spec_bin_name(op2), seq![Ty::Prim(r2)], Ty::Prim(e2.0), e2.1);
            assert(crate::prelude::clauses_of(seq![Ty::Prim(r2)]).len() == 1);
            match sm.ty {
                Ty::Method { paramss, .. } => {
                    assert(paramss@.map_values(|cl: Vec<Ty>| cl@).len() == 1);
                },
                _ => {},
            }
        } else {
            let (t2, op2) = choose|t2: Prim, op2: UnOp| #[trigger] unary_entry(t2, op2) matches Some(ic2)
                && is_prelude_method(sm, st.prim_class(t2), spec_un_name(op2), Seq::empty(), Ty::Prim(Prim::Int), ic2);
            assert(st.prim_class(t2) == c);
            assert(o.prim_class(t2) == o.prim_class(t));
            assert(t2 == t);
            assert(un_of_name(spec_un_name(op2)) == un_of_name(spec_un_name(op)));
            assert(op2 == op);
            assert(is_prelude_method(st.sym(st.sym(c).members@[j]), c, spec_un_name(op), Seq::empty(), Ty::Prim(Prim::Int), ic));
        }
    }
}

/// Install the operator table: every row and column that mentions a narrow
/// type, and `unary_-` / `unary_~` on the narrow types. A declaration whose
/// name and parameter type are already present is left alone.
#[verifier::rlimit(60)]
#[verifier::spinoff_prover]
pub fn install(st: &mut SymbolTable)
    requires
        old(st).wf(),
        old(st).syms@.len() + 1000 < u32::MAX,
    ensures
        final(st).wf(),
        final(st).grows_from(*old(st)),
        table_complete(*final(st)),
        new_symbols_from_table(*final(st), old(st).syms@.len() as int),
        table_complete(*old(st)) ==> final(st).syms@.len() == old(st).syms@.len(),
        adds_owned(*old(st), *final(st)),
        prims_distinct(*old(st)) ==> table_installed(*old(st), *final(st)),
        table_complete(*old(st)) ==> forall|i: int|
            0 <= i < old(st).syms@.len() ==> (#[trigger] final(st).syms@[i]).members@ == old(st).syms@[i].members@,
{
    let ghost st0 = *st;
    let mut li: usize = 0;
    while li < 7
        invariant
            st.wf(),
            st.grows_from(st0),
            st0.wf(),
            st0.syms@.len() + 1000 < u32::MAX,
            li <= 7,
            st.syms@.len() <= st0.syms@.len() + 119 * li,
            forall|i: int, j: int| 0 <= i < li && 0 <= j < 7 ==> pair_done(
                (#[trigger] operand(i)).1,
                (#[trigger] operand(j)).1,
                *st,
            ),
            new_symbols_from_table(*st, st0.syms@.len() as int),
            table_complete(st0) ==> st.syms@.len() == st0.syms@.len(),
            adds_owned(st0, *st),
        decreases 7 - li,
    {
        let mut ri: usize = 0;
        while ri < 7
            invariant
                st.wf(),
                st.grows_from(st0),
                st0.wf(),
                st0.syms@.len() + 1000 < u32::MAX,
                li < 7,
                ri <= 7,
                st.syms@.len() <= st0.syms@.len() + 119 * li + 17 * ri,
                forall|i: int, j: int| 0 <= i < li && 0 <= j < 7 ==> pair_done(
                    (#[trigger] operand(i)).1,
                    (#[trigger] operand(j)).1,
                    *st,
                ),
                forall|j: int| 0 <= j < ri ==> pair_done(operand(li as int).1, (#[trigger] operand(j)).1, *st),
                new_symbols_from_table(*st, st0.syms@.len() as int),
                table_complete(st0) ==> st.syms@.len() == st0.syms@.len(),
                adds_owned(st0, *st),
            decreases 7 - ri,
        {
            let ghost before = *st;
            install_pair(st, li, ri, Ghost(st0));
            proof {
                lemma_adds_owned_trans(st0, before, *st);
                lemma_operands();
                assert forall|i: int, j: int| 0 <= i < li && 0 <= j < 7 implies pair_done(
                    (#[trigger] operand(i)).1,
                    (#[trigger] operand(j)).1,
                    *st,
                ) by {
                    lemma_pair_done_kept(before, *st, operand(i).1, operand(j).1);
                }
                assert forall|j: int| 0 <= j < ri + 1 implies pair_done(operand(li as int).1, (#[trigger] operand(j)).1, *st) by {
                    if j < ri {
                        lemma_pair_done_kept(before, *st, operand(li as int).1, operand(j).1);
                    }
                }
            }
            ri += 1;
        }
        li += 1;
    }
    let ghost after_binary = *st;
    let narrow = [Prim::Byte, Prim::Short, Prim::Char];
    let unary = [UnOp::Neg, UnOp::Inv];
    let mut ti: usize = 0;
    while ti < 3
        invariant
            st.wf(),
            st.grows_from(after_binary),
            after_binary.grows_from(st0),
            after_binary.wf(),
            st0.wf(),
            ti <= 3,
            narrow@ == seq![Prim::Byte, Prim::Short, Prim::Char],
            unary@ == seq![UnOp::Neg, UnOp::Inv],
            st.syms@.len() <= after_binary.syms@.len() + 2 * ti,
            after_binary.syms@.len() <= st0.syms@.len() + 833,
            st0.syms@.len() + 1000 < u32::MAX,
            forall|i: int, j: int| 0 <= i < 7 && 0 <= j < 7 ==> pair_done(
                (#[trigger] operand(i)).1,
                (#[trigger] operand(j)).1,
                after_binary,
            ),
            forall|k: int, u: int| 0 <= k < ti && 0 <= u < 2 ==> st.declares_nullary(
                st.prim_class(#[trigger] narrow@[k]),
                spec_un_name(#[trigger] unary@[u]),
            ),
            new_symbols_from_table(*st, st0.syms@.len() as int),
            table_complete(st0) ==> st.syms@.len() == st0.syms@.len(),
            adds_owned(st0, *st),
            st.grows_from(st0),
        decreases 3 - ti,
    {
        let t = narrow[ti];
        let recv = match class_of(st, t) {
            Some(c) => c,
            None => {
                ti += 1;
                continue;
            },
        };
        let mut ui: usize = 0;
        while ui < 2
            invariant
                st.wf(),
                st.grows_from(after_binary),
                after_binary.grows_from(st0),
                st0.wf(),
                ti < 3,
                ui <= 2,
                t == narrow@[ti as int],
                recv == st.prim_class(t),
                narrow@ == seq![Prim::Byte, Prim::Short, Prim::Char],
                unary@ == seq![UnOp::Neg, UnOp::Inv],
                st.syms@.len() <= after_binary.syms@.len() + 2 * ti + ui,
                after_binary.syms@.len() <= st0.syms@.len() + 833,
                st0.syms@.len() + 1000 < u32::MAX,
                forall|k: int, u: int| 0 <= k < ti && 0 <= u < 2 ==> st.declares_nullary(
                    st.prim_class(#[trigger] narrow@[k]),
                    spec_un_name(#[trigger] unary@[u]),
                ),
                forall|u: int| 0 <= u < ui ==> st.declares_nullary(recv, spec_un_name(#[trigger] unary@[u])),
                new_symbols_from_table(*st, st0.syms@.len() as int),
                table_complete(st0) ==> st.syms@.len() == st0.syms@.len(),
                adds_owned(st0, *st),
                st.grows_from(st0),
            decreases 2 - ui,
        {
            let op = unary[ui];
            let name = un_name(op);
            let ghost before = *st;
            proof {
                if table_complete(st0) {
                    assert(unary_entry(t, op) is Some);
                    lemma_grows_trans(st0, after_binary, *st);
                    lemma_declares_kept(st0, *st, st0.prim_class(t), spec_un_name(op), Prim::Int);
                }
            }
            if !has_nullary_member(st, recv, name) {
                let no_params: Vec<Ty> = Vec::new();
                assert(no_params@ =~= Seq::<Ty>::empty());
                let id = prelude_method(st, recv, name, no_params, Ty::Prim(Prim::Int), Intrinsic::IntUn(op));
                proof {
                    let ms = st.sym(recv).members@;
                    assert(ms[ms.len() - 1] == id);
                    match st.sym(id).ty {
                        Ty::Method { paramss, ret } => {
                            let mv = paramss@.map_values(|c: Vec<Ty>| c@);
                            assert(mv.len() == 0);
                        },
                        _ => {},
                    }
                    assert(st.declares_nullary(recv, spec_un_name(op)));
                    lemma_grows_trans(after_binary, before, *st);
                    lemma_adds_owned_trans(st0, before, *st);
                    lemma_grows_trans(st0, before, *st);
                    lemma_table_symbols_kept(before, *st, st0.syms@.len() as int);
                    let ns = st.syms@[before.syms@.len() as int];
                    assert(unary_entry(t, op) matches Some(ic) && is_prelude_method(
                        ns,
                        st.prim_class(t),
                        spec_un_name(op),
                        Seq::empty(),
                        Ty::Prim(Prim::Int),
                        ic,
                    ));
                }
            }
            proof {
                assert forall|k: int, u: int| 0 <= k < ti && 0 <= u < 2 implies st.declares_nullary(
                    st.prim_class(#[trigger] narrow@[k]),
                    spec_un_name(#[trigger] unary@[u]),
                ) by {
                    lemma_declares_kept(before, *st, before.prim_class(narrow@[k]), spec_un_name(unary@[u]), Prim::Int);
                }
                assert forall|u: int| 0 <= u < ui + 1 implies st.declares_nullary(recv, spec_un_name(#[trigger] unary@[u])) by {
                    if u < ui {
                        lemma_declares_kept(before, *st, recv, spec_un_name(unary@[u]), Prim::Int);
                    }
                }
            }
            ui += 1;
        }
        ti += 1;
    }
    proof {
        lemma_grows_trans(st0, after_binary, *st);
        lemma_operands();
        assert forall|l: Prim, r: Prim, op: BinOp| (#[trigger] table_entry(l, r, op)) is Some implies st.declares_with_first(
            st.prim_class(l),
            spec_bin_name(op),
            r,
        ) by {
            let i = choose|i: int| 0 <= i < 7 && #[trigger] operand(i).1 == l;
            let j = choose|j: int| 0 <= j < 7 && #[trigger] operand(j).1 == r;
            assert(pair_done(operand(i).1, operand(j).1, after_binary));
            lemma_declares_kept(after_binary, *st, after_binary.prim_class(l), spec_bin_name(op), r);
        }
        assert forall|t: Prim, op: UnOp| (#[trigger] unary_entry(t, op)) is Some implies st.declares_nullary(
            st.prim_class(t),
            spec_un_name(op),
        ) by {
            let k: int = if t == Prim::Byte { 0 } else if t == Prim::Short { 1 } else { 2 };
            let u: int = if op == UnOp::Neg { 0 } else { 1 };
            assert(narrow@[k] == t);
            assert(unary@[u] == op);
        }
        if prims_distinct(st0) {
            lemma_table_installed(st0, *st);
        }
        if table_complete(st0) {
            lemma_no_new_members(st0, *st);
        }
    }
}

} // verus!
