//! The symbol table the prelude and the pickle reader install into.
//!
//! Every symbol has a slot in `syms`, addressed by its [`SymbolId`]. A symbol
//! allocated with an owner is entered among that owner's members, in
//! allocation order. The well-known classes (`scala.Int` and friends, the
//! `Predef` module) are recorded by id.
use vstd::prelude::*;
use vstd::string::*;

verus! {

/// A symbol's slot in the table.
#[derive(Clone, Copy, Debug, PartialEq, Eq, Structural)]
pub struct SymbolId(pub u32);

/// The primitive value classes, as types.
#[derive(Clone, Copy, Debug, PartialEq, Eq, Structural)]
pub enum Prim {
    Boolean,
    Byte,
    Short,
    Char,
    Int,
    Long,
    Float,
    Double,
}

/// The types the prelude and the pickle reader write into a symbol.
#[derive(Debug)]
pub enum Ty {
    Prim(Prim),
    Unit,
    /// `Any`, the top type.
    Any,
    /// `AnyRef`, `java.lang.Object`.
    AnyRef,
    /// `AnyVal`, the parent of the value classes.
    AnyVal,
    /// `Nothing`, the bottom type.
    Nothing,
    /// `Null`, the type of `null`.
    Null,
    /// `String`, `java.lang.String`.
    Str,
    /// The singleton type of a module, by its module class.
    ModuleRef(SymbolId),
    /// A function type `(params) => ret`.
    Function { params: Vec<Ty>, ret: Box<Ty> },
    /// A class type applied to arguments.
    Class { sym: SymbolId, args: Vec<Ty> },
    Array(Box<Ty>),
    /// A by-name parameter type `=> T`.
    ByName(Box<Ty>),
    /// A repeated parameter type `T*`.
    Repeated(Box<Ty>),
    /// A type constructor (a type parameter of higher kind) applied to
    /// arguments: `CC[A]`.
    Applied { ctor: Box<Ty>, args: Vec<Ty> },
    TypeParam(SymbolId),
    /// A method: its value parameter clauses and its result.
    Method { paramss: Vec<Vec<Ty>>, ret: Box<Ty> },
    /// Anything else (not written by the code in this crate).
    Other,
}

#[derive(Clone, Copy, Debug, PartialEq, Eq, Structural)]
pub enum SymKind {
    Package,
    Class,
    ModuleClass,
    Module,
    Method,
    Term,
    TypeParam,
}

/// A binary numeric operator, by the name it is declared under.
#[derive(Clone, Copy, Debug, PartialEq, Eq, Structural)]
pub enum BinOp {
    Add,
    Sub,
    Mul,
    Div,
    Rem,
    Eq,
    Ne,
    Lt,
    Le,
    Gt,
    Ge,
    And,
    Or,
    Xor,
    Shl,
    Shr,
    Ushr,
    /// `&&`, on `Boolean` only.
    CondAnd,
    /// `||`, on `Boolean` only.
    CondOr,
}

/// A unary operator: `unary_-`, `unary_~`, `unary_+`, `unary_!`.
#[derive(Clone, Copy, Debug, PartialEq, Eq, Structural)]
pub enum UnOp {
    Neg,
    Inv,
    Plus,
    /// `unary_!`, on `Boolean` only.
    Not,
}

/// How codegen emits a call to a prelude method instead of an invocation.
#[derive(Clone, Copy, Debug, PartialEq, Eq, Structural)]
pub enum Intrinsic {
    Plain,
    IntBin(BinOp),
    LongBin(BinOp),
    FloatBin(BinOp),
    DoubleBin(BinOp),
    BoolBin(BinOp),
    BoolUn(UnOp),
    IntUn(UnOp),
    LongUn(UnOp),
    FloatUn(UnOp),
    DoubleUn(UnOp),
    /// Box a primitive: the payload is its descriptor letter's primitive.
    BoxValue(Prim),
    UnboxValue(Prim),
    /// `Int.toLong` and the other widening and narrowing conversions the
    /// numeric value classes declare.
    IntToLong,
    IntToFloat,
    IntToDouble,
    IntToByte,
    IntToShort,
    LongToDouble,
    LongToFloat,
    FloatToDouble,
    /// A conversion emitted as the JVM instruction between the two
    /// primitives (`Long.toInt` is `l2i`).
    NumConv(Prim, Prim),
    /// `toString` on any value.
    AnyToString,
    /// `==` and `!=` on `Any`, which test `null` before `equals`.
    AnyEq,
    AnyNe,
    /// Reference equality, `eq` and `ne` on `AnyRef`.
    RefEq,
    RefNe,
    AsInstanceOf,
    IsInstanceOf,
    Synchronized,
    /// `+` on `String`: concatenation of the receiver and any value.
    StringConcat,
    /// A method that hands its receiver back (`String.toString`).
    Identity,
    StringToInt,
    StringToLong,
    StringToDouble,
}

/// Symbol flags, as a bit set.
pub const FLAG_FINAL: u64 = 1;
pub const FLAG_IMPLICIT: u64 = 2;
pub const FLAG_COVARIANT: u64 = 4;
pub const FLAG_CONTRAVARIANT: u64 = 8;
pub const FLAG_ABSTRACT: u64 = 16;
pub const FLAG_INTERFACE: u64 = 32;
pub const FLAG_TRAIT: u64 = 64;
pub const FLAG_MODULE: u64 = 128;
pub const FLAG_PACKAGE: u64 = 256;
pub const FLAG_PARAM: u64 = 512;
pub const FLAG_JAVA: u64 = 1024;

pub struct Symbol {
    pub name: String,
    pub kind: SymKind,
    pub owner: Option<SymbolId>,
    pub flags: u64,
    /// JVM internal name, or (for a member supplied from a pickle) the
    /// erased descriptor it is called with; empty for a hand-written member.
    pub jvm_name: String,
    pub members: Vec<SymbolId>,
    pub params: Vec<SymbolId>,
    /// The parameter symbols of each value parameter clause.
    pub paramss: Vec<Vec<SymbolId>>,
    pub tparams: Vec<SymbolId>,
    /// The types a class extends, in declaration order.
    pub parents: Vec<Ty>,
    /// A class's constructor fields, in order.
    pub ctor_fields: Vec<SymbolId>,
    pub ty: Ty,
    pub bound_hi: Option<Ty>,
    pub intrinsic: Intrinsic,
}

pub struct SymbolTable {
    pub syms: Vec<Symbol>,
    /// Names entered into the scope open for the whole compilation.
    pub scope: Vec<(String, SymbolId)>,
    pub boolean_sym: SymbolId,
    pub byte_sym: SymbolId,
    pub short_sym: SymbolId,
    pub char_sym: SymbolId,
    pub int_sym: SymbolId,
    pub long_sym: SymbolId,
    pub float_sym: SymbolId,
    pub double_sym: SymbolId,
    /// The `scala` package, once it has been entered.
    pub scala_pkg: Option<SymbolId>,
    /// The `Predef` module, once it has been entered.
    pub predef: Option<SymbolId>,
    /// `scala.Any`, once it has been entered.
    pub any_sym: Option<SymbolId>,
    /// `scala.AnyRef`, once it has been entered.
    pub anyref_sym: Option<SymbolId>,
    /// `java.lang.String`, once it has been entered.
    pub string_sym: Option<SymbolId>,
    /// `scala.Array`, once it has been entered.
    pub array_sym: Option<SymbolId>,
    /// `scala.Option`, once it has been entered.
    pub option_sym: Option<SymbolId>,
    /// `scala.collection.immutable.List`, once it has been entered.
    pub list_sym: Option<SymbolId>,
}

impl SymbolTable {
    /// A table holding the eight primitive value classes `scala.Boolean`
    /// ... `scala.Double`, and nothing else.
    pub fn new() -> (st: SymbolTable)
        ensures
            st.wf(),
            st.syms@.len() == 8,
            st.scope@.len() == 0,
            forall|i: int| 0 <= i < 8 ==> (#[trigger] st.syms@[i]).members@.len() == 0 && st.syms@[i].kind == SymKind::Class,
            st.boolean_sym == SymbolId(0),
            st.byte_sym == SymbolId(1),
            st.short_sym == SymbolId(2),
            st.char_sym == SymbolId(3),
            st.int_sym == SymbolId(4),
            st.long_sym == SymbolId(5),
            st.float_sym == SymbolId(6),
            st.double_sym == SymbolId(7),
            st.scala_pkg is None,
            st.predef is None,
            st.any_sym is None,
            st.anyref_sym is None,
            st.string_sym is None,
            st.array_sym is None,
            st.option_sym is None,
            st.list_sym is None,
    {
        let mut st = SymbolTable {
            syms: Vec::new(),
            scope: Vec::new(),
            boolean_sym: SymbolId(0),
            byte_sym: SymbolId(1),
            short_sym: SymbolId(2),
            char_sym: SymbolId(3),
            int_sym: SymbolId(4),
            long_sym: SymbolId(5),
            float_sym: SymbolId(6),
            double_sym: SymbolId(7),
            scala_pkg: None,
            predef: None,
            any_sym: None,
            anyref_sym: None,
            string_sym: None,
            array_sym: None,
            option_sym: None,
            list_sym: None,
        };
        let names = ["Boolean", "Byte", "Short", "Char", "Int", "Long", "Float", "Double"];
        let jvms = ["scala/Boolean", "scala/Byte", "scala/Short", "scala/Char", "scala/Int", "scala/Long", "scala/Float", "scala/Double"];
        let mut i: usize = 0;
        while i < 8
            invariant
                i <= 8,
                st.syms@.len() == i,
                st.scope@.len() == 0,
                st.boolean_sym == SymbolId(0),
                st.byte_sym == SymbolId(1),
                st.short_sym == SymbolId(2),
                st.char_sym == SymbolId(3),
                st.int_sym == SymbolId(4),
                st.long_sym == SymbolId(5),
                st.float_sym == SymbolId(6),
                st.double_sym == SymbolId(7),
                st.scala_pkg is None,
                st.predef is None,
                st.any_sym is None,
                st.anyref_sym is None,
                st.string_sym is None,
                st.array_sym is None,
                st.option_sym is None,
                st.list_sym is None,
                forall|k: int| 0 <= k < i ==> (#[trigger] st.syms@[k]).members@.len() == 0 && st.syms@[k].tparams@.len() == 0
                    && st.syms@[k].parents@.len() == 0 && st.syms@[k].kind == SymKind::Class && st.syms@[k].owner is None
                    && st.syms@[k].ty is Other && st.syms@[k].params@.len() == 0,
            decreases 8 - i,
        {
            st.syms.push(Symbol {
                name: names[i].to_owned(),
                kind: SymKind::Class,
                owner: None,
                flags: FLAG_FINAL,
                jvm_name: jvms[i].to_owned(),
                members: Vec::new(),
                params: Vec::new(),
                paramss: Vec::new(),
                tparams: Vec::new(),
                parents: Vec::new(),
                ctor_fields: Vec::new(),
                ty: Ty::Other,
                bound_hi: None,
                intrinsic: Intrinsic::Plain,
            });
            i += 1;
        }
        st
    }

    /// Every id the table records points at a slot it has.
    pub open spec fn wf(&self) -> bool {
        &&& self.syms@.len() < u32::MAX
        &&& self.valid(self.boolean_sym)
        &&& self.valid(self.byte_sym)
        &&& self.valid(self.short_sym)
        &&& self.valid(self.char_sym)
        &&& self.valid(self.int_sym)
        &&& self.valid(self.long_sym)
        &&& self.valid(self.float_sym)
        &&& self.valid(self.double_sym)
        &&& self.scala_pkg matches Some(p) ==> self.valid(p)
        &&& self.predef matches Some(p) ==> self.valid(p)
        &&& self.any_sym matches Some(p) ==> self.valid(p)
        &&& self.anyref_sym matches Some(p) ==> self.valid(p)
        &&& self.string_sym matches Some(p) ==> self.valid(p)
        &&& self.array_sym matches Some(p) ==> self.valid(p)
        &&& self.option_sym matches Some(p) ==> self.valid(p)
        &&& self.list_sym matches Some(p) ==> self.valid(p)
        &&& forall|i: int| 0 <= i < self.syms@.len() ==> ((#[trigger] self.syms@[i]).owner matches Some(o) ==> self.valid(o))
        &&& forall|i: int| 0 <= i < self.syms@.len() ==> ((#[trigger] self.syms@[i]).ty matches Ty::ModuleRef(c) ==> self.valid(c))
        &&& forall|i: int, j: int|
            0 <= i < self.syms@.len() && 0 <= j < self.syms@[i].params@.len() ==> self.valid(#[trigger] self.syms@[i].params@[j])
        &&& forall|i: int, j: int|
            0 <= i < self.syms@.len() && 0 <= j < self.syms@[i].members@.len() ==> self.valid(
                #[trigger] self.syms@[i].members@[j],
            )
        &&& forall|i: int, j: int|
            0 <= i < self.syms@.len() && 0 <= j < self.syms@[i].tparams@.len() ==> self.valid(
                #[trigger] self.syms@[i].tparams@[j],
            )
        &&& forall|i: int, j: int|
            0 <= i < self.syms@.len() && 0 <= j < self.syms@[i].parents@.len() ==> self.parent_ok(
                #[trigger] self.syms@[i].parents@[j],
            )
    }

    /// The class a type names, if it is a class type.
    pub open spec fn class_of_ty(t: Ty) -> Option<SymbolId> {
        match t {
            Ty::Class { sym, .. } => Some(sym),
            _ => None,
        }
    }

    /// A parent type names no class outside the table.
    pub open spec fn parent_ok(&self, t: Ty) -> bool {
        Self::class_of_ty(t) matches Some(c) ==> self.valid(c)
    }

    pub open spec fn valid(&self, id: SymbolId) -> bool {
        id.0 < self.syms@.len()
    }

    pub open spec fn sym(&self, id: SymbolId) -> Symbol {
        self.syms@[id.0 as int]
    }

    /// The well-known id of a primitive's class.
    pub open spec fn prim_class(&self, p: Prim) -> SymbolId {
        match p {
            Prim::Boolean => self.boolean_sym,
            Prim::Byte => self.byte_sym,
            Prim::Short => self.short_sym,
            Prim::Char => self.char_sym,
            Prim::Int => self.int_sym,
            Prim::Long => self.long_sym,
            Prim::Float => self.float_sym,
            Prim::Double => self.double_sym,
        }
    }

    pub fn get(&self, id: SymbolId) -> (r: &Symbol)
        requires
            self.valid(id),
        ensures
            *r == self.sym(id),
    {
        &self.syms[id.0 as usize]
    }

    /// Enter a freshly built symbol into the table, and among its owner's
    /// members.
    pub fn push_symbol(&mut self, s: Symbol) -> (id: SymbolId)
        requires
            old(self).wf(),
            old(self).syms@.len() + 1 < u32::MAX,
            s.members@.len() == 0,
            s.tparams@.len() == 0,
            forall|j: int| 0 <= j < s.parents@.len() ==> old(self).parent_ok(#[trigger] s.parents@[j]),
            s.owner matches Some(o) ==> old(self).valid(o),
            s.ty matches Ty::ModuleRef(c) ==> old(self).valid(c),
            s.params@.len() == 0,
        ensures
            final(self).wf(),
            final(self).grows_from(*old(self)),
            id.0 == old(self).syms@.len(),
            final(self).syms@.len() == old(self).syms@.len() + 1,
            final(self).sym(id).same_except_members(s),
            final(self).sym(id).members@ == s.members@,
            forall|i: int| 0 <= i < old(self).syms@.len() ==> {
                let o = #[trigger] old(self).syms@[i];
                let n = final(self).syms@[i];
                if s.owner == Some(SymbolId(i as u32)) {
                    n.members@ == o.members@.push(id)
                } else {
                    n.members@ == o.members@
                }
            },
    {
        let id = SymbolId(self.syms.len() as u32);
        let owner = s.owner;
        let ghost sv = s;
        self.syms.push(s);
        assert(forall|i: int| 0 <= i < old(self).syms@.len() ==> self.syms@[i] == old(self).syms@[i]);
        assert forall|i: int, j: int|
            0 <= i < self.syms@.len() && 0 <= j < self.syms@[i].members@.len() implies self.valid(
            #[trigger] self.syms@[i].members@[j]) by {
            if i < old(self).syms@.len() {
                assert(old(self).valid(old(self).syms@[i].members@[j]));
            }
        }
        assert forall|i: int, j: int|
            0 <= i < self.syms@.len() && 0 <= j < self.syms@[i].tparams@.len() implies self.valid(
            #[trigger] self.syms@[i].tparams@[j]) by {
            if i < old(self).syms@.len() {
                assert(old(self).valid(old(self).syms@[i].tparams@[j]));
            }
        }
        assert forall|i: int, j: int|
            0 <= i < self.syms@.len() && 0 <= j < self.syms@[i].parents@.len() implies self.parent_ok(
            #[trigger] self.syms@[i].parents@[j]) by {
            if i < old(self).syms@.len() {
                assert(old(self).parent_ok(old(self).syms@[i].parents@[j]));
            }
        }
        let ghost mid = *self;
        assert(self.grows_from(*old(self))) by {
            assert forall|i: int| 0 <= i < old(self).syms@.len() implies old(self).syms@[i].members@.is_prefix_of(
                #[trigger] self.syms@[i].members@) by {}
        }
        if let Some(o) = owner {
            self.push_member(o, id);
            assert(self.syms@[id.0 as int].same_except_members(mid.syms@[id.0 as int]));
            assert(self.syms@[id.0 as int].members@ == mid.syms@[id.0 as int].members@);
            proof { lemma_grows_trans(*old(self), mid, *self); }
        }
        id
    }

    /// Allocate a symbol and enter it among its owner's members.
    pub fn new_symbol(&mut self, name: &str, owner: Option<SymbolId>, kind: SymKind, flags: u64, jvm: &str) -> (id: SymbolId)
        requires
            old(self).wf(),
            old(self).syms@.len() + 1 < u32::MAX,
            owner matches Some(o) ==> old(self).valid(o),
        ensures
            final(self).wf(),
            final(self).grows_from(*old(self)),
            id.0 == old(self).syms@.len(),
            final(self).syms@.len() == old(self).syms@.len() + 1,
            final(self).sym(id).name@ == name@,
            final(self).sym(id).kind == kind,
            final(self).sym(id).owner == owner,
            final(self).sym(id).flags == flags,
            final(self).sym(id).jvm_name@ == jvm@,
            final(self).sym(id).members@.len() == 0,
            final(self).sym(id).params@.len() == 0,
            final(self).sym(id).tparams@.len() == 0,
            final(self).sym(id).paramss@.len() == 0,
            final(self).sym(id).parents@.len() == 0,
            final(self).sym(id).ctor_fields@.len() == 0,
            final(self).sym(id).ty is Other,
            final(self).sym(id).bound_hi is None,
            final(self).sym(id).intrinsic == Intrinsic::Plain,
            forall|i: int| 0 <= i < old(self).syms@.len() ==> {
                let o = #[trigger] old(self).syms@[i];
                let n = final(self).syms@[i];
                if owner == Some(SymbolId(i as u32)) {
                    n.members@ == o.members@.push(id)
                } else {
                    n.members@ == o.members@
                }
            },
    {
        let s = Symbol {
            name: name.to_owned(),
            kind,
            owner,
            flags,
            jvm_name: jvm.to_owned(),
            members: Vec::new(),
            params: Vec::new(),
            paramss: Vec::new(),
            tparams: Vec::new(),
            parents: Vec::new(),
            ctor_fields: Vec::new(),
            ty: Ty::Other,
            bound_hi: None,
            intrinsic: Intrinsic::Plain,
        };
        self.push_symbol(s)
    }

    /// Replace `owner`'s member list.
    pub fn set_members(&mut self, owner: SymbolId, members: Vec<SymbolId>)
        requires
            old(self).wf(),
            old(self).valid(owner),
            forall|j: int| 0 <= j < members@.len() ==> old(self).valid(#[trigger] members@[j]),
        ensures
            final(self).wf(),
            final(self).syms@.len() == old(self).syms@.len(),
            final(self).scope == old(self).scope,
            final(self).same_well_known(*old(self)),
            final(self).sym(owner).members@ == members@,
            forall|i: int| 0 <= i < old(self).syms@.len() ==> {
                let o = #[trigger] old(self).syms@[i];
                let n = final(self).syms@[i];
                &&& n.same_except_members(o)
                &&& i != owner.0 ==> n.members@ == o.members@
            },
    {
        let idx = owner.0 as usize;
        let ghost mv = members@;
        let mut s = self.syms.remove(idx);
        s.members = members;
        self.syms.insert(idx, s);
        assert forall|i: int, j: int|
            0 <= i < self.syms@.len() && 0 <= j < self.syms@[i].members@.len() implies self.valid(
            #[trigger] self.syms@[i].members@[j]) by {
            if i != idx {
                assert(self.syms@[i] == old(self).syms@[i]);
            } else {
                assert(self.syms@[i].members@ == mv);
            }
        }
        assert forall|i: int, j: int|
            0 <= i < self.syms@.len() && 0 <= j < self.syms@[i].tparams@.len() implies self.valid(
            #[trigger] self.syms@[i].tparams@[j]) by {
            if i != idx {
                assert(self.syms@[i] == old(self).syms@[i]);
            }
        }
        assert forall|i: int, j: int|
            0 <= i < self.syms@.len() && 0 <= j < self.syms@[i].parents@.len() implies self.parent_ok(
            #[trigger] self.syms@[i].parents@[j]) by {
            assert(self.syms@[i].parents@ == old(self).syms@[i].parents@);
            assert(old(self).parent_ok(old(self).syms@[i].parents@[j]));
        }
    }

    /// Append `m` to `owner`'s member list.
    pub fn push_member(&mut self, owner: SymbolId, m: SymbolId)
        requires
            old(self).wf(),
            old(self).valid(owner),
            old(self).valid(m),
        ensures
            final(self).wf(),
            final(self).grows_from(*old(self)),
            final(self).syms@.len() == old(self).syms@.len(),
            final(self).scope == old(self).scope,
            final(self).same_well_known(*old(self)),
            forall|i: int| 0 <= i < old(self).syms@.len() ==> {
                let o = #[trigger] old(self).syms@[i];
                let n = final(self).syms@[i];
                &&& n.same_except_members(o)
                &&& if owner.0 == i {
                    n.members@ == o.members@.push(m)
                } else {
                    n.members@ == o.members@
                }
            },
    {
        let idx = owner.0 as usize;
        let mut s = self.syms.remove(idx);
        s.members.push(m);
        self.syms.insert(idx, s);
        assert forall|i: int, j: int|
            0 <= i < self.syms@.len() && 0 <= j < self.syms@[i].members@.len() implies self.valid(
            #[trigger] self.syms@[i].members@[j]) by {
            if i != idx {
                assert(self.syms@[i] == old(self).syms@[i]);
            }
        }
        assert forall|i: int, j: int|
            0 <= i < self.syms@.len() && 0 <= j < self.syms@[i].tparams@.len() implies self.valid(
            #[trigger] self.syms@[i].tparams@[j]) by {
            if i != idx {
                assert(self.syms@[i] == old(self).syms@[i]);
            }
        }
        assert forall|i: int, j: int|
            0 <= i < self.syms@.len() && 0 <= j < self.syms@[i].parents@.len() implies self.parent_ok(
            #[trigger] self.syms@[i].parents@[j]) by {
            assert(self.syms@[i].parents@ == old(self).syms@[i].parents@);
            assert(old(self).parent_ok(old(self).syms@[i].parents@[j]));
        }
        assert forall|i: int| 0 <= i < old(self).syms@.len() implies old(self).syms@[i].members@.is_prefix_of(
            #[trigger] self.syms@[i].members@) by {}
    }

    /// Append `t` to `id`'s parents.
    pub fn push_parent(&mut self, id: SymbolId, t: Ty)
        requires
            old(self).wf(),
            old(self).valid(id),
            old(self).parent_ok(t),
        ensures
            final(self).wf(),
            final(self).syms@.len() == old(self).syms@.len(),
            final(self).scope == old(self).scope,
            final(self).same_well_known(*old(self)),
            forall|i: int| 0 <= i < old(self).syms@.len() && i != id.0 ==> #[trigger] final(self).syms@[i] == old(self).syms@[i],
            final(self).sym(id).same_except_parents(old(self).sym(id)),
            final(self).sym(id).parents@ == old(self).sym(id).parents@.push(t),
    {
        let idx = id.0 as usize;
        let ghost tv = t;
        let mut s = self.syms.remove(idx);
        s.parents.push(t);
        self.syms.insert(idx, s);
        assert forall|i: int| 0 <= i < old(self).syms@.len() && i != idx implies #[trigger] self.syms@[i] == old(self).syms@[i] by {}
        assert forall|i: int, j: int|
            0 <= i < self.syms@.len() && 0 <= j < self.syms@[i].members@.len() implies self.valid(
            #[trigger] self.syms@[i].members@[j]) by {
            assert(self.syms@[i].members@ == old(self).syms@[i].members@);
        }
        assert forall|i: int, j: int|
            0 <= i < self.syms@.len() && 0 <= j < self.syms@[i].tparams@.len() implies self.valid(
            #[trigger] self.syms@[i].tparams@[j]) by {
            assert(self.syms@[i].tparams@ == old(self).syms@[i].tparams@);
        }
        assert forall|i: int, j: int|
            0 <= i < self.syms@.len() && 0 <= j < self.syms@[i].parents@.len() implies self.parent_ok(
            #[trigger] self.syms@[i].parents@[j]) by {
            if i != idx {
                assert(old(self).parent_ok(old(self).syms@[i].parents@[j]));
            } else if j < old(self).syms@[i].parents@.len() {
                assert(self.syms@[i].parents@[j] == old(self).syms@[i].parents@[j]);
                assert(old(self).parent_ok(old(self).syms@[i].parents@[j]));
            } else {
                assert(self.syms@[i].parents@[j] == tv);
            }
        }
    }

    /// Append `extra`, in order, to `owner`'s member list.
    pub fn extend_members(&mut self, owner: SymbolId, extra: &Vec<SymbolId>)
        requires
            old(self).wf(),
            old(self).valid(owner),
            forall|j: int| 0 <= j < extra@.len() ==> old(self).valid(#[trigger] extra@[j]),
        ensures
            final(self).wf(),
            final(self).grows_from(*old(self)),
            final(self).syms@.len() == old(self).syms@.len(),
            final(self).sym(owner).members@ == old(self).sym(owner).members@ + extra@,
            forall|i: int| 0 <= i < old(self).syms@.len() && i != owner.0 ==>
                (#[trigger] final(self).syms@[i]).members@ == old(self).syms@[i].members@,
    {
        let mut k: usize = 0;
        while k < extra.len()
            invariant
                old(self).wf(),
                self.wf(),
                old(self).valid(owner),
                forall|j: int| 0 <= j < extra@.len() ==> old(self).valid(#[trigger] extra@[j]),
                0 <= k <= extra@.len(),
                self.grows_from(*old(self)),
                self.syms@.len() == old(self).syms@.len(),
                self.sym(owner).members@ == old(self).sym(owner).members@ + extra@.subrange(0, k as int),
                forall|i: int| 0 <= i < old(self).syms@.len() && i != owner.0 ==>
                    (#[trigger] self.syms@[i]).members@ == old(self).syms@[i].members@,
            decreases extra@.len() - k,
        {
            let ghost before = *self;
            self.push_member(owner, extra[k]);
            proof {
                lemma_grows_trans(*old(self), before, *self);
                assert(extra@.subrange(0, k + 1) == extra@.subrange(0, k as int).push(extra@[k as int]));
                assert forall|i: int| 0 <= i < old(self).syms@.len() && i != owner.0 implies
                    (#[trigger] self.syms@[i]).members@ == old(self).syms@[i].members@ by {
                    assert(self.syms@[i].members@ == before.syms@[i].members@);
                }
            }
            k = k + 1;
        }
        assert(extra@.subrange(0, extra@.len() as int) == extra@);
    }
}

impl Symbol {
    /// Every field but the member list is the same.
    pub open spec fn same_except_members(&self, o: Symbol) -> bool {
        &&& self.name == o.name
        &&& self.kind == o.kind
        &&& self.owner == o.owner
        &&& self.flags == o.flags
        &&& self.jvm_name == o.jvm_name
        &&& self.params == o.params
        &&& self.tparams == o.tparams
        &&& self.parents == o.parents
        &&& self.paramss == o.paramss
        &&& self.ctor_fields == o.ctor_fields
        &&& self.ty == o.ty
        &&& self.bound_hi == o.bound_hi
        &&& self.intrinsic == o.intrinsic
    }
}

impl Symbol {
    /// Every field but the type is the same.
    pub open spec fn same_except_ty(&self, o: Symbol) -> bool {
        &&& self.name == o.name
        &&& self.kind == o.kind
        &&& self.owner == o.owner
        &&& self.flags == o.flags
        &&& self.jvm_name == o.jvm_name
        &&& self.members == o.members
        &&& self.params == o.params
        &&& self.tparams == o.tparams
        &&& self.parents == o.parents
        &&& self.paramss == o.paramss
        &&& self.ctor_fields == o.ctor_fields
        &&& self.bound_hi == o.bound_hi
        &&& self.intrinsic == o.intrinsic
    }

    /// Every field but the parents is the same.
    pub open spec fn same_except_parents(&self, o: Symbol) -> bool {
        &&& self.name == o.name
        &&& self.kind == o.kind
        &&& self.owner == o.owner
        &&& self.flags == o.flags
        &&& self.jvm_name == o.jvm_name
        &&& self.members == o.members
        &&& self.params == o.params
        &&& self.tparams == o.tparams
        &&& self.paramss == o.paramss
        &&& self.ctor_fields == o.ctor_fields
        &&& self.ty == o.ty
        &&& self.bound_hi == o.bound_hi
        &&& self.intrinsic == o.intrinsic
    }

    /// Every field but the member and type-parameter lists is the same.
    pub open spec fn same_but_lists(&self, o: Symbol) -> bool {
        &&& self.name == o.name
        &&& self.kind == o.kind
        &&& self.owner == o.owner
        &&& self.flags == o.flags
        &&& self.jvm_name == o.jvm_name
        &&& self.params == o.params
        &&& self.parents == o.parents
        &&& self.paramss == o.paramss
        &&& self.ctor_fields == o.ctor_fields
        &&& self.ty == o.ty
        &&& self.bound_hi == o.bound_hi
        &&& self.intrinsic == o.intrinsic
    }
}

impl SymbolTable {
    pub open spec fn same_well_known(&self, o: SymbolTable) -> bool {
        &&& self.boolean_sym == o.boolean_sym
        &&& self.byte_sym == o.byte_sym
        &&& self.short_sym == o.short_sym
        &&& self.char_sym == o.char_sym
        &&& self.int_sym == o.int_sym
        &&& self.long_sym == o.long_sym
        &&& self.float_sym == o.float_sym
        &&& self.double_sym == o.double_sym
        &&& self.scala_pkg == o.scala_pkg
        &&& self.predef == o.predef
        &&& self.any_sym == o.any_sym
        &&& self.anyref_sym == o.anyref_sym
        &&& self.string_sym == o.string_sym
        &&& self.array_sym == o.array_sym
        &&& self.option_sym == o.option_sym
        &&& self.list_sym == o.list_sym
    }
}

impl SymbolTable {
    /// `self` is `o` with symbols appended and member lists extended; every
    /// other field of every old symbol is as it was.
    pub open spec fn grows_from(&self, o: SymbolTable) -> bool {
        &&& self.syms@.len() >= o.syms@.len()
        &&& self.scope == o.scope
        &&& self.same_well_known(o)
        &&& forall|i: int| 0 <= i < o.syms@.len() ==> {
            let n = #[trigger] self.syms@[i];
            &&& n.same_except_members(o.syms@[i])
            &&& o.syms@[i].members@.is_prefix_of(n.members@)
        }
    }

    /// `grows_from`, but for the scope, which may have changed too.
    pub open spec fn grows_entering(&self, o: SymbolTable) -> bool {
        &&& self.syms@.len() >= o.syms@.len()
        &&& self.same_well_known(o)
        &&& forall|i: int| 0 <= i < o.syms@.len() ==> {
            let n = #[trigger] self.syms@[i];
            &&& n.same_except_members(o.syms@[i])
            &&& o.syms@[i].members@.is_prefix_of(n.members@)
        }
    }

    /// The first parameter clause of a method symbol's type.
    pub open spec fn first_clause(ty: Ty) -> Option<Seq<Ty>> {
        match ty {
            Ty::Method { paramss, .. } => if paramss@.len() > 0 {
                Some(paramss@[0]@)
            } else {
                None
            },
            _ => None,
        }
    }

    /// A method type with no parameter clause at all.
    pub open spec fn is_nullary_method(ty: Ty) -> bool {
        match ty {
            Ty::Method { paramss, .. } => paramss@.len() == 0,
            _ => false,
        }
    }

    /// A method type's clauses (as sequences) and result.
    pub open spec fn method_shape(ty: Ty) -> Option<(Seq<Seq<Ty>>, Ty)> {
        match ty {
            Ty::Method { paramss, ret } => Some((paramss@.map_values(|c: Vec<Ty>| c@), *ret)),
            _ => None,
        }
    }

    /// `owner` has a member named `name` whose first parameter is `arg`.
    pub open spec fn declares_with_first(&self, owner: SymbolId, name: Seq<char>, arg: Prim) -> bool {
        exists|j: int|
            0 <= j < self.sym(owner).members@.len() && {
                let m = self.sym(#[trigger] self.sym(owner).members@[j]);
                &&& m.name@ == name
                &&& match Self::first_clause(m.ty) {
                    Some(c) => c.len() > 0 && c[0] == Ty::Prim(arg),
                    None => false,
                }
            }
    }

    /// `owner` has a method member named `name` whose one parameter clause is
    /// exactly `(arg)`.
    pub open spec fn declares_method_on(&self, owner: SymbolId, name: Seq<char>, arg: Prim) -> bool {
        exists|j: int|
            0 <= j < self.sym(owner).members@.len() && {
                let m = self.sym(#[trigger] self.sym(owner).members@[j]);
                &&& m.name@ == name
                &&& m.kind == SymKind::Method
                &&& Self::first_clause(m.ty) == Some(seq![Ty::Prim(arg)])
            }
    }

    /// `owner` has a member named `name` of nullary method type.
    pub open spec fn declares_nullary(&self, owner: SymbolId, name: Seq<char>) -> bool {
        exists|j: int|
            0 <= j < self.sym(owner).members@.len() && {
                let m = self.sym(#[trigger] self.sym(owner).members@[j]);
                &&& m.name@ == name
                &&& Self::is_nullary_method(m.ty)
            }
    }

    /// `owner` has a method member named `name` that takes no parameters.
    pub open spec fn declares_method_nullary(&self, owner: SymbolId, name: Seq<char>) -> bool {
        exists|j: int|
            0 <= j < self.sym(owner).members@.len() && {
                let m = self.sym(#[trigger] self.sym(owner).members@[j]);
                &&& m.name@ == name
                &&& m.kind == SymKind::Method
                &&& match m.ty {
                    Ty::Method { paramss, .. } => paramss@.len() == 0 || paramss@[0]@.len() == 0,
                    _ => false,
                }
            }
    }
}

impl SymbolTable {
    /// The scope as (name, symbol) pairs, in the order they were entered.
    pub open spec fn scope_view(&self) -> Seq<(Seq<char>, SymbolId)> {
        self.scope@.map_values(|e: (String, SymbolId)| (e.0@, e.1))
    }

    /// `id` has been entered into the scope under `name`.
    pub open spec fn entered(&self, name: Seq<char>, id: SymbolId) -> bool {
        exists|k: int| 0 <= k < self.scope@.len() && #[trigger] self.scope_view()[k] == (name, id)
    }

    /// One of the eight primitive value classes.
    pub open spec fn is_value_class(&self, id: SymbolId) -> bool {
        ||| id == self.boolean_sym
        ||| id == self.byte_sym
        ||| id == self.short_sym
        ||| id == self.char_sym
        ||| id == self.int_sym
        ||| id == self.long_sym
        ||| id == self.float_sym
        ||| id == self.double_sym
    }

    /// A kind of symbol that stands for a class file: a class, a module or
    /// its class.
    pub open spec fn is_class_kind(k: SymKind) -> bool {
        k == SymKind::Class || k == SymKind::ModuleClass || k == SymKind::Module
    }

    /// Slot `i` is a class, module or module class (not a value class) whose
    /// JVM name is `jvm`.
    pub open spec fn class_with_jvm(&self, i: int, jvm: Seq<char>) -> bool {
        &&& 0 <= i < self.syms@.len()
        &&& Self::is_class_kind(self.syms@[i].kind)
        &&& self.syms@[i].jvm_name@ == jvm
        &&& !self.is_value_class(SymbolId(i as u32))
    }

    /// The first slot at or after `i` holding a class named `jvm` on the JVM.
    pub open spec fn find_jvm_from(&self, jvm: Seq<char>, i: int) -> Option<SymbolId>
        decreases self.syms@.len() - i,
    {
        if i < 0 || i >= self.syms@.len() {
            None
        } else if self.class_with_jvm(i, jvm) {
            Some(SymbolId(i as u32))
        } else {
            self.find_jvm_from(jvm, i + 1)
        }
    }

    pub open spec fn spec_find_by_jvm(&self, jvm: Seq<char>) -> Option<SymbolId> {
        self.find_jvm_from(jvm, 0)
    }

    /// The first class, module or module class in the table whose JVM
    /// internal name is `jvm`. The value classes are skipped: their JVM name
    /// is the box they erase to, not an identity.
    pub fn find_by_jvm(&self, jvm: &str) -> (r: Option<SymbolId>)
        requires
            self.wf(),
        ensures
            r == self.spec_find_by_jvm(jvm@),
            r matches Some(id) ==> self.class_with_jvm(id.0 as int, jvm@),
    {
        let want = jvm.to_owned();
        let mut i: usize = 0;
        while i < self.syms.len()
            invariant
                self.wf(),
                want@ == jvm@,
                i <= self.syms@.len(),
                self.spec_find_by_jvm(jvm@) == self.find_jvm_from(jvm@, i as int),
            decreases self.syms@.len() - i,
        {
            let id = SymbolId(i as u32);
            let value = id == self.boolean_sym || id == self.byte_sym || id == self.short_sym
                || id == self.char_sym || id == self.int_sym || id == self.long_sym
                || id == self.float_sym || id == self.double_sym;
            let s = &self.syms[i];
            let class_kind = s.kind == SymKind::Class || s.kind == SymKind::ModuleClass || s.kind == SymKind::Module;
            if !value && class_kind && s.jvm_name == want {
                return Some(id);
            }
            i += 1;
        }
        None
    }

    /// Whether `id` has been entered into the scope under `name`.
    pub fn is_entered(&self, name: &str, id: SymbolId) -> (r: bool)
        ensures
            r == self.entered(name@, id),
    {
        let want = name.to_owned();
        let mut k: usize = 0;
        while k < self.scope.len()
            invariant
                want@ == name@,
                k <= self.scope@.len(),
                forall|j: int| 0 <= j < k ==> #[trigger] self.scope_view()[j] != (name@, id),
            decreases self.scope@.len() - k,
        {
            let e = &self.scope[k];
            if e.1 == id && e.0 == want {
                assert(self.scope_view()[k as int] == (name@, id));
                return true;
            }
            k += 1;
        }
        false
    }

    /// Enter `id` into the scope open for the whole compilation.
    pub fn enter_in_current(&mut self, name: &str, id: SymbolId)
        ensures
            final(self).syms == old(self).syms,
            final(self).same_well_known(*old(self)),
            final(self).scope_view() == old(self).scope_view().push((name@, id)),
    {
        self.scope.push((name.to_owned(), id));
        assert(self.scope_view() =~= old(self).scope_view().push((name@, id)));
    }
}

impl SymbolTable {
    /// `self` is `o` with one slot replaced by `s`, which keeps that slot's
    /// members and type parameters.
    pub open spec fn one_slot_changed(&self, o: SymbolTable, id: SymbolId, s: Symbol) -> bool {
        &&& self.syms@ == o.syms@.update(id.0 as int, s)
        &&& s.members@ == o.sym(id).members@
        &&& self.scope == o.scope
        &&& self.same_well_known(o)
    }

    /// Replace the symbol in slot `id` by `s`, which keeps its members and
    /// type parameters.
    fn replace_slot(&mut self, id: SymbolId, s: Symbol)
        requires
            old(self).wf(),
            old(self).valid(id),
            s.members@ == old(self).sym(id).members@,
            s.owner matches Some(o) ==> old(self).valid(o),
            s.ty matches Ty::ModuleRef(c) ==> old(self).valid(c),
            forall|j: int| 0 <= j < s.params@.len() ==> old(self).valid(#[trigger] s.params@[j]),
            forall|j: int| 0 <= j < s.tparams@.len() ==> old(self).valid(#[trigger] s.tparams@[j]),
            forall|j: int| 0 <= j < s.parents@.len() ==> old(self).parent_ok(#[trigger] s.parents@[j]),
        ensures
            final(self).wf(),
            final(self).one_slot_changed(*old(self), id, s),
    {
        let idx = id.0 as usize;
        let ghost sv = s;
        let _ = self.syms.remove(idx);
        self.syms.insert(idx, s);
        assert(self.syms@ =~= old(self).syms@.update(idx as int, sv));
        assert forall|i: int, j: int|
            0 <= i < self.syms@.len() && 0 <= j < self.syms@[i].members@.len() implies self.valid(
            #[trigger] self.syms@[i].members@[j]) by {
            if i != idx {
                assert(self.syms@[i] == old(self).syms@[i]);
            } else {
                assert(self.syms@[i].members@ == old(self).syms@[i].members@);
            }
        }
        assert forall|i: int, j: int|
            0 <= i < self.syms@.len() && 0 <= j < self.syms@[i].tparams@.len() implies self.valid(
            #[trigger] self.syms@[i].tparams@[j]) by {
            if i != idx {
                assert(self.syms@[i] == old(self).syms@[i]);
            } else {
                assert(self.syms@[i].tparams@ == sv.tparams@);
            }
        }
        assert forall|i: int, j: int|
            0 <= i < self.syms@.len() && 0 <= j < self.syms@[i].parents@.len() implies self.parent_ok(
            #[trigger] self.syms@[i].parents@[j]) by {
            if i != idx {
                assert(self.syms@[i] == old(self).syms@[i]);
                assert(old(self).parent_ok(old(self).syms@[i].parents@[j]));
            } else {
                assert(self.syms@[i].parents@ == sv.parents@);
                assert(old(self).parent_ok(sv.parents@[j]));
            }
        }
    }

    /// Take the symbol in slot `id` out, leaving a placeholder with the same
    /// member and type-parameter lists; `replace_slot` puts it back.
    fn take_slot(&mut self, id: SymbolId) -> (s: Symbol)
        requires
            old(self).wf(),
            old(self).valid(id),
        ensures
            s == old(self).sym(id),
            final(self).wf(),
            final(self).syms@.len() == old(self).syms@.len(),
            final(self).sym(id).members@ == s.members@,
            final(self).sym(id).tparams@ == s.tparams@,
            forall|i: int| 0 <= i < old(self).syms@.len() && i != id.0 ==> #[trigger] final(self).syms@[i] == old(self).syms@[i],
            final(self).scope == old(self).scope,
            final(self).same_well_known(*old(self)),
    {
        let idx = id.0 as usize;
        let s = self.syms.remove(idx);
        let members = s.members.clone();
        let tparams = s.tparams.clone();
        assert(members@ == s.members@);
        self.syms.insert(idx, Symbol {
            name: String::new(),
            kind: SymKind::Term,
            owner: None,
            flags: 0,
            jvm_name: String::new(),
            members,
            params: Vec::new(),
            paramss: Vec::new(),
            tparams,
            parents: Vec::new(),
            ctor_fields: Vec::new(),
            ty: Ty::Other,
            bound_hi: None,
            intrinsic: Intrinsic::Plain,
        });
        assert forall|i: int, j: int|
            0 <= i < self.syms@.len() && 0 <= j < self.syms@[i].members@.len() implies self.valid(
            #[trigger] self.syms@[i].members@[j]) by {
            if i != idx {
                assert(self.syms@[i] == old(self).syms@[i]);
            } else {
                assert(self.syms@[i].members@ == old(self).syms@[i].members@);
            }
        }
        assert forall|i: int, j: int|
            0 <= i < self.syms@.len() && 0 <= j < self.syms@[i].tparams@.len() implies self.valid(
            #[trigger] self.syms@[i].tparams@[j]) by {
            if i != idx {
                assert(self.syms@[i] == old(self).syms@[i]);
            } else {
                assert(self.syms@[i].tparams@ == old(self).syms@[i].tparams@);
            }
        }
        assert forall|i: int, j: int|
            0 <= i < self.syms@.len() && 0 <= j < self.syms@[i].parents@.len() implies self.parent_ok(
            #[trigger] self.syms@[i].parents@[j]) by {
            if i != idx {
                assert(self.syms@[i] == old(self).syms@[i]);
            } else {
                assert(self.syms@[i].parents@.len() == 0);
            }
        }
        s
    }

    /// Replace `id`'s type.
    pub fn set_ty(&mut self, id: SymbolId, ty: Ty)
        requires
            old(self).wf(),
            old(self).valid(id),
            ty matches Ty::ModuleRef(c) ==> old(self).valid(c),
        ensures
            final(self).wf(),
            final(self).one_slot_changed(*old(self), id, Symbol { ty: ty, ..old(self).sym(id) }),
    {
        let ghost tv = ty;
        let mut s = self.take_slot(id);
        s.ty = ty;
        assert(s == Symbol { ty: tv, ..old(self).sym(id) });
        self.replace_slot(id, s);
        assert(self.syms@ =~= old(self).syms@.update(id.0 as int, Symbol { ty: tv, ..old(self).sym(id) }));
    }

    /// Replace `id`'s JVM name.
    pub fn set_jvm_name(&mut self, id: SymbolId, jvm: String)
        requires
            old(self).wf(),
            old(self).valid(id),
        ensures
            final(self).wf(),
            final(self).one_slot_changed(*old(self), id, Symbol { jvm_name: jvm, ..old(self).sym(id) }),
    {
        let ghost jv = jvm;
        let mut s = self.take_slot(id);
        s.jvm_name = jvm;
        assert(s == Symbol { jvm_name: jv, ..old(self).sym(id) });
        self.replace_slot(id, s);
        assert(self.syms@ =~= old(self).syms@.update(id.0 as int, Symbol { jvm_name: jv, ..old(self).sym(id) }));
    }

    /// Replace `id`'s flags.
    pub fn set_flags(&mut self, id: SymbolId, flags: u64)
        requires
            old(self).wf(),
            old(self).valid(id),
        ensures
            final(self).wf(),
            final(self).one_slot_changed(*old(self), id, Symbol { flags: flags, ..old(self).sym(id) }),
    {
        let mut s = self.take_slot(id);
        s.flags = flags;
        self.replace_slot(id, s);
        assert(self.syms@ =~= old(self).syms@.update(id.0 as int, Symbol { flags: flags, ..old(self).sym(id) }));
    }

    /// Replace `id`'s upper bound.
    pub fn set_bound_hi(&mut self, id: SymbolId, bound: Option<Ty>)
        requires
            old(self).wf(),
            old(self).valid(id),
        ensures
            final(self).wf(),
            final(self).one_slot_changed(*old(self), id, Symbol { bound_hi: bound, ..old(self).sym(id) }),
    {
        let ghost bv = bound;
        let mut s = self.take_slot(id);
        s.bound_hi = bound;
        assert(s == Symbol { bound_hi: bv, ..old(self).sym(id) });
        self.replace_slot(id, s);
        assert(self.syms@ =~= old(self).syms@.update(id.0 as int, Symbol { bound_hi: bv, ..old(self).sym(id) }));
    }

    /// Replace `id`'s parent types; each class they name must be in the table.
    pub fn set_parents(&mut self, id: SymbolId, parents: Vec<Ty>)
        requires
            old(self).wf(),
            old(self).valid(id),
            forall|j: int| 0 <= j < parents@.len() ==> old(self).parent_ok(#[trigger] parents@[j]),
        ensures
            final(self).wf(),
            final(self).one_slot_changed(*old(self), id, Symbol { parents: parents, ..old(self).sym(id) }),
    {
        let ghost pv = parents;
        let mut s = self.take_slot(id);
        s.parents = parents;
        assert(s == Symbol { parents: pv, ..old(self).sym(id) });
        self.replace_slot(id, s);
        assert(self.syms@ =~= old(self).syms@.update(id.0 as int, Symbol { parents: pv, ..old(self).sym(id) }));
    }

    /// Replace `id`'s parameter symbols.
    pub fn set_params(&mut self, id: SymbolId, v: Vec<SymbolId>)
        requires
            old(self).wf(),
            old(self).valid(id),
            forall|j: int| 0 <= j < v@.len() ==> old(self).valid(#[trigger] v@[j]),
        ensures
            final(self).wf(),
            final(self).one_slot_changed(*old(self), id, Symbol { params: v, ..old(self).sym(id) }),
    {
        let ghost vv = v;
        let mut s = self.take_slot(id);
        s.params = v;
        assert(s == Symbol { params: vv, ..old(self).sym(id) });
        self.replace_slot(id, s);
        assert(self.syms@ =~= old(self).syms@.update(id.0 as int, Symbol { params: vv, ..old(self).sym(id) }));
    }

    /// Replace `id`'s parameter symbols by clause.
    pub fn set_paramss(&mut self, id: SymbolId, v: Vec<Vec<SymbolId>>)
        requires
            old(self).wf(),
            old(self).valid(id),
        ensures
            final(self).wf(),
            final(self).one_slot_changed(*old(self), id, Symbol { paramss: v, ..old(self).sym(id) }),
    {
        let ghost vv = v;
        let mut s = self.take_slot(id);
        s.paramss = v;
        assert(s == Symbol { paramss: vv, ..old(self).sym(id) });
        self.replace_slot(id, s);
        assert(self.syms@ =~= old(self).syms@.update(id.0 as int, Symbol { paramss: vv, ..old(self).sym(id) }));
    }

    /// Replace `id`'s intrinsic.
    pub fn set_intrinsic(&mut self, id: SymbolId, v: Intrinsic)
        requires
            old(self).wf(),
            old(self).valid(id),
        ensures
            final(self).wf(),
            final(self).one_slot_changed(*old(self), id, Symbol { intrinsic: v, ..old(self).sym(id) }),
    {
        let ghost vv = v;
        let mut s = self.take_slot(id);
        s.intrinsic = v;
        assert(s == Symbol { intrinsic: vv, ..old(self).sym(id) });
        self.replace_slot(id, s);
        assert(self.syms@ =~= old(self).syms@.update(id.0 as int, Symbol { intrinsic: vv, ..old(self).sym(id) }));
    }

    /// Replace `id`'s constructor fields.
    pub fn set_ctor_fields(&mut self, id: SymbolId, v: Vec<SymbolId>)
        requires
            old(self).wf(),
            old(self).valid(id),
        ensures
            final(self).wf(),
            final(self).one_slot_changed(*old(self), id, Symbol { ctor_fields: v, ..old(self).sym(id) }),
    {
        let ghost vv = v;
        let mut s = self.take_slot(id);
        s.ctor_fields = v;
        assert(s == Symbol { ctor_fields: vv, ..old(self).sym(id) });
        self.replace_slot(id, s);
        assert(self.syms@ =~= old(self).syms@.update(id.0 as int, Symbol { ctor_fields: vv, ..old(self).sym(id) }));
    }

    /// Replace `id`'s type parameters.
    pub fn set_tparams(&mut self, id: SymbolId, tparams: Vec<SymbolId>)
        requires
            old(self).wf(),
            old(self).valid(id),
            forall|j: int| 0 <= j < tparams@.len() ==> old(self).valid(#[trigger] tparams@[j]),
        ensures
            final(self).wf(),
            final(self).one_slot_changed(*old(self), id, Symbol { tparams: tparams, ..old(self).sym(id) }),
    {
        let ghost tv = tparams;
        let mut s = self.take_slot(id);
        s.tparams = tparams;
        assert(s == Symbol { tparams: tv, ..old(self).sym(id) });
        self.replace_slot(id, s);
        assert(self.syms@ =~= old(self).syms@.update(id.0 as int, Symbol { tparams: tv, ..old(self).sym(id) }));
    }
}

/// Changing a slot allocated after `a` keeps what `grows_from` says of `a`.
pub proof fn lemma_grows_fresh_slot(a: SymbolTable, b: SymbolTable, c: SymbolTable, id: SymbolId, s: Symbol)
    requires
        b.grows_from(a),
        c.one_slot_changed(b, id, s),
        id.0 >= a.syms@.len(),
        id.0 < b.syms@.len(),
    ensures
        c.grows_from(a),
{
    assert forall|i: int| 0 <= i < a.syms@.len() implies #[trigger] c.syms@[i] == b.syms@[i] by {}
}

/// Growing, with the scope free to change, is transitive.
pub proof fn lemma_grows_entering_trans(a: SymbolTable, b: SymbolTable, c: SymbolTable)
    requires
        b.grows_entering(a),
        c.grows_entering(b),
    ensures
        c.grows_entering(a),
{
    assert forall|i: int| 0 <= i < a.syms@.len() implies {
        let n = #[trigger] c.syms@[i];
        &&& n.same_except_members(a.syms@[i])
        &&& a.syms@[i].members@.is_prefix_of(n.members@)
    } by {
        let x = a.syms@[i].members@;
        let y = b.syms@[i].members@;
        let z = c.syms@[i].members@;
        assert forall|k: int| 0 <= k < x.len() implies x[k] == z[k] by {
            assert(x[k] == y[k]);
        }
    }
}

/// Growing is transitive.
pub proof fn lemma_grows_trans(a: SymbolTable, b: SymbolTable, c: SymbolTable)
    requires
        b.grows_from(a),
        c.grows_from(b),
    ensures
        c.grows_from(a),
{
    assert forall|i: int| 0 <= i < a.syms@.len() implies {
        let n = #[trigger] c.syms@[i];
        &&& n.same_except_members(a.syms@[i])
        &&& a.syms@[i].members@.is_prefix_of(n.members@)
    } by {
        let x = a.syms@[i].members@;
        let y = b.syms@[i].members@;
        let z = c.syms@[i].members@;
        assert(x.is_prefix_of(y));
        assert(y.is_prefix_of(z));
        assert forall|k: int| 0 <= k < x.len() implies x[k] == z[k] by {
            assert(x[k] == y[k]);
        }
    }
}

/// Every member appended, since `o`, to a symbol `o` already had is a symbol
/// made since `o` and owned by that symbol.
pub open spec fn adds_owned(o: SymbolTable, st: SymbolTable) -> bool {
    forall|c: int, j: int|
        0 <= c < o.syms@.len() && o.syms@[c].members@.len() <= j < st.syms@[c].members@.len() ==> {
            let m = #[trigger] st.syms@[c].members@[j];
            &&& m.0 >= o.syms@.len()
            &&& st.sym(m).owner matches Some(w) && w.0 == c
        }
}

/// The primitive value classes are eight different symbols.
pub open spec fn prims_distinct(st: SymbolTable) -> bool {
    forall|p: Prim, q: Prim| #[trigger] st.prim_class(p) == #[trigger] st.prim_class(q) ==> p == q
}

pub proof fn lemma_adds_owned_trans(a: SymbolTable, b: SymbolTable, c: SymbolTable)
    requires
        b.wf(),
        b.grows_from(a),
        c.grows_from(b),
        adds_owned(a, b),
        adds_owned(b, c),
    ensures
        adds_owned(a, c),
{
    assert forall|x: int, j: int|
        0 <= x < a.syms@.len() && a.syms@[x].members@.len() <= j < c.syms@[x].members@.len() implies {
            let m = #[trigger] c.syms@[x].members@[j];
            &&& m.0 >= a.syms@.len()
            &&& c.sym(m).owner matches Some(w) && w.0 == x
        } by {
        let m = c.syms@[x].members@[j];
        if j < b.syms@[x].members@.len() {
            assert(b.syms@[x].members@.is_prefix_of(c.syms@[x].members@));
            assert(b.syms@[x].members@[j] == m);
            assert(b.valid(m));
            assert(c.syms@[m.0 as int].same_except_members(b.syms@[m.0 as int]));
        }
    }
}

/// A table that grew by no symbol grew by no member either.
pub proof fn lemma_no_new_members(o: SymbolTable, st: SymbolTable)
    requires
        st.wf(),
        st.grows_from(o),
        adds_owned(o, st),
        st.syms@.len() == o.syms@.len(),
    ensures
        forall|i: int| 0 <= i < o.syms@.len() ==> (#[trigger] st.syms@[i]).members@ == o.syms@[i].members@,
{
    assert forall|i: int| 0 <= i < o.syms@.len() implies (#[trigger] st.syms@[i]).members@ == o.syms@[i].members@ by {
        let om = o.syms@[i].members@;
        let sm = st.syms@[i].members@;
        assert(om.is_prefix_of(sm));
        if sm.len() > om.len() {
            let m = sm[om.len() as int];
            assert(st.valid(m));
        }
        assert(sm =~= om);
    }
}

/// A member found in a table is still found once it has grown.
pub proof fn lemma_declares_kept(a: SymbolTable, b: SymbolTable, owner: SymbolId, name: Seq<char>, arg: Prim)
    requires
        b.grows_from(a),
        a.valid(owner),
        a.wf(),
    ensures
        a.declares_with_first(owner, name, arg) ==> b.declares_with_first(owner, name, arg),
        a.declares_method_on(owner, name, arg) ==> b.declares_method_on(owner, name, arg),
        a.declares_nullary(owner, name) ==> b.declares_nullary(owner, name),
        a.declares_method_nullary(owner, name) ==> b.declares_method_nullary(owner, name),
{
    let ms_a = a.sym(owner).members@;
    let ms_b = b.sym(owner).members@;
    assert(ms_a.is_prefix_of(ms_b));
    if a.declares_with_first(owner, name, arg) {
        let j = choose|j: int|
            0 <= j < a.sym(owner).members@.len() && {
                let m = a.sym(#[trigger] a.sym(owner).members@[j]);
                &&& m.name@ == name
                &&& match SymbolTable::first_clause(m.ty) {
                    Some(c) => c.len() > 0 && c[0] == Ty::Prim(arg),
                    None => false,
                }
            };
        assert(ms_b[j] == ms_a[j]);
        assert(a.valid(ms_a[j]));
        assert(b.sym(ms_b[j]).same_except_members(a.sym(ms_a[j])));
    }
    if a.declares_method_on(owner, name, arg) {
        let j = choose|j: int|
            0 <= j < a.sym(owner).members@.len() && {
                let m = a.sym(#[trigger] a.sym(owner).members@[j]);
                &&& m.name@ == name
                &&& m.kind == SymKind::Method
                &&& SymbolTable::first_clause(m.ty) == Some(seq![Ty::Prim(arg)])
            };
        assert(ms_b[j] == ms_a[j]);
        assert(a.valid(ms_a[j]));
        assert(b.sym(ms_b[j]).same_except_members(a.sym(ms_a[j])));
    }
    if a.declares_nullary(owner, name) {
        let j = choose|j: int|
            0 <= j < a.sym(owner).members@.len() && {
                let m = a.sym(#[trigger] a.sym(owner).members@[j]);
                &&& m.name@ == name
                &&& SymbolTable::is_nullary_method(m.ty)
            };
        assert(ms_b[j] == ms_a[j]);
        assert(a.valid(ms_a[j]));
        assert(b.sym(ms_b[j]).same_except_members(a.sym(ms_a[j])));
    }
    if a.declares_method_nullary(owner, name) {
        let j = choose|j: int|
            0 <= j < a.sym(owner).members@.len() && {
                let m = a.sym(#[trigger] a.sym(owner).members@[j]);
                &&& m.name@ == name
                &&& m.kind == SymKind::Method
                &&& match m.ty {
                    Ty::Method { paramss, .. } => paramss@.len() == 0 || paramss@[0]@.len() == 0,
                    _ => false,
                }
            };
        assert(ms_b[j] == ms_a[j]);
        assert(a.valid(ms_a[j]));
        assert(b.sym(ms_b[j]).same_except_members(a.sym(ms_a[j])));
    }
}

/// What a JVM name finds in a table it still finds once the table has grown:
/// growing keeps every old slot's kind and JVM name, and adds slots only
/// after the one found.
pub proof fn lemma_find_kept(a: SymbolTable, b: SymbolTable, jvm: Seq<char>, i: int)
    requires
        b.grows_from(a),
    ensures
        a.find_jvm_from(jvm, i) matches Some(id) ==> b.find_jvm_from(jvm, i) == Some(id),
    decreases a.syms@.len() - i,
{
    if 0 <= i < a.syms@.len() {
        assert(b.syms@[i].same_except_members(a.syms@[i]));
        assert(a.class_with_jvm(i, jvm) == b.class_with_jvm(i, jvm));
        lemma_find_kept(a, b, jvm, i + 1);
    }
}

/// What a JVM name finds is a class slot of the table with that JVM name.
pub proof fn lemma_find_valid(st: SymbolTable, jvm: Seq<char>, i: int)
    requires
        st.syms@.len() < u32::MAX,
    ensures
        st.find_jvm_from(jvm, i) matches Some(id) ==> st.class_with_jvm(id.0 as int, jvm),
    decreases st.syms@.len() - i,
{
    if 0 <= i < st.syms@.len() && !st.class_with_jvm(i, jvm) {
        lemma_find_valid(st, jvm, i + 1);
    }
}

} // verus!
