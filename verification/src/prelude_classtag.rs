//! `ClassTag#wrap`, the one member the materialiser needs and the prelude did
//! not declare: nsc builds `ClassTag[Array[E]]` as `<E's tag>.wrap` whenever
//! `E` has no erasure of its own.
use vstd::prelude::*;
use vstd::string::*;

use crate::prelude::{clauses_of, is_prelude_method, prelude_method};
use crate::symbols::{Intrinsic, SymbolId, SymbolTable, Ty};

verus! {

/// `owner` has a member named `name`, of any kind.
pub open spec fn declares_named(st: SymbolTable, owner: SymbolId, name: Seq<char>) -> bool {
    exists|j: int| 0 <= j < st.sym(owner).members@.len() && st.sym(#[trigger] st.sym(owner).members@[j]).name@ == name
}

/// Whether `owner` has a member named `name`.
pub fn has_member_named(st: &SymbolTable, owner: SymbolId, name: &str) -> (r: bool)
    requires
        st.wf(),
        st.valid(owner),
    ensures
        r == declares_named(*st, owner, name@),
{
    let want = name.to_owned();
    let members = &st.get(owner).members;
    let mut j: usize = 0;
    while j < members.len()
        invariant
            st.wf(),
            st.valid(owner),
            members@ == st.sym(owner).members@,
            want@ == name@,
            j <= members@.len(),
            forall|k: int| 0 <= k < j ==> st.sym(#[trigger] st.sym(owner).members@[k]).name@ != name@,
        decreases members@.len() - j,
    {
        proof {
            assert(st.valid(st.sym(owner).members@[j as int]));
        }
        if st.get(members[j]).name == want {
            return true;
        }
        j += 1;
    }
    false
}

/// The class `ClassTag`, when it is in the table, it lacks `wrap`, and it
/// has a type parameter `T` to say `wrap` in.
pub open spec fn wrap_wanted(st: SymbolTable) -> Option<(SymbolId, SymbolId)> {
    match st.spec_find_by_jvm("scala/reflect/ClassTag"@) {
        Some(ct) => if !declares_named(st, ct, "wrap"@) && st.sym(ct).tparams@.len() > 0 {
            Some((ct, st.sym(ct).tparams@[0]))
        } else {
            None
        },
        None => None,
    }
}

/// Declare `ClassTag#wrap: ClassTag[Array[T]]`, when compiling against the
/// Scala library's ABI, `ClassTag` is in the table, it has a type parameter
/// and no member `wrap` yet.
pub fn install(st: &mut SymbolTable, library_abi: bool)
    requires
        old(st).wf(),
        old(st).syms@.len() + 1 < u32::MAX,
    ensures
        final(st).wf(),
        !library_abi || wrap_wanted(*old(st)) is None ==> *final(st) == *old(st),
        library_abi ==> (wrap_wanted(*old(st)) matches Some((ct, t)) ==> {
            let id = SymbolId(old(st).syms@.len() as u32);
            &&& final(st).grows_from(*old(st))
            &&& final(st).syms@.len() == old(st).syms@.len() + 1
            &&& final(st).sym(ct).members@ == old(st).sym(ct).members@.push(id)
            &&& final(st).sym(id).name@ == "wrap"@
            &&& final(st).sym(id).intrinsic == Intrinsic::Plain
            &&& final(st).sym(id).ty matches Ty::Method { paramss, ret } && paramss@.len() == 0 && (*ret matches Ty::Class {
                sym,
                args,
            } && sym == ct && args@ == seq![Ty::Array(Box::new(Ty::TypeParam(t)))])
        }),
{
    if !library_abi {
        return;
    }
    let ct = match st.find_by_jvm("scala/reflect/ClassTag") {
        Some(c) => c,
        None => {
            return;
        },
    };
    if has_member_named(st, ct, "wrap") {
        return;
    }
    if st.get(ct).tparams.len() == 0 {
        return;
    }
    let t = st.get(ct).tparams[0];
    let args = vec![Ty::Array(Box::new(Ty::TypeParam(t)))];
    let ghost av = args@;
    let ret = Ty::Class { sym: ct, args };
    let ghost rv = ret;
    let id = prelude_method(st, ct, "wrap", Vec::new(), ret, Intrinsic::Plain);
    proof {
        assert(clauses_of(Seq::<Ty>::empty()) =~= Seq::<Seq<Ty>>::empty());
        assert(av == seq![Ty::Array(Box::new(Ty::TypeParam(t)))]);
        match st.sym(id).ty {
            Ty::Method { paramss, ret } => {
                assert(paramss@.map_values(|c: Vec<Ty>| c@).len() == 0);
                assert(*ret == rv);
            },
            _ => {},
        }
    }
}

} // verus!
