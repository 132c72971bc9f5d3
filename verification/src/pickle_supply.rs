//! Completing standard-library members from their Scala pickles, on demand.
//!
//! Three rules keep it honest:
//!
//! 1. **The prelude always wins.** Completion runs only when the member lookup
//!    found nothing, so a hand-written declaration is never shadowed or
//!    replaced.
//! 2. **A member we cannot express is not supplied.** A member whose erased
//!    JVM descriptor cannot be pinned down is skipped.
//! 3. **Nothing is read ahead of time.** One pickle read per (receiver, name)
//!    miss, cached.
use vstd::prelude::*;
use vstd::string::*;

use crate::symbols::{lemma_grows_trans, Prim, SymKind, Symbol, SymbolId, SymbolTable, Ty, Intrinsic};
use crate::descriptor::{params_match, desc_arity, slot_views, spec_params_match, spec_desc_arity};
use crate::text::{chars_of, chars_eq, rfind_char, rfind_char_exec, str_eq};
use crate::jvm_names::lemma_rfind_char_bound;

verus! {

/// A type parameter of a pickled alias. `arity` is its own kind arity, so
/// `type Ref[F[_], A]` yields `[("F", 1), ("A", 0)]`.
pub struct PickledTParam {
    pub name: String,
    pub arity: usize,
}

/// What is left of a member list once the class-file descriptions of a name
/// just supplied from the pickle are dropped: a member outside `installed`
/// stays unless it is `stale`; a member in `installed` stays once, at its
/// first position.
pub open spec fn kept_after_drop(
    ms: Seq<SymbolId>,
    stale: Seq<SymbolId>,
    installed: Seq<SymbolId>,
    kept: Set<SymbolId>,
) -> Seq<SymbolId>
    decreases ms.len(),
{
    if ms.len() == 0 {
        Seq::empty()
    } else {
        let m = ms[0];
        if !installed.contains(m) {
            if stale.contains(m) {
                kept_after_drop(ms.drop_first(), stale, installed, kept)
            } else {
                seq![m] + kept_after_drop(ms.drop_first(), stale, installed, kept)
            }
        } else if kept.contains(m) {
            kept_after_drop(ms.drop_first(), stale, installed, kept)
        } else {
            seq![m] + kept_after_drop(ms.drop_first(), stale, installed, kept.insert(m))
        }
    }
}

proof fn lemma_kept_after_drop_append(
    ms: Seq<SymbolId>,
    x: SymbolId,
    stale: Seq<SymbolId>,
    installed: Seq<SymbolId>,
    kept: Set<SymbolId>,
)
    ensures
        kept_after_drop(ms.push(x), stale, installed, kept) == kept_after_drop(ms, stale, installed, kept)
            + kept_after_drop(seq![x], stale, installed, kept_set_after(ms, installed, kept)),
    decreases ms.len(),
{
    if ms.len() == 0 {
        assert(ms.push(x) =~= seq![x]);
    } else {
        let m = ms[0];
        assert(ms.push(x).drop_first() =~= ms.drop_first().push(x));
        if installed.contains(m) && !kept.contains(m) {
            lemma_kept_after_drop_append(ms.drop_first(), x, stale, installed, kept.insert(m));
        } else {
            lemma_kept_after_drop_append(ms.drop_first(), x, stale, installed, kept);
        }
        let a = kept_after_drop(ms.drop_first(), stale, installed, if installed.contains(m) && !kept.contains(m) { kept.insert(m) } else { kept });
        let b = kept_after_drop(seq![x], stale, installed, kept_set_after(ms, installed, kept));
        assert(seq![m] + (a + b) =~= (seq![m] + a) + b);
    }
}

proof fn lemma_kept_after_drop_members(
    ms: Seq<SymbolId>,
    stale: Seq<SymbolId>,
    installed: Seq<SymbolId>,
    kept: Set<SymbolId>,
)
    ensures
        forall|m: SymbolId| #[trigger] kept_after_drop(ms, stale, installed, kept).contains(m) <==> (
        ms.contains(m) && if installed.contains(m) {
            !kept.contains(m)
        } else {
            !stale.contains(m)
        }),
        forall|i: int, j: int|
            0 <= i < j < kept_after_drop(ms, stale, installed, kept).len()
                && installed.contains(kept_after_drop(ms, stale, installed, kept)[i]) ==> kept_after_drop(
                ms,
                stale,
                installed,
                kept,
            )[i] != kept_after_drop(ms, stale, installed, kept)[j],
    decreases ms.len(),
{
    if ms.len() > 0 {
        let m0 = ms[0];
        let rest = ms.drop_first();
        let nk = if installed.contains(m0) && !kept.contains(m0) { kept.insert(m0) } else { kept };
        lemma_kept_after_drop_members(rest, stale, installed, nk);
        let r = kept_after_drop(rest, stale, installed, nk);
        let out = kept_after_drop(ms, stale, installed, kept);
        assert forall|m: SymbolId| out.contains(m) <==> (ms.contains(m) && if installed.contains(m) {
            !kept.contains(m)
        } else {
            !stale.contains(m)
        }) by {
            assert(ms.contains(m) <==> (m == m0 || rest.contains(m))) by {
                if ms.contains(m) && m != m0 {
                    let k = choose|k: int| 0 <= k < ms.len() && ms[k] == m;
                    assert(rest[k - 1] == m);
                }
                if rest.contains(m) {
                    let k = choose|k: int| 0 <= k < rest.len() && rest[k] == m;
                    assert(ms[k + 1] == m);
                }
                if m == m0 {
                    assert(ms[0] == m);
                }
            }
            if out == seq![m0] + r {
                assert(out.contains(m) <==> (m == m0 || r.contains(m))) by {
                    if out.contains(m) && m != m0 {
                        let k = choose|k: int| 0 <= k < out.len() && out[k] == m;
                        assert(r[k - 1] == m);
                    }
                    if r.contains(m) {
                        let k = choose|k: int| 0 <= k < r.len() && r[k] == m;
                        assert(out[k + 1] == m);
                    }
                    if m == m0 {
                        assert(out[0] == m);
                    }
                }
            }
        }
        assert forall|i: int, j: int|
            0 <= i < j < out.len() && installed.contains(out[i]) implies out[i] != out[j] by {
            if out == seq![m0] + r && i == 0 {
                assert(out[j] == r[j - 1]);
                assert(r.contains(r[j - 1]));
            } else if out == seq![m0] + r {
                assert(out[i] == r[i - 1] && out[j] == r[j - 1]);
            }
        }
    }
}

/// Dropping stale descriptions: an installed member that was listed stays
/// listed exactly once (never twice); a stale member that was not installed
/// is gone; every other member stays exactly when it was there.
pub proof fn lemma_drop_stale_members(ms: Seq<SymbolId>, stale: Seq<SymbolId>, installed: Seq<SymbolId>)
    ensures
        forall|m: SymbolId| installed.contains(m) ==> (#[trigger] kept_after_drop(ms, stale, installed, Set::empty()).contains(m)
            <==> ms.contains(m)),
        forall|m: SymbolId| !installed.contains(m) && stale.contains(m) ==> !(#[trigger] kept_after_drop(
            ms,
            stale,
            installed,
            Set::empty(),
        ).contains(m)),
        forall|m: SymbolId| !installed.contains(m) && !stale.contains(m) ==> (#[trigger] kept_after_drop(
            ms,
            stale,
            installed,
            Set::empty(),
        ).contains(m) <==> ms.contains(m)),
        forall|i: int, j: int|
            0 <= i < j < kept_after_drop(ms, stale, installed, Set::empty()).len() && installed.contains(
                kept_after_drop(ms, stale, installed, Set::empty())[i],
            ) ==> kept_after_drop(ms, stale, installed, Set::empty())[i] != kept_after_drop(
                ms,
                stale,
                installed,
                Set::empty(),
            )[j],
{
    lemma_kept_after_drop_members(ms, stale, installed, Set::empty());
}

/// The installed members already kept after reading `ms`.
pub open spec fn kept_set_after(ms: Seq<SymbolId>, installed: Seq<SymbolId>, kept: Set<SymbolId>) -> Set<SymbolId>
    decreases ms.len(),
{
    if ms.len() == 0 {
        kept
    } else if installed.contains(ms[0]) && !kept.contains(ms[0]) {
        kept_set_after(ms.drop_first(), installed, kept.insert(ms[0]))
    } else {
        kept_set_after(ms.drop_first(), installed, kept)
    }
}

proof fn lemma_kept_set_append(ms: Seq<SymbolId>, x: SymbolId, installed: Seq<SymbolId>, kept: Set<SymbolId>)
    ensures
        kept_set_after(ms.push(x), installed, kept) == (if installed.contains(x) {
            kept_set_after(ms, installed, kept).insert(x)
        } else {
            kept_set_after(ms, installed, kept)
        }),
    decreases ms.len(),
{
    if ms.len() == 0 {
        assert(ms.push(x) =~= seq![x]);
        assert(seq![x].drop_first() =~= Seq::<SymbolId>::empty());
        assert(kept_set_after(Seq::<SymbolId>::empty(), installed, kept) == kept);
        assert(kept_set_after(Seq::<SymbolId>::empty(), installed, kept.insert(x)) == kept.insert(x));
        if installed.contains(x) && kept.contains(x) {
            assert(kept.insert(x) =~= kept);
        }
    } else {
        assert(ms.push(x).drop_first() =~= ms.drop_first().push(x));
        if installed.contains(ms[0]) && !kept.contains(ms[0]) {
            lemma_kept_set_append(ms.drop_first(), x, installed, kept.insert(ms[0]));
        } else {
            lemma_kept_set_append(ms.drop_first(), x, installed, kept);
        }
    }
}

/// Drop the class-file descriptions of a name the pickle has just replaced.
///
/// `stale` is what the class-file reader had entered under that name and
/// `installed` is what completion has just supplied. Those two lists can
/// *overlap*: supplying a member fills the pickled signature into a symbol
/// that is already there rather than allocating a second one, and it then
/// pushes that same symbol onto the class again. A plain "remove everything
/// stale" therefore deletes the member it was supposed to install, and a
/// plain "remove nothing" leaves it listed twice.
pub fn drop_stale_members(st: &mut SymbolTable, class_sym: SymbolId, stale: &[SymbolId], installed: &[SymbolId])
    requires
        old(st).wf(),
        old(st).valid(class_sym),
    ensures
        final(st).wf(),
        final(st).syms@.len() == old(st).syms@.len(),
        final(st).sym(class_sym).members@ == kept_after_drop(
            old(st).sym(class_sym).members@,
            stale@,
            installed@,
            Set::empty(),
        ),
        forall|i: int| 0 <= i < old(st).syms@.len() ==> {
            let o = #[trigger] old(st).syms@[i];
            let n = final(st).syms@[i];
            &&& n.same_except_members(o)
            &&& i != class_sym.0 ==> n.members@ == o.members@
        },
{
    let ghost ms = st.sym(class_sym).members@;
    let mut kept: Vec<SymbolId> = Vec::new();
    let mut out: Vec<SymbolId> = Vec::new();
    let n = st.get(class_sym).members.len();
    let mut i: usize = 0;
    while i < n
        invariant
            st.wf(),
            st.valid(class_sym),
            ms == st.sym(class_sym).members@,
            n == ms.len(),
            i <= n,
            out@ == kept_after_drop(ms.take(i as int), stale@, installed@, Set::empty()),
            forall|x: SymbolId| kept@.contains(x) <==> kept_set_after(ms.take(i as int), installed@, Set::empty()).contains(x),
            forall|j: int| 0 <= j < out@.len() ==> st.valid(#[trigger] out@[j]),
        decreases n - i,
    {
        let m = st.get(class_sym).members[i];
        assert(st.valid(ms[i as int]));
        let ghost kept_before = kept@;
        assert(forall|x: SymbolId| kept_before.contains(x) <==> kept_set_after(ms.take(i as int), installed@, Set::empty()).contains(x));
        let in_installed = slice_contains(installed, m);
        let keep = if !in_installed {
            !slice_contains(stale, m)
        } else if vec_contains(&kept, m) {
            false
        } else {
            kept.push(m);
            true
        };
        proof {
            assert(ms.take(i + 1) =~= ms.take(i as int).push(m));
            lemma_kept_after_drop_append(ms.take(i as int), m, stale@, installed@, Set::empty());
            lemma_kept_set_append(ms.take(i as int), m, installed@, Set::empty());
            assert(seq![m].drop_first() =~= Seq::<SymbolId>::empty());
        }
        if keep {
            out.push(m);
        }
        proof {
            let ks = kept_set_after(ms.take(i as int), installed@, Set::empty());
            assert(kept_before.contains(m) <==> ks.contains(m));
            let tail = kept_after_drop(seq![m], stale@, installed@, ks);
            assert(kept_after_drop(Seq::<SymbolId>::empty(), stale@, installed@, ks) == Seq::<SymbolId>::empty());
            assert(kept_after_drop(Seq::<SymbolId>::empty(), stale@, installed@, ks.insert(m)) == Seq::<SymbolId>::empty());
            if in_installed && !kept_before.contains(m) {
                assert(kept@ == kept_before.push(m));
                assert forall|x: SymbolId| kept@.contains(x) <==> ks.insert(m).contains(x) by {
                    assert(kept_before.contains(x) == ks.contains(x));
                    if kept@.contains(x) && x != m {
                        let k = choose|k: int| 0 <= k < kept@.len() && kept@[k] == x;
                        assert(kept_before[k] == x);
                    }
                    if ks.contains(x) && x != m {
                        let k = choose|k: int| 0 <= k < kept_before.len() && kept_before[k] == x;
                        assert(kept@[k] == x);
                    }
                    if x == m {
                        assert(kept@[kept@.len() - 1] == m);
                    }
                }
            }
            if keep {
                assert(tail =~= seq![m]);
            } else {
                assert(tail =~= Seq::<SymbolId>::empty());
            }
            assert forall|x: SymbolId| kept@.contains(x) <==> kept_set_after(ms.take(i + 1), installed@, Set::empty()).contains(x) by {
                if !(in_installed && !kept_before.contains(m)) {
                    assert(kept@ == kept_before);
                    if in_installed {
                        assert(ks.insert(m) =~= ks);
                    }
                }
            }
        }
        i += 1;
    }
    assert(ms.take(n as int) =~= ms);
    st.set_members(class_sym, out);
}

fn slice_contains(v: &[SymbolId], x: SymbolId) -> (r: bool)
    ensures
        r == v@.contains(x),
{
    let mut i: usize = 0;
    while i < v.len()
        invariant
            i <= v.len(),
            forall|k: int| 0 <= k < i ==> v@[k] != x,
        decreases v.len() - i,
    {
        if v[i] == x {
            return true;
        }
        i += 1;
    }
    false
}

fn vec_contains(v: &Vec<SymbolId>, x: SymbolId) -> (r: bool)
    ensures
        r == v@.contains(x),
{
    let mut i: usize = 0;
    while i < v.len()
        invariant
            i <= v.len(),
            forall|k: int| 0 <= k < i ==> v@[k] != x,
        decreases v.len() - i,
    {
        if v[i] == x {
            return true;
        }
        i += 1;
    }
    false
}

pub const ACC_STATIC: u16 = 0x0008;
pub const ACC_BRIDGE: u16 = 0x0040;
pub const ACC_SYNTHETIC: u16 = 0x1000;

/// One method a class file declares.
pub struct ClassMethod {
    pub name: String,
    pub desc: String,
    pub access: u16,
}

/// A pickled member the pickle reader found for a (receiver, name) miss,
/// with its signature already read into the typer's vocabulary.
pub struct PickledMember {
    /// The source-level name the symbol is entered under.
    pub name: String,
    /// The value parameters, all clauses flattened, and the result.
    pub params: Vec<Ty>,
    pub ret: Ty,
    /// The descriptor the result erases to, where that is certain.
    pub result: Option<String>,
}

/// What to do about a member lookup that missed.
pub enum Completion {
    /// Answer without reading anything.
    Answered(Vec<SymbolId>),
    /// Read the receiver's pickle for this name, then call
    /// [`PickleSupply::supply`] with what it declares.
    ReadPickle,
}

pub struct PickleSupply {
    /// `(receiver class, member name)` pairs already attempted, so a miss
    /// costs one lookup, not one per mention.
    tried: Vec<(SymbolId, String)>,
    /// Classes from `-cp` whose shape has been taken from their pickle; the
    /// gate that lets completion serve a class outside `scala.*`.
    adopted: Vec<SymbolId>,
    /// Classes whose pickled implicit members have been supplied; their
    /// pickles are read from then on too.
    implicits_supplied: Vec<SymbolId>,
    /// The class symbols entered for classes a signature named, by the JVM
    /// name they were looked up under; a later entry for a key wins.
    stubs: Vec<(String, SymbolId)>,
    /// `(class, member name)` pairs whose implicit extensions have been
    /// looked for.
    extensions_checked: Vec<(SymbolId, String)>,
}

pub open spec fn scala_prefix() -> Seq<char> {
    seq!['s', 'c', 'a', 'l', 'a', '/']
}

impl PickleSupply {
    pub closed spec fn tried_pairs(&self) -> Seq<(SymbolId, Seq<char>)> {
        self.tried@.map_values(|p: (SymbolId, String)| (p.0, p.1@))
    }

    pub closed spec fn adopted_classes(&self) -> Seq<SymbolId> {
        self.adopted@
    }

    pub closed spec fn implicit_classes(&self) -> Seq<SymbolId> {
        self.implicits_supplied@
    }

    pub closed spec fn stub_pairs(&self) -> Seq<(Seq<char>, SymbolId)> {
        self.stubs@.map_values(|p: (String, SymbolId)| (p.0@, p.1))
    }

    pub closed spec fn checked_extensions(&self) -> Seq<(SymbolId, Seq<char>)> {
        self.extensions_checked@.map_values(|p: (SymbolId, String)| (p.0, p.1@))
    }

    pub open spec fn was_tried(&self, class_sym: SymbolId, name: Seq<char>) -> bool {
        self.tried_pairs().contains((class_sym, name))
    }

    pub fn new() -> (r: Self)
        ensures
            r.tried_pairs().len() == 0,
            r.adopted_classes().len() == 0,
            r.implicit_classes().len() == 0,
            r.stub_pairs().len() == 0,
            r.checked_extensions().len() == 0,
    {
        let r = PickleSupply {
            tried: Vec::new(),
            adopted: Vec::new(),
            implicits_supplied: Vec::new(),
            stubs: Vec::new(),
            extensions_checked: Vec::new(),
        };
        assert(r.checked_extensions() =~= Seq::empty());
        assert(r.tried_pairs() =~= Seq::empty());
        assert(r.stub_pairs() =~= Seq::empty());
        r
    }

    /// The pickles the typer reads: the standard library's, plus any class
    /// whose pickle has been adopted or whose implicit members were supplied.
    pub open spec fn spec_pickle_readable(&self, st: SymbolTable, class_sym: SymbolId) -> bool {
        ||| st.sym(class_sym).jvm_name@.len() >= 6 && st.sym(class_sym).jvm_name@.subrange(0, 6) == scala_prefix()
        ||| self.adopted_classes().contains(class_sym)
        ||| self.implicit_classes().contains(class_sym)
    }

    pub fn pickle_readable(&self, st: &SymbolTable, class_sym: SymbolId) -> (r: bool)
        requires
            st.valid(class_sym),
        ensures
            r == self.spec_pickle_readable(*st, class_sym),
    {
        let j = chars_of(st.get(class_sym).jvm_name.as_str());
        let scala = j.len() >= 6 && j[0] == 's' && j[1] == 'c' && j[2] == 'a' && j[3] == 'l' && j[4] == 'a'
            && j[5] == '/';
        proof {
            if j@.len() >= 6 {
                let p = j@.subrange(0, 6);
                if p == scala_prefix() {
                    assert(p[0] == 's' && p[1] == 'c' && p[2] == 'a' && p[3] == 'l' && p[4] == 'a' && p[5] == '/');
                }
                if scala {
                    assert(p =~= scala_prefix());
                }
            }
        }
        if scala {
            return true;
        }
        let mut i: usize = 0;
        while i < self.adopted.len()
            invariant
                i <= self.adopted@.len(),
                forall|k: int| 0 <= k < i ==> self.adopted@[k] != class_sym,
            decreases self.adopted.len() - i,
        {
            if self.adopted[i] == class_sym {
                return true;
            }
            i += 1;
        }
        let mut k: usize = 0;
        while k < self.implicits_supplied.len()
            invariant
                k <= self.implicits_supplied@.len(),
                !self.adopted@.contains(class_sym),
                forall|q: int| 0 <= q < k ==> self.implicits_supplied@[q] != class_sym,
            decreases self.implicits_supplied.len() - k,
        {
            if self.implicits_supplied[k] == class_sym {
                return true;
            }
            k += 1;
        }
        false
    }

    fn tried_contains(&self, class_sym: SymbolId, name: &str) -> (r: bool)
        ensures
            r == self.was_tried(class_sym, name@),
    {
        let want = name.to_owned();
        let mut i: usize = 0;
        while i < self.tried.len()
            invariant
                want@ == name@,
                i <= self.tried@.len(),
                forall|k: int| 0 <= k < i ==> self.tried_pairs()[k] != (class_sym, name@),
            decreases self.tried.len() - i,
        {
            assert(self.tried_pairs()[i as int] == (self.tried@[i as int].0, self.tried@[i as int].1@));
            if self.tried[i].0 == class_sym && self.tried[i].1 == want {
                assert(self.tried_pairs()[i as int] == (class_sym, name@));
                return true;
            }
            i += 1;
        }
        false
    }

    /// The first step of completing `name` on `class_sym` after a member
    /// lookup missed; `jvm_member` is the name as the class file spells it,
    /// and `nested_pickle` whether the class's enclosing top-level class
    /// carries a pickle describing it (a nested class has none of its own).
    /// A receiver whose pickle the typer does not read, and an empty name, get
    /// nothing; a pair already attempted gets what the class has under that
    /// name now, without another read; a first miss is recorded as attempted
    /// and asks for the pickle, unless `jvm_member` is no JVM method name
    /// (letters, digits, `_` and `$` only) or the receiver is no class or
    /// module class, either of which gets nothing.
    pub fn complete_step(
        &mut self,
        st: &SymbolTable,
        class_sym: SymbolId,
        name: &str,
        jvm_member: &str,
        nested_pickle: bool,
    ) -> (r: Completion)
        requires
            old(self).tried_pairs().len() + 1 < usize::MAX,
            st.wf(),
            st.valid(class_sym),
        ensures
            final(self).adopted_classes() == old(self).adopted_classes(),
            final(self).implicit_classes() == old(self).implicit_classes(),
            (
                match r {
                    Completion::ReadPickle => None,
                    Completion::Answered(ms) => Some(ms@),
                },
                final(self).tried_pairs(),
            ) == step_outcome(
                old(self).tried_pairs(),
                old(self).spec_pickle_readable(*st, class_sym) || nested_pickle,
                *st,
                class_sym,
                name@,
                jvm_member@,
            ),
            match r {
                Completion::ReadPickle => {
                    &&& name@.len() > 0
                    &&& old(self).spec_pickle_readable(*st, class_sym) || nested_pickle
                    &&& !old(self).was_tried(class_sym, name@)
                    &&& jvm_encodable(jvm_member@)
                    &&& is_class_like(st.sym(class_sym).kind)
                    &&& final(self).tried_pairs() == old(self).tried_pairs().push((class_sym, name@))
                },
                Completion::Answered(ms) => if name@.len() == 0 || !(old(self).spec_pickle_readable(*st, class_sym)
                    || nested_pickle) {
                    &&& final(self).tried_pairs() == old(self).tried_pairs()
                    &&& ms@.len() == 0
                } else if old(self).was_tried(class_sym, name@) {
                    &&& final(self).tried_pairs() == old(self).tried_pairs()
                    &&& ms@ == members_named(*st, class_sym, name@)
                } else {
                    &&& !jvm_encodable(jvm_member@) || !is_class_like(st.sym(class_sym).kind)
                    &&& final(self).tried_pairs() == old(self).tried_pairs().push((class_sym, name@))
                    &&& ms@.len() == 0
                },
            },
    {
        if name.is_empty() || (!self.pickle_readable(st, class_sym) && !nested_pickle) {
            return Completion::Answered(Vec::new());
        }
        if self.tried_contains(class_sym, name) {
            return Completion::Answered(named_members(st, class_sym, name));
        }
        let ghost before = self.tried_pairs();
        self.tried.push((class_sym, name.to_owned()));
        assert(self.tried_pairs() =~= before.push((class_sym, name@)));
        if !is_jvm_encodable(jvm_member) {
            return Completion::Answered(Vec::new());
        }
        let kind = st.get(class_sym).kind;
        if !(kind == SymKind::Class || kind == SymKind::ModuleClass) {
            return Completion::Answered(Vec::new());
        }
        Completion::ReadPickle
    }

    /// Whether to supply a class's pickled implicit members: a class or
    /// module class with a JVM name outside `java/` and `javax/`, the first
    /// time it is asked for. A class that passes is remembered, and its
    /// pickle is read from then on.
    pub fn implicit_members_step(&mut self, st: &SymbolTable, class_sym: SymbolId) -> (r: bool)
        requires
            st.wf(),
            st.valid(class_sym),
        ensures
            final(self).tried_pairs() == old(self).tried_pairs(),
            final(self).adopted_classes() == old(self).adopted_classes(),
            r == (is_class_like(st.sym(class_sym).kind) && implicit_source(st.sym(class_sym).jvm_name@)
                && !old(self).implicit_classes().contains(class_sym)),
            final(self).implicit_classes() == if r {
                old(self).implicit_classes().push(class_sym)
            } else {
                old(self).implicit_classes()
            },
    {
        let kind = st.get(class_sym).kind;
        if !(kind == SymKind::Class || kind == SymKind::ModuleClass) {
            return false;
        }
        if !is_implicit_source(st.get(class_sym).jvm_name.as_str()) {
            return false;
        }
        let mut i: usize = 0;
        while i < self.implicits_supplied.len()
            invariant
                i <= self.implicits_supplied@.len(),
                forall|q: int| 0 <= q < i ==> self.implicits_supplied@[q] != class_sym,
            decreases self.implicits_supplied.len() - i,
        {
            if self.implicits_supplied[i] == class_sym {
                assert(self.implicit_classes()[i as int] == class_sym);
                return false;
            }
            i += 1;
        }
        self.implicits_supplied.push(class_sym);
        true
    }
}

/// A class or module class, the receivers whose pickle describes members.
pub open spec fn is_class_like(k: SymKind) -> bool {
    k == SymKind::Class || k == SymKind::ModuleClass
}

/// A JVM name whose pickle may hold implicit members: a non-empty one
/// outside `java/` and `javax/`.
pub open spec fn implicit_source(jvm: Seq<char>) -> bool {
    &&& jvm.len() > 0
    &&& !(jvm.len() >= 5 && jvm.subrange(0, 5) == seq!['j', 'a', 'v', 'a', '/'])
    &&& !(jvm.len() >= 6 && jvm.subrange(0, 6) == seq!['j', 'a', 'v', 'a', 'x', '/'])
}

/// `implicit_source`.
pub fn is_implicit_source(jvm: &str) -> (r: bool)
    ensures
        r == implicit_source(jvm@),
{
    let j = chars_of(jvm);
    if j.len() == 0 {
        return false;
    }
    let java = j.len() >= 5 && j[0] == 'j' && j[1] == 'a' && j[2] == 'v' && j[3] == 'a' && j[4] == '/';
    let javax = j.len() >= 6 && j[0] == 'j' && j[1] == 'a' && j[2] == 'v' && j[3] == 'a' && j[4] == 'x' && j[5] == '/';
    proof {
        if j@.len() >= 5 {
            assert(java == (j@.subrange(0, 5) =~= seq!['j', 'a', 'v', 'a', '/']));
        }
        if j@.len() >= 6 {
            assert(javax == (j@.subrange(0, 6) =~= seq!['j', 'a', 'v', 'a', 'x', '/']));
        }
    }
    !java && !javax
}

/// What `complete_step` answers (`None`: read the pickle) and the attempts
/// it leaves, from the attempts before it and whether the receiver's pickle
/// is read.
pub open spec fn step_outcome(
    tried: Seq<(SymbolId, Seq<char>)>,
    readable: bool,
    st: SymbolTable,
    class_sym: SymbolId,
    name: Seq<char>,
    jvm_member: Seq<char>,
) -> (Option<Seq<SymbolId>>, Seq<(SymbolId, Seq<char>)>) {
    if name.len() == 0 || !readable {
        (Some(Seq::empty()), tried)
    } else if tried.contains((class_sym, name)) {
        (Some(members_named(st, class_sym, name)), tried)
    } else if !jvm_encodable(jvm_member) || !is_class_like(st.sym(class_sym).kind) {
        (Some(Seq::empty()), tried.push((class_sym, name)))
    } else {
        (None, tried.push((class_sym, name)))
    }
}

/// One read per miss: after a step on a (receiver, name) pair whose pickle
/// is read and whose name is not empty, a later step on the same pair answers with
/// the receiver's members of that name as they are then, and records
/// nothing more.
pub proof fn lemma_step_once(
    tried: Seq<(SymbolId, Seq<char>)>,
    readable: bool,
    st1: SymbolTable,
    st2: SymbolTable,
    class_sym: SymbolId,
    name: Seq<char>,
    jvm1: Seq<char>,
    jvm2: Seq<char>,
)
    requires
        readable,
        name.len() > 0,
    ensures
        ({
            let t1 = step_outcome(tried, readable, st1, class_sym, name, jvm1).1;
            step_outcome(t1, readable, st2, class_sym, name, jvm2) == (Some(members_named(st2, class_sym, name)), t1)
        }),
{
    let t1 = step_outcome(tried, readable, st1, class_sym, name, jvm1).1;
    if !tried.contains((class_sym, name)) {
        assert(t1[t1.len() - 1] == (class_sym, name));
    }
    assert(t1.contains((class_sym, name)));
}

/// What `ensure_class` does about a class a signature names, decided before
/// any class file or pickle is read.
pub enum EnsureClass {
    /// A class entered earlier under this key: the answer as it is.
    Stubbed(SymbolId),
    /// A `java.` or `javax.` class: installed from its own class file.
    JavaClass,
    /// The table has a class of this JVM name already; it is kept as it is.
    InTable(SymbolId),
    /// A class outside the standard library: the class-file loader's
    /// placeholder, where a pickle describes the class.
    OutsideLibrary,
    /// A standard-library class the table lacks: built from its own pickle.
    FromPickle,
}

/// The class entered under `key`, the latest entry winning.
pub open spec fn stub_of(ps: Seq<(Seq<char>, SymbolId)>, key: Seq<char>) -> Option<SymbolId>
    decreases ps.len(),
{
    if ps.len() == 0 {
        None
    } else if ps.last().0 == key {
        Some(ps.last().1)
    } else {
        stub_of(ps.drop_last(), key)
    }
}

pub open spec fn has_prefix(s: Seq<char>, p: Seq<char>) -> bool {
    p.len() <= s.len() && s.subrange(0, p.len() as int) == p
}

/// `ensure_class`'s decision for the class `full_name` (dotted), looked up
/// under the JVM name `key`.
pub open spec fn ensure_decision(
    stubs: Seq<(Seq<char>, SymbolId)>,
    st: SymbolTable,
    full_name: Seq<char>,
    key: Seq<char>,
) -> EnsureClass {
    match stub_of(stubs, key) {
        Some(id) => EnsureClass::Stubbed(id),
        None => if has_prefix(full_name, "java."@) || has_prefix(full_name, "javax."@) {
            EnsureClass::JavaClass
        } else {
            match st.spec_find_by_jvm(key) {
                Some(id) => EnsureClass::InTable(id),
                None => if has_prefix(full_name, "scala."@) {
                    EnsureClass::FromPickle
                } else {
                    EnsureClass::OutsideLibrary
                },
            }
        },
    }
}

/// The first of `candidates` that is a class file (`present`), or else the
/// plain JVM name: `internal`, with a `$` for a module.
pub open spec fn spec_class_key(internal: Seq<char>, module: bool, candidates: Seq<Seq<char>>, present: Seq<bool>) -> Seq<char>
    decreases candidates.len(),
{
    if candidates.len() == 0 || present.len() == 0 {
        if module {
            internal.push('$')
        } else {
            internal
        }
    } else if present[0] {
        candidates[0]
    } else {
        spec_class_key(internal, module, candidates.drop_first(), present.drop_first())
    }
}

/// The JVM internal spelling of a dotted class name: every `.` a `/`.
pub fn internal_name(full_name: &str) -> (r: String)
    ensures
        r@ == crate::text::replace_char(full_name@, '.', '/'),
{
    let slash = "/";
    proof {
        reveal_strlit("/");
    }
    let n = full_name.unicode_len();
    let mut out = String::new();
    let mut i: usize = 0;
    while i < n
        invariant
            n == full_name@.len(),
            slash@ == seq!['/'],
            i <= n,
            out@ == crate::text::replace_char(full_name@.subrange(0, i as int), '.', '/'),
        decreases n - i,
    {
        let c = full_name.get_char(i);
        if c == '.' {
            out.append(slash);
        } else {
            out.append(full_name.substring_char(i, i + 1));
        }
        assert(crate::text::replace_char(full_name@.subrange(0, i + 1), '.', '/') =~= crate::text::replace_char(
            full_name@.subrange(0, i as int),
            '.',
            '/',
        ).push(if c == '.' { '/' } else { c }));
        assert(out@ =~= crate::text::replace_char(full_name@.subrange(0, i + 1), '.', '/'));
        i += 1;
    }
    assert(full_name@.subrange(0, n as int) =~= full_name@);
    out
}

/// The JVM name a class is looked up under: of the candidate class files a
/// pickle's name can stand for (those that name this very class), the
/// first the class path has; else the plain name.
pub fn class_key(internal: &str, module: bool, candidates: &Vec<String>, present: &Vec<bool>) -> (r: String)
    ensures
        r@ == spec_class_key(internal@, module, candidates@.map_values(|c: String| c@), present@),
{
    let ghost cv = candidates@.map_values(|c: String| c@);
    assert(cv.subrange(0, cv.len() as int) =~= cv);
    assert(present@.subrange(0, present@.len() as int) =~= present@);
    let mut i: usize = 0;
    while i < candidates.len() && i < present.len()
        invariant
            cv == candidates@.map_values(|c: String| c@),
            i <= candidates@.len(),
            i <= present@.len(),
            spec_class_key(internal@, module, cv, present@) == spec_class_key(
                internal@,
                module,
                cv.subrange(i as int, cv.len() as int),
                present@.subrange(i as int, present@.len() as int),
            ),
        decreases candidates.len() - i,
    {
        let ghost rest_c = cv.subrange(i as int, cv.len() as int);
        let ghost rest_p = present@.subrange(i as int, present@.len() as int);
        if present[i] {
            assert(rest_c[0] == candidates@[i as int]@);
            return candidates[i].clone();
        }
        assert(rest_c.drop_first() =~= cv.subrange(i + 1, cv.len() as int));
        assert(rest_p.drop_first() =~= present@.subrange(i + 1, present@.len() as int));
        i += 1;
    }
    proof {
        let rest_c = cv.subrange(i as int, cv.len() as int);
        let rest_p = present@.subrange(i as int, present@.len() as int);
        assert(rest_c.len() == 0 || rest_p.len() == 0);
    }
    if module {
        proof {
            reveal_strlit("$");
        }
        let r = internal.to_owned().concat("$");
        assert(r@ =~= internal@.push('$'));
        r
    } else {
        internal.to_owned()
    }
}

proof fn lemma_stub_of_suffix(ps: Seq<(Seq<char>, SymbolId)>, key: Seq<char>, i: int)
    requires
        0 <= i <= ps.len(),
        forall|j: int| i <= j < ps.len() ==> (#[trigger] ps[j]).0 != key,
    ensures
        stub_of(ps, key) == stub_of(ps.take(i), key),
    decreases ps.len() - i,
{
    if i < ps.len() {
        assert(ps.drop_last().take(i) =~= ps.take(i));
        lemma_stub_of_suffix(ps.drop_last(), key, i);
    } else {
        assert(ps.take(i) =~= ps);
    }
}

impl PickleSupply {
    /// The class entered under `key`, if any.
    pub fn stub_for(&self, key: &str) -> (r: Option<SymbolId>)
        ensures
            r == stub_of(self.stub_pairs(), key@),
    {
        let ghost ps = self.stub_pairs();
        let mut i: usize = self.stubs.len();
        while i > 0
            invariant
                ps == self.stub_pairs(),
                i <= ps.len(),
                forall|j: int| i <= j < ps.len() ==> (#[trigger] ps[j]).0 != key@,
            decreases i,
        {
            assert(ps[i - 1] == (self.stubs@[i - 1].0@, self.stubs@[i - 1].1));
            if str_eq(self.stubs[i - 1].0.as_str(), key) {
                proof {
                    lemma_stub_of_suffix(ps, key@, i as int);
                    let t = ps.take(i as int);
                    assert(t.last() == ps[i - 1]);
                }
                return Some(self.stubs[i - 1].1);
            }
            i -= 1;
        }
        proof {
            lemma_stub_of_suffix(ps, key@, 0);
        }
        None
    }

    /// Enter `id` as the class for `key`.
    pub fn record_stub(&mut self, key: &str, id: SymbolId)
        ensures
            final(self).stub_pairs() == old(self).stub_pairs().push((key@, id)),
            final(self).tried_pairs() == old(self).tried_pairs(),
            final(self).adopted_classes() == old(self).adopted_classes(),
            final(self).implicit_classes() == old(self).implicit_classes(),
    {
        self.stubs.push((key.to_owned(), id));
        assert(self.stub_pairs() =~= old(self).stub_pairs().push((key@, id)));
    }

    /// What `ensure_class` does about the class `full_name`, looked up under
    /// `key`: a class entered under that key before is the answer; a Java
    /// class comes from its class file; a class the table has by that JVM
    /// name is kept as it is; any other class outside `scala.` is left to the
    /// class-file loader, and a standard-library class is built from its
    /// pickle.
    pub fn ensure_class_step(&self, st: &SymbolTable, full_name: &str, key: &str) -> (r: EnsureClass)
        requires
            st.wf(),
        ensures
            r == ensure_decision(self.stub_pairs(), *st, full_name@, key@),
            r matches EnsureClass::InTable(id) ==> st.valid(id),
    {
        if let Some(id) = self.stub_for(key) {
            return EnsureClass::Stubbed(id);
        }
        if starts_with_str(full_name, "java.") || starts_with_str(full_name, "javax.") {
            return EnsureClass::JavaClass;
        }
        match st.find_by_jvm(key) {
            Some(id) => EnsureClass::InTable(id),
            None => if starts_with_str(full_name, "scala.") {
                EnsureClass::FromPickle
            } else {
                EnsureClass::OutsideLibrary
            },
        }
    }
}

/// A class entered under a key answers every later lookup under that key,
/// whatever the table and the dotted name; entries under other keys are
/// untouched.
pub proof fn lemma_stub_answers(
    stubs: Seq<(Seq<char>, SymbolId)>,
    key: Seq<char>,
    id: SymbolId,
    st: SymbolTable,
    full_name: Seq<char>,
    other: Seq<char>,
)
    ensures
        ensure_decision(stubs.push((key, id)), st, full_name, key) == EnsureClass::Stubbed(id),
        other != key ==> stub_of(stubs.push((key, id)), other) == stub_of(stubs, other),
{
    assert(stubs.push((key, id)).drop_last() =~= stubs);
}

/// `has_prefix`.
pub fn starts_with_str(s: &str, p: &str) -> (r: bool)
    ensures
        r == has_prefix(s@, p@),
{
    let a = chars_of(s);
    let b = chars_of(p);
    if b.len() > a.len() {
        return false;
    }
    let mut i: usize = 0;
    while i < b.len()
        invariant
            a@ == s@,
            b@ == p@,
            b@.len() <= a@.len(),
            i <= b@.len(),
            forall|k: int| 0 <= k < i ==> a@[k] == b@[k],
        decreases b.len() - i,
    {
        if a[i] != b[i] {
            assert(s@.subrange(0, p@.len() as int)[i as int] != p@[i as int]);
            return false;
        }
        i += 1;
    }
    assert(s@.subrange(0, p@.len() as int) =~= p@);
    true
}

impl PickleSupply {
    /// Whether to look for the implicit extensions of `class_sym` that
    /// supply `member_name`: a non-empty name on a class or module class
    /// whose pickle the typer reads, once per (class, name) pair. A pair
    /// that passes is remembered.
    pub fn implicit_extensions_step(&mut self, st: &SymbolTable, class_sym: SymbolId, member_name: &str) -> (r: bool)
        requires
            st.wf(),
            st.valid(class_sym),
        ensures
            final(self).tried_pairs() == old(self).tried_pairs(),
            final(self).adopted_classes() == old(self).adopted_classes(),
            final(self).implicit_classes() == old(self).implicit_classes(),
            final(self).stub_pairs() == old(self).stub_pairs(),
            r == (member_name@.len() > 0 && is_class_like(st.sym(class_sym).kind) && old(self).spec_pickle_readable(
                *st,
                class_sym,
            ) && !old(self).checked_extensions().contains((class_sym, member_name@))),
            final(self).checked_extensions() == if r {
                old(self).checked_extensions().push((class_sym, member_name@))
            } else {
                old(self).checked_extensions()
            },
    {
        if member_name.is_empty() {
            return false;
        }
        let kind = st.get(class_sym).kind;
        if !(kind == SymKind::Class || kind == SymKind::ModuleClass) || !self.pickle_readable(st, class_sym) {
            return false;
        }
        let ghost cs = self.checked_extensions();
        let mut i: usize = 0;
        while i < self.extensions_checked.len()
            invariant
                cs == self.checked_extensions(),
                i <= cs.len(),
                forall|k: int| 0 <= k < i ==> cs[k] != (class_sym, member_name@),
            decreases self.extensions_checked.len() - i,
        {
            assert(cs[i as int] == (self.extensions_checked@[i as int].0, self.extensions_checked@[i as int].1@));
            if self.extensions_checked[i].0 == class_sym && str_eq(self.extensions_checked[i].1.as_str(), member_name) {
                assert(cs[i as int] == (class_sym, member_name@));
                return false;
            }
            i += 1;
        }
        self.extensions_checked.push((class_sym, member_name.to_owned()));
        assert(self.checked_extensions() =~= cs.push((class_sym, member_name@)));
        true
    }
}

/// A pickle's own implicit declaration, as the extension search reads it.
pub struct ImplicitDecl {
    /// The source name (decoded).
    pub name: String,
    /// A `def` or an object.
    pub def_or_module: bool,
    /// Flagged `implicit`.
    pub implicit: bool,
    /// Public API, or an implicit class's conversion.
    pub visible: bool,
    /// Whether the declaration's result class declares the wanted member,
    /// where that could be read.
    pub result_has_member: Option<bool>,
}

/// A declaration whose conversion may supply the wanted member: an implicit
/// `def` or object that callers see, with a source name that is not empty,
/// `<init>` or synthetic (`$`), and whose result class declares the member
/// or could not be read.
pub open spec fn extension_candidate(d: ImplicitDecl) -> bool {
    &&& d.def_or_module
    &&& d.implicit
    &&& d.visible
    &&& d.name@.len() > 0
    &&& d.name@ != "<init>"@
    &&& !d.name@.contains('$')
    &&& match d.result_has_member {
        Some(b) => b,
        None => true,
    }
}

/// The names of the candidates among `ds`, each once, in first-seen order.
pub open spec fn extension_names(ds: Seq<ImplicitDecl>) -> Seq<Seq<char>>
    decreases ds.len(),
{
    if ds.len() == 0 {
        Seq::empty()
    } else {
        let prev = extension_names(ds.drop_last());
        if extension_candidate(ds.last()) && !prev.contains(ds.last().name@) {
            prev.push(ds.last().name@)
        } else {
            prev
        }
    }
}

/// `extension_names`: the conversions whose pickled declarations are
/// completed for the wanted member.
pub fn implicit_extension_names(decls: &Vec<ImplicitDecl>) -> (r: Vec<String>)
    ensures
        r@.map_values(|s: String| s@) == extension_names(decls@),
{
    proof {
        reveal_strlit("<init>");
    }
    let init = "<init>";
    let mut out: Vec<String> = Vec::new();
    let mut i: usize = 0;
    while i < decls.len()
        invariant
            i <= decls@.len(),
            init@ == "<init>"@,
            out@.map_values(|s: String| s@) == extension_names(decls@.take(i as int)),
        decreases decls.len() - i,
    {
        let d = &decls[i];
        let cs = chars_of(d.name.as_str());
        let mut dollar = false;
        let mut k: usize = 0;
        while k < cs.len()
            invariant
                cs@ == d.name@,
                k <= cs@.len(),
                dollar == cs@.take(k as int).contains('$'),
            decreases cs.len() - k,
        {
            if cs[k] == '$' {
                dollar = true;
            }
            proof {
                let t0 = cs@.take(k as int);
                let t1 = cs@.take(k + 1);
                assert(t1 =~= t0.push(cs@[k as int]));
                if cs@[k as int] == '$' {
                    assert(t1[k as int] == '$');
                } else if t0.contains('$') {
                    let w = choose|w: int| 0 <= w < t0.len() && t0[w] == '$';
                    assert(t1[w] == '$');
                } else {
                    assert forall|w: int| 0 <= w < t1.len() implies t1[w] != '$' by {
                        if w < k {
                            assert(t1[w] == t0[w]);
                        }
                    }
                }
            }
            k += 1;
        }
        assert(cs@.take(cs@.len() as int) =~= cs@);
        let relevant = match d.result_has_member {
            Some(b) => b,
            None => true,
        };
        let ok = d.def_or_module && d.implicit && d.visible && cs.len() > 0 && !str_eq(d.name.as_str(), init) && !dollar
            && relevant;
        let ghost prev = out@.map_values(|s: String| s@);
        let mut seen = false;
        let mut j: usize = 0;
        while j < out.len()
            invariant
                j <= out@.len(),
                prev == out@.map_values(|s: String| s@),
                seen == prev.take(j as int).contains(d.name@),
            decreases out.len() - j,
        {
            let hit = str_eq(out[j].as_str(), d.name.as_str());
            proof {
                let t0 = prev.take(j as int);
                let t1 = prev.take(j + 1);
                assert(t1 =~= t0.push(prev[j as int]));
                assert(prev[j as int] == out@[j as int]@);
                if hit {
                    assert(t1[j as int] == d.name@);
                } else if t0.contains(d.name@) {
                    let w = choose|w: int| 0 <= w < t0.len() && t0[w] == d.name@;
                    assert(t1[w] == d.name@);
                } else {
                    assert forall|w: int| 0 <= w < t1.len() implies t1[w] != d.name@ by {
                        if w < j {
                            assert(t1[w] == t0[w]);
                        }
                    }
                }
            }
            if hit {
                seen = true;
            }
            j += 1;
        }
        assert(prev.take(prev.len() as int) =~= prev);
        assert(decls@.take(i + 1).drop_last() =~= decls@.take(i as int));
        assert(decls@.take(i + 1).last() == decls@[i as int]);
        if ok && !seen {
            out.push(d.name.clone());
            assert(out@.map_values(|s: String| s@) =~= prev.push(d.name@));
        }
        i += 1;
    }
    assert(decls@.take(decls@.len() as int) =~= decls@);
    out
}

/// A JVM method name as the pickle reader writes one: letters, digits, `_`
/// and `$` only.
pub open spec fn jvm_encodable(s: Seq<char>) -> bool {
    forall|i: int| 0 <= i < s.len() ==> is_name_char(#[trigger] s[i])
}

pub open spec fn is_name_char(c: char) -> bool {
    ('a' <= c <= 'z') || ('A' <= c <= 'Z') || ('0' <= c <= '9') || c == '_' || c == '$'
}

/// `jvm_encodable`.
pub fn is_jvm_encodable(s: &str) -> (r: bool)
    ensures
        r == jvm_encodable(s@),
{
    let cs = chars_of(s);
    let mut i: usize = 0;
    while i < cs.len()
        invariant
            cs@ == s@,
            i <= cs@.len(),
            forall|k: int| 0 <= k < i ==> is_name_char(#[trigger] s@[k]),
        decreases cs@.len() - i,
    {
        let c = cs[i];
        if !(('a' <= c && c <= 'z') || ('A' <= c && c <= 'Z') || ('0' <= c && c <= '9') || c == '_' || c == '$') {
            assert(!is_name_char(s@[i as int]));
            return false;
        }
        i += 1;
    }
    true
}

/// The members of `owner` named `name`, in member order.
pub open spec fn members_named(st: SymbolTable, owner: SymbolId, name: Seq<char>) -> Seq<SymbolId> {
    st.sym(owner).members@.filter(|m: SymbolId| st.sym(m).name@ == name)
}

/// The members of `owner` named `name`, in member order.
pub fn named_members(st: &SymbolTable, owner: SymbolId, name: &str) -> (r: Vec<SymbolId>)
    requires
        st.wf(),
        st.valid(owner),
    ensures
        r@ == members_named(*st, owner, name@),
{
    let want = name.to_owned();
    let ms = &st.get(owner).members;
    let ghost msv = ms@;
    let mut out: Vec<SymbolId> = Vec::new();
    let mut i: usize = 0;
    while i < ms.len()
        invariant
            st.wf(),
            st.valid(owner),
            msv == st.sym(owner).members@,
            ms@ == msv,
            want@ == name@,
            i <= ms.len(),
            out@ == msv.take(i as int).filter(|m: SymbolId| st.sym(m).name@ == name@),
        decreases ms.len() - i,
    {
        let m = ms[i];
        assert(st.valid(msv[i as int]));
        assert(msv.take(i + 1).drop_last() =~= msv.take(i as int));
        if st.get(m).name == want {
            out.push(m);
        }
        proof {
            reveal_with_fuel(Seq::<_>::filter, 1);
        }
        i += 1;
    }
    assert(msv.take(ms.len() as int) =~= msv);
    out
}

/// Whether a class-file method is a candidate for a pickled member: the
/// right JVM name, not a bridge, synthetic or static method, and parameters
/// agreeing with every slot that could be named.
pub open spec fn candidate_ok(m: ClassMethod, name: Seq<char>, want: Seq<Option<Seq<char>>>) -> bool {
    &&& m.name@ == name
    &&& m.access & (ACC_BRIDGE | ACC_SYNTHETIC | ACC_STATIC) == 0
    &&& spec_desc_arity(m.desc@) == Some(want.len())
    &&& spec_params_match(m.desc@, want)
}

/// The descriptors of the candidates, each once, in class-file order.
pub open spec fn distinct_hits(ms: Seq<ClassMethod>, name: Seq<char>, want: Seq<Option<Seq<char>>>) -> Seq<Seq<char>>
    decreases ms.len(),
{
    if ms.len() == 0 {
        Seq::empty()
    } else {
        let prev = distinct_hits(ms.drop_last(), name, want);
        if candidate_ok(ms.last(), name, want) && !prev.contains(ms.last().desc@) {
            prev.push(ms.last().desc@)
        } else {
            prev
        }
    }
}

/// The erased result of a method descriptor: what follows its last `)`.
pub open spec fn return_part(d: Seq<char>) -> Option<Seq<char>> {
    match rfind_char(d, ')') {
        None => None,
        Some(k) => Some(d.subrange(k + 1, d.len() as int)),
    }
}

/// The hits are the descriptors of the candidate methods, each exactly
/// once: no two are equal, and a descriptor is a hit exactly when some
/// candidate has it.
pub proof fn lemma_distinct_hits(ms: Seq<ClassMethod>, name: Seq<char>, want: Seq<Option<Seq<char>>>)
    ensures
        forall|i: int, j: int|
            0 <= i < j < distinct_hits(ms, name, want).len() ==> #[trigger] distinct_hits(ms, name, want)[i]
                != #[trigger] distinct_hits(ms, name, want)[j],
        forall|d: Seq<char>|
            #[trigger] distinct_hits(ms, name, want).contains(d) <==> exists|k: int|
                0 <= k < ms.len() && candidate_ok(#[trigger] ms[k], name, want) && ms[k].desc@ == d,
    decreases ms.len(),
{
    if ms.len() > 0 {
        let q = ms.drop_last();
        lemma_distinct_hits(q, name, want);
        let prev = distinct_hits(q, name, want);
        let h = distinct_hits(ms, name, want);
        assert forall|d: Seq<char>| #[trigger] h.contains(d) <==> exists|k: int|
            0 <= k < ms.len() && candidate_ok(#[trigger] ms[k], name, want) && ms[k].desc@ == d by {
            if h.contains(d) {
                if prev.contains(d) {
                    let k = choose|k: int| 0 <= k < q.len() && candidate_ok(#[trigger] q[k], name, want) && q[k].desc@ == d;
                    assert(ms[k] == q[k]);
                } else {
                    let w = choose|w: int| 0 <= w < h.len() && h[w] == d;
                    if w < prev.len() {
                        assert(prev[w] == h[w]);
                    }
                    assert(ms[ms.len() - 1] == ms.last());
                }
            }
            if exists|k: int| 0 <= k < ms.len() && candidate_ok(#[trigger] ms[k], name, want) && ms[k].desc@ == d {
                let k = choose|k: int| 0 <= k < ms.len() && candidate_ok(#[trigger] ms[k], name, want) && ms[k].desc@ == d;
                if k < q.len() {
                    assert(q[k] == ms[k]);
                    assert(prev.contains(d));
                    let w = choose|w: int| 0 <= w < prev.len() && prev[w] == d;
                    assert(h[w] == d);
                } else {
                    assert(ms[k] == ms.last());
                    if !prev.contains(d) {
                        assert(h[h.len() - 1] == d);
                    } else {
                        let w = choose|w: int| 0 <= w < prev.len() && prev[w] == d;
                        assert(h[w] == d);
                    }
                }
            }
        }
        assert forall|i: int, j: int| 0 <= i < j < h.len() implies #[trigger] h[i] != #[trigger] h[j] by {
            if j < prev.len() {
                assert(h[i] == prev[i] && h[j] == prev[j]);
            } else {
                assert(h[i] == prev[i]);
                assert(prev.contains(prev[i]));
            }
        }
    }
}

/// What `filter` keeps comes from the sequence.
proof fn lemma_filter_from(s: Seq<Seq<char>>, p: spec_fn(Seq<char>) -> bool, k: int)
    requires
        0 <= k < s.filter(p).len(),
    ensures
        s.contains(s.filter(p)[k]),
    decreases s.len(),
{
    reveal(Seq::filter);
    let q = s.drop_last();
    if s.len() > 0 {
        if p(s.last()) && k == q.filter(p).len() {
            assert(s.filter(p)[k] == s.last());
            assert(s[s.len() - 1] == s.last());
        } else {
            lemma_filter_from(q, p, k);
            let w = choose|w: int| 0 <= w < q.len() && q[w] == q.filter(p)[k];
            assert(s[w] == q[w]);
        }
    }
}

/// How a descriptor is picked among distinct-or-not hits: none from none,
/// the one from one; from several, only with an expected result, and then
/// only the hit with that return part when no other hit has it. Two hits
/// with different descriptors and the expected return part pick nothing.
pub proof fn lemma_pick_unambiguous(hits: Seq<Seq<char>>, result: Option<Seq<char>>)
    ensures
        hits.len() == 0 ==> pick_descriptor(hits, result) is None,
        hits.len() == 1 ==> pick_descriptor(hits, result) == Some(hits[0]),
        hits.len() >= 2 && result is None ==> pick_descriptor(hits, result) is None,
        hits.len() >= 2 && pick_descriptor(hits, result) is Some ==> {
            let d = pick_descriptor(hits, result)->0;
            &&& hits.contains(d)
            &&& result is Some && return_part(d) == result
            &&& forall|i: int| 0 <= i < hits.len() && return_part(#[trigger] hits[i]) == result ==> hits[i] == d
        },
        hits.len() >= 2 && (exists|i: int, j: int|
            0 <= i < hits.len() && 0 <= j < hits.len() && hits[i] != hits[j] && return_part(#[trigger] hits[i])
                == result && return_part(#[trigger] hits[j]) == result) ==> pick_descriptor(hits, result) is None,
{
    if hits.len() >= 2 {
        if let Some(r) = result {
            let pred = |h: Seq<char>| return_part(h) == Some(r);
            let f = hits.filter(pred);
            if f.len() == 1 {
                let d = f[0];
                hits.lemma_filter_pred(pred, 0);
                lemma_filter_from(hits, pred, 0);
                assert forall|i: int| 0 <= i < hits.len() && return_part(#[trigger] hits[i]) == result implies hits[i] == d by {
                    hits.lemma_filter_contains(pred, i);
                    let w = choose|w: int| 0 <= w < f.len() && f[w] == hits[i];
                }
                if exists|i: int, j: int|
                    0 <= i < hits.len() && 0 <= j < hits.len() && hits[i] != hits[j] && return_part(#[trigger] hits[i])
                        == result && return_part(#[trigger] hits[j]) == result {
                    let (i, j) = choose|i: int, j: int|
                        0 <= i < hits.len() && 0 <= j < hits.len() && hits[i] != hits[j] && return_part(#[trigger] hits[i])
                            == result && return_part(#[trigger] hits[j]) == result;
                    assert(hits[i] == d);
                    assert(hits[j] == d);
                }
            }
        }
    }
}

/// One descriptor out of the hits: the only one, or -- when overloads
/// differ only in their erased result -- the only one with the expected
/// result. Anything else is ambiguous and picks nothing.
pub open spec fn pick_descriptor(hits: Seq<Seq<char>>, result: Option<Seq<char>>) -> Option<Seq<char>> {
    if hits.len() == 0 {
        None
    } else if hits.len() == 1 {
        Some(hits[0])
    } else {
        match result {
            None => None,
            Some(r) => {
                let f = hits.filter(|h: Seq<char>| return_part(h) == Some(r));
                if f.len() == 1 {
                    Some(f[0])
                } else {
                    None
                }
            },
        }
    }
}

fn return_part_is(d: &str, expected: &str) -> (r: bool)
    ensures
        r == (return_part(d@) == Some(expected@)),
{
    let c = chars_of(d);
    proof {
        lemma_rfind_char_bound(c@, ')');
    }
    match rfind_char_exec(&c, ')') {
        None => false,
        Some(k) => {
            let tail = d.substring_char(k + 1, c.len());
            let e = chars_of(expected);
            let t = chars_of(tail);
            chars_eq(&t, &e)
        },
    }
}

/// The one class-file method a pickled member is, by its erased descriptor.
///
/// Candidates are the class file's methods named `name` that are neither
/// bridges, synthetic nor static and whose parameters agree with `want`.
/// One candidate is the answer; several are told apart by the erased
/// result, when that is known, and are otherwise ambiguous.
pub fn erased_desc(methods: &Vec<ClassMethod>, name: &str, want: &Vec<Option<String>>, result: Option<&str>) -> (r: Option<String>)
    ensures
        r is Some <==> pick_descriptor(distinct_hits(methods@, name@, slot_views(want@)), match result {
            Some(e) => Some(e@),
            None => None,
        }) is Some,
        r matches Some(d) ==> Some(d@) == pick_descriptor(
            distinct_hits(methods@, name@, slot_views(want@)),
            match result {
                Some(e) => Some(e@),
                None => None,
            },
        ),
{
    let ghost wv = slot_views(want@);
    let ghost rv = match result {
        Some(e) => Some(e@),
        None => None::<Seq<char>>,
    };
    let arity = want.len();
    let wanted_name = name.to_owned();
    let mut hits: Vec<String> = Vec::new();
    let mut i: usize = 0;
    while i < methods.len()
        invariant
            i <= methods@.len(),
            wv == slot_views(want@),
            wv.len() == want@.len(),
            arity == want@.len(),
            wanted_name@ == name@,
            hits@.map_values(|h: String| h@) == distinct_hits(methods@.take(i as int), name@, wv),
        decreases methods.len() - i,
    {
        let m = &methods[i];
        assert(methods@.take(i + 1).drop_last() =~= methods@.take(i as int));
        assert(methods@.take(i + 1).last() == methods@[i as int]);
        let want_slice = want.as_slice();
        let ok = m.name == wanted_name && m.access & (ACC_BRIDGE | ACC_SYNTHETIC | ACC_STATIC) == 0 && desc_arity(
            m.desc.as_str(),
        ) == Some(arity) && params_match(m.desc.as_str(), want_slice);
        if ok {
            let mut seen = false;
            let mut k: usize = 0;
            while k < hits.len()
                invariant
                    k <= hits@.len(),
                    seen == exists|t: int| 0 <= t < k && hits@[t]@ == m.desc@,
                decreases hits.len() - k,
            {
                if hits[k] == m.desc {
                    seen = true;
                }
                k += 1;
            }
            let ghost prev = hits@;
            proof {
                let pv = prev.map_values(|h: String| h@);
                assert(seen == pv.contains(m.desc@)) by {
                    if seen {
                        let t = choose|t: int| 0 <= t < hits@.len() && hits@[t]@ == m.desc@;
                        assert(pv[t] == m.desc@);
                    }
                    if pv.contains(m.desc@) {
                        let t = choose|t: int| 0 <= t < pv.len() && pv[t] == m.desc@;
                        assert(hits@[t]@ == m.desc@);
                    }
                }
            }
            if !seen {
                hits.push(m.desc.clone());
                assert(hits@.map_values(|h: String| h@) =~= prev.map_values(|h: String| h@).push(m.desc@));
            }
        }
        i += 1;
    }
    assert(methods@.take(methods@.len() as int) =~= methods@);
    let ghost hv = hits@.map_values(|h: String| h@);
    if hits.len() == 0 {
        return None;
    }
    if hits.len() == 1 {
        let h = hits.remove(0);
        return Some(h);
    }
    let expected = match result {
        None => {
            return None;
        },
        Some(e) => e,
    };
    let mut kept: Vec<String> = Vec::new();
    let mut j: usize = 0;
    while j < hits.len()
        invariant
            j <= hits@.len(),
            hv == hits@.map_values(|h: String| h@),
            kept@.map_values(|h: String| h@) == hv.take(j as int).filter(
                |h: Seq<char>| return_part(h) == Some(expected@),
            ),
        decreases hits.len() - j,
    {
        assert(hv.take(j + 1).drop_last() =~= hv.take(j as int));
        let ghost before = kept@;
        if return_part_is(hits[j].as_str(), expected) {
            kept.push(hits[j].clone());
            assert(kept@.map_values(|h: String| h@) =~= before.map_values(|h: String| h@).push(hv[j as int]));
        }
        proof {
            reveal_with_fuel(Seq::<_>::filter, 1);
        }
        j += 1;
    }
    assert(hv.take(hits@.len() as int) =~= hv);
    if kept.len() == 1 {
        assert(kept@.map_values(|h: String| h@)[0] == kept@[0]@);
        let h = kept.remove(0);
        Some(h)
    } else {
        None
    }
}

/// The descriptor a pickled member is supplied under, or `None` when the
/// class file does not pin one down.
pub open spec fn expressible(o: SymbolTable, h: PickledMember, methods: Seq<ClassMethod>, jvm_member: Seq<char>) -> Option<Seq<char>> {
    pick_descriptor(
        distinct_hits(methods, jvm_member, hit_slots(o, h)),
        match h.result {
            Some(e) => Some(e@),
            None => None,
        },
    )
}

/// The descriptor a parameter of type `t` erases to, where that is certain
/// without the type's erasure: primitives, `Unit` (boxed), `String`, the
/// top types, functions, by-name and repeated parameters, and class types
/// by their class's JVM name (an array's slot is left open).
pub open spec fn erased_slot(st: SymbolTable, t: Ty) -> Option<Seq<char>> {
    match t {
        Ty::Prim(p) => Some(crate::prelude_boxed::prim_desc(p)),
        Ty::Unit => Some("Lscala/runtime/BoxedUnit;"@),
        Ty::Str => Some("Ljava/lang/String;"@),
        Ty::Any | Ty::AnyRef | Ty::AnyVal => Some("Ljava/lang/Object;"@),
        Ty::Function { params, .. } => Some("Lscala/Function"@ + crate::text::decimal(params@.len()) + ";"@),
        Ty::ByName(_) => Some("Lscala/Function0;"@),
        Ty::Repeated(_) => Some("Lscala/collection/immutable/Seq;"@),
        Ty::Class { sym, .. } => if st.valid(sym) && st.sym(sym).jvm_name@.len() > 0 && st.sym(sym).jvm_name@[0] != '[' {
            Some("L"@ + st.sym(sym).jvm_name@ + ";"@)
        } else {
            None
        },
        _ => None,
    }
}

/// The erased slots of the parameters of clauses `cs`, flattened.
pub open spec fn erased_clauses(st: SymbolTable, cs: Seq<Seq<Ty>>) -> Seq<Option<Seq<char>>>
    decreases cs.len(),
{
    if cs.len() == 0 {
        Seq::empty()
    } else {
        erased_clauses(st, cs.drop_last()) + cs.last().map_values(|t: Ty| erased_slot(st, t))
    }
}

/// The erased slots of a method type's parameters, all clauses flattened.
pub open spec fn flat_erased_params(st: SymbolTable, t: Ty) -> Seq<Option<Seq<char>>> {
    match SymbolTable::method_shape(t) {
        Some((cs, _)) => erased_clauses(st, cs),
        None => Seq::empty(),
    }
}

fn lit(x: &str) -> (r: String)
    ensures
        r@ == x@,
{
    x.to_owned()
}

/// `erased_slot`.
pub fn erased_param_desc(st: &SymbolTable, t: &Ty) -> (r: Option<String>)
    requires
        st.wf(),
    ensures
        match r {
            Some(d) => erased_slot(*st, *t) == Some(d@),
            None => erased_slot(*st, *t) is None,
        },
{
    proof {
        reveal_strlit("Lscala/runtime/BoxedUnit;");
        reveal_strlit("Ljava/lang/String;");
        reveal_strlit("Ljava/lang/Object;");
        reveal_strlit("Lscala/Function0;");
        reveal_strlit("Lscala/collection/immutable/Seq;");
    }
    match t {
        Ty::Prim(p) => {
            let d = match p {
                Prim::Boolean => lit("Z"),
                Prim::Byte => lit("B"),
                Prim::Short => lit("S"),
                Prim::Char => lit("C"),
                Prim::Int => lit("I"),
                Prim::Long => lit("J"),
                Prim::Float => lit("F"),
                Prim::Double => lit("D"),
            };
            proof {
                reveal_strlit("Z");
                reveal_strlit("B");
                reveal_strlit("S");
                reveal_strlit("C");
                reveal_strlit("I");
                reveal_strlit("J");
                reveal_strlit("F");
                reveal_strlit("D");
            }
            Some(d)
        },
        Ty::Unit => Some(lit("Lscala/runtime/BoxedUnit;")),
        Ty::Str => Some(lit("Ljava/lang/String;")),
        Ty::Any | Ty::AnyRef | Ty::AnyVal => Some(lit("Ljava/lang/Object;")),
        Ty::Function { params, .. } => {
            let d = crate::text::push_decimal(lit("Lscala/Function"), params.len());
            Some(d.concat(";"))
        },
        Ty::ByName(_) => Some(lit("Lscala/Function0;")),
        Ty::Repeated(_) => Some(lit("Lscala/collection/immutable/Seq;")),
        Ty::Class { sym, .. } => {
            if (sym.0 as usize) < st.syms.len() {
                let n = chars_of(st.get(*sym).jvm_name.as_str());
                if n.len() > 0 && n[0] != '[' {
                    let d = lit("L").concat(st.get(*sym).jvm_name.as_str()).concat(";");
                    return Some(d);
                }
            }
            None
        },
        _ => None,
    }
}

/// The erased parameter slots of the member a hit would be installed as:
/// its parameters' `erased_slot`s, in order.
pub open spec fn hit_slots(st: SymbolTable, h: PickledMember) -> Seq<Option<Seq<char>>> {
    erased_clauses(st, crate::prelude::clauses_of(h.params@))
}

/// `hit_slots`, from a hit's parameters.
pub fn hit_slots_of(st: &SymbolTable, params: &Vec<Ty>) -> (r: Vec<Option<String>>)
    requires
        st.wf(),
    ensures
        slot_views(r@) == erased_clauses(*st, crate::prelude::clauses_of(params@)),
        slot_views(r@) == params@.map_values(|t: Ty| erased_slot(*st, t)),
{
    let mut out: Vec<Option<String>> = Vec::new();
    let mut j: usize = 0;
    while j < params.len()
        invariant
            st.wf(),
            j <= params@.len(),
            slot_views(out@) == params@.take(j as int).map_values(|x: Ty| erased_slot(*st, x)),
        decreases params@.len() - j,
    {
        let e = erased_param_desc(st, &params[j]);
        let ghost prev = out@;
        out.push(e);
        assert(slot_views(out@) =~= slot_views(prev).push(erased_slot(*st, params@[j as int])));
        assert(params@.take(j + 1).map_values(|x: Ty| erased_slot(*st, x)) =~= params@.take(j as int).map_values(
            |x: Ty| erased_slot(*st, x),
        ).push(erased_slot(*st, params@[j as int])));
        j += 1;
    }
    assert(params@.take(params@.len() as int) =~= params@);
    proof {
        let cs = crate::prelude::clauses_of(params@);
        if params@.len() > 0 {
            assert(cs.drop_last() =~= Seq::<Seq<Ty>>::empty());
            assert(erased_clauses(*st, cs.drop_last()) =~= Seq::<Option<Seq<char>>>::empty());
            assert(erased_clauses(*st, cs) =~= params@.map_values(|x: Ty| erased_slot(*st, x)));
        } else {
            assert(slot_views(out@) =~= Seq::<Option<Seq<char>>>::empty());
        }
    }
    out
}

/// A hand-written member of the prelude (below `prelude_end`) among
/// `ms` from `j` on, named as `h` and of the parameter slots `h` wants: the
/// first one.
pub open spec fn first_blocker(st: SymbolTable, ms: Seq<SymbolId>, prelude_end: u32, h: PickledMember, j: int) -> Option<SymbolId>
    decreases ms.len() - j,
{
    if j < 0 || j >= ms.len() {
        None
    } else if ms[j].0 < prelude_end && st.sym(ms[j]).name@ == h.name@ && flat_erased_params(st, st.sym(ms[j]).ty)
        == hit_slots(st, h) {
        Some(ms[j])
    } else {
        first_blocker(st, ms, prelude_end, h, j + 1)
    }
}

/// `flat_erased_params` of a method type.
pub fn erased_params(st: &SymbolTable, t: &Ty) -> (r: Vec<Option<String>>)
    requires
        st.wf(),
    ensures
        slot_views(r@) == flat_erased_params(*st, *t),
{
    let mut out: Vec<Option<String>> = Vec::new();
    match t {
        Ty::Method { paramss, .. } => {
            let ghost cs = paramss@.map_values(|c: Vec<Ty>| c@);
            let mut i: usize = 0;
            while i < paramss.len()
                invariant
                    st.wf(),
                    cs == paramss@.map_values(|c: Vec<Ty>| c@),
                    i <= paramss@.len(),
                    slot_views(out@) == erased_clauses(*st, cs.take(i as int)),
                decreases paramss@.len() - i,
            {
                let clause = &paramss[i];
                let ghost base = out@;
                let mut j: usize = 0;
                while j < clause.len()
                    invariant
                        st.wf(),
                        j <= clause@.len(),
                        slot_views(out@) == slot_views(base) + clause@.take(j as int).map_values(|x: Ty| erased_slot(*st, x)),
                    decreases clause@.len() - j,
                {
                    let e = erased_param_desc(st, &clause[j]);
                    let ghost prev = out@;
                    out.push(e);
                    assert(slot_views(out@) =~= slot_views(prev).push(erased_slot(*st, clause@[j as int])));
                    assert(clause@.take(j + 1).map_values(|x: Ty| erased_slot(*st, x)) =~= clause@.take(j as int).map_values(
                        |x: Ty| erased_slot(*st, x),
                    ).push(erased_slot(*st, clause@[j as int])));
                    j += 1;
                }
                assert(clause@.take(clause@.len() as int) =~= clause@);
                assert(cs.take(i + 1).drop_last() =~= cs.take(i as int));
                assert(cs[i as int] == clause@);
                i += 1;
            }
            assert(cs.take(paramss@.len() as int) =~= cs);
        },
        _ => {},
    }
    out
}

/// Whether two lists of parameter slots agree.
pub fn slots_eq(a: &Vec<Option<String>>, b: &Vec<Option<String>>) -> (r: bool)
    ensures
        r == (slot_views(a@) == slot_views(b@)),
{
    if a.len() != b.len() {
        assert(slot_views(a@).len() != slot_views(b@).len());
        return false;
    }
    let mut i: usize = 0;
    while i < a.len()
        invariant
            a@.len() == b@.len(),
            i <= a@.len(),
            forall|k: int| 0 <= k < i ==> slot_views(a@)[k] == slot_views(b@)[k],
        decreases a@.len() - i,
    {
        let same = match (&a[i], &b[i]) {
            (Some(x), Some(y)) => str_eq(x.as_str(), y.as_str()),
            (None, None) => true,
            _ => false,
        };
        if !same {
            assert(slot_views(a@)[i as int] != slot_views(b@)[i as int]);
            return false;
        }
        i += 1;
    }
    assert(slot_views(a@) =~= slot_views(b@));
    true
}

/// `first_blocker` among the members of `owner`.
fn find_blocker(st: &SymbolTable, owner: SymbolId, prelude_end: u32, h: &PickledMember, want: &Vec<Option<String>>) -> (r: Option<SymbolId>)
    requires
        st.wf(),
        st.valid(owner),
        slot_views(want@) == hit_slots(*st, *h),
    ensures
        r == first_blocker(*st, st.sym(owner).members@, prelude_end, *h, 0),
        r matches Some(b) ==> st.valid(b),
{
    let ms = &st.get(owner).members;
    let mut j: usize = 0;
    while j < ms.len()
        invariant
            st.wf(),
            st.valid(owner),
            *ms == st.sym(owner).members,
            j <= ms@.len(),
            first_blocker(*st, ms@, prelude_end, *h, 0) == first_blocker(*st, ms@, prelude_end, *h, j as int),
            slot_views(want@) == hit_slots(*st, *h),
        decreases ms@.len() - j,
    {
        let id = ms[j];
        proof {
            assert(st.valid(id));
        }
        if id.0 < prelude_end && str_eq(st.get(id).name.as_str(), h.name.as_str()) {
            let got = erased_params(st, &st.get(id).ty);
            if slots_eq(&got, want) {
                return Some(id);
            }
        }
        j += 1;
    }
    None
}

/// The hand-written member that blocks hit `h` on `class_sym`, if any.
pub open spec fn hit_blocker(o: SymbolTable, class_sym: SymbolId, prelude_end: u32, h: PickledMember) -> Option<SymbolId> {
    first_blocker(o, o.sym(class_sym).members@, prelude_end, h, 0)
}

/// The hits `supply` answers: those blocked by a hand-written member and
/// those it can express, in order.
pub open spec fn answered_hits(
    o: SymbolTable,
    class_sym: SymbolId,
    prelude_end: u32,
    hits: Seq<PickledMember>,
    methods: Seq<ClassMethod>,
    jvm_member: Seq<char>,
) -> Seq<PickledMember> {
    hits.filter(|h: PickledMember| hit_blocker(o, class_sym, prelude_end, h) is Some || expressible(o, h, methods, jvm_member) is Some)
}

/// The hits `supply` installs a new symbol for, in order.
pub open spec fn new_hits(
    o: SymbolTable,
    class_sym: SymbolId,
    prelude_end: u32,
    hits: Seq<PickledMember>,
    methods: Seq<ClassMethod>,
    jvm_member: Seq<char>,
) -> Seq<PickledMember> {
    hits.filter(|h: PickledMember| hit_blocker(o, class_sym, prelude_end, h) is None && expressible(o, h, methods, jvm_member) is Some)
}

proof fn lemma_blocker_below(st: SymbolTable, owner: SymbolId, prelude_end: u32, h: PickledMember, j: int)
    requires
        st.wf(),
        st.valid(owner),
    ensures
        first_blocker(st, st.sym(owner).members@, prelude_end, h, j) matches Some(b) ==> b.0 < prelude_end && st.valid(b),
    decreases st.sym(owner).members@.len() - j,
{
    let ms = st.sym(owner).members@;
    if 0 <= j < ms.len() {
        assert(st.valid(ms[j]));
        lemma_blocker_below(st, owner, prelude_end, h, j + 1);
    }
}

/// The prelude always wins: a hit `supply` installs a symbol for has no
/// hand-written member of `class_sym` (below `prelude_end`) of its name and
/// erased parameter slots; one that has is answered by that member instead.
pub proof fn lemma_prelude_wins(o: SymbolTable, class_sym: SymbolId, prelude_end: u32, h: PickledMember)
    ensures
        hit_blocker(o, class_sym, prelude_end, h) is None <==> forall|j: int|
            0 <= j < o.sym(class_sym).members@.len() ==> !({
                let s = #[trigger] o.sym(class_sym).members@[j];
                &&& s.0 < prelude_end
                &&& o.sym(s).name@ == h.name@
                &&& flat_erased_params(o, o.sym(s).ty) == hit_slots(o, h)
            }),
{
    lemma_blocker_none(o, o.sym(class_sym).members@, prelude_end, h, 0);
}

proof fn lemma_blocker_none(o: SymbolTable, ms: Seq<SymbolId>, prelude_end: u32, h: PickledMember, j: int)
    requires
        0 <= j,
    ensures
        first_blocker(o, ms, prelude_end, h, j) is None <==> forall|i: int|
            j <= i < ms.len() ==> !({
                let s = #[trigger] ms[i];
                &&& s.0 < prelude_end
                &&& o.sym(s).name@ == h.name@
                &&& flat_erased_params(o, o.sym(s).ty) == hit_slots(o, h)
            }),
    decreases ms.len() - j,
{
    if j < ms.len() {
        lemma_blocker_none(o, ms, prelude_end, h, j + 1);
    }
}

/// `n` would shadow the hand-written member `s` (one below `prelude_end`):
/// the same name and, read in `o`, the same erased parameter slots.
pub open spec fn shadows(o: SymbolTable, n: Symbol, s: SymbolId, prelude_end: u32) -> bool {
    &&& s.0 < prelude_end
    &&& o.sym(s).name@ == n.name@
    &&& flat_erased_params(o, o.sym(s).ty) == flat_erased_params(o, n.ty)
}

/// What a supplied member's symbol holds.
pub open spec fn is_supplied_symbol(
    o: SymbolTable,
    s: Symbol,
    owner: SymbolId,
    h: PickledMember,
    methods: Seq<ClassMethod>,
    jvm_member: Seq<char>,
) -> bool {
    &&& s.name@ == h.name@
    &&& s.kind == SymKind::Method
    &&& s.owner == Some(owner)
    &&& expressible(o, h, methods, jvm_member) == Some(s.jvm_name@)
    &&& SymbolTable::method_shape(s.ty) == Some((crate::prelude::clauses_of(h.params@), h.ret))
}

impl PickleSupply {
    /// Install what the receiver's pickle declares under the missed name.
    ///
    /// `jvm_member` is the name as the class file spells it and `methods` the
    /// receiver's class-file methods. The prelude always wins: where the
    /// receiver already has a hand-written member (one below `prelude_end`)
    /// of the hit's name and erased parameters, that member is the answer
    /// and nothing is installed for the hit. Otherwise a pickled member is
    /// supplied only when its erased descriptor can be pinned down among
    /// those methods, and is entered with that descriptor as its JVM name
    /// among the receiver's members; a member that cannot be expressed is
    /// not supplied. Nothing already in the table is changed. Whether a hit
    /// is blocked is decided against the table as it was: what is supplied
    /// here lies above `prelude_end` and never blocks.
    pub fn supply(
        &self,
        st: &mut SymbolTable,
        class_sym: SymbolId,
        prelude_end: u32,
        jvm_member: &str,
        methods: &Vec<ClassMethod>,
        hits: Vec<PickledMember>,
    ) -> (r: Vec<SymbolId>)
        requires
            old(st).wf(),
            old(st).valid(class_sym),
            old(st).syms@.len() + hits@.len() + 1 < u32::MAX,
        ensures
            final(st).wf(),
            final(st).grows_from(*old(st)),
            final(st).syms@.len() == old(st).syms@.len() + new_hits(*old(st), class_sym, prelude_end, hits@, methods@, jvm_member@).len(),
            final(st).sym(class_sym).members@ == old(st).sym(class_sym).members@ + r@.filter(|id: SymbolId| id.0 >= old(st).syms@.len()),
            forall|i: int| 0 <= i < old(st).syms@.len() && i != class_sym.0 ==> (#[trigger] final(st).syms@[i]).members@
                == old(st).syms@[i].members@,
            r@.len() == answered_hits(*old(st), class_sym, prelude_end, hits@, methods@, jvm_member@).len(),
            forall|k: int|
                0 <= k < r@.len() ==> {
                    let h = answered_hits(*old(st), class_sym, prelude_end, hits@, methods@, jvm_member@)[k];
                    match hit_blocker(*old(st), class_sym, prelude_end, h) {
                        Some(b) => #[trigger] r@[k] == b && b.0 < prelude_end,
                        None => r@[k].0 >= old(st).syms@.len() && is_supplied_symbol(
                            *old(st),
                            final(st).sym(r@[k]),
                            class_sym,
                            h,
                            methods@,
                            jvm_member@,
                        ),
                    }
                },
            forall|k: int, j: int|
                0 <= k < r@.len() && r@[k].0 >= old(st).syms@.len() && 0 <= j < old(st).sym(class_sym).members@.len()
                    ==> !shadows(*old(st), final(st).sym(#[trigger] r@[k]), #[trigger] old(st).sym(class_sym).members@[j], prelude_end),
    {
        let ghost all = hits@;
        let ghost st0 = *st;
        // which hits a hand-written member blocks, against the table as it is
        // and the erased parameter slots of what each would install
        let mut blockers: Vec<Option<SymbolId>> = Vec::new();
        let mut wants: Vec<Vec<Option<String>>> = Vec::new();
        let mut b: usize = 0;
        while b < hits.len()
            invariant
                st.wf(),
                st.valid(class_sym),
                *st == st0,
                hits@ == all,
                b <= all.len(),
                blockers@.len() == b,
                wants@.len() == b,
                forall|k: int| 0 <= k < b ==> #[trigger] blockers@[k] == hit_blocker(st0, class_sym, prelude_end, all[k]),
                forall|k: int| 0 <= k < b ==> slot_views(#[trigger] wants@[k]@) == hit_slots(st0, all[k]),
            decreases all.len() - b,
        {
            let want = hit_slots_of(st, &hits[b].params);
            blockers.push(find_blocker(st, class_sym, prelude_end, &hits[b], &want));
            wants.push(want);
            b += 1;
        }
        let mut rest = hits;
        let mut out: Vec<SymbolId> = Vec::new();
        let ghost mut added: nat = 0;
        let mut done: usize = 0;
        while rest.len() > 0
            invariant
                st.wf(),
                st0.wf(),
                st.grows_from(st0),
                st.valid(class_sym),
                st0.valid(class_sym),
                done + rest@.len() == all.len(),
                rest@ == all.subrange(done as int, all.len() as int),
                blockers@.len() == all.len(),
                forall|k: int| 0 <= k < all.len() ==> #[trigger] blockers@[k] == hit_blocker(st0, class_sym, prelude_end, all[k]),
                wants@.len() == all.len(),
                forall|k: int| 0 <= k < all.len() ==> slot_views(#[trigger] wants@[k]@) == hit_slots(st0, all[k]),
                st0.syms@.len() + all.len() + 1 < u32::MAX,
                added == new_hits(st0, class_sym, prelude_end, all.take(done as int), methods@, jvm_member@).len(),
                st.syms@.len() == st0.syms@.len() + added,
                st.sym(class_sym).members@ == st0.sym(class_sym).members@ + out@.filter(|id: SymbolId| id.0 >= st0.syms@.len()),
                forall|i: int| 0 <= i < st0.syms@.len() && i != class_sym.0 ==> (#[trigger] st.syms@[i]).members@
                    == st0.syms@[i].members@,
                out@.len() <= done,
                out@.len() == answered_hits(st0, class_sym, prelude_end, all.take(done as int), methods@, jvm_member@).len(),
                forall|k: int|
                    0 <= k < out@.len() ==> {
                        let h = answered_hits(st0, class_sym, prelude_end, all.take(done as int), methods@, jvm_member@)[k];
                        match hit_blocker(st0, class_sym, prelude_end, h) {
                            Some(b) => #[trigger] out@[k] == b && b.0 < prelude_end,
                            None => out@[k].0 >= st0.syms@.len() && out@[k].0 < st.syms@.len() && is_supplied_symbol(
                                st0,
                                st.sym(out@[k]),
                                class_sym,
                                h,
                                methods@,
                                jvm_member@,
                            ),
                        }
                    },
            decreases rest@.len(),
        {
            let h = rest.remove(0);
            let ghost hv = h;
            assert(hv == all[done as int]);
            assert(all.take(done + 1).drop_last() =~= all.take(done as int));
            proof {
                reveal_with_fuel(Seq::<_>::filter, 1);
            }
            let ghost prev_out = out@;
            let ghost before = *st;
            match blockers[done] {
                Some(blocker) => {
                    proof {
                        lemma_blocker_below(st0, class_sym, prelude_end, hv, 0);
                    }
                    out.push(blocker);
                    proof {
                        reveal_with_fuel(Seq::<_>::filter, 1);
                        assert(out@.drop_last() =~= prev_out);
                        assert(out@.filter(|id: SymbolId| id.0 >= st0.syms@.len()) =~= prev_out.filter(|id: SymbolId| id.0 >= st0.syms@.len()));
                    }
                },
                None => {
                    assert(slot_views(wants@[done as int]@) == hit_slots(st0, hv));
                    let found = erased_desc(methods, jvm_member, &wants[done], match &h.result {
                        Some(e) => Some(e.as_str()),
                        None => None,
                    });
                    match found {
                        None => {},
                        Some(desc) => {
                            let PickledMember { name, params, ret, result: _ } = h;
                            let ghost pv = params@;
                            let paramss: Vec<Vec<Ty>> = if params.len() == 0 {
                                Vec::new()
                            } else {
                                let mut v = Vec::new();
                                v.push(params);
                                v
                            };
                            assert(paramss@.map_values(|c: Vec<Ty>| c@) =~= crate::prelude::clauses_of(pv));
                            let sym = Symbol {
                                name,
                                kind: SymKind::Method,
                                owner: Some(class_sym),
                                flags: 0,
                                jvm_name: desc,
                                members: Vec::new(),
                                params: Vec::new(),
                                paramss: Vec::new(),
                                tparams: Vec::new(),
                                parents: Vec::new(),
                                ctor_fields: Vec::new(),
                                ty: Ty::Method { paramss, ret: Box::new(ret) },
                                bound_hi: None,
                                intrinsic: Intrinsic::Plain,
                            };
                            let id = st.push_symbol(sym);
                            out.push(id);
                            proof {
                                added = added + 1;
                                lemma_grows_trans(st0, before, *st);
                                reveal_with_fuel(Seq::<_>::filter, 1);
                                assert(out@.drop_last() =~= prev_out);
                                assert(out@.filter(|id: SymbolId| id.0 >= st0.syms@.len()) =~= prev_out.filter(
                                    |id: SymbolId| id.0 >= st0.syms@.len(),
                                ).push(id));
                                assert(st.sym(class_sym).members@ =~= st0.sym(class_sym).members@ + out@.filter(
                                    |id: SymbolId| id.0 >= st0.syms@.len(),
                                ));
                                assert forall|i: int| 0 <= i < st0.syms@.len() && i != class_sym.0 implies (#[trigger] st.syms@[i]).members@
                                    == st0.syms@[i].members@ by {
                                    assert(SymbolId(i as u32) != class_sym);
                                    assert(st.syms@[i].members@ == before.syms@[i].members@);
                                }
                                assert forall|k: int| 0 <= k < prev_out.len() && out@[k].0 >= st0.syms@.len() && out@[k].0 < before.syms@.len()
                                    implies #[trigger] st.syms@[out@[k].0 as int].same_except_members(before.syms@[out@[k].0 as int]) by {}
                            }
                        },
                    }
                },
            }
            done += 1;
        }
        assert(all.take(all.len() as int) =~= all);
        proof {
            let hs = answered_hits(st0, class_sym, prelude_end, all, methods@, jvm_member@);
            assert forall|k: int, j: int|
                0 <= k < out@.len() && out@[k].0 >= st0.syms@.len() && 0 <= j < st0.sym(class_sym).members@.len()
                    implies !shadows(st0, st.sym(#[trigger] out@[k]), #[trigger] st0.sym(class_sym).members@[j], prelude_end) by {
                let h = hs[k];
                assert(out@[k] == out@[k]);
                match hit_blocker(st0, class_sym, prelude_end, h) {
                    Some(b) => {
                        lemma_blocker_below(st0, class_sym, prelude_end, h, 0);
                        assert(out@[k] == b);
                        assert(st0.valid(b));
                    },
                    None => {
                        lemma_prelude_wins(st0, class_sym, prelude_end, h);
                        let n = st.sym(out@[k]);
                        assert(is_supplied_symbol(st0, n, class_sym, h, methods@, jvm_member@));
                        assert(flat_erased_params(st0, n.ty) == hit_slots(st0, h));
                        let s = st0.sym(class_sym).members@[j];
                        assert(!({
                            &&& s.0 < prelude_end
                            &&& st0.sym(s).name@ == h.name@
                            &&& flat_erased_params(st0, st0.sym(s).ty) == hit_slots(st0, h)
                        }));
                    },
                }
            }
        }
        out
    }

    /// Resolve `name` on `class_sym`: a member the table already declares
    /// under that name is the answer and completion is not consulted --
    /// the prelude always wins; only a miss goes on to [`Self::complete_step`].
    pub fn resolve_member(
        &mut self,
        st: &SymbolTable,
        class_sym: SymbolId,
        name: &str,
        jvm_member: &str,
        nested_pickle: bool,
    ) -> (r: Completion)
        requires
            old(self).tried_pairs().len() + 1 < usize::MAX,
            st.wf(),
            st.valid(class_sym),
        ensures
            final(self).adopted_classes() == old(self).adopted_classes(),
            final(self).implicit_classes() == old(self).implicit_classes(),
            members_named(*st, class_sym, name@).len() > 0 ==> {
                &&& r matches Completion::Answered(ms) && ms@ == members_named(*st, class_sym, name@)
                &&& final(self).tried_pairs() == old(self).tried_pairs()
            },
            members_named(*st, class_sym, name@).len() == 0 ==> match r {
                Completion::ReadPickle => {
                    &&& name@.len() > 0
                    &&& old(self).spec_pickle_readable(*st, class_sym) || nested_pickle
                    &&& !old(self).was_tried(class_sym, name@)
                    &&& jvm_encodable(jvm_member@)
                    &&& is_class_like(st.sym(class_sym).kind)
                    &&& final(self).tried_pairs() == old(self).tried_pairs().push((class_sym, name@))
                },
                Completion::Answered(ms) => {
                    &&& ms@.len() == 0
                    &&& final(self).tried_pairs() == old(self).tried_pairs() || {
                        &&& !jvm_encodable(jvm_member@) || !is_class_like(st.sym(class_sym).kind)
                        &&& final(self).tried_pairs() == old(self).tried_pairs().push((class_sym, name@))
                    }
                },
            },
    {
        let found = named_members(st, class_sym, name);
        if found.len() > 0 {
            return Completion::Answered(found);
        }
        self.complete_step(st, class_sym, name, jvm_member, nested_pickle)
    }
}

/// Nothing is read twice: once a (receiver, name) pair has been attempted,
/// it stays attempted however the attempts grow, and `complete_step` asks
/// for the pickle only for a pair not attempted before.
pub proof fn lemma_read_at_most_once(before: PickleSupply, after: PickleSupply, class_sym: SymbolId, name: Seq<char>)
    requires
        before.tried_pairs().is_prefix_of(after.tried_pairs()),
        before.was_tried(class_sym, name),
    ensures
        after.was_tried(class_sym, name),
{
    let k = choose|k: int| 0 <= k < before.tried_pairs().len() && before.tried_pairs()[k] == (class_sym, name);
    assert(after.tried_pairs()[k] == (class_sym, name));
}

} // verus!
