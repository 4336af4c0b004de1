//! Call targets: the static target, found up the class hierarchy, and for virtual and
//! interface dispatch with a small implementation set each override. A broad interface
//! such as `Runnable.run` is deliberately not linked, since "every lock any caller
//! holds" is noise. Where the class of the receiver is known, the call reaches that class's
//! method instead, and on a formal parameter the methods of the classes that are passed in.

use crate::dex::acquire;
use crate::dex::ctx::types::{Kind, KindV};
use crate::dex::flow;
use crate::dex::hierarchy;
use crate::dex::hierarchy::Hierarchy;
use crate::dex::model::{ClassV, Dex, InvokeKind, Method, MethodV};
use crate::dict;
use crate::dict::{Dict, DictV};
use crate::text;
use crate::values::Dup;
use vstd::prelude::*;

verus! {

/// The declarations of each `name:sig`, of the methods from the `k`th on, behind `acc`.
pub open spec fn decls_from(ms: Seq<MethodV>, k: int, acc: DictV<Seq<usize>>) -> DictV<Seq<usize>>
    decreases ms.len() - k,
{
    if k >= ms.len() {
        acc
    } else {
        decls_from(
            ms,
            k + 1,
            dict::put_more(acc, flow::declared(ms[k].name, ms[k].sig), k as usize),
        )
    }
}

/// The key of a member of a class.
pub open spec fn member(class: Seq<char>, decl: Seq<char>) -> Seq<char> {
    class + "."@ + decl
}

/// The first of the classes from the `k`th on that declares the member.
pub open spec fn first_declaring(
    ids: DictV<usize>,
    up: Seq<Seq<char>>,
    decl: Seq<char>,
    k: int,
) -> Option<usize>
    decreases up.len() - k,
{
    if k >= up.len() {
        None
    } else {
        match ids.get(member(up[k], decl)) {
            Some(t) => Some(t),
            None => first_declaring(ids, up, decl, k + 1),
        }
    }
}

/// The method that a call names: the class's own, else that of the nearest class above.
pub open spec fn static_target(
    cs: Seq<ClassV>,
    ids: DictV<usize>,
    class: Seq<char>,
    decl: Seq<char>,
) -> Option<usize> {
    match ids.get(member(class, decl)) {
        Some(t) => Some(t),
        None => first_declaring(ids, hierarchy::ancestors(cs, class), decl, 0),
    }
}

/// The declarations from the `j`th on that override the class's, behind `acc`.
pub open spec fn overrides(
    ms: Seq<MethodV>,
    cs: Seq<ClassV>,
    class: Seq<char>,
    ds: Seq<usize>,
    j: int,
    acc: Seq<usize>,
) -> Seq<usize>
    decreases ds.len() - j,
{
    if j >= ds.len() {
        acc
    } else {
        let dc = ms[ds[j] as int].class;
        overrides(
            ms,
            cs,
            class,
            ds,
            j + 1,
            if !acc.contains(ds[j]) && (dc == class || hierarchy::ancestors(cs, dc).contains(
                class,
            )) {
                acc.push(ds[j])
            } else {
                acc
            },
        )
    }
}

/// What a call may reach.
pub open spec fn targets(
    ms: Seq<MethodV>,
    cs: Seq<ClassV>,
    cap: usize,
    class: Seq<char>,
    decl: Seq<char>,
    kind: InvokeKind,
) -> Seq<usize> {
    let ids = acquire::last_of(ms, 0, DictV::none());
    let ds = dict::list_at(decls_from(ms, 0, DictV::none()), decl);
    let first = match static_target(cs, ids, class, decl) {
        Some(t) => seq![t],
        None => Seq::empty(),
    };
    if (kind == InvokeKind::Virtual || kind == InvokeKind::Interface) && ds.len() <= cap {
        overrides(ms, cs, class, ds, 0, first)
    } else {
        first
    }
}

/// The methods with a body that the classes from the `k`th on have or inherit, each once,
/// behind `acc`.
pub open spec fn class_methods(
    ms: Seq<MethodV>,
    cs: Seq<ClassV>,
    classes: Seq<Seq<char>>,
    decl: Seq<char>,
    k: int,
    acc: Seq<usize>,
) -> Seq<usize>
    decreases classes.len() - k,
{
    if k >= classes.len() {
        acc
    } else {
        class_methods(
            ms,
            cs,
            classes,
            decl,
            k + 1,
            match static_target(cs, acquire::last_of(ms, 0, DictV::none()), classes[k], decl) {
                Some(t) => if ms[t as int].insns.len() > 0 && !acc.contains(t) {
                    acc.push(t)
                } else {
                    acc
                },
                None => acc,
            },
        )
    }
}

/// What a call reaches, where `recv` is known of its receiver and `passed` are the classes
/// passed in where that is a formal.
pub open spec fn refined(
    ms: Seq<MethodV>,
    cs: Seq<ClassV>,
    cap: usize,
    class: Seq<char>,
    decl: Seq<char>,
    kind: InvokeKind,
    recv: KindV,
    passed: Seq<Seq<char>>,
) -> Seq<usize> {
    let classes = match recv {
        KindV::Unknown => Seq::empty(),
        KindV::Class(c) => seq![c],
        KindV::Formal(_) => passed,
    };
    let own = class_methods(ms, cs, classes, decl, 0, Seq::empty());
    if (kind == InvokeKind::Virtual || kind == InvokeKind::Interface) && own.len() > 0 {
        own
    } else {
        targets(ms, cs, cap, class, decl, kind)
    }
}

/// What target resolution looks up.
pub struct Linker<'a> {
    ms: &'a Vec<&'a Method>,
    ids: Dict<usize>,
    decls: Dict<Vec<usize>>,
    up: Hierarchy,
}

fn has_target(ts: &Vec<usize>, t: usize) -> (r: bool)
    ensures
        r == ts@.contains(t),
{
    let mut k: usize = 0;
    while k < ts.len()
        invariant
            k <= ts@.len(),
            forall|i: int| 0 <= i < k ==> ts@[i] != t,
        decreases ts@.len() - k,
    {
        if ts[k] == t {
            return true;
        }
        k += 1;
    }
    false
}

impl<'a> Linker<'a> {
    /// The methods and classes that are linked.
    pub closed spec fn of(&self, ms: Seq<MethodV>, cs: Seq<ClassV>) -> bool {
        &&& self.ms.deep_view() == ms
        &&& self.up.of() == cs
        &&& self.up.wf()
        &&& self.ids.wf()
        &&& self.ids@ == acquire::last_of(ms, 0, DictV::none())
        &&& forall|k: Seq<char>| #[trigger]
            self.ids@.map.contains_key(k) ==> self.ids@.map[k] < ms.len()
        &&& self.decls.wf()
        &&& self.decls@ == decls_from(ms, 0, DictV::none())
        &&& forall|k: Seq<char>, j: int|
            self.decls@.map.contains_key(k) && 0 <= j < self.decls@.map[k].len() ==> (
            #[trigger] self.decls@.map[k][j]) < ms.len()
    }

    /// Index the methods and the hierarchy of a program.
    pub fn new(dex: &Dex, ms: &'a Vec<&'a Method>) -> (r: Linker<'a>)
        ensures
            r.of(ms.deep_view(), dex.deep_view().classes),
    {
        let ghost mv = ms.deep_view();
        let mut decls: Dict<Vec<usize>> = Dict::new();
        let mut k: usize = 0;
        while k < ms.len()
            invariant
                k <= ms@.len(),
                mv == ms.deep_view(),
                decls.wf(),
                decls_from(mv, 0, DictV::none()) == decls_from(mv, k as int, decls@),
                forall|x: Seq<char>, j: int|
                    decls@.map.contains_key(x) && 0 <= j < decls@.map[x].len() ==> (
                    #[trigger] decls@.map[x][j]) < k,
            decreases ms@.len() - k,
        {
            proof {
                assert(mv[k as int] == ms@[k as int].deep_view());
            }
            let d = text::cat3(ms[k].name.as_str(), ":", ms[k].sig.as_str());
            let ghost before = decls@;
            decls.push_to(d.as_str(), k);
            proof {
                assert forall|x: Seq<char>, j: int|
                    decls@.map.contains_key(x) && 0 <= j < decls@.map[x].len() implies (
                #[trigger] decls@.map[x][j]) < k + 1 by {
                    if x != d@ {
                        assert(before.map[x][j] < k);
                    } else if j < dict::list_at(before, x).len() {
                        assert(decls@.map[x][j] == before.map[x][j]);
                        assert(before.map[x][j] < k);
                    }
                }
            }
            k += 1;
        }
        Linker { ms, ids: acquire::last_methods(ms), decls, up: Hierarchy::new(dex) }
    }

    fn find_static(&mut self, class: &str, decl: &str, Ghost(ms): Ghost<Seq<MethodV>>, Ghost(
        cs,
    ): Ghost<Seq<ClassV>>) -> (r: Option<usize>)
        requires
            old(self).of(ms, cs),
        ensures
            final(self).of(ms, cs),
            r == static_target(cs, acquire::last_of(ms, 0, DictV::none()), class@, decl@),
            r is Some ==> r->0 < ms.len(),
    {
        let own = text::cat3(class, ".", decl);
        match self.ids.get(own.as_str()) {
            Some(t) => {
                proof {
                    assert(self.ids@.map.contains_key(own@));
                }
                return Some(*t);
            },
            None => {},
        }
        let up = self.up.ancestors(class).dup();
        let ghost uv = up.deep_view();
        let mut k: usize = 0;
        while k < up.len()
            invariant
                k <= up@.len(),
                uv == up.deep_view(),
                uv == hierarchy::ancestors(cs, class@),
                self.of(ms, cs),
                self.ids@.get(member(class@, decl@)) is None,
                first_declaring(self.ids@, uv, decl@, 0) == first_declaring(
                    self.ids@,
                    uv,
                    decl@,
                    k as int,
                ),
            decreases up@.len() - k,
        {
            proof {
                assert(uv[k as int] == up@[k as int]@);
            }
            let m = text::cat3(up[k].as_str(), ".", decl);
            match self.ids.get(m.as_str()) {
                Some(t) => {
                    proof {
                        assert(self.ids@.map.contains_key(m@));
                    }
                    return Some(*t);
                },
                None => {},
            }
            k += 1;
        }
        None
    }

    /// What a call may reach.
    pub fn link(
        &mut self,
        cap: usize,
        class: &str,
        decl: &str,
        kind: InvokeKind,
        Ghost(ms): Ghost<Seq<MethodV>>,
        Ghost(cs): Ghost<Seq<ClassV>>,
    ) -> (r: Vec<usize>)
        requires
            old(self).of(ms, cs),
        ensures
            final(self).of(ms, cs),
            r@ == targets(ms, cs, cap, class@, decl@, kind),
            forall|i: int| 0 <= i < r@.len() ==> #[trigger] r@[i] < ms.len(),
    {
        let mut out: Vec<usize> = Vec::new();
        match self.find_static(class, decl, Ghost(ms), Ghost(cs)) {
            Some(t) => {
                out.push(t);
                proof {
                    assert(out@ =~= seq![t]);
                }
            },
            None => {
                proof {
                    assert(out@ =~= Seq::empty());
                }
            },
        }
        if !(kind == InvokeKind::Virtual || kind == InvokeKind::Interface) {
            return out;
        }
        let ghost first = out@;
        let Linker { ms: methods, ids, decls, up } = self;
        match decls.get(decl) {
            None => {},
            Some(ds) => {
                let ghost dv = ds.deep_view();
                proof {
                    assert(dv =~= ds@);
                }
                if ds.len() <= cap {
                    let mut j: usize = 0;
                    while j < ds.len()
                        invariant
                            j <= ds@.len(),
                            dv == ds@,
                            methods.deep_view() == ms,
                            up.wf(),
                            up.of() == cs,
                            forall|i: int| 0 <= i < dv.len() ==> (#[trigger] dv[i]) < ms.len(),
                            forall|i: int| 0 <= i < out@.len() ==> #[trigger] out@[i] < ms.len(),
                            overrides(ms, cs, class@, dv, 0, first) == overrides(
                                ms,
                                cs,
                                class@,
                                dv,
                                j as int,
                                out@,
                            ),
                        decreases ds@.len() - j,
                    {
                        let d = ds[j];
                        proof {
                            assert(dv[j as int] == d);
                            assert(ms[d as int] == methods@[d as int].deep_view());
                        }
                        if !has_target(&out, d) {
                            let dc = methods[d].class.as_str();
                            if text::str_eq(dc, class) || up.is_above(dc, class) {
                                out.push(d);
                            }
                        }
                        j += 1;
                    }
                }
            },
        }
        out
    }

    fn class_methods_of(
        &mut self,
        classes: &Vec<String>,
        decl: &str,
        Ghost(ms): Ghost<Seq<MethodV>>,
        Ghost(cs): Ghost<Seq<ClassV>>,
    ) -> (r: Vec<usize>)
        requires
            old(self).of(ms, cs),
        ensures
            final(self).of(ms, cs),
            r@ == class_methods(ms, cs, classes.deep_view(), decl@, 0, Seq::empty()),
            forall|i: int| 0 <= i < r@.len() ==> #[trigger] r@[i] < ms.len(),
    {
        let ghost cv = classes.deep_view();
        let mut out: Vec<usize> = Vec::new();
        let mut k: usize = 0;
        while k < classes.len()
            invariant
                k <= classes@.len(),
                cv == classes.deep_view(),
                self.of(ms, cs),
                forall|i: int| 0 <= i < out@.len() ==> #[trigger] out@[i] < ms.len(),
                class_methods(ms, cs, cv, decl@, 0, Seq::empty()) == class_methods(
                    ms,
                    cs,
                    cv,
                    decl@,
                    k as int,
                    out@,
                ),
            decreases classes@.len() - k,
        {
            proof {
                assert(cv[k as int] == classes@[k as int]@);
            }
            match self.find_static(classes[k].as_str(), decl, Ghost(ms), Ghost(cs)) {
                Some(t) => {
                    proof {
                        assert(ms[t as int] == self.ms@[t as int].deep_view());
                        assert(self.ms@[t as int].insns.deep_view().len()
                            == self.ms@[t as int].insns@.len());
                    }
                    if self.ms[t].insns.len() > 0 && !has_target(&out, t) {
                        out.push(t);
                    }
                },
                None => {},
            }
            k += 1;
        }
        out
    }

    /// What a call reaches, where `recv` is known of its receiver and `passed` are the
    /// classes passed in where that is a formal.
    pub fn refine(
        &mut self,
        cap: usize,
        class: &str,
        decl: &str,
        kind: InvokeKind,
        recv: Kind,
        passed: Vec<String>,
        Ghost(ms): Ghost<Seq<MethodV>>,
        Ghost(cs): Ghost<Seq<ClassV>>,
    ) -> (r: Vec<usize>)
        requires
            old(self).of(ms, cs),
        ensures
            final(self).of(ms, cs),
            r@ == refined(
                ms,
                cs,
                cap,
                class@,
                decl@,
                kind,
                recv.deep_view(),
                passed.deep_view(),
            ),
            forall|i: int| 0 <= i < r@.len() ==> #[trigger] r@[i] < ms.len(),
    {
        if kind == InvokeKind::Virtual || kind == InvokeKind::Interface {
            let classes: Vec<String> = match recv {
                Kind::Unknown => crate::values::empty(),
                Kind::Class(c) => {
                    let ghost name = c@;
                    let one = vec![c];
                    proof {
                        assert(one.deep_view() =~= seq![name]);
                    }
                    one
                },
                Kind::Formal(_) => passed,
            };
            let own = self.class_methods_of(&classes, decl, Ghost(ms), Ghost(cs));
            if own.len() > 0 {
                return own;
            }
        }
        self.link(cap, class, decl, kind, Ghost(ms), Ghost(cs))
    }
}

} // verus!
