//! Naming of lock-acquisition sites: every monitor-enter site by its canonical lock.
//!
//! Per-method extraction records the raw facts — every `synchronized` operand as a root
//! plus a bounded access path, plus the field/parameter stores and call-site argument
//! bindings needed to resolve those roots interprocedurally. A global phase then
//! resolves lock-field aliases (a field that merely holds another object's lock is
//! followed to that object, across constructors, setters and inheritance) and names each
//! site by its canonical lock.

use crate::dex::extract;
use crate::dex::extract::{Summary, SummaryV};
use crate::dex::inject;
use crate::dex::inject::Injector;
use crate::dex::model::{Dex, DexV, Lock, LockV, Method, MethodV, Mode, Root, RootV};
use crate::dict;
use crate::dict::{Dict, DictV};
use crate::names;
use crate::names::Names;
use crate::values;
use crate::values::{Dup, Same};
use vstd::prelude::*;

verus! {

/// A resolved `synchronized` / `monitor-enter` site: the canonical lock taken,
/// the holder class, and the source line. `class` may be a nested class
/// (`Outer$Inner`); the top-level class fixes the source file.
#[derive(Debug)]
pub struct Acquisition {
    pub class: String,
    /// holder method key — the stable anchor when line numbers drift.
    pub method: String,
    /// source file name (e.g. `ActivityManagerService.java`); with `line` this is
    /// exactly the `File.java:line` a monitor-contention record names, so the output
    /// resolves a contention by a direct (file, line) lookup.
    pub source_file: Option<String>,
    pub line: Option<u32>,
    pub lock: String,
}

/// What an acquisition holds.
pub struct AcquisitionV {
    pub class: Seq<char>,
    pub method: Seq<char>,
    pub source_file: Option<Seq<char>>,
    pub line: Option<u32>,
    pub lock: Seq<char>,
}

impl DeepView for Acquisition {
    type V = AcquisitionV;

    open spec fn deep_view(&self) -> AcquisitionV {
        AcquisitionV {
            class: self.class@,
            method: self.method@,
            source_file: self.source_file.deep_view(),
            line: self.line,
            lock: self.lock@,
        }
    }
}

/// The getter values of the methods from the `k`th on, behind `acc`.
pub open spec fn getters(ms: Seq<MethodV>, k: int, acc: DictV<LockV>) -> DictV<LockV>
    decreases ms.len() - k,
{
    if k >= ms.len() {
        acc
    } else {
        getters(
            ms,
            k + 1,
            match extract::summary(ms[k], Map::empty()).value_summary {
                Some(v) => acc.put(ms[k].key(), v),
                None => acc,
            },
        )
    }
}

/// Some facts are of that method.
pub open spec fn has_key(ss: Seq<SummaryV>, key: Seq<char>) -> bool {
    exists|i: int| 0 <= i < ss.len() && (#[trigger] ss[i]).key == key
}

/// The facts of the methods from the `k`th on, behind `acc`; of methods with one key the
/// first counts.
pub open spec fn facts_from(
    ms: Seq<MethodV>,
    vals: Map<Seq<char>, LockV>,
    k: int,
    acc: Seq<SummaryV>,
) -> Seq<SummaryV>
    decreases ms.len() - k,
{
    if k >= ms.len() {
        acc
    } else {
        facts_from(
            ms,
            vals,
            k + 1,
            if has_key(acc, ms[k].key()) {
                acc
            } else {
                acc.push(extract::summary(ms[k], vals))
            },
        )
    }
}

/// The facts of all methods, in two passes: getter values first, so that
/// `synchronized(getX())` resolves through a trivial getter.
pub open spec fn facts(d: DexV) -> Seq<SummaryV> {
    facts_from(d.methods(), getters(d.methods(), 0, DictV::none()).map, 0, Seq::empty())
}

/// What is known of each field: the object it names, or that there are several.
pub type Aliases = DictV<Option<LockV>>;

/// `key` names `v`. A field that names different objects names none of them.
pub open spec fn noted(seen: Aliases, key: Seq<char>, v: LockV) -> Aliases {
    match seen.get(key) {
        None => seen.put(key, Some(v)),
        Some(None) => seen,
        Some(Some(e)) => if e == v {
            seen
        } else {
            seen.put(key, None)
        },
    }
}

/// The notes from the `k`th on, behind `seen`.
pub open spec fn all_noted(notes: Seq<(Seq<char>, LockV)>, k: int, seen: Aliases) -> Aliases
    decreases notes.len() - k,
{
    if k >= notes.len() {
        seen
    } else {
        all_noted(notes, k + 1, noted(seen, notes[k].0, notes[k].1))
    }
}

/// The direct assignments of the methods from the `s`th on, behind `seen`.
pub open spec fn direct_from(ss: Seq<SummaryV>, s: int, seen: Aliases) -> Aliases
    decreases ss.len() - s,
{
    if s >= ss.len() {
        seen
    } else {
        direct_from(ss, s + 1, all_noted(ss[s].field_aliases, 0, seen))
    }
}

/// The method locks its own instance.
pub open spec fn locks_this(s: SummaryV) -> bool {
    exists|a: int| 0 <= a < s.acq_sites.len() && (#[trigger] s.acq_sites[a]).0.root is This
}

/// A method of the class locks its own instance.
pub open spec fn self_locking(ss: Seq<SummaryV>, class: Seq<char>) -> bool {
    exists|s: int| 0 <= s < ss.len() && (#[trigger] ss[s]).class == class && locks_this(ss[s])
}

/// `x` in the list at `k`, once.
pub open spec fn put_once(d: DictV<Seq<Seq<char>>>, k: Seq<char>, x: Seq<char>) -> DictV<
    Seq<Seq<char>>,
> {
    if dict::list_at(d, k).contains(x) {
        d
    } else {
        dict::put_more(d, k, x)
    }
}

/// The allocations of one method from the `k`th on that are stored in fields, by class,
/// behind `acc`.
pub open spec fn allocs_in(
    list: Seq<(Seq<char>, Seq<char>)>,
    k: int,
    acc: DictV<Seq<Seq<char>>>,
) -> DictV<Seq<Seq<char>>>
    decreases list.len() - k,
{
    if k >= list.len() {
        acc
    } else {
        allocs_in(list, k + 1, put_once(acc, list[k].1, list[k].0))
    }
}

/// The fields that allocations of each class are stored in, of the methods from the
/// `s`th on, behind `acc`.
pub open spec fn allocs_from(ss: Seq<SummaryV>, s: int, acc: DictV<Seq<Seq<char>>>) -> DictV<
    Seq<Seq<char>>,
>
    decreases ss.len() - s,
{
    if s >= ss.len() {
        acc
    } else {
        allocs_from(ss, s + 1, allocs_in(ss[s].alloc_stores, 0, acc))
    }
}

/// A class allocated into a single field and locked via `synchronized(this)` internally
/// is that field externally: of the classes from the `k`th on, behind `seen`.
pub open spec fn singletons(
    ss: Seq<SummaryV>,
    allocs: DictV<Seq<Seq<char>>>,
    k: int,
    seen: Aliases,
) -> Aliases
    decreases allocs.keys.len() - k,
{
    if k >= allocs.keys.len() {
        seen
    } else {
        let class = allocs.keys[k];
        let fields = dict::list_at(allocs, class);
        singletons(
            ss,
            allocs,
            k + 1,
            if self_locking(ss, class) && fields.len() == 1 && seen.get(fields[0]) is None {
                noted(seen, fields[0], LockV::new(RootV::Recv(class)))
            } else {
                seen
            },
        )
    }
}

/// Lock-field aliases: `Class.field` to the shared lock it actually names — by a direct
/// assignment, by a constructor or setter parameter, or as a singleton's own monitor.
pub open spec fn aliases(ss: Seq<SummaryV>) -> Aliases {
    let direct = direct_from(ss, 0, DictV::none());
    let injected = all_noted(inject::fields_from(ss, 0, Seq::empty()), 0, direct);
    singletons(ss, allocs_from(ss, 0, DictV::none()), 0, injected)
}

/// The lock that a name stands for.
pub open spec fn alias_of(seen: Aliases, name: Seq<char>) -> Option<LockV> {
    match seen.get(name) {
        Some(Some(l)) => Some(l),
        _ => None,
    }
}

/// The lock that is reached over at most `n` aliases: a field assigned a shared lock is
/// that lock.
pub open spec fn followed(l: LockV, seen: Aliases, n: nat) -> LockV
    decreases n,
{
    if n == 0 || !l.is_concrete() {
        l
    } else {
        match alias_of(seen, l.with_mode(Mode::Plain).name()) {
            Some(t) => followed(t.with_mode(l.mode), seen, (n - 1) as nat),
            None => l,
        }
    }
}

/// The lock stands for no other.
pub open spec fn is_root(l: LockV, seen: Aliases) -> bool {
    !l.is_concrete() || alias_of(seen, l.with_mode(Mode::Plain).name()) is None
}

/// Follow lock-field aliases to the root. No chain without a repeat is longer than there
/// are fields; where a chain comes round again there is no root, and the lock stays itself.
pub open spec fn canonical(l: LockV, seen: Aliases) -> LockV {
    let end = followed(l, seen, seen.keys.len());
    if is_root(end, seen) {
        end
    } else {
        l
    }
}

/// The last method of each key, of those from the `k`th on, behind `acc`.
pub open spec fn last_of(ms: Seq<MethodV>, k: int, acc: DictV<usize>) -> DictV<usize>
    decreases ms.len() - k,
{
    if k >= ms.len() {
        acc
    } else {
        last_of(ms, k + 1, acc.put(ms[k].key(), k as usize))
    }
}

/// A directly locked object parameter as its declared class.
pub open spec fn param_type(l: LockV, m: Option<MethodV>) -> Option<Seq<char>> {
    match (l.root, m) {
        (RootV::Param(j), Some(m)) => if l.fields.len() == 0 {
            m.object_param_at(m.first_param() + j)
        } else {
            None
        },
        _ => None,
    }
}

/// The method of that key that is named last.
pub open spec fn method_of(ms: Seq<MethodV>, key: Seq<char>) -> Option<MethodV> {
    match last_of(ms, 0, DictV::none()).get(key) {
        Some(i) => Some(ms[i as int]),
        None => None,
    }
}

/// The name of a lock operand of method `s`: the object that its parameter is bound to,
/// else the parameter's declared class, else the operand grounded — each followed
/// through its aliases. A real definition or an opaque, never a guess.
pub open spec fn site_lock(
    ms: Seq<MethodV>,
    ss: Seq<SummaryV>,
    seen: Aliases,
    s: int,
    l: LockV,
) -> Seq<char> {
    match inject::param_object(ss, s, l) {
        Some(obj) => canonical(obj, seen).name(),
        None => match param_type(l, method_of(ms, ss[s].key)) {
            Some(t) => t,
            None => canonical(l.ground(ss[s].class, ss[s].key), seen).name(),
        },
    }
}

/// The sites of method `s` from the `k`th on, behind `acc`.
pub open spec fn sites_in(
    ms: Seq<MethodV>,
    ss: Seq<SummaryV>,
    seen: Aliases,
    s: int,
    k: int,
    acc: Seq<AcquisitionV>,
) -> Seq<AcquisitionV>
    decreases ss[s].acq_sites.len() - k,
{
    if k >= ss[s].acq_sites.len() {
        acc
    } else {
        let a = AcquisitionV {
            class: ss[s].class,
            method: ss[s].key,
            source_file: match method_of(ms, ss[s].key) {
                Some(m) => m.source_file,
                None => None,
            },
            line: ss[s].acq_sites[k].1,
            lock: site_lock(ms, ss, seen, s, ss[s].acq_sites[k].0),
        };
        sites_in(ms, ss, seen, s, k + 1, acc.push(a))
    }
}

/// The sites of the methods from the `s`th on, behind `acc`.
pub open spec fn sites_from(
    ms: Seq<MethodV>,
    ss: Seq<SummaryV>,
    seen: Aliases,
    s: int,
    acc: Seq<AcquisitionV>,
) -> Seq<AcquisitionV>
    decreases ss.len() - s,
{
    if s >= ss.len() {
        acc
    } else {
        sites_from(ms, ss, seen, s + 1, sites_in(ms, ss, seen, s, 0, acc))
    }
}

/// Every acquisition site of the program, named by its canonical lock.
pub open spec fn acquired(d: DexV) -> Seq<AcquisitionV> {
    sites_from(d.methods(), facts(d), aliases(facts(d)), 0, Seq::empty())
}

fn getter_values(ms: &Vec<&Method>) -> (r: Dict<Lock>)
    ensures
        r.wf(),
        r@ == getters(ms.deep_view(), 0, DictV::none()),
{
    let ghost mv = ms.deep_view();
    let none: Dict<Lock> = Dict::new();
    let mut out: Dict<Lock> = Dict::new();
    let mut k: usize = 0;
    while k < ms.len()
        invariant
            k <= ms@.len(),
            mv == ms.deep_view(),
            none.wf(),
            none@ == DictV::<LockV>::none(),
            out.wf(),
            getters(mv, 0, DictV::none()) == getters(mv, k as int, out@),
        decreases ms@.len() - k,
    {
        proof {
            assert(mv[k as int] == ms@[k as int].deep_view());
        }
        let s = extract::extract(ms[k], &none);
        match s.value_summary {
            Some(v) => out.set(ms[k].key().as_str(), v),
            None => {},
        }
        k += 1;
    }
    out
}

fn summaries(ms: &Vec<&Method>, vals: &Dict<Lock>) -> (r: Vec<Summary>)
    requires
        vals.wf(),
    ensures
        r.deep_view() == facts_from(ms.deep_view(), vals@.map, 0, Seq::empty()),
{
    let ghost mv = ms.deep_view();
    let mut keys = Names::new();
    let mut out: Vec<Summary> = values::empty();
    let mut k: usize = 0;
    while k < ms.len()
        invariant
            k <= ms@.len(),
            mv == ms.deep_view(),
            vals.wf(),
            keys.wf(),
            keys@.len() == out@.len(),
            forall|i: int| 0 <= i < keys@.len() ==> #[trigger] keys@[i] == out.deep_view()[i].key,
            facts_from(mv, vals@.map, 0, Seq::empty()) == facts_from(
                mv,
                vals@.map,
                k as int,
                out.deep_view(),
            ),
        decreases ms@.len() - k,
    {
        proof {
            assert(mv[k as int] == ms@[k as int].deep_view());
        }
        let key = ms[k].key();
        let ghost before = keys@;
        let ghost ov = out.deep_view();
        if keys.insert(key) {
            proof {
                assert(!has_key(ov, mv[k as int].key())) by {
                    if has_key(ov, mv[k as int].key()) {
                        let i = choose|i: int|
                            0 <= i < ov.len() && (#[trigger] ov[i]).key == mv[k as int].key();
                        assert(before[i] == mv[k as int].key());
                    }
                }
            }
            let s = extract::extract(ms[k], vals);
            proof {
                lemma_key_kept(mv[k as int], vals@.map);
            }
            values::push(&mut out, s);
        } else {
            proof {
                let i = choose|i: int| 0 <= i < before.len() && before[i] == mv[k as int].key();
                assert(ov[i].key == before[i]);
                assert(has_key(ov, mv[k as int].key()));
            }
        }
        k += 1;
    }
    out
}

proof fn lemma_step_key(m: MethodV, vals: Map<Seq<char>, LockV>, k: int, f: extract::FrameV)
    ensures
        extract::steps(m, vals, k, f).sum.key == f.sum.key,
    decreases m.insns.len() - k,
{
    if k < m.insns.len() {
        lemma_step_key(m, vals, k + 1, extract::step(m, vals, f, m.insns[k]));
    }
}

pub proof fn lemma_key_kept(m: MethodV, vals: Map<Seq<char>, LockV>)
    ensures
        extract::summary(m, vals).key == m.key(),
{
    lemma_step_key(
        m,
        vals,
        0,
        extract::FrameV {
            regs: crate::dex::regs::on_entry(m),
            alloc_ty: DictV::none(),
            last_ret: None,
            yields: Seq::empty(),
            sum: extract::blank(m.key(), m.class),
        },
    );
}

fn note(seen: &mut Dict<Option<Lock>>, key: &str, v: &Lock)
    requires
        old(seen).wf(),
    ensures
        final(seen).wf(),
        final(seen)@ == noted(old(seen)@, key@, v.deep_view()),
{
    let known: u8 = match seen.get(key) {
        None => 0,
        Some(None) => 1,
        Some(Some(e)) => if e.same(v) {
            1
        } else {
            2
        },
    };
    if known == 0 {
        seen.set(key, Some(v.dup()));
    } else if known == 2 {
        seen.set(key, None);
    }
}

fn note_all(seen: &mut Dict<Option<Lock>>, notes: &Vec<(String, Lock)>)
    requires
        old(seen).wf(),
    ensures
        final(seen).wf(),
        final(seen)@ == all_noted(notes.deep_view(), 0, old(seen)@),
{
    let ghost nv = notes.deep_view();
    let ghost start = seen@;
    let mut k: usize = 0;
    while k < notes.len()
        invariant
            k <= notes@.len(),
            nv == notes.deep_view(),
            seen.wf(),
            all_noted(nv, 0, start) == all_noted(nv, k as int, seen@),
        decreases notes@.len() - k,
    {
        proof {
            assert(nv[k as int] == notes@[k as int].deep_view());
        }
        note(seen, notes[k].0.as_str(), &notes[k].1);
        k += 1;
    }
}

fn has_self_lock(s: &Summary) -> (r: bool)
    ensures
        r == locks_this(s.deep_view()),
{
    let ghost sv = s.deep_view();
    let mut k: usize = 0;
    while k < s.acq_sites.len()
        invariant
            k <= s.acq_sites@.len(),
            sv == s.deep_view(),
            forall|a: int| 0 <= a < k ==> !((#[trigger] sv.acq_sites[a]).0.root is This),
        decreases s.acq_sites@.len() - k,
    {
        proof {
            assert(sv.acq_sites[k as int] == s.acq_sites@[k as int].deep_view());
        }
        match s.acq_sites[k].0.root {
            Root::This => return true,
            _ => {},
        }
        k += 1;
    }
    false
}

fn self_locking_classes(ss: &Vec<Summary>) -> (r: Names)
    ensures
        r.wf(),
        forall|c: Seq<char>| r@.contains(c) == #[trigger] self_locking(ss.deep_view(), c),
{
    let ghost sv = ss.deep_view();
    let mut out = Names::new();
    let mut k: usize = 0;
    while k < ss.len()
        invariant
            k <= ss@.len(),
            sv == ss.deep_view(),
            out.wf(),
            forall|c: Seq<char>|
                out@.contains(c) <==> exists|s: int|
                    0 <= s < k && (#[trigger] sv[s]).class == c && locks_this(sv[s]),
        decreases ss@.len() - k,
    {
        proof {
            assert(sv[k as int] == ss@[k as int].deep_view());
        }
        let ghost before = out@;
        if has_self_lock(&ss[k]) {
            out.intern(ss[k].class.as_str());
            proof {
                let x = sv[k as int].class;
                assert forall|c: Seq<char>|
                    out@.contains(c) <==> exists|s: int|
                        0 <= s < k + 1 && (#[trigger] sv[s]).class == c && locks_this(sv[s]) by {
                    if c == x {
                        assert(sv[k as int].class == c);
                        if !before.contains(c) {
                            assert(out@[before.len() as int] == c);
                        }
                    } else if before.contains(c) {
                        let i = choose|i: int| 0 <= i < before.len() && before[i] == c;
                        assert(out@[i] == c);
                    } else if out@.contains(c) {
                        let i = choose|i: int| 0 <= i < out@.len() && out@[i] == c;
                        if i < before.len() {
                            assert(before[i] == c);
                        }
                    }
                }
            }
        }
        k += 1;
    }
    out
}

fn allocations(ss: &Vec<Summary>) -> (r: Dict<Vec<String>>)
    ensures
        r.wf(),
        r@ == allocs_from(ss.deep_view(), 0, DictV::none()),
{
    let ghost sv = ss.deep_view();
    let mut out: Dict<Vec<String>> = Dict::new();
    let mut s: usize = 0;
    while s < ss.len()
        invariant
            s <= ss@.len(),
            sv == ss.deep_view(),
            out.wf(),
            allocs_from(sv, 0, DictV::none()) == allocs_from(sv, s as int, out@),
        decreases ss@.len() - s,
    {
        let list = &ss[s].alloc_stores;
        let ghost lv = list.deep_view();
        let ghost start = out@;
        proof {
            assert(sv[s as int] == ss@[s as int].deep_view());
        }
        let mut k: usize = 0;
        while k < list.len()
            invariant
                k <= list@.len(),
                lv == list.deep_view(),
                out.wf(),
                allocs_in(lv, 0, start) == allocs_in(lv, k as int, out@),
            decreases list@.len() - k,
        {
            proof {
                assert(lv[k as int] == list@[k as int].deep_view());
            }
            let known = match out.get(list[k].1.as_str()) {
                Some(fields) => names::list_has(fields, list[k].0.as_str()),
                None => false,
            };
            if !known {
                out.push_to(list[k].1.as_str(), list[k].0.dup());
            }
            k += 1;
        }
        s += 1;
    }
    out
}

fn find_aliases(ss: &Vec<Summary>, injected: &Vec<(String, Lock)>) -> (r: Dict<Option<Lock>>)
    requires
        injected.deep_view() == inject::fields_from(ss.deep_view(), 0, Seq::empty()),
    ensures
        r.wf(),
        r@ == aliases(ss.deep_view()),
{
    let ghost sv = ss.deep_view();
    let mut seen: Dict<Option<Lock>> = Dict::new();
    let mut s: usize = 0;
    while s < ss.len()
        invariant
            s <= ss@.len(),
            sv == ss.deep_view(),
            seen.wf(),
            direct_from(sv, 0, DictV::none()) == direct_from(sv, s as int, seen@),
        decreases ss@.len() - s,
    {
        proof {
            assert(sv[s as int] == ss@[s as int].deep_view());
        }
        note_all(&mut seen, &ss[s].field_aliases);
        s += 1;
    }
    note_all(&mut seen, injected);
    let selfish = self_locking_classes(ss);
    let allocs = allocations(ss);
    let ghost start = seen@;
    let mut k: usize = 0;
    while k < allocs.len()
        invariant
            sv == ss.deep_view(),
            selfish.wf(),
            forall|c: Seq<char>| selfish@.contains(c) == #[trigger] self_locking(sv, c),
            allocs.wf(),
            k <= allocs@.keys.len(),
            seen.wf(),
            singletons(sv, allocs@, 0, start) == singletons(sv, allocs@, k as int, seen@),
        decreases allocs@.keys.len() - k,
    {
        let class = allocs.key_at(k);
        let fields = allocs.val_at(k);
        proof {
            assert(selfish@.contains(class@) == self_locking(sv, class@));
        }
        if selfish.contains(class) && fields.len() == 1 {
            proof {
                assert(fields.deep_view()[0] == fields@[0]@);
            }
            if !seen.has(fields[0].as_str()) {
                note(
                    &mut seen,
                    fields[0].as_str(),
                    &Lock::new(Root::Recv(class.to_string())),
                );
            }
        }
        k += 1;
    }
    seen
}

/// What the lock is an alias of.
fn next_alias(lock: &Lock, seen: &Dict<Option<Lock>>) -> (r: Option<Lock>)
    requires
        seen.wf(),
    ensures
        r is None == is_root(lock.deep_view(), seen@),
        r matches Some(t) ==> alias_of(seen@, lock.deep_view().with_mode(Mode::Plain).name())
            matches Some(x) && t.deep_view() == x.with_mode(lock.deep_view().mode),
{
    if !lock.is_concrete() {
        return None;
    }
    let base = lock.with_mode(Mode::Plain).name();
    match seen.get(base.as_str()) {
        Some(Some(t)) => Some(t.with_mode(lock.mode)),
        _ => None,
    }
}

/// Follow lock-field aliases: a field assigned a shared lock is canonicalized to
/// that lock's identity, so a singleton lock split across fields collapses to one.
fn canonicalize(lock: &Lock, seen: &Dict<Option<Lock>>) -> (r: Lock)
    requires
        seen.wf(),
    ensures
        r.deep_view() == canonical(lock.deep_view(), seen@),
{
    let mut cur = lock.dup();
    let mut fuel = seen.len();
    while fuel > 0
        invariant
            seen.wf(),
            followed(lock.deep_view(), seen@, seen@.keys.len()) == followed(
                cur.deep_view(),
                seen@,
                fuel as nat,
            ),
        decreases fuel,
    {
        match next_alias(&cur, seen) {
            None => return cur,
            Some(t) => cur = t,
        }
        fuel -= 1;
    }
    match next_alias(&cur, seen) {
        None => cur,
        Some(_) => lock.dup(),
    }
}

/// The last method of each key.
pub fn last_methods(ms: &Vec<&Method>) -> (r: Dict<usize>)
    ensures
        r.wf(),
        r@ == last_of(ms.deep_view(), 0, DictV::none()),
        forall|k: Seq<char>| #[trigger] r@.map.contains_key(k) ==> r@.map[k] < ms@.len(),
{
    let ghost mv = ms.deep_view();
    let mut out: Dict<usize> = Dict::new();
    let mut k: usize = 0;
    while k < ms.len()
        invariant
            k <= ms@.len(),
            mv == ms.deep_view(),
            out.wf(),
            last_of(mv, 0, DictV::none()) == last_of(mv, k as int, out@),
            forall|x: Seq<char>| #[trigger] out@.map.contains_key(x) ==> out@.map[x] < k,
        decreases ms@.len() - k,
    {
        proof {
            assert(mv[k as int] == ms@[k as int].deep_view());
        }
        out.set(ms[k].key().as_str(), k);
        k += 1;
    }
    out
}

/// If `l` is a directly-locked object parameter, name it by its declared class
/// (the same instance-monitor rendering `this` gets).
fn param_type_name(l: &Lock, m: Option<&Method>) -> (r: Option<String>)
    ensures
        r.deep_view() == param_type(l.deep_view(), m.deep_view()),
{
    match (&l.root, m) {
        (Root::Param(j), Some(m)) => {
            if l.fields.len() == 0 {
                m.object_param_at(m.first_param() as u64 + *j as u64)
            } else {
                None
            }
        },
        _ => None,
    }
}

/// Analyze decoded DEX and return every monitor-enter site named by its canonical
/// lock: per-method extraction, interprocedural lock-field/parameter resolution, and
/// canonical naming.
pub fn acquisitions(dex: &Dex) -> (r: Vec<Acquisition>)
    ensures
        r.deep_view() == acquired(dex.deep_view()),
{
    let ms = dex.methods();
    let ghost mv = ms.deep_view();
    let vals = getter_values(&ms);
    let ss = summaries(&ms, &vals);
    let ghost sv = ss.deep_view();
    let injector = Injector::build(&ss);
    let solved = injector.solve();
    let injected = injector.resolve_fields(&solved);
    let seen = find_aliases(&ss, &injected);
    let last = last_methods(&ms);
    let mut out: Vec<Acquisition> = values::empty();
    let mut s: usize = 0;
    while s < ss.len()
        invariant
            s <= ss@.len(),
            mv == ms.deep_view(),
            sv == ss.deep_view(),
            injector.wf(),
            injector.facts() == sv,
            inject::solves(sv, solved.deep_view()),
            seen.wf(),
            seen@ == aliases(sv),
            last.wf(),
            last@ == last_of(mv, 0, DictV::none()),
            forall|k: Seq<char>| #[trigger] last@.map.contains_key(k) ==> last@.map[k] < ms@.len(),
            sites_from(mv, sv, seen@, 0, Seq::empty()) == sites_from(
                mv,
                sv,
                seen@,
                s as int,
                out.deep_view(),
            ),
        decreases ss@.len() - s,
    {
        let sum = &ss[s];
        proof {
            assert(sv[s as int] == ss@[s as int].deep_view());
        }
        let m: Option<&Method> = match last.get(sum.key.as_str()) {
            Some(i) => {
                proof {
                    assert(last@.map.contains_key(sum.key@));
                    assert(mv[*i as int] == ms@[*i as int].deep_view());
                }
                Some(ms[*i])
            },
            None => None,
        };
        let ghost start = out.deep_view();
        let mut k: usize = 0;
        while k < sum.acq_sites.len()
            invariant
                k <= sum.acq_sites@.len(),
                s < ss@.len(),
                sum == &ss@[s as int],
                sv[s as int] == sum.deep_view(),
                sv == ss.deep_view(),
                injector.wf(),
                injector.facts() == sv,
                inject::solves(sv, solved.deep_view()),
                seen.wf(),
                seen@ == aliases(sv),
                m.deep_view() == method_of(mv, sum.key@),
                sites_in(mv, sv, seen@, s as int, 0, start) == sites_in(
                    mv,
                    sv,
                    seen@,
                    s as int,
                    k as int,
                    out.deep_view(),
                ),
            decreases sum.acq_sites@.len() - k,
        {
            let l = &sum.acq_sites[k].0;
            proof {
                assert(sv[s as int].acq_sites[k as int] == sum.acq_sites@[k as int].deep_view());
                let st = solved.deep_view();
                assert(inject::covers_one(sv[s as int], st[s as int].len() as int));
                assert(inject::within(
                    Some(sv[s as int].acq_sites[k as int].0),
                    st[s as int].len() as int,
                ));
            }
            let lock = match injector.resolve_param_lock(s, l, &solved) {
                Some(obj) => canonicalize(&obj, &seen).name(),
                None => match param_type_name(l, m) {
                    Some(t) => t,
                    None => canonicalize(
                        &l.ground(sum.class.as_str(), sum.key.as_str()),
                        &seen,
                    ).name(),
                },
            };
            let source_file = match m {
                Some(m) => m.source_file.dup(),
                None => None,
            };
            values::push(
                &mut out,
                Acquisition {
                    class: sum.class.dup(),
                    method: sum.key.dup(),
                    source_file,
                    line: sum.acq_sites[k].1,
                    lock,
                },
            );
            k += 1;
        }
        s += 1;
    }
    out
}

} // verus!
