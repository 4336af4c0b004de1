//! What the acquisition sites of a program and the answers at a source line promise.

use crate::dex::acquire;
use crate::dex::acquire::AcquisitionV;
use crate::dex::ctx::answers;
use crate::dex::extract;
use crate::dex::extract::{FrameV, SummaryV};
use crate::dex::juc;
use crate::dex::juc::LockCall;
use crate::dex::model;
use crate::dex::model::{DexV, InsnV, InvokeV, LockV, MethodV, Mode, OpV, RootV};
use crate::dex::remote;
use crate::dex::resolve;
use crate::dex::resolve::SiteV;
use crate::text;
use vstd::prelude::*;

verus! {

/// The site is in a file of that name, whatever the directories.
pub open spec fn in_file(s: SiteV, file: Seq<char>) -> bool {
    text::tail_of(s.relpath, '/') == text::tail_of(file, '/')
}

/// The site stands that many lines from the line.
pub open spec fn lines_off(s: SiteV, line: i64, d: int) -> bool {
    s.line matches Some(l) && (l - line == d || line - l == d) && d >= 0
}

/// No site of the file stands nearer, and one stands that near.
pub open spec fn is_nearest(sites: Seq<SiteV>, file: Seq<char>, line: i64, d: int) -> bool {
    &&& exists|i: int|
        0 <= i < sites.len() && in_file(#[trigger] sites[i], file) && lines_off(sites[i], line, d)
    &&& forall|i: int, e: int|
        0 <= i < sites.len() && in_file(sites[i], file) && #[trigger] lines_off(sites[i], line, e)
            ==> d <= e
}

proof fn lemma_bucket(sites: Seq<SiteV>, name: Seq<char>)
    requires
        sites.len() <= usize::MAX,
    ensures
        forall|i: usize| #[trigger]
            resolve::bucket(sites, name).contains(i) <==> i < sites.len() && text::tail_of(
                sites[i as int].relpath,
                '/',
            ) == name,
    decreases sites.len(),
{
    if sites.len() > 0 {
        let rest = resolve::bucket(sites.drop_last(), name);
        lemma_bucket(sites.drop_last(), name);
        let n = (sites.len() - 1) as usize;
        assert forall|i: usize| #[trigger]
            resolve::bucket(sites, name).contains(i) <==> i < sites.len() && text::tail_of(
                sites[i as int].relpath,
                '/',
            ) == name by {
            answers::lemma_pushed(rest, n, i);
            assert(rest.contains(i) <==> i < sites.drop_last().len() && text::tail_of(
                sites.drop_last()[i as int].relpath,
                '/',
            ) == name);
        }
    }
}

proof fn lemma_near(sites: Seq<SiteV>, list: Seq<usize>, line: i64, k: int, acc: Option<int>)
    requires
        0 <= k <= list.len(),
    ensures
        match resolve::nearest_from(sites, list, line, k, acc) {
            None => acc is None && forall|i: int|
                k <= i < list.len() ==> sites[#[trigger] list[i] as int].line is None,
            Some(d) => {
                &&& acc matches Some(a) ==> d <= a
                &&& forall|i: int, e: int|
                    k <= i < list.len() && lines_off(
                        sites[#[trigger] list[i] as int],
                        line,
                        e,
                    ) ==> #[trigger] at_most(d, e)
                &&& acc == Some(d) || exists|i: int|
                    k <= i < list.len() && lines_off(sites[#[trigger] list[i] as int], line, d)
            },
        },
    decreases list.len() - k,
{
    if k < list.len() {
        let s = sites[list[k] as int];
        let here = resolve::distance(s, line);
        let next = match (here, acc) {
            (None, _) => acc,
            (Some(d), None) => Some(d),
            (Some(d), Some(a)) => Some(
                if d < a {
                    d
                } else {
                    a
                },
            ),
        };
        assert(here matches Some(d) ==> lines_off(s, line, d));
        lemma_near(sites, list, line, k + 1, next);
        let r = resolve::nearest_from(sites, list, line, k, acc);
        assert(r == resolve::nearest_from(sites, list, line, k + 1, next));
        if r is Some {
            let d = r->0;
            assert forall|i: int, e: int|
                k <= i < list.len() && lines_off(
                    sites[#[trigger] list[i] as int],
                    line,
                    e,
                ) implies #[trigger] at_most(d, e) by {
                if i == k {
                    assert(here == Some(e));
                } else {
                    assert(at_most(d, e));
                }
            }
        }
    }
}

/// No more than.
pub open spec fn at_most(d: int, e: int) -> bool {
    d <= e
}

proof fn lemma_locks_from(
    sites: Seq<SiteV>,
    list: Seq<usize>,
    line: i64,
    at: Option<int>,
    k: int,
    acc: Seq<Seq<char>>,
    x: Seq<char>,
)
    requires
        0 <= k <= list.len(),
        at matches Some(d) ==> d >= 0,
        names_distinct(acc),
    ensures
        names_distinct(resolve::locks_from(sites, list, line, at, k, acc)),
        resolve::locks_from(sites, list, line, at, k, acc).contains(x) <==> acc.contains(x)
            || exists|i: int|
            k <= i < list.len() && sites[#[trigger] list[i] as int].lock == x && (at is None
                || lines_off(sites[list[i] as int], line, at->0)),
    decreases list.len() - k,
{
    if k < list.len() {
        let s = sites[list[k] as int];
        let taken = at is None || resolve::distance(s, line) == at;
        let next = if taken {
            crate::names::with(acc, s.lock)
        } else {
            acc
        };
        crate::names::lemma_with(acc, s.lock);
        assert(taken <==> at is None || lines_off(s, line, at->0));
        lemma_locks_from(sites, list, line, at, k + 1, next, x);
    }
}

/// No name is there twice.
pub open spec fn names_distinct(s: Seq<Seq<char>>) -> bool {
    forall|i: int, j: int| 0 <= i < j < s.len() ==> #[trigger] s[i] != #[trigger] s[j]
}

/// A source line is answered by the locks of the nearest sites of its file, where those are
/// within the tolerance: of all of them and of no others, each once. Nearest is nearest, in
/// either direction; the file goes by its name without directories.
pub proof fn law_answers_are_the_nearest_locks(
    sites: Seq<SiteV>,
    file: Seq<char>,
    line: i64,
    fuzz: u32,
    if_unique: bool,
    d: int,
    x: Seq<char>,
)
    requires
        sites.len() <= usize::MAX,
        is_nearest(sites, file, line, d),
        d <= fuzz,
    ensures
        resolve::resolved(sites, file, line, fuzz, if_unique).contains(x) <==> exists|i: int|
            0 <= i < sites.len() && in_file(#[trigger] sites[i], file) && lines_off(
                sites[i],
                line,
                d,
            ) && sites[i].lock == x,
        names_distinct(resolve::resolved(sites, file, line, fuzz, if_unique)),
{
    let list = resolve::bucket(sites, resolve::base(file));
    lemma_bucket(sites, resolve::base(file));
    lemma_near(sites, list, line, 0, None);
    let j = choose|i: int|
        0 <= i < sites.len() && in_file(#[trigger] sites[i], file) && lines_off(sites[i], line, d);
    assert(list.contains(j as usize));
    let p = choose|p: int| 0 <= p < list.len() && list[p] == j as usize;
    assert(lines_off(sites[list[p] as int], line, d));
    let n = resolve::nearest(sites, list, line);
    assert(n is Some);
    assert(at_most(n->0, d));
    let q = choose|i: int| 0 <= i < list.len() && lines_off(sites[#[trigger] list[i] as int], line, n->0);
    assert(list.contains(list[q]));
    assert(lines_off(sites[list[q] as int], line, n->0));
    assert(n == Some(d));
    lemma_locks_from(sites, list, line, Some(d), 0, Seq::empty(), x);
    let r = resolve::resolved(sites, file, line, fuzz, if_unique);
    if r.contains(x) {
        let k = choose|i: int|
            0 <= i < list.len() && sites[#[trigger] list[i] as int].lock == x && lines_off(
                sites[list[i] as int],
                line,
                d,
            );
        assert(list.contains(list[k]));
        let i = list[k] as int;
        assert(in_file(sites[i], file));
    }
    if exists|i: int|
        0 <= i < sites.len() && in_file(#[trigger] sites[i], file) && lines_off(sites[i], line, d)
            && sites[i].lock == x {
        let i = choose|i: int|
            0 <= i < sites.len() && in_file(#[trigger] sites[i], file) && lines_off(
                sites[i],
                line,
                d,
            ) && sites[i].lock == x;
        assert(list.contains(i as usize));
        let k = choose|k: int| 0 <= k < list.len() && list[k] == i as usize;
        assert(sites[list[k] as int].lock == x);
    }
}

/// Where no site of the file is within the tolerance, a line is answered only if the fallback
/// asks for the sole lock of the file and there is one: then by it.
pub proof fn law_sole_lock_is_the_fallback(
    sites: Seq<SiteV>,
    file: Seq<char>,
    line: i64,
    fuzz: u32,
    if_unique: bool,
    x: Seq<char>,
)
    requires
        sites.len() <= usize::MAX,
        forall|i: int, e: int|
            0 <= i < sites.len() && in_file(sites[i], file) && #[trigger] lines_off(
                sites[i],
                line,
                e,
            ) ==> e > fuzz,
    ensures
        resolve::resolved(sites, file, line, fuzz, if_unique).contains(x) <==> if_unique && (exists|
            i: int,
        |
            0 <= i < sites.len() && in_file(#[trigger] sites[i], file)) && (forall|i: int|
            0 <= i < sites.len() && in_file(#[trigger] sites[i], file) ==> sites[i].lock == x),
{
    let list = resolve::bucket(sites, resolve::base(file));
    lemma_bucket(sites, resolve::base(file));
    lemma_near(sites, list, line, 0, None);
    let n = resolve::nearest(sites, list, line);
    if n is Some {
        let q = choose|i: int|
            0 <= i < list.len() && lines_off(sites[#[trigger] list[i] as int], line, n->0);
        assert(list.contains(list[q]));
        assert(lines_off(sites[list[q] as int], line, n->0));
        assert(n->0 > fuzz);
    }
    let all = resolve::all_locks(sites, list, line);
    assert forall|y: Seq<char>| #[trigger] all.contains(y) <==> exists|i: int|
        0 <= i < sites.len() && in_file(#[trigger] sites[i], file) && sites[i].lock == y by {
        lemma_locks_from(sites, list, line, None, 0, Seq::empty(), y);
        if all.contains(y) {
            let k = choose|i: int| 0 <= i < list.len() && sites[#[trigger] list[i] as int].lock == y;
            assert(list.contains(list[k]));
            assert(in_file(sites[list[k] as int], file));
        }
        if exists|i: int|
            0 <= i < sites.len() && in_file(#[trigger] sites[i], file) && sites[i].lock == y {
            let i = choose|i: int|
                0 <= i < sites.len() && in_file(#[trigger] sites[i], file) && sites[i].lock == y;
            assert(list.contains(i as usize));
            let k = choose|k: int| 0 <= k < list.len() && list[k] == i as usize;
            assert(sites[list[k] as int].lock == y);
        }
    }
    lemma_locks_from(sites, list, line, None, 0, Seq::empty(), x);
    if all.len() == 1 {
        assert(all.contains(all[0]));
        assert forall|i: int|
            0 <= i < sites.len() && in_file(#[trigger] sites[i], file) implies sites[i].lock
            == all[0] by {
            assert(all.contains(sites[i].lock));
        }
    }
    if (exists|i: int| 0 <= i < sites.len() && in_file(#[trigger] sites[i], file)) && (forall|
        i: int,
    |
        0 <= i < sites.len() && in_file(#[trigger] sites[i], file) ==> sites[i].lock == x) {
        assert(all.contains(x));
        if all.len() > 1 {
            assert(all.contains(all[0]) && all.contains(all[1]));
            assert(all[0] == x && all[1] == x);
        }
    }
}

/// The line at an offset is that of the last entry of the line table at or before it.
pub proof fn law_line_is_of_the_last_entry_before(m: MethodV, offset: u32, p: int)
    requires
        0 <= p < m.positions.len(),
        m.positions[p].0 <= offset,
        forall|i: int| p < i < m.positions.len() ==> (#[trigger] m.positions[i]).0 > offset,
    ensures
        m.line_at(offset) == Some(m.positions[p].1),
{
    lemma_line(m.positions, m.positions.len() as int, offset, p);
}

proof fn lemma_line(ps: Seq<(u32, u32)>, k: int, offset: u32, p: int)
    requires
        0 <= p < k <= ps.len(),
        ps[p].0 <= offset,
        forall|i: int| p < i < k ==> (#[trigger] ps[i]).0 > offset,
    ensures
        model::line_before(ps, k, offset) == Some(ps[p].1),
    decreases k,
{
    if k - 1 > p {
        assert(ps[k - 1].0 > offset);
        lemma_line(ps, k - 1, offset, p);
    }
}

/// The instruction is an acquisition site: a `monitor-enter`, or a call that takes or tries a
/// lock.
pub open spec fn acquires(op: OpV) -> bool {
    match op {
        OpV::MonitorEnter(_) => true,
        OpV::Invoke(inv) => juc::meaning(inv.class, inv.name) == Some(LockCall::Acquire)
            || juc::meaning(inv.class, inv.name) == Some(LockCall::TryAcquire),
        _ => false,
    }
}

/// The lines of the acquisition sites among the instructions.
pub open spec fn site_lines(m: MethodV, insns: Seq<InsnV>) -> Seq<Option<u32>> {
    insns.filter(|i: InsnV| acquires(i.op)).map_values(|i: InsnV| m.line_at(i.offset))
}

/// The lines of the sites of a summary.
pub open spec fn lines_of(s: SummaryV) -> Seq<Option<u32>> {
    s.acq_sites.map_values(|a: (LockV, Option<u32>)| a.1)
}

proof fn lemma_steps(m: MethodV, vals: Map<Seq<char>, LockV>, k: int, f: FrameV)
    requires
        0 <= k <= m.insns.len(),
        lines_of(f.sum) == site_lines(m, m.insns.take(k)),
    ensures
        lines_of(extract::steps(m, vals, k, f).sum) == site_lines(m, m.insns),
        extract::steps(m, vals, k, f).sum.key == f.sum.key,
        extract::steps(m, vals, k, f).sum.class == f.sum.class,
    decreases m.insns.len() - k,
{
    reveal(Seq::filter);
    if k < m.insns.len() {
        let insn = m.insns[k];
        let next = extract::step(m, vals, f, insn);
        assert(m.insns.take(k + 1).drop_last() =~= m.insns.take(k));
        assert(m.insns.take(k + 1).last() == insn);
        if acquires(insn.op) {
            assert(lines_of(next.sum) =~= lines_of(f.sum).push(m.line_at(insn.offset)));
            assert(site_lines(m, m.insns.take(k + 1)) =~= site_lines(m, m.insns.take(k)).push(
                m.line_at(insn.offset),
            ));
        } else {
            assert(next.sum.acq_sites == f.sum.acq_sites);
        }
        lemma_steps(m, vals, k + 1, next);
    } else {
        assert(m.insns.take(k) =~= m.insns);
    }
}

/// Every `monitor-enter` and every call that takes or tries a lock is an acquisition site of
/// its method, at its line and in its place, and nothing else is one.
pub proof fn law_every_acquisition_is_a_site(m: MethodV, vals: Map<Seq<char>, LockV>)
    ensures
        lines_of(extract::summary(m, vals)) == site_lines(m, m.insns),
        extract::summary(m, vals).key == m.key(),
        extract::summary(m, vals).class == m.class,
{
    reveal(Seq::filter);
    let f = FrameV {
        regs: crate::dex::regs::on_entry(m),
        alloc_ty: crate::dict::DictV::none(),
        last_ret: None,
        yields: Seq::empty(),
        sum: extract::blank(m.key(), m.class),
    };
    assert(m.insns.take(0) =~= Seq::empty());
    assert(lines_of(f.sum) =~= site_lines(m, m.insns.take(0)));
    lemma_steps(m, vals, 0, f);
}

/// Which lock a site takes: what its register holds, as far as that is known, and else an
/// opaque one of its own.
pub proof fn law_sites_take_what_the_register_holds(
    m: MethodV,
    vals: Map<Seq<char>, LockV>,
    f: FrameV,
    insn: InsnV,
    r: u32,
)
    requires
        insn.op == OpV::MonitorEnter(r) || (insn.op matches OpV::Invoke(inv) && acquires(insn.op)
            && inv.args.len() > 0 && inv.args[0] == r),
    ensures
        ({
            let sites = extract::step(m, vals, f, insn).sum.acq_sites;
            &&& sites.len() == f.sum.acq_sites.len() + 1
            &&& sites.drop_last() == f.sum.acq_sites
            &&& f.regs.contains_key(r) ==> sites.last().0 == f.regs[r]
            &&& !f.regs.contains_key(r) ==> sites.last().0.root is Opaque
            &&& sites.last().1 == m.line_at(insn.offset)
        }),
{
    let sites = extract::step(m, vals, f, insn).sum.acq_sites;
    assert(sites.drop_last() =~= f.sum.acq_sites);
}

/// What a register holds behind an instruction, for naming locks: what was read or moved into
/// it, the allocation itself where something was allocated, and what it held before where it
/// was not written.
pub proof fn law_values_flow_through_registers(
    m: MethodV,
    vals: Map<Seq<char>, LockV>,
    f: FrameV,
    insn: InsnV,
    r: u32,
)
    ensures
        ({
            let was = if f.regs.contains_key(r) {
                Some(f.regs[r])
            } else {
                None
            };
            let regs = extract::step(m, vals, f, insn).regs;
            let now = if regs.contains_key(r) {
                Some(regs[r])
            } else {
                None
            };
            match insn.op {
                OpV::Iget { dst, base, class, field, ty } => now == if r == dst {
                    Some(LockV { root: RootV::Recv(class), fields: seq![field], mode: Mode::Plain })
                } else {
                    was
                },
                OpV::Sget { dst, class, field } => now == if r == dst {
                    Some(LockV { root: RootV::Static(class), fields: seq![field], mode: Mode::Plain })
                } else {
                    was
                },
                OpV::ConstClass { dst, class } => now == if r == dst {
                    Some(
                        LockV {
                            root: RootV::ClassConst(class),
                            fields: Seq::empty(),
                            mode: Mode::Plain,
                        },
                    )
                } else {
                    was
                },
                OpV::NewInstance { dst, class } => if r == dst {
                    now is Some && now->0.root is Alloc && now->0.fields.len() == 0
                } else {
                    now == was
                },
                OpV::Move { dst, src } => now == if r != dst {
                    was
                } else if f.regs.contains_key(src) {
                    Some(f.regs[src])
                } else {
                    None
                },
                OpV::MoveResult { dst } => now == if r == dst {
                    f.last_ret
                } else {
                    was
                },
                OpV::Def(dst) => now == if r == dst {
                    None
                } else {
                    was
                },
                OpV::Iput { src, base, class, field } => r != src ==> now == was,
                _ => now == was,
            }
        }),
{
}

/// What a call gives back, for naming locks: the views of a lock the lock in their mode, and a
/// getter the value that it is known to give, in the caller's terms; nothing else is known.
pub proof fn law_getters_and_views_give_locks(
    m: MethodV,
    vals: Map<Seq<char>, LockV>,
    f: FrameV,
    insn: InsnV,
    inv: InvokeV,
)
    requires
        insn.op == OpV::Invoke(inv),
    ensures
        ({
            let how = juc::meaning(inv.class, inv.name);
            let got = extract::step(m, vals, f, insn).last_ret;
            let known = inv.args.len() > 0 && f.regs.contains_key(inv.args[0]);
            &&& how == Some(LockCall::ReadView) && known ==> got == Some(
                LockV { mode: Mode::Read, ..f.regs[inv.args[0]] },
            )
            &&& how == Some(LockCall::WriteView) && known ==> got == Some(
                LockV { mode: Mode::Write, ..f.regs[inv.args[0]] },
            )
            &&& how is None && !vals.contains_key(inv.key()) ==> got is None
            &&& how is None && vals.contains_key(inv.key()) && (vals[inv.key()].root is Recv
                || vals[inv.key()].root is Static) ==> got == Some(vals[inv.key()])
            &&& how is None && known && vals.contains_key(inv.key()) && vals[inv.key()].root is This
                && f.regs[inv.args[0]].fields.len() + vals[inv.key()].fields.len() <= 3 ==> got
                == Some(
                LockV {
                    root: f.regs[inv.args[0]].root,
                    fields: f.regs[inv.args[0]].fields + vals[inv.key()].fields,
                    mode: vals[inv.key()].mode,
                },
            )
        }),
{
}

/// A method is a getter of a value exactly where each of its returns gives that value, it has
/// one, and the value is the receiver, a parameter, a field of either, or a static.
pub proof fn law_getters_return_one_value(yields: Seq<Option<LockV>>, l: LockV)
    ensures
        extract::getter_value(yields) == Some(l) <==> {
            &&& yields.len() > 0
            &&& forall|i: int| 0 <= i < yields.len() ==> #[trigger] yields[i] == Some(l)
            &&& !(l.root is Alloc) && !(l.root is Opaque)
        },
{
    if yields.len() > 0 {
        assert(yields[0] == yields[0]);
    }
}

proof fn lemma_sites_in(
    ms: Seq<MethodV>,
    ss: Seq<SummaryV>,
    seen: acquire::Aliases,
    s: int,
    k: int,
    acc: Seq<AcquisitionV>,
    a: AcquisitionV,
)
    requires
        0 <= k,
    ensures
        acquire::sites_in(ms, ss, seen, s, k, acc).contains(a) <==> acc.contains(a) || exists|i: int|
            k <= i < ss[s].acq_sites.len() && is_site(ms, ss, seen, s, #[trigger] ss[s].acq_sites[i], a),
    decreases ss[s].acq_sites.len() - k,
{
    if k < ss[s].acq_sites.len() {
        let x = AcquisitionV {
            class: ss[s].class,
            method: ss[s].key,
            source_file: match acquire::method_of(ms, ss[s].key) {
                Some(m) => m.source_file,
                None => None,
            },
            line: ss[s].acq_sites[k].1,
            lock: acquire::site_lock(ms, ss, seen, s, ss[s].acq_sites[k].0),
        };
        lemma_sites_in(ms, ss, seen, s, k + 1, acc.push(x), a);
        answers::lemma_pushed(acc, x, a);
        assert(is_site(ms, ss, seen, s, ss[s].acq_sites[k], a) <==> a == x);
    }
}

/// The acquisition of a site of a method: it has the class, the key and the file of the method
/// and the line of the site.
pub open spec fn is_site(
    ms: Seq<MethodV>,
    ss: Seq<SummaryV>,
    seen: acquire::Aliases,
    s: int,
    site: (LockV, Option<u32>),
    a: AcquisitionV,
) -> bool {
    &&& a.class == ss[s].class
    &&& a.method == ss[s].key
    &&& a.source_file == (match acquire::method_of(ms, ss[s].key) {
        Some(m) => m.source_file,
        None => None,
    })
    &&& a.line == site.1
    &&& a.lock == acquire::site_lock(ms, ss, seen, s, site.0)
}

proof fn lemma_sites_from(
    ms: Seq<MethodV>,
    ss: Seq<SummaryV>,
    seen: acquire::Aliases,
    s: int,
    acc: Seq<AcquisitionV>,
    a: AcquisitionV,
)
    requires
        0 <= s,
    ensures
        acquire::sites_from(ms, ss, seen, s, acc).contains(a) <==> acc.contains(a) || exists|
            t: int,
            i: int,
        |
            s <= t < ss.len() && 0 <= i < ss[t].acq_sites.len() && is_site(
                ms,
                ss,
                seen,
                t,
                #[trigger] ss[t].acq_sites[i],
                a,
            ),
    decreases ss.len() - s,
{
    if s < ss.len() {
        let next = acquire::sites_in(ms, ss, seen, s, 0, acc);
        lemma_sites_in(ms, ss, seen, s, 0, acc, a);
        lemma_sites_from(ms, ss, seen, s + 1, next, a);
    }
}

/// The acquisitions of a program are exactly the sites of its methods, each with the class,
/// the key and the file of its method and its own line.
pub proof fn law_acquisitions_are_the_sites(d: DexV, a: AcquisitionV)
    ensures
        acquire::acquired(d).contains(a) <==> exists|s: int, i: int|
            0 <= s < acquire::facts(d).len() && 0 <= i < acquire::facts(d)[s].acq_sites.len()
                && is_site(
                d.methods(),
                acquire::facts(d),
                acquire::aliases(acquire::facts(d)),
                s,
                #[trigger] acquire::facts(d)[s].acq_sites[i],
                a,
            ),
{
    lemma_sites_from(
        d.methods(),
        acquire::facts(d),
        acquire::aliases(acquire::facts(d)),
        0,
        Seq::empty(),
        a,
    );
}

/// A lock operand that hangs from no parameter is named by what it is outside its method,
/// where no alias says that it is another.
pub proof fn law_plain_operands_keep_their_name(
    ms: Seq<MethodV>,
    ss: Seq<SummaryV>,
    seen: acquire::Aliases,
    s: int,
    l: LockV,
)
    requires
        !(l.root is Param),
        !(seen.get((LockV { mode: Mode::Plain, ..l.ground(ss[s].class, ss[s].key) }).name()) matches Some(
            Some(_),
        )),
    ensures
        acquire::site_lock(ms, ss, seen, s, l) == l.ground(ss[s].class, ss[s].key).name(),
{
}

proof fn lemma_projected(acqs: Seq<AcquisitionV>, k: int, acc: Seq<SiteV>, x: SiteV)
    requires
        0 <= k,
    ensures
        resolve::sites_from(acqs, k, acc).contains(x) <==> acc.contains(x) || exists|i: int|
            k <= i < acqs.len() && projects(#[trigger] acqs[i], x),
    decreases acqs.len() - k,
{
    if k < acqs.len() {
        let s = SiteV {
            relpath: resolve::relpath(acqs[k]),
            method: acqs[k].method,
            line: acqs[k].line,
            lock: acqs[k].lock,
        };
        let next = if resolve::is_named(acqs[k].lock) {
            acc.push(s)
        } else {
            acc
        };
        remote::lemma_begins(acqs[k].lock, "?"@);
        lemma_projected(acqs, k + 1, next, x);
        answers::lemma_pushed(acc, s, x);
        assert(projects(acqs[k], x) <==> resolve::is_named(acqs[k].lock) && x == s);
    }
}

/// The site that an acquisition is looked up by, where its lock has a name.
pub open spec fn projects(a: AcquisitionV, x: SiteV) -> bool {
    &&& !(exists|rest: Seq<char>| a.lock == #[trigger] ("?"@ + rest))
    &&& x.relpath == resolve::relpath(a)
    &&& x.method == a.method
    &&& x.line == a.line
    &&& x.lock == a.lock
}

/// The sites that lines are looked up by are exactly the acquisitions whose lock has a name,
/// with their method, line and lock.
pub proof fn law_sites_are_the_named_acquisitions(acqs: Seq<AcquisitionV>, x: SiteV)
    ensures
        resolve::sites_from(acqs, 0, Seq::empty()).contains(x) <==> exists|i: int|
            0 <= i < acqs.len() && projects(#[trigger] acqs[i], x),
{
    lemma_projected(acqs, 0, Seq::empty(), x);
}

pub proof fn lemma_last_index(dir: Seq<char>, c: char, rest: Seq<char>)
    requires
        !rest.contains(c),
    ensures
        text::last_index(dir + seq![c] + rest, c) == Some(dir.len() as int),
        text::last_index(rest, c) is None,
    decreases rest.len(),
{
    let s = dir + seq![c] + rest;
    if rest.len() == 0 {
        assert(s.last() == c);
    } else {
        let t = rest.drop_last();
        assert(rest.contains(rest.last()));
        assert(!t.contains(c)) by {
            if t.contains(c) {
                let i = choose|i: int| 0 <= i < t.len() && t[i] == c;
                assert(rest[i] == c);
            }
        }
        assert(s.drop_last() =~= dir + seq![c] + t);
        assert(s.last() == rest.last());
        lemma_last_index(dir, c, t);
    }
}

/// The source file of a class with a known file is that file in the directory of its package:
/// the package with a slash for each dot.
pub proof fn law_source_files_stand_in_the_package(
    a: AcquisitionV,
    pkg: Seq<char>,
    simple: Seq<char>,
    file: Seq<char>,
    dir: Seq<char>,
)
    requires
        a.class == pkg + seq!['.'] + simple,
        !simple.contains('.'),
        a.source_file == Some(file),
        dir.len() == pkg.len(),
        forall|i: int|
            0 <= i < dir.len() ==> #[trigger] dir[i] == if pkg[i] == '.' {
                '/'
            } else {
                pkg[i]
            },
    ensures
        resolve::relpath(a) == dir + seq!['/'] + file,
{
    lemma_last_index(pkg, '.', simple);
    assert(a.class.take((pkg.len() + 1) as int) =~= pkg + seq!['.']);
    assert(resolve::slashed(pkg + seq!['.']) =~= dir + seq!['/']);
}

/// A class without a known file is taken to be in the file of its top-level class, whose name
/// ends where the first `$` behind its first letter stands.
pub proof fn law_unknown_files_are_named_by_class(
    a: AcquisitionV,
    outer: Seq<char>,
    inner: Seq<char>,
)
    requires
        a.source_file is None,
        outer.len() > 0,
        !outer.contains('.'),
        !inner.contains('.'),
        !outer.skip(1).contains('$'),
        a.class == outer || a.class == outer + seq!['$'] + inner,
    ensures
        resolve::relpath(a) == outer + ".java"@,
{
    assert(!a.class.contains('.')) by {
        if a.class.contains('.') {
            let i = choose|i: int| 0 <= i < a.class.len() && a.class[i] == '.';
            if i < outer.len() {
                assert(outer[i] == '.');
            } else {
                assert(i > outer.len());
                assert(inner[i - outer.len() - 1] == '.');
            }
        }
    }
    lemma_last_index(Seq::empty(), '.', a.class);
    assert(a.class.take(outer.len() as int) =~= outer);
    lemma_dollar(a.class, outer, 1);
    assert(Seq::<char>::empty() + outer =~= outer);
}

proof fn lemma_dollar(name: Seq<char>, outer: Seq<char>, k: int)
    requires
        1 <= k <= outer.len() <= name.len(),
        name.take(outer.len() as int) == outer,
        name.len() == outer.len() || name[outer.len() as int] == '$',
        !outer.skip(1).contains('$'),
    ensures
        resolve::before_dollar(name, k) == outer,
    decreases outer.len() - k,
{
    if k < outer.len() {
        assert(name[k] == outer[k]) by {
            assert(name.take(outer.len() as int)[k] == outer[k]);
        }
        assert(outer.skip(1)[k - 1] == outer[k]);
        assert(outer.skip(1).contains(outer[k]));
        lemma_dollar(name, outer, k + 1);
    } else {
        assert(name.take(k) =~= outer);
        if name.len() == outer.len() {
            assert(name =~= outer);
        }
    }
}

/// A store to a field of the receiver says what the field holds: a parameter by its number,
/// another field, a static or the receiver as the lock that it is, and an allocation by its
/// type, after which the register is that field. A store to a field of anything else says
/// nothing of it but what type was allocated.
pub proof fn law_stores_to_own_fields_are_recorded(
    m: MethodV,
    vals: Map<Seq<char>, LockV>,
    f: FrameV,
    insn: InsnV,
    src: u32,
    base: u32,
    class: Seq<char>,
    field: Seq<char>,
)
    requires
        insn.op == (OpV::Iput { src, base, class, field }),
        f.regs.contains_key(src),
    ensures
        ({
            let own = f.regs.contains_key(base) && f.regs[base].root is This;
            let v = f.regs[src];
            let key = class + "."@ + field;
            let out = extract::step(m, vals, f, insn);
            &&& own && v.root is Param ==> out.sum.param_stores == f.sum.param_stores.push(
                (key, v.root->Param_0),
            ) && out.sum.field_aliases == f.sum.field_aliases
            &&& own && (v.root is Recv || v.root is Static) && v.name() != key
                ==> out.sum.field_aliases == f.sum.field_aliases.push((key, v))
                && out.sum.param_stores == f.sum.param_stores
            &&& own && v.root is This && (LockV { root: RootV::Recv(m.class), ..v }).name() != key
                ==> out.sum.field_aliases == f.sum.field_aliases.push(
                (key, LockV { root: RootV::Recv(m.class), ..v }),
            )
            &&& !own ==> out.sum.field_aliases == f.sum.field_aliases && out.sum.param_stores
                == f.sum.param_stores && out.regs == f.regs
            &&& (v.root matches RootV::Alloc(site) && f.alloc_ty.get(site) is Some)
                ==> out.sum.alloc_stores == f.sum.alloc_stores.push(
                (key, f.alloc_ty.get(v.root->Alloc_0)->0),
            )
            &&& own && v.root is Alloc ==> out.regs.contains_key(src) && out.regs[src] == (LockV {
                root: RootV::This,
                fields: seq![field],
                mode: Mode::Plain,
            })
            &&& !(v.root is Alloc) ==> out.sum.alloc_stores == f.sum.alloc_stores && out.regs
                == f.regs
        }),
{
    assert(Seq::<Seq<char>>::empty() + seq![field] =~= seq![field]);
}

/// A call binds its actuals where one of them is an object that its callee can name; they
/// stand in the order of the registers.
pub proof fn law_calls_bind_their_actuals(
    m: MethodV,
    vals: Map<Seq<char>, LockV>,
    f: FrameV,
    insn: InsnV,
    inv: InvokeV,
    i: int,
)
    requires
        insn.op == OpV::Invoke(inv),
        0 <= i < inv.args.len(),
        f.regs.contains_key(inv.args[i]),
        f.regs[inv.args[i]].root is This || f.regs[inv.args[i]].root is Param || f.regs[inv.args[i]].root is Recv
            || f.regs[inv.args[i]].root is Static,
    ensures
        ({
            let out = extract::step(m, vals, f, insn).sum.arg_bindings;
            &&& out.len() == f.sum.arg_bindings.len() + 1
            &&& out.drop_last() == f.sum.arg_bindings
            &&& out.last().0 == inv.class + "."@ + inv.name + ":"@ + inv.sig
            &&& out.last().1.len() == inv.args.len()
            &&& forall|j: int|
                0 <= j < inv.args.len() ==> #[trigger] out.last().1[j] == if f.regs.contains_key(
                    inv.args[j],
                ) {
                    Some(f.regs[inv.args[j]])
                } else {
                    None
                }
        }),
{
    let bound = extract::actuals(f.regs, inv.args);
    assert(bound[i] == Some(f.regs[inv.args[i]]));
    let out = extract::step(m, vals, f, insn).sum.arg_bindings;
    assert(out.drop_last() =~= f.sum.arg_bindings);
}

/// Each parameter of a signature takes its registers in turn: one, and two for a `long` or a
/// `double`; the class of an object parameter is read off its descriptor.
pub proof fn law_parameters_take_their_registers(
    sig: Seq<char>,
    i: int,
    reg: int,
    want: int,
    c: Seq<char>,
)
    requires
        0 <= i < sig.len(),
    ensures
        sig[i] == 'Z' || sig[i] == 'B' || sig[i] == 'S' || sig[i] == 'C' || sig[i] == 'I' || sig[i]
            == 'F' ==> model::param_class(sig, i, reg, want) == model::param_class(
            sig,
            i + 1,
            reg + 1,
            want,
        ),
        sig[i] == 'J' || sig[i] == 'D' ==> model::param_class(sig, i, reg, want)
            == model::param_class(sig, i + 1, reg + 2, want),
        sig[i] == '(' ==> model::param_class(sig, i, reg, want) == model::param_class(
            sig,
            i + 1,
            reg,
            want,
        ),
        sig[i] == ')' ==> model::param_class(sig, i, reg, want) is None,
        sig[i] == 'L' && i + c.len() + 1 < sig.len() && sig.subrange(i + 1, i + 1 + c.len()) == c
            && sig[i + 1 + c.len()] == ';' && !c.contains(';') ==> if reg == want {
            model::param_class(sig, i, reg, want) == Some(model::dots(c))
        } else {
            model::param_class(sig, i, reg, want) == model::param_class(
                sig,
                i + 2 + c.len(),
                reg + 1,
                want,
            )
        },
{
    if sig[i] == 'L' && i + c.len() + 1 < sig.len() && sig.subrange(i + 1, i + 1 + c.len()) == c
        && sig[i + 1 + c.len()] == ';' && !c.contains(';') {
        lemma_class_end(sig, i + 1, c, 0);
    }
}

proof fn lemma_class_end(sig: Seq<char>, i: int, c: Seq<char>, k: int)
    requires
        0 <= i,
        0 <= k <= c.len(),
        i + c.len() < sig.len(),
        sig.subrange(i, i + c.len()) == c,
        sig[i + c.len()] == ';',
        !c.contains(';'),
    ensures
        model::class_end(sig, i + k) == i + c.len(),
    decreases c.len() - k,
{
    if k < c.len() {
        assert(sig.subrange(i, i + c.len())[k] == sig[i + k]);
        assert(c.contains(c[k]));
        lemma_class_end(sig, i, c, k + 1);
    }
}

/// A descriptor's class name is written with a dot for each slash.
pub proof fn law_classes_are_written_with_dots(c: Seq<char>)
    ensures
        model::dots(c).len() == c.len(),
        forall|i: int|
            0 <= i < c.len() ==> #[trigger] model::dots(c)[i] == if c[i] == '/' {
                '.'
            } else {
                c[i]
            },
{
}

} // verus!
